//! Snapshots of a document's state, and the errors of document operations.

use crate::document::types::{
    ByteProgress, DocumentBacking, DocumentEncoding, DocumentEncodingOrigin, LineCount, LineEnding,
};
use vstd::prelude::*;
use vstd::string::*;

verus! {

/// The decimal digit of `d`.
pub open spec fn digit_char(d: nat) -> char {
    ((48 + d) as u32) as char
}

/// The decimal notation of `n`.
pub open spec fn decimal(n: nat) -> Seq<char>
    decreases n,
{
    if n < 10 {
        seq![digit_char(n)]
    } else {
        decimal(n / 10).push(digit_char(n % 10))
    }
}

fn append_digit(text: &mut String, d: usize)
    requires
        d < 10,
    ensures
        final(text)@ == old(text)@.push(digit_char(d as nat)),
{
    let digit = match d {
        0 => "0",
        1 => "1",
        2 => "2",
        3 => "3",
        4 => "4",
        5 => "5",
        6 => "6",
        7 => "7",
        8 => "8",
        _ => "9",
    };
    proof {
        reveal_strlit("0");
        reveal_strlit("1");
        reveal_strlit("2");
        reveal_strlit("3");
        reveal_strlit("4");
        reveal_strlit("5");
        reveal_strlit("6");
        reveal_strlit("7");
        reveal_strlit("8");
        reveal_strlit("9");
        assert(digit@ =~= seq![digit_char(d as nat)]);
    }
    text.append(digit);
    assert(text@ =~= old(text)@.push(digit_char(d as nat)));
}

/// Appends a number in decimal notation.
pub fn append_decimal(text: &mut String, n: usize)
    ensures
        final(text)@ == old(text)@ + decimal(n as nat),
    decreases n,
{
    if n >= 10 {
        append_decimal(text, n / 10);
    }
    append_digit(text, n % 10);
    assert(text@ =~= old(text)@ + decimal(n as nat));
}

/// Why a document cannot be opened or saved in an encoding.
#[derive(Clone, Copy, Debug, PartialEq, Eq, Hash)]
pub enum DocumentEncodingErrorKind {
    OpenTranscodeTooLarge { max_bytes: usize },
    SaveReopenTooLarge { max_bytes: usize },
    PreserveSaveUnsupported,
    LossyDecodedPreserve,
    UnsupportedSaveTarget,
    RedirectedSaveTarget { actual: DocumentEncoding },
    UnrepresentableText,
}

impl DocumentEncodingErrorKind {
    /// What is shown to the user.
    pub open spec fn spec_message(self) -> Seq<char> {
        match self {
            DocumentEncodingErrorKind::OpenTranscodeTooLarge { max_bytes } => {
                "non-UTF8 open currently requires full transcoding and is limited to "@ + decimal(
                    max_bytes as nat,
                ) + " bytes"@
            },
            DocumentEncodingErrorKind::SaveReopenTooLarge { max_bytes } => {
                "saving to this non-UTF8 target would require reopening a full transcoded buffer and is limited to "@
                    + decimal(max_bytes as nat) + " bytes"@
            },
            DocumentEncodingErrorKind::PreserveSaveUnsupported => {
                "preserve-save is not yet supported for this encoding; use DocumentSaveOptions::with_encoding(...) to convert to a supported target"@
            },
            DocumentEncodingErrorKind::LossyDecodedPreserve => {
                "preserve-save is rejected because opening this document already required lossy decoding; convert explicitly if you want to keep the repaired text"@
            },
            DocumentEncodingErrorKind::UnsupportedSaveTarget => {
                "this encoding is not yet supported as a save target"@
            },
            DocumentEncodingErrorKind::RedirectedSaveTarget { actual } => {
                "encoding_rs redirected this save target to `"@ + actual@.0 + "`"@
            },
            DocumentEncodingErrorKind::UnrepresentableText => {
                "the current document contains characters that are not representable in the target encoding"@
            },
        }
    }

    pub fn message(self) -> (text: String)
        ensures
            text@ == self.spec_message(),
    {
        match self {
            DocumentEncodingErrorKind::OpenTranscodeTooLarge { max_bytes } => {
                let mut text = String::from_str(
                    "non-UTF8 open currently requires full transcoding and is limited to ",
                );
                append_decimal(&mut text, max_bytes);
                text.append(" bytes");
                text
            },
            DocumentEncodingErrorKind::SaveReopenTooLarge { max_bytes } => {
                let mut text = String::from_str(
                    "saving to this non-UTF8 target would require reopening a full transcoded buffer and is limited to ",
                );
                append_decimal(&mut text, max_bytes);
                text.append(" bytes");
                text
            },
            DocumentEncodingErrorKind::PreserveSaveUnsupported => String::from_str(
                "preserve-save is not yet supported for this encoding; use DocumentSaveOptions::with_encoding(...) to convert to a supported target",
            ),
            DocumentEncodingErrorKind::LossyDecodedPreserve => String::from_str(
                "preserve-save is rejected because opening this document already required lossy decoding; convert explicitly if you want to keep the repaired text",
            ),
            DocumentEncodingErrorKind::UnsupportedSaveTarget => String::from_str(
                "this encoding is not yet supported as a save target",
            ),
            DocumentEncodingErrorKind::RedirectedSaveTarget { actual } => {
                let mut text = String::from_str("encoding_rs redirected this save target to `");
                text.append(actual.name());
                text.append("`");
                text
            },
            DocumentEncodingErrorKind::UnrepresentableText => String::from_str(
                "the current document contains characters that are not representable in the target encoding",
            ),
        }
    }
}

/// Why a document operation failed. `source` is what the system said.
#[derive(Clone, Debug, PartialEq, Eq)]
#[allow(inconsistent_fields)]
pub enum DocumentError {
    Open { path: String, source: String },
    Mmap { path: String, source: String },
    Write { path: String, source: String },
    Encoding {
        path: String,
        operation: &'static str,
        encoding: DocumentEncoding,
        reason: DocumentEncodingErrorKind,
    },
    EditUnsupported { path: Option<String>, reason: &'static str },
}

/// What a document error says, without the identity of its strings.
#[allow(inconsistent_fields)]
pub enum ErrorView {
    Open { path: Seq<char>, source: Seq<char> },
    Mmap { path: Seq<char>, source: Seq<char> },
    Write { path: Seq<char>, source: Seq<char> },
    Encoding {
        path: Seq<char>,
        operation: Seq<char>,
        encoding: DocumentEncoding,
        reason: DocumentEncodingErrorKind,
    },
    EditUnsupported { path: Option<Seq<char>>, reason: Seq<char> },
}

impl View for DocumentError {
    type V = ErrorView;

    open spec fn view(&self) -> ErrorView {
        match self {
            DocumentError::Open { path, source } => ErrorView::Open {
                path: path@,
                source: source@,
            },
            DocumentError::Mmap { path, source } => ErrorView::Mmap { path: path@, source: source@ },
            DocumentError::Write { path, source } => ErrorView::Write {
                path: path@,
                source: source@,
            },
            DocumentError::Encoding { path, operation, encoding, reason } => ErrorView::Encoding {
                path: path@,
                operation: operation@,
                encoding: *encoding,
                reason: *reason,
            },
            DocumentError::EditUnsupported { path, reason } => ErrorView::EditUnsupported {
                path: match path {
                    Some(p) => Some(p@),
                    None => None,
                },
                reason: reason@,
            },
        }
    }
}

impl ErrorView {
    /// What is shown to the user.
    pub open spec fn message(self) -> Seq<char> {
        match self {
            ErrorView::Open { path, source } => "open `"@ + path + "`: "@ + source,
            ErrorView::Mmap { path, source } => "mmap `"@ + path + "`: "@ + source,
            ErrorView::Write { path, source } => "write `"@ + path + "`: "@ + source,
            ErrorView::Encoding { path, operation, encoding, reason } => operation + " `"@ + path
                + "` with encoding `"@ + encoding@.0 + "`: "@ + reason.spec_message(),
            ErrorView::EditUnsupported { path, reason } => match path {
                Some(path) => "edit `"@ + path + "`: "@ + reason,
                None => "edit: "@ + reason,
            },
        }
    }
}

fn quoted(head: &str, path: &str, tail: &str, source: &str) -> (text: String)
    ensures
        text@ == head@ + path@ + tail@ + source@,
{
    let mut text = String::from_str(head);
    text.append(path);
    text.append(tail);
    text.append(source);
    text
}

impl DocumentError {
    pub fn message(&self) -> (text: String)
        ensures
            text@ == self@.message(),
    {
        match self {
            DocumentError::Open { path, source } => quoted(
                "open `",
                path.as_str(),
                "`: ",
                source.as_str(),
            ),
            DocumentError::Mmap { path, source } => quoted(
                "mmap `",
                path.as_str(),
                "`: ",
                source.as_str(),
            ),
            DocumentError::Write { path, source } => quoted(
                "write `",
                path.as_str(),
                "`: ",
                source.as_str(),
            ),
            DocumentError::Encoding { path, operation, encoding, reason } => {
                let mut text = String::from_str(operation);
                text.append(" `");
                text.append(path.as_str());
                text.append("` with encoding `");
                text.append(encoding.name());
                text.append("`: ");
                let why = reason.message();
                text.append(why.as_str());
                text
            },
            DocumentError::EditUnsupported { path, reason } => match path {
                Some(path) => quoted("edit `", path.as_str(), "`: ", reason),
                None => {
                    let mut text = String::from_str("edit: ");
                    text.append(reason);
                    text
                },
            },
        }
    }
}

/// How urgent a compaction is.
#[derive(Clone, Copy, Debug, PartialEq, Eq, Structural)]
pub enum CompactionUrgency {
    Deferred,
    Forced,
}

/// How fragmented a piece table is.
#[derive(Clone, Copy, Debug, PartialEq, Eq, Structural)]
pub struct FragmentationStats {
    pub piece_count: usize,
    pub total_bytes: usize,
    pub small_piece_count: usize,
    pub small_piece_bytes: usize,
    pub small_piece_threshold_bytes: usize,
}

impl FragmentationStats {
    pub fn piece_count(self) -> (count: usize)
        ensures
            count == self.piece_count,
    {
        self.piece_count
    }
}

/// An advice to compact.
#[derive(Clone, Copy, Debug, PartialEq, Eq, Structural)]
pub struct CompactionRecommendation {
    pub stats: FragmentationStats,
    pub urgency: CompactionUrgency,
}

impl CompactionRecommendation {
    pub fn stats(self) -> (stats: FragmentationStats)
        ensures
            stats == self.stats,
    {
        self.stats
    }

    pub fn urgency(self) -> (urgency: CompactionUrgency)
        ensures
            urgency == self.urgency,
    {
        self.urgency
    }
}

/// What a compaction pass in idle time comes to.
#[derive(Clone, Copy, Debug, PartialEq, Eq, Structural)]
pub enum IdleCompactionOutcome {
    NotNeeded,
    Compacted(CompactionRecommendation),
    ForcedPending(CompactionRecommendation),
}

impl IdleCompactionOutcome {
    /// A deferred compaction is run. A forced one is only reported: it is left for a save or
    /// for the user.
    pub open spec fn spec_for(recommendation: Option<CompactionRecommendation>) -> IdleCompactionOutcome {
        match recommendation {
            None => IdleCompactionOutcome::NotNeeded,
            Some(advice) => match advice.urgency {
                CompactionUrgency::Deferred => IdleCompactionOutcome::Compacted(advice),
                CompactionUrgency::Forced => IdleCompactionOutcome::ForcedPending(advice),
            },
        }
    }

    /// What a pass does with a recommendation.
    pub fn for_recommendation(recommendation: Option<CompactionRecommendation>) -> (outcome:
        IdleCompactionOutcome)
        ensures
            outcome == IdleCompactionOutcome::spec_for(recommendation),
    {
        match recommendation {
            None => IdleCompactionOutcome::NotNeeded,
            Some(advice) => match advice.urgency {
                CompactionUrgency::Deferred => IdleCompactionOutcome::Compacted(advice),
                CompactionUrgency::Forced => IdleCompactionOutcome::ForcedPending(advice),
            },
        }
    }
}

/// What maintenance is due.
#[derive(Clone, Copy, Debug, PartialEq, Eq, Structural)]
pub enum MaintenanceAction {
    Nothing,
    IdleCompaction,
    ExplicitCompaction,
}

impl MaintenanceAction {
    pub open spec fn spec_as_str(self) -> &'static str {
        match self {
            MaintenanceAction::Nothing => "none",
            MaintenanceAction::IdleCompaction => "idle-compaction",
            MaintenanceAction::ExplicitCompaction => "explicit-compaction",
        }
    }

    pub fn as_str(self) -> (text: &'static str)
        ensures
            text@ == self.spec_as_str()@,
    {
        match self {
            MaintenanceAction::Nothing => "none",
            MaintenanceAction::IdleCompaction => "idle-compaction",
            MaintenanceAction::ExplicitCompaction => "explicit-compaction",
        }
    }
}

/// The state of a document's buffers.
#[derive(Clone, Copy, Debug, PartialEq, Eq, Structural)]
pub struct DocumentMaintenanceStatus {
    pub backing: DocumentBacking,
    pub fragmentation: Option<FragmentationStats>,
    pub compaction: Option<CompactionRecommendation>,
}

impl DocumentMaintenanceStatus {
    pub fn new(
        backing: DocumentBacking,
        fragmentation: Option<FragmentationStats>,
        compaction: Option<CompactionRecommendation>,
    ) -> (status: DocumentMaintenanceStatus)
        ensures
            status == (DocumentMaintenanceStatus { backing, fragmentation, compaction }),
    {
        DocumentMaintenanceStatus { backing, fragmentation, compaction }
    }

    pub fn backing(self) -> (backing: DocumentBacking)
        ensures
            backing == self.backing,
    {
        self.backing
    }

    pub fn has_piece_table(self) -> (has: bool)
        ensures
            has == (self.backing is PieceTable),
    {
        match self.backing {
            DocumentBacking::PieceTable => true,
            _ => false,
        }
    }

    pub fn fragmentation_stats(self) -> (stats: Option<FragmentationStats>)
        ensures
            stats == self.fragmentation,
    {
        self.fragmentation
    }

    pub fn has_fragmentation_stats(self) -> (has: bool)
        ensures
            has == (self.fragmentation is Some),
    {
        self.fragmentation.is_some()
    }

    pub fn compaction_recommendation(self) -> (recommendation: Option<CompactionRecommendation>)
        ensures
            recommendation == self.compaction,
    {
        self.compaction
    }

    pub fn is_compaction_recommended(self) -> (recommended: bool)
        ensures
            recommended == (self.compaction is Some),
    {
        self.compaction.is_some()
    }

    pub open spec fn spec_compaction_urgency(self) -> Option<CompactionUrgency> {
        match self.compaction {
            Some(recommendation) => Some(recommendation.urgency),
            None => None,
        }
    }

    pub fn compaction_urgency(self) -> (urgency: Option<CompactionUrgency>)
        ensures
            urgency == self.spec_compaction_urgency(),
    {
        match self.compaction {
            Some(recommendation) => Some(recommendation.urgency),
            None => None,
        }
    }

    /// Deferred compaction is for idle time, forced compaction waits for the caller.
    pub open spec fn spec_recommended_action(self) -> MaintenanceAction {
        match self.spec_compaction_urgency() {
            Some(CompactionUrgency::Deferred) => MaintenanceAction::IdleCompaction,
            Some(CompactionUrgency::Forced) => MaintenanceAction::ExplicitCompaction,
            None => MaintenanceAction::Nothing,
        }
    }

    pub fn recommended_action(self) -> (action: MaintenanceAction)
        ensures
            action == self.spec_recommended_action(),
    {
        match self.compaction_urgency() {
            Some(CompactionUrgency::Deferred) => MaintenanceAction::IdleCompaction,
            Some(CompactionUrgency::Forced) => MaintenanceAction::ExplicitCompaction,
            None => MaintenanceAction::Nothing,
        }
    }

    pub fn should_run_idle_compaction(self) -> (run: bool)
        ensures
            run == (self.spec_recommended_action() is IdleCompaction),
    {
        self.recommended_action() == MaintenanceAction::IdleCompaction
    }

    pub fn should_wait_for_explicit_compaction(self) -> (wait: bool)
        ensures
            wait == (self.spec_recommended_action() is ExplicitCompaction),
    {
        self.recommended_action() == MaintenanceAction::ExplicitCompaction
    }
}

/// What a front end shows of a document.
#[derive(Clone, Debug, PartialEq, Eq)]
pub struct DocumentStatus {
    pub path: Option<String>,
    pub dirty: bool,
    pub file_len: usize,
    pub line_count: LineCount,
    pub exact_line_count_pending: bool,
    pub line_ending: LineEnding,
    pub encoding: DocumentEncoding,
    pub preserve_save_error: Option<DocumentEncodingErrorKind>,
    pub encoding_origin: DocumentEncodingOrigin,
    pub decoding_had_errors: bool,
    pub indexing: Option<ByteProgress>,
    pub backing: DocumentBacking,
}

impl DocumentStatus {
    pub fn new(
        path: Option<String>,
        dirty: bool,
        file_len: usize,
        line_count: LineCount,
        exact_line_count_pending: bool,
        line_ending: LineEnding,
        encoding: DocumentEncoding,
        preserve_save_error: Option<DocumentEncodingErrorKind>,
        encoding_origin: DocumentEncodingOrigin,
        decoding_had_errors: bool,
        indexing: Option<ByteProgress>,
        backing: DocumentBacking,
    ) -> (status: DocumentStatus)
        ensures
            status.path == path,
            status.dirty == dirty,
            status.file_len == file_len,
            status.line_count == line_count,
            status.exact_line_count_pending == exact_line_count_pending,
            status.line_ending == line_ending,
            status.encoding == encoding,
            status.preserve_save_error == preserve_save_error,
            status.encoding_origin == encoding_origin,
            status.decoding_had_errors == decoding_had_errors,
            status.indexing == indexing,
            status.backing == backing,
    {
        DocumentStatus {
            path,
            dirty,
            file_len,
            line_count,
            exact_line_count_pending,
            line_ending,
            encoding,
            preserve_save_error,
            encoding_origin,
            decoding_had_errors,
            indexing,
            backing,
        }
    }

    pub fn path(&self) -> (path: Option<&str>)
        ensures
            match self.path {
                Some(own) => path is Some && path->Some_0@ == own@,
                None => path is None,
            },
    {
        match &self.path {
            Some(path) => Some(path.as_str()),
            None => None,
        }
    }

    pub fn is_dirty(&self) -> (dirty: bool)
        ensures
            dirty == self.dirty,
    {
        self.dirty
    }

    pub fn file_len(&self) -> (len: usize)
        ensures
            len == self.file_len,
    {
        self.file_len
    }

    pub fn line_count(&self) -> (count: LineCount)
        ensures
            count == self.line_count,
    {
        self.line_count
    }

    pub fn exact_line_count(&self) -> (lines: Option<usize>)
        ensures
            lines == self.line_count.spec_exact(),
    {
        self.line_count.exact()
    }

    pub fn display_line_count(&self) -> (rows: usize)
        ensures
            rows == self.line_count.spec_display_rows(),
    {
        self.line_count.display_rows()
    }

    pub fn is_line_count_exact(&self) -> (exact: bool)
        ensures
            exact == (self.line_count is Exact),
    {
        self.line_count.is_exact()
    }

    pub fn is_line_count_pending(&self) -> (pending: bool)
        ensures
            pending == self.exact_line_count_pending,
    {
        self.exact_line_count_pending
    }

    pub fn line_ending(&self) -> (ending: LineEnding)
        ensures
            ending == self.line_ending,
    {
        self.line_ending
    }

    pub fn encoding(&self) -> (encoding: DocumentEncoding)
        ensures
            encoding == self.encoding,
    {
        self.encoding
    }

    pub fn preserve_save_error(&self) -> (error: Option<DocumentEncodingErrorKind>)
        ensures
            error == self.preserve_save_error,
    {
        self.preserve_save_error
    }

    pub fn can_preserve_save(&self) -> (can: bool)
        ensures
            can == (self.preserve_save_error is None),
    {
        self.preserve_save_error.is_none()
    }

    pub fn encoding_origin(&self) -> (origin: DocumentEncodingOrigin)
        ensures
            origin == self.encoding_origin,
    {
        self.encoding_origin
    }

    pub fn decoding_had_errors(&self) -> (had: bool)
        ensures
            had == self.decoding_had_errors,
    {
        self.decoding_had_errors
    }

    pub fn indexing_state(&self) -> (progress: Option<ByteProgress>)
        ensures
            progress == self.indexing,
    {
        self.indexing
    }

    pub fn is_indexing(&self) -> (indexing: bool)
        ensures
            indexing == (self.indexing is Some),
    {
        self.indexing.is_some()
    }

    pub fn backing(&self) -> (backing: DocumentBacking)
        ensures
            backing == self.backing,
    {
        self.backing
    }

    pub fn has_edit_buffer(&self) -> (has: bool)
        ensures
            has == !(self.backing is Mmap),
    {
        match self.backing {
            DocumentBacking::Mmap => false,
            _ => true,
        }
    }

    pub fn has_rope(&self) -> (has: bool)
        ensures
            has == (self.backing is Rope),
    {
        match self.backing {
            DocumentBacking::Rope => true,
            _ => false,
        }
    }

    pub fn has_piece_table(&self) -> (has: bool)
        ensures
            has == (self.backing is PieceTable),
    {
        match self.backing {
            DocumentBacking::PieceTable => true,
            _ => false,
        }
    }
}

} // verus!
