//! A document: where its text is held, what is known of its lines, and whether it can be
//! saved.

use crate::document::encode::{
    encode_result, encode_text_with_encoding, lossy, lossy_text, reports, rope_save_len_bytes,
    rope_text_with_line_endings, shows, with_line_endings,
};
use crate::document::piece_table::{fragmentation, whole_from, PieceTable, SMALL_PIECE_THRESHOLD_BYTES};
use crate::document::rope::{count_lf, plain_breaks, rope_bytes, rope_text, rope_to_string};
use crate::document::status::{
    CompactionRecommendation, CompactionUrgency, DocumentEncodingErrorKind, DocumentMaintenanceStatus, DocumentStatus,
    FragmentationStats, MaintenanceAction,
};
use crate::document::positions::last_line;
use crate::document::text::{is_utf8, next_line_start_exact};
use crate::document::types::{
    ByteProgress, DocumentBacking, DocumentEncoding, DocumentEncodingOrigin, DocumentSaveOptions,
    LineCount, LineEnding, SaveEncodingPolicy,
};
use crate::index::{DiskLineIndex, LineCheckpoint};
use crate::scan::{ends_line, is_either, line_ends, CR, LF};
use crate::tree_model::{max_int, min_int, sat_add};
use vstd::prelude::*;
use vstd::string::*;
use vstd::utf8::encode_utf8;

verus! {

/// The largest text that is held in a rope.
pub const MAX_ROPE_EDIT_FILE_BYTES: usize = 134_217_728;

/// The line length that is taken for granted before any line has been seen.
pub const AVG_LINE_LEN_ESTIMATE: usize = 80;

/// Where the first lines of a file start.
#[derive(Clone, Debug, PartialEq, Eq)]
pub enum LineOffsets {
    U32(Vec<u32>),
    U64(Vec<u64>),
}

impl View for LineOffsets {
    type V = Seq<usize>;

    open spec fn view(&self) -> Seq<usize> {
        match self {
            LineOffsets::U32(starts) => starts@.map_values(|start: u32| start as usize),
            LineOffsets::U64(starts) => starts@.map_values(|start: u64| start as usize),
        }
    }
}

impl Default for LineOffsets {
    fn default() -> (offsets: LineOffsets)
        ensures
            offsets@ == seq![0usize],
    {
        let mut starts: Vec<u32> = Vec::new();
        starts.push(0);
        let offsets = LineOffsets::U32(starts);
        assert(offsets@ =~= seq![0usize]);
        offsets
    }
}

impl LineOffsets {
    pub fn len(&self) -> (len: usize)
        ensures
            len == self@.len(),
    {
        match self {
            LineOffsets::U32(starts) => starts.len(),
            LineOffsets::U64(starts) => starts.len(),
        }
    }

    pub fn is_empty(&self) -> (empty: bool)
        ensures
            empty == (self@.len() == 0),
    {
        self.len() == 0
    }

    pub fn get_usize(&self, index: usize) -> (start: Option<usize>)
        ensures
            start == (if index < self@.len() {
                Some(self@[index as int])
            } else {
                None
            }),
    {
        match self {
            LineOffsets::U32(starts) => if index < starts.len() {
                Some(starts[index] as usize)
            } else {
                None
            },
            LineOffsets::U64(starts) => if index < starts.len() {
                Some(starts[index] as usize)
            } else {
                None
            },
        }
    }
}

/// The offsets are the starts of the first lines of the text.
pub open spec fn offsets_ok(offsets: Seq<usize>, text: Seq<u8>) -> bool {
    forall|k: int|
        0 <= k < offsets.len() ==> {
            &&& (#[trigger] offsets[k]) <= text.len()
            &&& line_ends(text, offsets[k] as int) == k
            &&& offsets[k] == 0 || ends_line(text, offsets[k] - 1)
        }
}

/// What a caller that waits for the exact number of lines does next.
#[derive(Clone, Copy, Debug, PartialEq, Eq)]
pub enum LineCountWait {
    Done(Option<usize>),
    Sleep,
}

/// A document. Its text is held in a rope or in a piece table once it has been edited, and
/// else in the bytes of the file.
#[derive(Debug)]
pub struct Document {
    pub path: Option<String>,
    pub storage: Option<Vec<u8>>,
    pub line_offsets: LineOffsets,
    pub disk_index: Option<DiskLineIndex>,
    pub indexing: bool,
    pub indexing_started_ms: Option<u64>,
    pub file_len: usize,
    pub indexed_bytes: usize,
    pub avg_line_len: usize,
    pub line_ending: LineEnding,
    pub encoding: DocumentEncoding,
    pub encoding_origin: DocumentEncodingOrigin,
    pub decoding_had_errors: bool,
    pub preserve_save_error_cache: Option<Option<DocumentEncodingErrorKind>>,
    pub rope: Option<ropey::Rope>,
    pub piece_table: Option<PieceTable>,
    pub dirty: bool,
}

impl Document {
    /// An empty document without a file.
    pub open spec fn is_new(self) -> bool {
        &&& self.wf()
        &&& self.text().len() == 0
        &&& self.path is None
        &&& self.storage is None
        &&& self.line_offsets@ == seq![0usize]
        &&& self.disk_index is None
        &&& !self.indexing
        &&& self.indexing_started_ms is None
        &&& self.file_len == 0
        &&& self.indexed_bytes == 0
        &&& self.avg_line_len == AVG_LINE_LEN_ESTIMATE
        &&& self.line_ending == LineEnding::Lf
        &&& self.encoding@ == ("UTF-8"@, "UTF-8"@)
        &&& self.encoding_origin == DocumentEncodingOrigin::NewDocument
        &&& !self.decoding_had_errors
        &&& self.preserve_save_error_cache is None
        &&& self.rope is None
        &&& self.piece_table is None
        &&& !self.dirty
    }

    pub fn new() -> (doc: Document)
        ensures
            doc.is_new(),
    {
        Document {
            path: None,
            storage: None,
            line_offsets: LineOffsets::default(),
            disk_index: None,
            indexing: false,
            indexing_started_ms: None,
            file_len: 0,
            indexed_bytes: 0,
            avg_line_len: AVG_LINE_LEN_ESTIMATE,
            line_ending: LineEnding::Lf,
            encoding: DocumentEncoding::utf8(),
            encoding_origin: DocumentEncodingOrigin::NewDocument,
            decoding_had_errors: false,
            preserve_save_error_cache: None,
            rope: None,
            piece_table: None,
            dirty: false,
        }
    }

    /// This document holds the bytes of a file in UTF-8, with all of its lines indexed.
    pub open spec fn is_opened_from(self, bytes: Seq<u8>) -> bool {
        &&& self.text() == bytes
        &&& self.rope is None && self.piece_table is None
        &&& self.file_len == bytes.len()
        &&& self.indexed_bytes == bytes.len()
        &&& !self.dirty
        &&& self.encoding@ == ("UTF-8"@, "UTF-8"@)
        &&& self.line_ending == spec_detect_line_ending(bytes)
        &&& self.decoding_had_errors == !vstd::utf8::valid_utf8(bytes)
        &&& self.line_offsets@.len() == last_line(bytes) + 1
    }

    /// A document of the bytes of a file in UTF-8, with all of its lines indexed.
    pub fn from_bytes(path: Option<String>, bytes: Vec<u8>) -> (doc: Document)
        ensures
            doc.wf(),
            doc.is_opened_from(bytes@),
            doc.path == path,
            doc.storage is Some && doc.storage->Some_0@ == bytes@,
            doc.disk_index is None,
            !doc.indexing,
            doc.encoding_origin == DocumentEncodingOrigin::Utf8FastPath,
            doc.avg_line_len == bytes@.len() / doc.line_offsets@.len(),
            doc.indexing_started_ms is None,
            doc.preserve_save_error_cache is None,
            doc.spec_exact_line_count() == Some((last_line(bytes@) + 1) as usize),
    {
        let decoding_had_errors = !is_utf8(bytes.as_slice());
        let line_offsets = index_lines(bytes.as_slice());
        let line_ending = detect_line_ending(bytes.as_slice());
        let len: usize = bytes.len();
        let lines: usize = line_offsets.len();
        let avg: usize = len / lines;
        let doc = Document {
            path,
            storage: Some(bytes),
            line_offsets,
            disk_index: None,
            indexing: false,
            indexing_started_ms: None,
            file_len: len,
            indexed_bytes: len,
            avg_line_len: avg,
            line_ending,
            encoding: DocumentEncoding::utf8(),
            encoding_origin: DocumentEncodingOrigin::Utf8FastPath,
            decoding_had_errors,
            preserve_save_error_cache: None,
            rope: None,
            piece_table: None,
            dirty: false,
        };
        assert(doc.file_text() =~= bytes@);
        doc
    }

    /// The bytes of the file.
    pub open spec fn stored(self) -> Seq<u8> {
        match self.storage {
            Some(bytes) => bytes@,
            None => Seq::empty(),
        }
    }

    /// The part of the file that belongs to the document.
    pub open spec fn file_text(self) -> Seq<u8> {
        self.stored().take(min_int(self.file_len as int, self.stored().len() as int))
    }

    /// The text that is read, searched and edited.
    pub open spec fn text(self) -> Seq<u8> {
        match self.rope {
            Some(rope) => rope_bytes(rope),
            None => match self.piece_table {
                Some(table) => table.text(),
                None => self.file_text(),
            },
        }
    }

    /// The text is small enough to be encoded.
    pub open spec fn fits_encoder(self) -> bool {
        &&& self.text().len() <= usize::MAX / 192
        &&& self.stored().len() <= usize::MAX / 192
    }

    /// At most one buffer holds edits, and what is noted of the text is true.
    pub open spec fn wf(self) -> bool {
        &&& !(self.rope is Some && self.piece_table is Some)
        &&& self.rope is Some ==> plain_breaks(rope_text(self.rope->Some_0))
        &&& self.piece_table is Some ==> self.piece_table->Some_0.wf()
        &&& self.rope is None && self.piece_table is None ==> offsets_ok(
            self.line_offsets@,
            self.file_text(),
        )
        &&& !self.spec_has_edit_buffer() && self.indexed_bytes >= self.file_len
            && self.spec_disk_total_lines() is None ==> self.line_offsets@.len() == last_line(
            self.file_text(),
        ) + 1
        &&& self.encoding.wf()
        &&& self.encoding.spec_is_utf8() || self.fits_encoder()
        &&& self.preserve_save_error_cache is Some ==> preserve_error_is(
            self.spec_preserve_error(),
            self.preserve_save_error_cache->Some_0,
        )
    }

    /// Tells whether the text can be given to an encoder.
    pub fn can_encode(&self) -> (fits: bool)
        requires
            self.wf(),
        ensures
            fits == self.fits_encoder(),
    {
        let text_len: usize = self.text_len();
        let stored_len: usize = self.mmap_bytes().len();
        text_len <= usize::MAX / 192 && stored_len <= usize::MAX / 192
    }

    /// The length of the text.
    pub(crate) fn text_len(&self) -> (len: usize)
        requires
            self.wf(),
        ensures
            len == self.text().len(),
    {
        if let Some(rope) = &self.rope {
            return rope.len_bytes();
        }
        if let Some(table) = &self.piece_table {
            proof {
                table.lemma_len();
            }
            return table.total_len();
        }
        self.file_bytes().len()
    }

    /// `true` where the text is held in a rope.
    pub fn has_rope(&self) -> (has: bool)
        ensures
            has == (self.rope is Some),
    {
        self.rope.is_some()
    }

    /// `true` where the text is held in a buffer for edits.
    pub fn has_edit_buffer(&self) -> (has: bool)
        ensures
            has == self.spec_has_edit_buffer(),
    {
        self.rope.is_some() || self.piece_table.is_some()
    }

    pub open spec fn spec_has_edit_buffer(self) -> bool {
        self.rope is Some || self.piece_table is Some
    }

    /// `true` where the text is held in a piece table.
    pub fn has_piece_table(&self) -> (has: bool)
        ensures
            has == (self.piece_table is Some),
    {
        self.piece_table.is_some()
    }

    /// How fragmented the piece table is, if there is one.
    pub fn fragmentation_stats(&self) -> (stats: Option<FragmentationStats>)
        requires
            self.wf(),
        ensures
            stats == self.spec_fragmentation(SMALL_PIECE_THRESHOLD_BYTES),
    {
        match &self.piece_table {
            Some(table) => Some(table.fragmentation_stats()),
            None => None,
        }
    }

    pub open spec fn spec_fragmentation(self, threshold: usize) -> Option<FragmentationStats> {
        match self.piece_table {
            Some(table) => Some(fragmentation(table.pieces.pieces(), threshold)),
            None => None,
        }
    }

    /// How fragmented the piece table is, with pieces up to the given size counted as small.
    pub fn fragmentation_stats_with_threshold(&self, small_piece_threshold_bytes: usize) -> (stats:
        Option<FragmentationStats>)
        requires
            self.wf(),
        ensures
            stats == self.spec_fragmentation(small_piece_threshold_bytes),
    {
        match &self.piece_table {
            Some(table) => Some(
                table.fragmentation_stats_with_threshold(small_piece_threshold_bytes),
            ),
            None => None,
        }
    }

    /// `true` where the length of every line is known.
    pub fn has_precise_line_lengths(&self) -> (precise: bool)
        ensures
            precise == self.spec_precise(),
    {
        if self.rope.is_some() {
            return true;
        }
        if let Some(table) = &self.piece_table {
            return table.full_index();
        }
        self.is_fully_indexed()
    }

    pub open spec fn spec_precise(self) -> bool {
        match self.rope {
            Some(_) => true,
            None => match self.piece_table {
                Some(table) => table.full_index,
                None => self.indexed_bytes >= self.file_len,
            },
        }
    }

    /// `true` while the lines of the file are being indexed.
    pub fn is_indexing(&self) -> (indexing: bool)
        ensures
            indexing == self.spec_indexing(),
    {
        if self.has_edit_buffer() {
            return false;
        }
        self.indexing
    }

    pub open spec fn spec_indexing(self) -> bool {
        !self.spec_has_edit_buffer() && self.indexing
    }

    /// `true` where the whole file has been indexed.
    pub fn is_fully_indexed(&self) -> (full: bool)
        ensures
            full == (self.indexed_bytes >= self.file_len),
    {
        self.indexed_bytes() >= self.file_len
    }

    /// `true` while the exact number of lines may still become known.
    pub fn is_line_count_pending(&self) -> (pending: bool)
        requires
            self.wf(),
        ensures
            pending == self.spec_line_count_pending(),
    {
        self.exact_line_count_value().is_none() && (self.is_indexing()
            || self.raw_disk_index_is_building())
    }

    pub open spec fn spec_line_count_pending(self) -> bool {
        &&& self.spec_exact_line_count() is None
        &&& self.spec_indexing() || (self.disk_index is Some && self.disk_index->Some_0 is Building)
    }

    pub open spec fn spec_line_count_wait(self, time_is_over: bool) -> LineCountWait {
        if !self.spec_line_count_pending() || time_is_over {
            LineCountWait::Done(self.spec_exact_line_count())
        } else {
            LineCountWait::Sleep
        }
    }

    /// What a caller that waits for the exact number of lines does next. It goes on waiting as
    /// long as the number may still become known and its time is not over.
    pub fn wait_for_exact_line_count(&self, time_is_over: bool) -> (step: LineCountWait)
        requires
            self.wf(),
        ensures
            step == self.spec_line_count_wait(time_is_over),
    {
        if self.is_line_count_pending() && !time_is_over {
            return LineCountWait::Sleep;
        }
        LineCountWait::Done(self.exact_line_count_value())
    }

    /// How long the file has been being indexed, at `now_ms`.
    pub fn indexing_elapsed(&self, now_ms: u64) -> (elapsed_ms: Option<u64>)
        ensures
            elapsed_ms == (match self.indexing_started_ms {
                Some(started) => Some(
                    if now_ms >= started {
                        (now_ms - started) as u64
                    } else {
                        0
                    },
                ),
                None => None,
            }),
    {
        match self.indexing_started_ms {
            Some(started) => Some(now_ms.saturating_sub(started)),
            None => None,
        }
    }

    /// How much of the file has been indexed.
    pub fn indexed_bytes(&self) -> (bytes: usize)
        ensures
            bytes == self.indexed_bytes,
    {
        self.indexed_bytes
    }

    /// The indexed and all bytes, while the file is being indexed.
    pub fn indexing_progress(&self) -> (progress: Option<(usize, usize)>)
        ensures
            progress == (if self.spec_indexing() {
                Some((self.indexed_bytes, self.file_len))
            } else {
                None
            }),
    {
        if !self.is_indexing() {
            return None;
        }
        Some((self.indexed_bytes(), self.file_len))
    }

    /// The progress of indexing, while the file is being indexed.
    pub fn indexing_state(&self) -> (progress: Option<ByteProgress>)
        ensures
            progress == self.spec_indexing_state(),
    {
        if !self.is_indexing() {
            return None;
        }
        Some(ByteProgress::new(self.indexed_bytes(), self.file_len))
    }

    pub open spec fn spec_indexing_state(self) -> Option<ByteProgress> {
        if self.spec_indexing() {
            Some(
                ByteProgress {
                    completed_bytes: self.indexed_bytes,
                    total_bytes: self.file_len,
                },
            )
        } else {
            None
        }
    }

    /// The estimated length of a line in bytes, which is never zero.
    pub fn avg_line_len(&self) -> (len: usize)
        ensures
            len == self.spec_avg_line_len(),
            len > 0,
    {
        if self.avg_line_len == 0 {
            1
        } else {
            self.avg_line_len
        }
    }

    pub open spec fn spec_avg_line_len(self) -> usize {
        if self.avg_line_len == 0 {
            1
        } else {
            self.avg_line_len
        }
    }

    /// The number of lines of the file, where its index has it.
    pub open spec fn spec_raw_disk_total_lines(self) -> Option<usize> {
        match self.disk_index {
            Some(index) => index.spec_total_lines(),
            None => None,
        }
    }

    fn raw_disk_index_total_lines(&self) -> (lines: Option<usize>)
        ensures
            lines == self.spec_raw_disk_total_lines(),
    {
        match &self.disk_index {
            Some(index) => index.total_lines(),
            None => None,
        }
    }

    pub open spec fn spec_disk_total_lines(self) -> Option<usize> {
        if self.spec_has_edit_buffer() {
            None
        } else {
            self.spec_raw_disk_total_lines()
        }
    }

    pub(crate) fn disk_index_total_lines(&self) -> (lines: Option<usize>)
        ensures
            lines == self.spec_disk_total_lines(),
    {
        if self.rope.is_some() || self.piece_table.is_some() {
            return None;
        }
        self.raw_disk_index_total_lines()
    }

    fn raw_disk_index_is_building(&self) -> (building: bool)
        ensures
            building == (self.disk_index is Some && self.disk_index->Some_0 is Building),
    {
        match &self.disk_index {
            Some(index) => index.is_building(),
            None => false,
        }
    }

    pub open spec fn spec_disk_checkpoint(self, line0: usize) -> Option<LineCheckpoint> {
        match self.disk_index {
            Some(index) if !self.spec_has_edit_buffer() => index.spec_checkpoint(line0),
            _ => None,
        }
    }

    pub(crate) fn disk_index_checkpoint_for_line(&self, line0: usize) -> (checkpoint: Option<LineCheckpoint>)
        ensures
            checkpoint == self.spec_disk_checkpoint(line0),
    {
        if self.rope.is_some() || self.piece_table.is_some() {
            return None;
        }
        match &self.disk_index {
            Some(index) => index.checkpoint_for_line(line0),
            None => None,
        }
    }

    /// The bytes of the file, which need not be the current text.
    pub fn mmap_bytes(&self) -> (bytes: &[u8])
        ensures
            bytes@ == self.stored(),
    {
        match &self.storage {
            Some(bytes) => bytes.as_slice(),
            None => {
                let none: &[u8] = &[];
                assert(none@ =~= Seq::empty());
                none
            },
        }
    }

    /// The part of the file that belongs to the document.
    pub(crate) fn file_bytes(&self) -> (bytes: &[u8])
        ensures
            bytes@ == self.file_text(),
    {
        let stored = self.mmap_bytes();
        let end: usize = if self.file_len <= stored.len() {
            self.file_len
        } else {
            stored.len()
        };
        let bytes = vstd::slice::slice_subrange(stored, 0, end);
        assert(bytes@ =~= self.file_text());
        bytes
    }

    /// The number of lines without a guess at what has not been seen.
    pub open spec fn spec_bounded_line_count(self) -> usize {
        match self.piece_table {
            Some(table) => at_least_one(table.known_line_count),
            None => match self.rope {
                Some(rope) => (count_lf(rope_text(rope)) + 1) as usize,
                None => match self.spec_disk_total_lines() {
                    Some(lines) => at_least_one(lines),
                    None => at_least_one(self.line_offsets@.len() as usize),
                },
            },
        }
    }

    pub(crate) fn bounded_line_count(&self) -> (lines: usize)
        ensures
            lines == self.spec_bounded_line_count(),
            lines > 0,
    {
        if let Some(table) = &self.piece_table {
            return or_one(table.line_count());
        }
        if let Some(rope) = &self.rope {
            return rope.len_lines();
        }
        if let Some(lines) = self.disk_index_total_lines() {
            return or_one(lines);
        }
        or_one(self.line_offsets.len())
    }

    /// The number of lines as far as it can be told while the file is being indexed.
    pub open spec fn spec_estimated_line_count(self) -> usize {
        if self.spec_precise() {
            match self.spec_exact_line_count() {
                Some(lines) => lines,
                None => 1,
            }
        } else {
            match self.spec_disk_total_lines() {
                Some(lines) => at_least_one(lines),
                None => {
                    let guess = at_least_one(
                        ceil_div(self.spec_file_len() as int, self.spec_avg_line_len() as int),
                    );
                    let seen = at_least_one(self.line_offsets@.len() as usize);
                    let in_table = match self.piece_table {
                        Some(table) => at_least_one(table.known_line_count),
                        None => 1,
                    };
                    max_int(guess as int, max_int(seen as int, in_table as int)) as usize
                },
            }
        }
    }

    pub(crate) fn estimated_line_count_value(&self) -> (lines: usize)
        requires
            self.wf(),
        ensures
            lines == self.spec_estimated_line_count(),
    {
        if self.has_precise_line_lengths() {
            return match self.exact_line_count_value() {
                Some(lines) => lines,
                None => 1,
            };
        }
        if let Some(lines) = self.disk_index_total_lines() {
            return or_one(lines);
        }
        let len: usize = self.file_len();
        let avg: usize = self.avg_line_len();
        let whole: usize = len / avg;
        let guess: usize = if len % avg == 0 {
            whole
        } else {
            proof {
                lemma_div_room(len as int, avg as int);
            }
            whole + 1
        };
        let mut lines: usize = or_one(guess);
        let seen: usize = or_one(self.line_offsets.len());
        if seen > lines {
            lines = seen;
        }
        if let Some(table) = &self.piece_table {
            let in_table: usize = or_one(table.line_count());
            if in_table > lines {
                lines = in_table;
            }
        }
        lines
    }

    /// The exact number of lines, where it is known.
    pub open spec fn spec_exact_line_count(self) -> Option<usize> {
        let table_lines = match self.piece_table {
            Some(table) => table.spec_line_count_with_fallback(self.spec_raw_disk_total_lines()),
            None => None,
        };
        match table_lines {
            Some(lines) => Some(at_least_one(lines)),
            None => match self.rope {
                Some(rope) => Some((count_lf(rope_text(rope)) + 1) as usize),
                None => match self.spec_disk_total_lines() {
                    Some(lines) => Some(at_least_one(lines)),
                    None => if self.piece_table is None && self.indexed_bytes >= self.file_len {
                        Some(self.spec_bounded_line_count())
                    } else {
                        None
                    },
                },
            },
        }
    }

    fn exact_line_count_value(&self) -> (lines: Option<usize>)
        requires
            self.wf(),
        ensures
            lines == self.spec_exact_line_count(),
            lines is Some ==> lines->Some_0 > 0,
            self.rope is Some ==> lines is Some && lines->Some_0 == count_lf(
                rope_text(self.rope->Some_0),
            ) + 1,
    {
        if let Some(table) = &self.piece_table {
            let of_file: Option<usize> = self.raw_disk_index_total_lines();
            if let Some(lines) = table.exact_line_count_with_fallback(of_file) {
                return Some(or_one(lines));
            }
        }
        if let Some(rope) = &self.rope {
            return Some(rope.len_lines());
        }
        if let Some(lines) = self.disk_index_total_lines() {
            return Some(or_one(lines));
        }
        if self.piece_table.is_none() && self.is_fully_indexed() {
            return Some(self.bounded_line_count());
        }
        None
    }

    /// The exact number of lines, where it is known.
    pub fn exact_line_count(&self) -> (lines: Option<usize>)
        requires
            self.wf(),
        ensures
            lines == self.spec_exact_line_count(),
            lines is Some ==> lines->Some_0 > 0,
            self.rope is Some ==> lines is Some && lines->Some_0 == count_lf(
                rope_text(self.rope->Some_0),
            ) + 1,
    {
        self.exact_line_count_value()
    }

    pub open spec fn spec_line_count(self) -> LineCount {
        match self.spec_exact_line_count() {
            Some(lines) => LineCount::Exact(lines),
            None => LineCount::Estimated(self.spec_estimated_line_count()),
        }
    }

    /// The number of lines, exact or estimated.
    pub fn line_count(&self) -> (count: LineCount)
        requires
            self.wf(),
        ensures
            count == self.spec_line_count(),
            count is Exact ==> count->Exact_0 > 0,
    {
        if let Some(lines) = self.exact_line_count_value() {
            LineCount::Exact(lines)
        } else {
            LineCount::Estimated(self.estimated_line_count_value())
        }
    }

    /// The number of rows to lay out.
    pub fn display_line_count(&self) -> (rows: usize)
        requires
            self.wf(),
        ensures
            rows == self.spec_line_count().spec_display_rows(),
    {
        self.line_count().display_rows()
    }

    /// `true` where the number of lines is exact.
    pub fn is_line_count_exact(&self) -> (exact: bool)
        requires
            self.wf(),
        ensures
            exact == (self.spec_exact_line_count() is Some),
    {
        self.line_count().is_exact()
    }

    pub open spec fn spec_backing(self) -> DocumentBacking {
        if self.rope is Some {
            DocumentBacking::Rope
        } else if self.piece_table is Some {
            DocumentBacking::PieceTable
        } else {
            DocumentBacking::Mmap
        }
    }

    /// Where the text is held.
    pub fn backing(&self) -> (backing: DocumentBacking)
        ensures
            backing == self.spec_backing(),
    {
        if self.has_rope() {
            DocumentBacking::Rope
        } else if self.has_piece_table() {
            DocumentBacking::PieceTable
        } else {
            DocumentBacking::Mmap
        }
    }

    /// `status` is what a front end is shown of this document.
    pub open spec fn is_status(self, status: DocumentStatus) -> bool {
        &&& match self.path {
            Some(path) => status.path is Some && status.path->Some_0@ == path@,
            None => status.path is None,
        }
        &&& status.dirty == self.dirty
        &&& status.file_len == self.spec_file_len()
        &&& status.line_count == self.spec_line_count()
        &&& status.exact_line_count_pending == self.spec_line_count_pending()
        &&& status.line_ending == self.line_ending
        &&& status.encoding == self.encoding
        &&& preserve_error_is(self.spec_preserve_error(), status.preserve_save_error)
        &&& status.encoding_origin == self.encoding_origin
        &&& status.decoding_had_errors == self.decoding_had_errors
        &&& status.indexing == self.spec_indexing_state()
        &&& status.backing == self.spec_backing()
    }

    /// What a front end is shown of this document.
    pub fn status(&self) -> (status: DocumentStatus)
        requires
            self.wf(),
        ensures
            self.is_status(status),
    {
        let path = match &self.path {
            Some(path) => Some(path.clone()),
            None => None,
        };
        DocumentStatus::new(
            path,
            self.dirty,
            self.file_len(),
            self.line_count(),
            self.is_line_count_pending(),
            self.line_ending(),
            self.encoding(),
            self.preserve_save_error(),
            self.encoding_origin(),
            self.decoding_had_errors(),
            self.indexing_state(),
            self.backing(),
        )
    }

    /// `true` where the document has changes that are not in its file.
    pub fn is_dirty(&self) -> (dirty: bool)
        ensures
            dirty == self.dirty,
    {
        self.dirty
    }

    pub fn path(&self) -> (path: Option<&str>)
        ensures
            match self.path {
                Some(own) => path is Some && path->Some_0@ == own@,
                None => path is None,
            },
    {
        match &self.path {
            Some(path) => Some(path.as_str()),
            None => None,
        }
    }

    /// Forgets why a save would fail.
    pub(crate) fn invalidate_preserve_save_error_cache(&mut self)
        ensures
            *final(self) == (Document { preserve_save_error_cache: None, ..*old(self) }),
    {
        self.preserve_save_error_cache = None;
    }

    /// Notes that the document has changes that are not in its file.
    pub fn mark_dirty(&mut self)
        ensures
            *final(self) == (Document {
                preserve_save_error_cache: None,
                dirty: true,
                ..*old(self)
            }),
    {
        self.invalidate_preserve_save_error_cache();
        self.dirty = true;
    }

    /// Notes that the document is as its file has it.
    pub fn mark_clean(&mut self)
        ensures
            *final(self) == (Document { dirty: false, ..*old(self) }),
    {
        self.dirty = false;
    }

    /// Gives the document another file, without a save.
    pub fn set_path(&mut self, path: String)
        ensures
            *final(self) == (Document { path: Some(path), ..*old(self) }),
    {
        self.path = Some(path);
    }

    /// What there is to do for the piece table, given how small pieces are told and what is
    /// recommended.
    pub fn maintenance_status_with_policy(
        &self,
        small_piece_threshold_bytes: usize,
        recommendation: Option<CompactionRecommendation>,
    ) -> (status: DocumentMaintenanceStatus)
        requires
            self.wf(),
        ensures
            status == self.spec_maintenance(small_piece_threshold_bytes, recommendation),
    {
        DocumentMaintenanceStatus::new(
            self.backing(),
            self.fragmentation_stats_with_threshold(small_piece_threshold_bytes),
            self.applicable(recommendation),
        )
    }

    /// A recommendation, where there is a piece table that it can speak of.
    pub open spec fn spec_applicable(
        self,
        recommendation: Option<CompactionRecommendation>,
    ) -> Option<CompactionRecommendation> {
        if self.piece_table is Some {
            recommendation
        } else {
            None
        }
    }

    pub(crate) fn applicable(&self, recommendation: Option<CompactionRecommendation>) -> (kept:
        Option<CompactionRecommendation>)
        ensures
            kept == self.spec_applicable(recommendation),
    {
        if self.piece_table.is_some() {
            recommendation
        } else {
            None
        }
    }

    pub open spec fn spec_maintenance(
        self,
        threshold: usize,
        recommendation: Option<CompactionRecommendation>,
    ) -> DocumentMaintenanceStatus {
        DocumentMaintenanceStatus {
            backing: self.spec_backing(),
            fragmentation: self.spec_fragmentation(threshold),
            compaction: self.spec_applicable(recommendation),
        }
    }

    /// What there is to do for the piece table, given what is recommended.
    pub fn maintenance_status(&self, recommendation: Option<CompactionRecommendation>) -> (status:
        DocumentMaintenanceStatus)
        requires
            self.wf(),
        ensures
            status == self.spec_maintenance(SMALL_PIECE_THRESHOLD_BYTES, recommendation),
    {
        self.maintenance_status_with_policy(SMALL_PIECE_THRESHOLD_BYTES, recommendation)
    }

    pub fn maintenance_action(&self, recommendation: Option<CompactionRecommendation>) -> (action:
        MaintenanceAction)
        requires
            self.wf(),
        ensures
            action == self.spec_maintenance(
                SMALL_PIECE_THRESHOLD_BYTES,
                recommendation,
            ).spec_recommended_action(),
    {
        self.maintenance_status(recommendation).recommended_action()
    }

    pub fn maintenance_action_with_policy(
        &self,
        small_piece_threshold_bytes: usize,
        recommendation: Option<CompactionRecommendation>,
    ) -> (action: MaintenanceAction)
        requires
            self.wf(),
        ensures
            action == self.spec_maintenance(
                small_piece_threshold_bytes,
                recommendation,
            ).spec_recommended_action(),
    {
        self.maintenance_status_with_policy(
            small_piece_threshold_bytes,
            recommendation,
        ).recommended_action()
    }

    /// How many bytes the document takes in its file.
    pub open spec fn spec_file_len(self) -> usize {
        match self.piece_table {
            Some(table) => table.total_len,
            None => match self.rope {
                Some(rope) => {
                    let rendered = with_line_endings(rope_text(rope), self.line_ending);
                    if self.encoding.spec_is_utf8() {
                        sat_add(0, encode_utf8(rendered).len() as int)
                    } else {
                        match encode_result(rendered, self.encoding@) {
                            Ok(bytes) => bytes.len() as usize,
                            Err(_) => encode_utf8(rendered).len() as usize,
                        }
                    }
                },
                None => self.file_len,
            },
        }
    }

    /// How many bytes the document takes in its file.
    pub fn file_len(&self) -> (len: usize)
        requires
            self.wf(),
        ensures
            len == self.spec_file_len(),
    {
        if let Some(table) = &self.piece_table {
            return table.total_len();
        }
        if let Some(rope) = &self.rope {
            if self.encoding.is_utf8() {
                return rope_save_len_bytes(rope, self.line_ending);
            }
            let rendered = rope_text_with_line_endings(rope, self.line_ending);
            return match encode_text_with_encoding(rendered.as_str(), self.encoding) {
                Ok(bytes) => bytes.len(),
                Err(_) => rendered.as_str().len(),
            };
        }
        self.file_len
    }

    pub fn line_ending(&self) -> (ending: LineEnding)
        ensures
            ending == self.line_ending,
    {
        self.line_ending
    }

    pub fn encoding(&self) -> (encoding: DocumentEncoding)
        ensures
            encoding == self.encoding,
    {
        self.encoding
    }

    /// A save in the same encoding would write text that was repaired when it was read.
    pub open spec fn spec_materializes_lossy(self) -> bool {
        self.decoding_had_errors && !(self.encoding.spec_is_utf8() && self.rope is None)
    }

    pub fn preserve_save_materializes_lossy_decoded_text(&self) -> (lossy: bool)
        ensures
            lossy == self.spec_materializes_lossy(),
    {
        self.decoding_had_errors && !(self.encoding.is_utf8() && self.rope.is_none())
    }

    /// What a save would be too large to be read again in.
    pub open spec fn spec_reopen_error(self, utf8: bool, encoded_len: int) -> bool {
        let reload = !self.spec_has_edit_buffer() || self.piece_table is Some;
        reload && !utf8 && encoded_len > MAX_ROPE_EDIT_FILE_BYTES
    }

    fn save_reopen_size_error(&self, encoding: DocumentEncoding, encoded_len: usize) -> (error: Option<
        DocumentEncodingErrorKind,
    >)
        ensures
            error == (if self.spec_reopen_error(encoding.spec_is_utf8(), encoded_len as int) {
                Some(
                    DocumentEncodingErrorKind::SaveReopenTooLarge {
                        max_bytes: MAX_ROPE_EDIT_FILE_BYTES,
                    },
                )
            } else {
                None
            }),
    {
        let reload_after_save = !self.has_edit_buffer() || self.has_piece_table();
        if reload_after_save && !encoding.is_utf8() && encoded_len > MAX_ROPE_EDIT_FILE_BYTES {
            Some(
                DocumentEncodingErrorKind::SaveReopenTooLarge {
                    max_bytes: MAX_ROPE_EDIT_FILE_BYTES,
                },
            )
        } else {
            None
        }
    }

    /// The text that a save would encode.
    pub open spec fn spec_rendered(self) -> Seq<char> {
        match self.rope {
            Some(rope) => with_line_endings(rope_text(rope), self.line_ending),
            None => match self.piece_table {
                Some(table) => lossy(table.text()),
                None => lossy(self.stored()),
            },
        }
    }

    fn rendered_text_for_save_validation(&self) -> (text: String)
        requires
            self.wf(),
            self.fits_encoder(),
        ensures
            text@ == self.spec_rendered(),
            encode_utf8(text@).len() <= usize::MAX / 64,
    {
        if let Some(rope) = &self.rope {
            return rope_text_with_line_endings(rope, self.line_ending);
        }
        if let Some(table) = &self.piece_table {
            proof {
                table.lemma_len();
            }
            return table.to_string_lossy();
        }
        lossy_text(self.mmap_bytes())
    }

    /// Whether the text can be saved in an encoding.
    pub open spec fn spec_encoding_error(self, encoding: (Seq<char>, Seq<char>)) -> SaveBar {
        match encode_result(self.spec_rendered(), encoding) {
            Ok(bytes) => if self.spec_reopen_error(
                encoding.0 == "UTF-8"@,
                bytes.len() as int,
            ) {
                SaveBar::TooLarge
            } else {
                SaveBar::Nothing
            },
            Err(failure) => SaveBar::Encoder(failure),
        }
    }

    /// Whether the text can be saved in the encoding that it has.
    pub open spec fn spec_preserve_error(self) -> SaveBar {
        if !self.encoding.spec_can_roundtrip_save() {
            SaveBar::Unsupported
        } else if self.spec_materializes_lossy() {
            SaveBar::Lossy
        } else if self.encoding.spec_is_utf8() {
            SaveBar::Nothing
        } else {
            self.spec_encoding_error(self.encoding@)
        }
    }

    /// Why a save in the same encoding would fail, if it would.
    pub fn preserve_save_error(&self) -> (error: Option<DocumentEncodingErrorKind>)
        requires
            self.wf(),
        ensures
            preserve_error_is(self.spec_preserve_error(), error),
    {
        if let Some(cached) = self.preserve_save_error_cache {
            return cached;
        }
        if !self.encoding.can_roundtrip_save() {
            Some(DocumentEncodingErrorKind::PreserveSaveUnsupported)
        } else if self.preserve_save_materializes_lossy_decoded_text() {
            Some(DocumentEncodingErrorKind::LossyDecodedPreserve)
        } else if self.encoding.is_utf8() {
            None
        } else {
            self.encoding_error(self.encoding)
        }
    }

    fn encoding_error(&self, encoding: DocumentEncoding) -> (error: Option<
        DocumentEncodingErrorKind,
    >)
        requires
            self.wf(),
            self.fits_encoder(),
        ensures
            preserve_error_is(self.spec_encoding_error(encoding@), error),
    {
        let rendered = self.rendered_text_for_save_validation();
        match encode_text_with_encoding(rendered.as_str(), encoding) {
            Ok(bytes) => self.save_reopen_size_error(encoding, bytes.len()),
            Err(error) => Some(error),
        }
    }

    /// Keeps why a save in the same encoding would fail, until the document changes.
    pub fn remember_preserve_save_error(&mut self)
        requires
            old(self).wf(),
        ensures
            final(self).wf(),
            final(self).preserve_save_error_cache is Some,
            *final(self) == (Document {
                preserve_save_error_cache: final(self).preserve_save_error_cache,
                ..*old(self)
            }),
    {
        let computed = self.preserve_save_error();
        self.preserve_save_error_cache = Some(computed);
    }

    /// `true` where a save in the same encoding is possible.
    pub fn can_preserve_save(&self) -> (can: bool)
        requires
            self.wf(),
        ensures
            can == (self.spec_preserve_error() is Nothing),
    {
        self.preserve_save_error().is_none()
    }

    /// Whether a save with these options is possible.
    pub open spec fn spec_save_error(self, options: DocumentSaveOptions) -> SaveBar {
        match options.encoding_policy {
            SaveEncodingPolicy::Preserve => self.spec_preserve_error(),
            SaveEncodingPolicy::Convert(encoding) => self.spec_encoding_error(encoding@),
        }
    }

    /// Why a save with these options would fail, if it would.
    pub fn save_error_for_options(&self, options: DocumentSaveOptions) -> (error: Option<
        DocumentEncodingErrorKind,
    >)
        requires
            self.wf(),
            options.encoding_policy is Convert ==> self.fits_encoder(),
        ensures
            preserve_error_is(self.spec_save_error(options), error),
    {
        match options.encoding_policy() {
            SaveEncodingPolicy::Preserve => self.preserve_save_error(),
            SaveEncodingPolicy::Convert(encoding) => self.encoding_error(encoding),
        }
    }

    /// `true` where a save with these options is possible.
    pub fn can_save_with_options(&self, options: DocumentSaveOptions) -> (can: bool)
        requires
            self.wf(),
            options.encoding_policy is Convert ==> self.fits_encoder(),
        ensures
            can == (self.spec_save_error(options) is Nothing),
    {
        self.save_error_for_options(options).is_none()
    }

    /// Why a save in another encoding would fail, if it would.
    pub fn save_error_for_encoding(&self, encoding: DocumentEncoding) -> (error: Option<
        DocumentEncodingErrorKind,
    >)
        requires
            self.wf(),
            self.fits_encoder(),
        ensures
            preserve_error_is(self.spec_encoding_error(encoding@), error),
    {
        self.save_error_for_options(DocumentSaveOptions::new().with_encoding(encoding))
    }

    /// `true` where a save in another encoding is possible.
    pub fn can_save_with_encoding(&self, encoding: DocumentEncoding) -> (can: bool)
        requires
            self.wf(),
            self.fits_encoder(),
        ensures
            can == (self.spec_encoding_error(encoding@) is Nothing),
    {
        self.save_error_for_encoding(encoding).is_none()
    }

    pub fn encoding_origin(&self) -> (origin: DocumentEncodingOrigin)
        ensures
            origin == self.encoding_origin,
    {
        self.encoding_origin
    }

    /// `true` where the file was not valid in its encoding.
    pub fn decoding_had_errors(&self) -> (had: bool)
        ensures
            had == self.decoding_had_errors,
    {
        self.decoding_had_errors
    }

    /// `text` is the whole text, with replacement characters for bytes that are not UTF-8.
    pub open spec fn is_whole_text(self, text: Seq<char>) -> bool {
        match self.rope {
            Some(rope) => text == rope_text(rope),
            None => match self.piece_table {
                Some(table) => shows(text, table.text()),
                None => shows(text, self.stored()),
            },
        }
    }

    /// The whole text, with replacement characters for bytes that are not UTF-8.
    pub fn text_lossy(&self) -> (text: String)
        requires
            self.wf(),
            self.stored().len() <= isize::MAX / 3,
            self.text().len() <= isize::MAX / 3,
        ensures
            self.is_whole_text(text@),
    {
        if let Some(rope) = &self.rope {
            return rope_to_string(rope);
        }
        if let Some(table) = &self.piece_table {
            proof {
                table.lemma_len();
            }
            return table.to_string_lossy();
        }
        lossy_text(self.mmap_bytes())
    }
}

/// What stands in the way of a save.
pub ghost enum SaveBar {
    Nothing,
    Unsupported,
    Lossy,
    TooLarge,
    Encoder(crate::document::encode::EncodeFailure),
}

/// `error` reports what stands in the way of a save.
pub open spec fn preserve_error_is(bar: SaveBar, error: Option<DocumentEncodingErrorKind>) -> bool {
    match bar {
        SaveBar::Nothing => error is None,
        SaveBar::Unsupported => error == Some(DocumentEncodingErrorKind::PreserveSaveUnsupported),
        SaveBar::Lossy => error == Some(DocumentEncodingErrorKind::LossyDecodedPreserve),
        SaveBar::TooLarge => error == Some(
            DocumentEncodingErrorKind::SaveReopenTooLarge { max_bytes: MAX_ROPE_EDIT_FILE_BYTES },
        ),
        SaveBar::Encoder(failure) => error is Some && reports(error->Some_0, failure),
    }
}

/// A save in the same encoding is refused as lossy only where it would write text that was
/// repaired when it was read: the bytes of a UTF-8 file can always be saved again, valid or
/// not, until its text is held in a rope.
pub proof fn law_lossy_refusal(doc: Document)
    ensures
        doc.spec_preserve_error() is Lossy ==> doc.decoding_had_errors && (doc.rope is Some
            || !doc.encoding.spec_is_utf8()),
        doc.encoding.spec_is_utf8() && doc.encoding.spec_can_roundtrip_save() && doc.rope is None
            ==> doc.spec_preserve_error() is Nothing,
        !doc.decoding_had_errors ==> !(doc.spec_preserve_error() is Lossy),
{
}

/// A save in the same encoding is allowed exactly where no error is reported for it. In UTF-8
/// it is refused exactly where text that was repaired when it was read is held in a rope. It
/// is never allowed in an encoding that saves write in another one.
pub proof fn law_preserve_save(doc: Document, error: Option<DocumentEncodingErrorKind>)
    requires
        doc.wf(),
        preserve_error_is(doc.spec_preserve_error(), error),
    ensures
        doc.spec_preserve_error() is Nothing <==> error is None,
        doc.encoding.spec_is_utf8() ==> (doc.spec_preserve_error() is Nothing <==> !(
        doc.decoding_had_errors && doc.rope is Some)),
        !doc.encoding.spec_can_roundtrip_save() ==> !(doc.spec_preserve_error() is Nothing),
{
}

/// The bytes of a file can be saved as they are, also where they are not UTF-8. Once such a
/// text is held in a rope, a save in the same encoding is refused as lossy.
pub proof fn law_invalid_utf8(bytes: Seq<u8>, opened: Document, edited: Document)
    requires
        opened.wf(),
        opened.encoding@ == ("UTF-8"@, "UTF-8"@),
        opened.rope is None,
        opened.decoding_had_errors == !vstd::utf8::valid_utf8(bytes),
        edited.encoding@ == opened.encoding@,
        edited.decoding_had_errors == opened.decoding_had_errors,
        edited.rope is Some,
    ensures
        opened.spec_preserve_error() is Nothing,
        edited.spec_preserve_error() is Lossy <==> !vstd::utf8::valid_utf8(bytes),
        edited.spec_preserve_error() is Nothing <==> vstd::utf8::valid_utf8(bytes),
{
}

/// The action for a document is the one that its maintenance status recommends, the same that
/// the default policy gives. There is nothing to do without a piece table, whatever is
/// recommended; with one, a deferred compaction waits for idle time and a forced one for the
/// caller.
pub proof fn law_maintenance_action(
    doc: Document,
    threshold: usize,
    recommendation: Option<CompactionRecommendation>,
)
    requires
        doc.wf(),
    ensures
        ({
            let status = doc.spec_maintenance(threshold, recommendation);
            let action = status.spec_recommended_action();
            &&& action == doc.spec_maintenance(
                SMALL_PIECE_THRESHOLD_BYTES,
                recommendation,
            ).spec_recommended_action()
            &&& doc.piece_table is None ==> status.compaction is None && action
                == MaintenanceAction::Nothing
            &&& doc.rope is Some ==> action == MaintenanceAction::Nothing
            &&& action is Nothing <==> doc.piece_table is None || recommendation is None
            &&& doc.piece_table is Some && recommendation is Some ==> action == (
            match recommendation->Some_0.urgency {
                CompactionUrgency::Deferred => MaintenanceAction::IdleCompaction,
                CompactionUrgency::Forced => MaintenanceAction::ExplicitCompaction,
            })
        }),
{
}

/// Every text can be saved as UTF-8.
pub proof fn law_utf8_salvage(doc: Document)
    ensures
        doc.spec_encoding_error(("UTF-8"@, "UTF-8"@)) is Nothing,
{
}

/// The line ending of the first line that ends, or a line feed.
pub open spec fn spec_detect_line_ending(bytes: Seq<u8>) -> LineEnding
    decreases bytes.len(),
{
    if bytes.len() == 0 {
        LineEnding::Lf
    } else if bytes[0] == LF {
        LineEnding::Lf
    } else if bytes[0] == CR {
        if bytes.len() > 1 && bytes[1] == LF {
            LineEnding::Crlf
        } else {
            LineEnding::Cr
        }
    } else {
        spec_detect_line_ending(bytes.skip(1))
    }
}

pub proof fn lemma_detect_skip(bytes: Seq<u8>, n: int)
    requires
        0 <= n <= bytes.len(),
        forall|i: int| 0 <= i < n ==> !is_either(#[trigger] bytes[i], LF, CR),
    ensures
        spec_detect_line_ending(bytes) == spec_detect_line_ending(bytes.skip(n)),
    decreases n,
{
    if n > 0 {
        assert(!is_either(bytes[0], LF, CR));
        let rest = bytes.skip(1);
        assert forall|i: int| 0 <= i < n - 1 implies !is_either(#[trigger] rest[i], LF, CR) by {
            assert(rest[i] == bytes[i + 1]);
        }
        lemma_detect_skip(rest, n - 1);
        assert(rest.skip(n - 1) =~= bytes.skip(n));
    } else {
        assert(bytes.skip(0) =~= bytes);
    }
}

/// The line ending of the first line that ends, or a line feed.
pub fn detect_line_ending(bytes: &[u8]) -> (ending: LineEnding)
    ensures
        ending == spec_detect_line_ending(bytes@),
{
    match memchr::memchr2(LF, CR, bytes) {
        None => {
            proof {
                lemma_detect_skip(bytes@, bytes@.len() as int);
            }
            LineEnding::Lf
        },
        Some(at) => {
            proof {
                lemma_detect_skip(bytes@, at as int);
                assert(bytes@.skip(at as int)[0] == bytes@[at as int]);
            }
            if bytes[at] == LF {
                LineEnding::Lf
            } else if at + 1 < bytes.len() && bytes[at + 1] == LF {
                assert(bytes@.skip(at as int)[1] == bytes@[at + 1]);
                LineEnding::Crlf
            } else {
                assert(at + 1 < bytes@.len() ==> bytes@.skip(at as int)[1] == bytes@[at + 1]);
                LineEnding::Cr
            }
        },
    }
}

/// Where all lines of a text start.
pub fn index_lines(bytes: &[u8]) -> (offsets: LineOffsets)
    ensures
        offsets_ok(offsets@, bytes@),
        offsets@.len() == last_line(bytes@) + 1,
{
    let mut starts: Vec<u64> = Vec::new();
    starts.push(0);
    let mut at: usize = 0;
    let len: usize = bytes.len();
    let ghost text = bytes@;
    assert(line_ends(text, 0) == 0);
    while at < len
        invariant
            text == bytes@,
            at <= text.len(),
            len == text.len(),
            starts@.len() == line_ends(text, at as int) + 1,
            at < text.len() ==> at == 0 || ends_line(text, at - 1),
            forall|k: int|
                0 <= k < starts@.len() ==> {
                    &&& (#[trigger] starts@[k]) <= text.len()
                    &&& line_ends(text, starts@[k] as int) == k
                    &&& starts@[k] == 0 || ends_line(text, starts@[k] - 1)
                },
        decreases text.len() - at,
    {
        let next: usize = next_line_start_exact(bytes, at);
        proof {
            crate::document::navigate::lemma_step(text, at as int);
        }
        if bytes[next - 1] == LF || bytes[next - 1] == CR {
            assert(ends_line(text, next - 1)) by {
                if !ends_line(text, next - 1) {
                    assert(next == text.len());
                }
            }
            starts.push(next as u64);
        }
        at = next;
    }
    let offsets = LineOffsets::U64(starts);
    assert forall|k: int| 0 <= k < offsets@.len() implies {
        &&& (#[trigger] offsets@[k]) <= text.len()
        &&& line_ends(text, offsets@[k] as int) == k
        &&& offsets@[k] == 0 || ends_line(text, offsets@[k] - 1)
    } by {
        assert(starts@[k] <= text.len());
    }
    offsets
}

/// The exact number of lines is the number of lines: one more than there are line ends. Where an
/// index has counted the lines of the file, it has to have counted them rightly.
pub proof fn law_exact_line_count(doc: Document)
    requires
        doc.wf(),
        doc.text().len() < usize::MAX,
        doc.spec_raw_disk_total_lines() is Some ==> {
            let lines = doc.spec_raw_disk_total_lines()->Some_0;
            &&& doc.piece_table is Some ==> lines == last_line(doc.piece_table->Some_0.original@)
                + 1
            &&& !doc.spec_has_edit_buffer() ==> lines == last_line(doc.text()) + 1
        },
    ensures
        match doc.spec_exact_line_count() {
            Some(lines) => lines == last_line(doc.text()) + 1,
            None => true,
        },
        doc.spec_precise() ==> doc.spec_exact_line_count() is Some,
{
    crate::scan::lemma_line_ends_monotone(doc.text(), 0, doc.text().len() as int);
    assert(line_ends(doc.text(), 0) == 0);
    match doc.rope {
        Some(rope) => {
            crate::document::navigate::lemma_rope_last_line(rope_text(rope));
        },
        None => {},
    }
}

/// Where a large file was counted and its bytes have only been added to, the number of lines
/// is exact before the edited text has been indexed.
pub proof fn law_line_count_after_insertions(doc: Document)
    requires
        doc.wf(),
        doc.text().len() < usize::MAX,
        doc.piece_table is Some,
        ({
            let table = doc.piece_table->Some_0;
            &&& whole_from(table.pieces.pieces(), 0, table.original@.len() as int)
            &&& doc.spec_raw_disk_total_lines() is Some
            &&& doc.spec_raw_disk_total_lines()->Some_0 == last_line(table.original@) + 1
        }),
    ensures
        doc.spec_exact_line_count() == Some((last_line(doc.text()) + 1) as usize),
{
    crate::scan::lemma_line_ends_monotone(doc.text(), 0, doc.text().len() as int);
    assert(line_ends(doc.text(), 0) == 0);
}

pub open spec fn at_least_one(n: usize) -> usize {
    if n == 0 {
        1
    } else {
        n
    }
}

fn or_one(n: usize) -> (m: usize)
    ensures
        m == at_least_one(n),
        m > 0,
{
    if n == 0 {
        1
    } else {
        n
    }
}

/// `a / b`, rounded up.
pub open spec fn ceil_div(a: int, b: int) -> usize {
    (if a % b == 0 {
        a / b
    } else {
        a / b + 1
    }) as usize
}

proof fn lemma_div_room(a: int, b: int)
    requires
        0 <= a <= usize::MAX,
        b > 0,
        a % b != 0,
    ensures
        a / b < usize::MAX,
{
    assert(a / b < usize::MAX) by (nonlinear_arith)
        requires
            0 <= a <= usize::MAX,
            b > 0,
            a % b != 0,
    ;
}

} // verus!
