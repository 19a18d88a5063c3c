//! What a session shows to its front end.

use crate::document::state::at_least_one;
use crate::document::status::{DocumentError, DocumentStatus, ErrorView};
use crate::document::types::{ByteProgress, DocumentBacking, LineCount, LineEnding, TextPosition};
use crate::tree_model::sat_add;
use vstd::prelude::*;
use vstd::string::*;

verus! {

/// A cursor, with lines and columns counted from one.
#[derive(Clone, Copy, Debug, PartialEq, Eq, Structural)]
pub struct CursorPosition {
    line: usize,
    column: usize,
}

/// The cursor at a line and a column; what is less than one counts as one.
pub closed spec fn cursor_at(line: usize, column: usize) -> CursorPosition {
    CursorPosition { line: at_least_one(line), column: at_least_one(column) }
}

impl Default for CursorPosition {
    fn default() -> (cursor: CursorPosition)
        ensures
            cursor == cursor_at(1, 1),
    {
        CursorPosition::new(1, 1)
    }
}

impl CursorPosition {
    /// The line, counted from one.
    pub closed spec fn spec_line(self) -> usize {
        self.line
    }

    /// The column, counted from one.
    pub closed spec fn spec_column(self) -> usize {
        self.column
    }

    /// Lines and columns are counted from one.
    pub open spec fn wf(self) -> bool {
        self.spec_line() > 0 && self.spec_column() > 0
    }

    #[verifier::type_invariant]
    spec fn inv(self) -> bool {
        self.wf()
    }

    /// A cursor; what is less than one counts as one.
    pub fn new(line: usize, column: usize) -> (cursor: CursorPosition)
        ensures
            cursor == cursor_at(line, column),
            cursor.spec_line() == at_least_one(line),
            cursor.spec_column() == at_least_one(column),
    {
        CursorPosition {
            line: if line == 0 {
                1
            } else {
                line
            },
            column: if column == 0 {
                1
            } else {
                column
            },
        }
    }

    pub fn line(&self) -> (line: usize)
        ensures
            line == self.spec_line(),
            line > 0,
    {
        proof {
            use_type_invariant(self);
        }
        self.line
    }

    pub fn column(&self) -> (column: usize)
        ensures
            column == self.spec_column(),
            column > 0,
    {
        proof {
            use_type_invariant(self);
        }
        self.column
    }

    /// The position of a cursor.
    pub open spec fn spec_text_position(self) -> TextPosition {
        TextPosition {
            line0: (self.spec_line() - 1) as usize,
            col0: (self.spec_column() - 1) as usize,
        }
    }

    pub fn to_text_position(self) -> (position: TextPosition)
        ensures
            position == self.spec_text_position(),
    {
        proof {
            use_type_invariant(&self);
        }
        TextPosition::new(self.line - 1, self.column - 1)
    }

    /// The cursor at a position.
    pub open spec fn at_text_position(position: TextPosition) -> CursorPosition {
        cursor_at(sat_add(position.line0 as int, 1), sat_add(position.col0 as int, 1))
    }

    pub fn from_text_position(position: TextPosition) -> (cursor: CursorPosition)
        ensures
            cursor == CursorPosition::at_text_position(position),
            cursor.spec_line() == sat_add(position.line0 as int, 1),
            cursor.spec_column() == sat_add(position.col0 as int, 1),
    {
        CursorPosition::new(position.line0().saturating_add(1), position.col0().saturating_add(1))
    }
}

/// A cursor stands at the line and the column that it was made with, and never before the
/// first ones.
pub proof fn law_cursor_from_one(line: usize, column: usize)
    ensures
        cursor_at(line, column).wf(),
        cursor_at(line, column).spec_line() == at_least_one(line),
        cursor_at(line, column).spec_column() == at_least_one(column),
{
}

/// A cursor and its position stand for each other, as long as they can be counted.
pub proof fn law_cursor_round_trip(cursor: CursorPosition, position: TextPosition)
    ensures
        cursor.wf() ==> CursorPosition::at_text_position(cursor.spec_text_position()) == cursor,
        position.line0 < usize::MAX && position.col0 < usize::MAX
            ==> CursorPosition::at_text_position(position).spec_text_position() == position,
{
}

/// How far the opening of a document has come.
#[derive(Clone, Copy, Debug, PartialEq, Eq, Structural)]
pub enum LoadPhase {
    Opening,
    InspectingSource,
    PreparingIndex,
    RecoveringSession,
    Ready,
}

impl LoadPhase {
    /// The number that stands for a phase.
    pub open spec fn spec_raw(self) -> u8 {
        match self {
            LoadPhase::Opening => 0,
            LoadPhase::InspectingSource => 1,
            LoadPhase::PreparingIndex => 2,
            LoadPhase::RecoveringSession => 3,
            LoadPhase::Ready => 4,
        }
    }

    pub fn as_raw(self) -> (raw: u8)
        ensures
            raw == self.spec_raw(),
    {
        match self {
            LoadPhase::Opening => 0,
            LoadPhase::InspectingSource => 1,
            LoadPhase::PreparingIndex => 2,
            LoadPhase::RecoveringSession => 3,
            LoadPhase::Ready => 4,
        }
    }

    /// The phase that a number stands for; the first one for any other number.
    pub fn from_raw(raw: u8) -> (phase: LoadPhase)
        ensures
            raw <= 4 ==> phase.spec_raw() == raw,
            raw > 4 ==> phase == LoadPhase::Opening,
    {
        match raw {
            0 => LoadPhase::Opening,
            1 => LoadPhase::InspectingSource,
            2 => LoadPhase::PreparingIndex,
            3 => LoadPhase::RecoveringSession,
            4 => LoadPhase::Ready,
            _ => LoadPhase::Opening,
        }
    }
}

/// What the opening of a file reports.
#[derive(Clone, Copy, Debug, PartialEq, Eq, Structural)]
pub enum OpenProgressPhase {
    OpeningStorage,
    InspectingSource,
    PreparingIndex,
    RecoveringSession,
    Ready,
}

/// The phase of a load that a report stands for.
pub fn map_open_phase(phase: OpenProgressPhase) -> (load: LoadPhase)
    ensures
        load == (match phase {
            OpenProgressPhase::OpeningStorage => LoadPhase::Opening,
            OpenProgressPhase::InspectingSource => LoadPhase::InspectingSource,
            OpenProgressPhase::PreparingIndex => LoadPhase::PreparingIndex,
            OpenProgressPhase::RecoveringSession => LoadPhase::RecoveringSession,
            OpenProgressPhase::Ready => LoadPhase::Ready,
        }),
{
    match phase {
        OpenProgressPhase::OpeningStorage => LoadPhase::Opening,
        OpenProgressPhase::InspectingSource => LoadPhase::InspectingSource,
        OpenProgressPhase::PreparingIndex => LoadPhase::PreparingIndex,
        OpenProgressPhase::RecoveringSession => LoadPhase::RecoveringSession,
        OpenProgressPhase::Ready => LoadPhase::Ready,
    }
}

/// How far a load or a save of a file has come.
#[derive(Clone, Debug, PartialEq, Eq)]
pub struct FileProgress {
    pub path: String,
    pub completed_bytes: u64,
    pub total_bytes: u64,
    pub load_phase: Option<LoadPhase>,
}

/// What a progress says, without the identity of its path.
pub struct ProgressView {
    pub path: Seq<char>,
    pub completed_bytes: u64,
    pub total_bytes: u64,
    pub load_phase: Option<LoadPhase>,
}

impl View for FileProgress {
    type V = ProgressView;

    open spec fn view(&self) -> ProgressView {
        ProgressView {
            path: self.path@,
            completed_bytes: self.completed_bytes,
            total_bytes: self.total_bytes,
            load_phase: self.load_phase,
        }
    }
}

impl FileProgress {
    /// The progress of a save.
    pub fn new(path: String, completed_bytes: u64, total_bytes: u64) -> (progress: FileProgress)
        ensures
            progress@ == (ProgressView {
                path: path@,
                completed_bytes,
                total_bytes,
                load_phase: None,
            }),
    {
        FileProgress { path, completed_bytes, total_bytes, load_phase: None }
    }

    /// The progress of a load.
    pub fn loading(
        path: String,
        completed_bytes: u64,
        total_bytes: u64,
        load_phase: LoadPhase,
    ) -> (progress: FileProgress)
        ensures
            progress@ == (ProgressView {
                path: path@,
                completed_bytes,
                total_bytes,
                load_phase: Some(load_phase),
            }),
    {
        FileProgress { path, completed_bytes, total_bytes, load_phase: Some(load_phase) }
    }

    pub fn path(&self) -> (path: &str)
        ensures
            path@ == self@.path,
    {
        self.path.as_str()
    }

    pub fn completed_bytes(&self) -> (bytes: u64)
        ensures
            bytes == self@.completed_bytes,
    {
        self.completed_bytes
    }

    pub fn total_bytes(&self) -> (bytes: u64)
        ensures
            bytes == self@.total_bytes,
    {
        self.total_bytes
    }

    pub fn load_phase(&self) -> (phase: Option<LoadPhase>)
        ensures
            phase == self@.load_phase,
    {
        self.load_phase
    }

    pub(crate) fn copy(&self) -> (progress: FileProgress)
        ensures
            progress@ == self@,
    {
        FileProgress {
            path: self.path.clone(),
            completed_bytes: self.completed_bytes,
            total_bytes: self.total_bytes,
            load_phase: self.load_phase,
        }
    }
}

/// What a session does in the background.
#[derive(Clone, Debug, PartialEq, Eq)]
pub enum BackgroundActivity {
    Idle,
    Loading(FileProgress),
    Saving(FileProgress),
}

impl BackgroundActivity {
    pub fn is_idle(&self) -> (idle: bool)
        ensures
            idle == (self is Idle),
    {
        match self {
            BackgroundActivity::Idle => true,
            _ => false,
        }
    }

    /// The progress of a load, if one is running.
    pub open spec fn spec_loading_state(self) -> Option<FileProgress> {
        match self {
            BackgroundActivity::Loading(progress) => Some(progress),
            _ => None,
        }
    }

    /// The progress of a save, if one is running.
    pub open spec fn spec_save_state(self) -> Option<FileProgress> {
        match self {
            BackgroundActivity::Saving(progress) => Some(progress),
            _ => None,
        }
    }

    pub open spec fn spec_loading_phase(self) -> Option<LoadPhase> {
        match self {
            BackgroundActivity::Loading(progress) => progress.load_phase,
            _ => None,
        }
    }

    pub fn loading_state(&self) -> (progress: Option<&FileProgress>)
        ensures
            same_progress(progress, self.spec_loading_state()),
    {
        match self {
            BackgroundActivity::Loading(progress) => Some(progress),
            _ => None,
        }
    }

    pub fn loading_phase(&self) -> (phase: Option<LoadPhase>)
        ensures
            phase == self.spec_loading_phase(),
    {
        match self.loading_state() {
            Some(progress) => progress.load_phase(),
            None => None,
        }
    }

    pub fn save_state(&self) -> (progress: Option<&FileProgress>)
        ensures
            same_progress(progress, self.spec_save_state()),
    {
        match self {
            BackgroundActivity::Saving(progress) => Some(progress),
            _ => None,
        }
    }

    /// The progress of whatever is running.
    pub fn progress(&self) -> (progress: Option<&FileProgress>)
        ensures
            same_progress(
                progress,
                match self {
                    BackgroundActivity::Idle => None,
                    BackgroundActivity::Loading(progress) => Some(*progress),
                    BackgroundActivity::Saving(progress) => Some(*progress),
                },
            ),
    {
        match self {
            BackgroundActivity::Idle => None,
            BackgroundActivity::Loading(progress) => Some(progress),
            BackgroundActivity::Saving(progress) => Some(progress),
        }
    }
}

/// A reference to `own`, or none where there is none.
pub open spec fn same_progress(progress: Option<&FileProgress>, own: Option<FileProgress>) -> bool {
    match own {
        Some(own) => progress is Some && *progress->Some_0 == own,
        None => progress is None,
    }
}

/// What became of a background job.
#[derive(Clone, Copy, Debug, PartialEq, Eq, Hash, Structural)]
pub enum BackgroundIssueKind {
    LoadFailed,
    SaveFailed,
    LoadDiscarded,
    SaveDiscarded,
}

impl BackgroundIssueKind {
    pub open spec fn spec_is_load(self) -> bool {
        self is LoadFailed || self is LoadDiscarded
    }

    pub open spec fn spec_is_discarded(self) -> bool {
        self is LoadDiscarded || self is SaveDiscarded
    }

    pub fn is_load(self) -> (load: bool)
        ensures
            load == self.spec_is_load(),
    {
        match self {
            BackgroundIssueKind::LoadFailed | BackgroundIssueKind::LoadDiscarded => true,
            _ => false,
        }
    }

    pub fn is_save(self) -> (save: bool)
        ensures
            save == !self.spec_is_load(),
    {
        match self {
            BackgroundIssueKind::SaveFailed | BackgroundIssueKind::SaveDiscarded => true,
            _ => false,
        }
    }

    pub fn is_discarded(self) -> (discarded: bool)
        ensures
            discarded == self.spec_is_discarded(),
    {
        match self {
            BackgroundIssueKind::LoadDiscarded | BackgroundIssueKind::SaveDiscarded => true,
            _ => false,
        }
    }
}

/// The last problem of a background job.
#[derive(Clone, Debug, PartialEq, Eq)]
pub struct BackgroundIssue {
    pub kind: BackgroundIssueKind,
    pub path: String,
    pub message: String,
}

/// What a problem says, without the identity of its strings.
pub struct IssueView {
    pub kind: BackgroundIssueKind,
    pub path: Seq<char>,
    pub message: Seq<char>,
}

impl View for BackgroundIssue {
    type V = IssueView;

    open spec fn view(&self) -> IssueView {
        IssueView { kind: self.kind, path: self.path@, message: self.message@ }
    }
}

impl BackgroundIssue {
    pub fn new(kind: BackgroundIssueKind, path: String, message: String) -> (issue: BackgroundIssue)
        ensures
            issue@ == (IssueView { kind, path: path@, message: message@ }),
    {
        BackgroundIssue { kind, path, message }
    }

    pub fn kind(&self) -> (kind: BackgroundIssueKind)
        ensures
            kind == self@.kind,
    {
        self.kind
    }

    pub fn path(&self) -> (path: &str)
        ensures
            path@ == self@.path,
    {
        self.path.as_str()
    }

    pub fn message(&self) -> (message: &str)
        ensures
            message@ == self@.message,
    {
        self.message.as_str()
    }

    pub fn is_load(&self) -> (load: bool)
        ensures
            load == self@.kind.spec_is_load(),
    {
        self.kind.is_load()
    }

    pub fn is_save(&self) -> (save: bool)
        ensures
            save == !self@.kind.spec_is_load(),
    {
        self.kind.is_save()
    }

    pub fn is_discarded(&self) -> (discarded: bool)
        ensures
            discarded == self@.kind.spec_is_discarded(),
    {
        self.kind.is_discarded()
    }

    pub(crate) fn copy(&self) -> (issue: BackgroundIssue)
        ensures
            issue@ == self@,
    {
        BackgroundIssue {
            kind: self.kind,
            path: self.path.clone(),
            message: self.message.clone(),
        }
    }
}

/// What is kept of an error that a background job came to.
pub open spec fn issue_of(kind: BackgroundIssueKind, error: ErrorView) -> IssueView {
    match error {
        ErrorView::Open { path, source } => IssueView { kind, path, message: source },
        ErrorView::Mmap { path, source } => IssueView { kind, path, message: source },
        ErrorView::Write { path, source } => IssueView { kind, path, message: source },
        ErrorView::Encoding { path, operation, encoding, reason } => IssueView {
            kind,
            path,
            message: reason.spec_message(),
        },
        ErrorView::EditUnsupported { path, reason } => IssueView {
            kind,
            path: match path {
                Some(path) => path,
                None => Seq::empty(),
            },
            message: reason,
        },
    }
}

/// What is kept of an error that a background job came to.
pub fn background_issue_from_error(kind: BackgroundIssueKind, error: &DocumentError) -> (issue:
    BackgroundIssue)
    ensures
        issue@ == issue_of(kind, error@),
{
    match error {
        DocumentError::Open { path, source } => BackgroundIssue::new(
            kind,
            path.clone(),
            source.clone(),
        ),
        DocumentError::Mmap { path, source } => BackgroundIssue::new(
            kind,
            path.clone(),
            source.clone(),
        ),
        DocumentError::Write { path, source } => BackgroundIssue::new(
            kind,
            path.clone(),
            source.clone(),
        ),
        DocumentError::Encoding { path, operation: _, encoding: _, reason } => BackgroundIssue::new(
            kind,
            path.clone(),
            reason.message(),
        ),
        DocumentError::EditUnsupported { path, reason } => {
            let own = match path {
                Some(path) => path.clone(),
                None => {
                    let none = String::new();
                    assert(none@ =~= Seq::empty());
                    none
                },
            };
            BackgroundIssue::new(kind, own, String::from_str(reason))
        },
    }
}

/// What a front end is shown of a session.
#[derive(Clone, Debug, PartialEq, Eq)]
pub struct DocumentSessionStatus {
    pub generation: u64,
    pub document: DocumentStatus,
    pub background_activity: BackgroundActivity,
    pub background_issue: Option<BackgroundIssue>,
    pub close_pending: bool,
}

/// What a front end is shown of a tab.
#[derive(Clone, Debug, PartialEq, Eq)]
pub struct EditorTabStatus {
    pub id: u64,
    pub session: DocumentSessionStatus,
    pub cursor: CursorPosition,
    pub pinned: bool,
}

/// Why a save did not happen.
#[derive(Debug, PartialEq, Eq)]
pub enum SaveError {
    /// The document has no file.
    NoPath,
    /// A save is running.
    InProgress,
    /// The save failed.
    Io(DocumentError),
}

impl SaveError {
    /// What is shown to the user.
    pub open spec fn spec_message(self) -> Seq<char> {
        match self {
            SaveError::NoPath => "no path set for current document"@,
            SaveError::InProgress => "save already in progress"@,
            SaveError::Io(error) => error@.message(),
        }
    }

    pub fn message(&self) -> (text: String)
        ensures
            text@ == self.spec_message(),
    {
        match self {
            SaveError::NoPath => String::from_str("no path set for current document"),
            SaveError::InProgress => String::from_str("save already in progress"),
            SaveError::Io(error) => error.message(),
        }
    }

    /// The error that this one is due to.
    pub fn source(&self) -> (source: Option<&DocumentError>)
        ensures
            match self {
                SaveError::Io(error) => source is Some && *source->Some_0 == *error,
                _ => source is None,
            },
    {
        match self {
            SaveError::Io(error) => Some(error),
            _ => None,
        }
    }
}

impl DocumentSessionStatus {
    pub fn new(
        generation: u64,
        document: DocumentStatus,
        background_activity: BackgroundActivity,
        background_issue: Option<BackgroundIssue>,
        close_pending: bool,
    ) -> (status: DocumentSessionStatus)
        ensures
            status == (DocumentSessionStatus {
                generation,
                document,
                background_activity,
                background_issue,
                close_pending,
            }),
    {
        DocumentSessionStatus {
            generation,
            document,
            background_activity,
            background_issue,
            close_pending,
        }
    }

    pub fn generation(&self) -> (generation: u64)
        ensures
            generation == self.generation,
    {
        self.generation
    }

    pub fn document(&self) -> (document: &DocumentStatus)
        ensures
            *document == self.document,
    {
        &self.document
    }

    pub fn path(&self) -> (path: Option<&str>)
        ensures
            match self.document.path {
                Some(own) => path is Some && path->Some_0@ == own@,
                None => path is None,
            },
    {
        self.document.path()
    }

    pub fn is_dirty(&self) -> (dirty: bool)
        ensures
            dirty == self.document.dirty,
    {
        self.document.is_dirty()
    }

    pub fn line_count(&self) -> (count: LineCount)
        ensures
            count == self.document.line_count,
    {
        self.document.line_count()
    }

    pub fn display_line_count(&self) -> (rows: usize)
        ensures
            rows == self.document.line_count.spec_display_rows(),
    {
        self.document.display_line_count()
    }

    pub fn exact_line_count(&self) -> (lines: Option<usize>)
        ensures
            lines == self.document.line_count.spec_exact(),
    {
        self.document.exact_line_count()
    }

    pub fn is_line_count_exact(&self) -> (exact: bool)
        ensures
            exact == (self.document.line_count is Exact),
    {
        self.document.is_line_count_exact()
    }

    pub fn file_len(&self) -> (len: usize)
        ensures
            len == self.document.file_len,
    {
        self.document.file_len()
    }

    pub fn line_ending(&self) -> (ending: LineEnding)
        ensures
            ending == self.document.line_ending,
    {
        self.document.line_ending()
    }

    pub fn backing(&self) -> (backing: DocumentBacking)
        ensures
            backing == self.document.backing,
    {
        self.document.backing()
    }

    pub fn has_edit_buffer(&self) -> (has: bool)
        ensures
            has == !(self.document.backing is Mmap),
    {
        self.document.has_edit_buffer()
    }

    pub fn has_rope(&self) -> (has: bool)
        ensures
            has == (self.document.backing is Rope),
    {
        self.document.has_rope()
    }

    pub fn has_piece_table(&self) -> (has: bool)
        ensures
            has == (self.document.backing is PieceTable),
    {
        self.document.has_piece_table()
    }

    pub fn indexing_state(&self) -> (progress: Option<ByteProgress>)
        ensures
            progress == self.document.indexing,
    {
        self.document.indexing_state()
    }

    pub fn is_indexing(&self) -> (indexing: bool)
        ensures
            indexing == (self.document.indexing is Some),
    {
        self.document.is_indexing()
    }

    pub fn background_activity(&self) -> (activity: &BackgroundActivity)
        ensures
            *activity == self.background_activity,
    {
        &self.background_activity
    }

    pub fn background_issue(&self) -> (issue: Option<&BackgroundIssue>)
        ensures
            match self.background_issue {
                Some(own) => issue is Some && *issue->Some_0 == own,
                None => issue is None,
            },
    {
        match &self.background_issue {
            Some(issue) => Some(issue),
            None => None,
        }
    }

    /// `true` where the document will be closed when the running job is done.
    pub fn close_pending(&self) -> (pending: bool)
        ensures
            pending == self.close_pending,
    {
        self.close_pending
    }

    pub fn loading_state(&self) -> (progress: Option<&FileProgress>)
        ensures
            same_progress(progress, self.background_activity.spec_loading_state()),
    {
        self.background_activity.loading_state()
    }

    pub fn loading_phase(&self) -> (phase: Option<LoadPhase>)
        ensures
            phase == self.background_activity.spec_loading_phase(),
    {
        self.background_activity.loading_phase()
    }

    pub fn save_state(&self) -> (progress: Option<&FileProgress>)
        ensures
            same_progress(progress, self.background_activity.spec_save_state()),
    {
        self.background_activity.save_state()
    }

    pub fn is_busy(&self) -> (busy: bool)
        ensures
            busy == !(self.background_activity is Idle),
    {
        !self.background_activity.is_idle()
    }

    pub fn is_loading(&self) -> (loading: bool)
        ensures
            loading == (self.background_activity is Loading),
    {
        self.background_activity.loading_state().is_some()
    }

    pub fn is_saving(&self) -> (saving: bool)
        ensures
            saving == (self.background_activity is Saving),
    {
        self.background_activity.save_state().is_some()
    }
}

impl EditorTabStatus {
    pub fn new(id: u64, session: DocumentSessionStatus, cursor: CursorPosition, pinned: bool) -> (status:
        EditorTabStatus)
        ensures
            status == (EditorTabStatus { id, session, cursor, pinned }),
    {
        EditorTabStatus { id, session, cursor, pinned }
    }

    pub fn id(&self) -> (id: u64)
        ensures
            id == self.id,
    {
        self.id
    }

    pub fn session(&self) -> (session: &DocumentSessionStatus)
        ensures
            *session == self.session,
    {
        &self.session
    }

    pub fn generation(&self) -> (generation: u64)
        ensures
            generation == self.session.generation,
    {
        self.session.generation()
    }

    pub fn document(&self) -> (document: &DocumentStatus)
        ensures
            *document == self.session.document,
    {
        self.session.document()
    }

    pub fn path(&self) -> (path: Option<&str>)
        ensures
            match self.session.document.path {
                Some(own) => path is Some && path->Some_0@ == own@,
                None => path is None,
            },
    {
        self.session.path()
    }

    pub fn is_dirty(&self) -> (dirty: bool)
        ensures
            dirty == self.session.document.dirty,
    {
        self.session.is_dirty()
    }

    pub fn line_count(&self) -> (count: LineCount)
        ensures
            count == self.session.document.line_count,
    {
        self.session.line_count()
    }

    pub fn display_line_count(&self) -> (rows: usize)
        ensures
            rows == self.session.document.line_count.spec_display_rows(),
    {
        self.session.display_line_count()
    }

    pub fn exact_line_count(&self) -> (lines: Option<usize>)
        ensures
            lines == self.session.document.line_count.spec_exact(),
    {
        self.session.exact_line_count()
    }

    pub fn is_line_count_exact(&self) -> (exact: bool)
        ensures
            exact == (self.session.document.line_count is Exact),
    {
        self.session.is_line_count_exact()
    }

    pub fn file_len(&self) -> (len: usize)
        ensures
            len == self.session.document.file_len,
    {
        self.session.file_len()
    }

    pub fn line_ending(&self) -> (ending: LineEnding)
        ensures
            ending == self.session.document.line_ending,
    {
        self.session.line_ending()
    }

    pub fn backing(&self) -> (backing: DocumentBacking)
        ensures
            backing == self.session.document.backing,
    {
        self.session.backing()
    }

    pub fn has_edit_buffer(&self) -> (has: bool)
        ensures
            has == !(self.session.document.backing is Mmap),
    {
        self.session.has_edit_buffer()
    }

    pub fn has_rope(&self) -> (has: bool)
        ensures
            has == (self.session.document.backing is Rope),
    {
        self.session.has_rope()
    }

    pub fn has_piece_table(&self) -> (has: bool)
        ensures
            has == (self.session.document.backing is PieceTable),
    {
        self.session.has_piece_table()
    }

    pub fn background_activity(&self) -> (activity: &BackgroundActivity)
        ensures
            *activity == self.session.background_activity,
    {
        self.session.background_activity()
    }

    pub fn background_issue(&self) -> (issue: Option<&BackgroundIssue>)
        ensures
            match self.session.background_issue {
                Some(own) => issue is Some && *issue->Some_0 == own,
                None => issue is None,
            },
    {
        self.session.background_issue()
    }

    /// `true` where the document will be closed when the running job is done.
    pub fn close_pending(&self) -> (pending: bool)
        ensures
            pending == self.session.close_pending,
    {
        self.session.close_pending()
    }

    pub fn loading_state(&self) -> (progress: Option<&FileProgress>)
        ensures
            same_progress(progress, self.session.background_activity.spec_loading_state()),
    {
        self.session.loading_state()
    }

    pub fn loading_phase(&self) -> (phase: Option<LoadPhase>)
        ensures
            phase == self.session.background_activity.spec_loading_phase(),
    {
        self.session.loading_phase()
    }

    pub fn save_state(&self) -> (progress: Option<&FileProgress>)
        ensures
            same_progress(progress, self.session.background_activity.spec_save_state()),
    {
        self.session.save_state()
    }

    pub fn is_busy(&self) -> (busy: bool)
        ensures
            busy == !(self.session.background_activity is Idle),
    {
        self.session.is_busy()
    }

    pub fn is_loading(&self) -> (loading: bool)
        ensures
            loading == (self.session.background_activity is Loading),
    {
        self.session.is_loading()
    }

    pub fn is_saving(&self) -> (saving: bool)
        ensures
            saving == (self.session.background_activity is Saving),
    {
        self.session.is_saving()
    }

    pub fn cursor(&self) -> (cursor: CursorPosition)
        ensures
            cursor == self.cursor,
    {
        self.cursor
    }

    pub fn is_pinned(&self) -> (pinned: bool)
        ensures
            pinned == self.pinned,
    {
        self.pinned
    }
}

} // verus!
