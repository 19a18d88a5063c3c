//! A tab: a session with a cursor.

use crate::document::matches::LiteralSearchIter;
use crate::document::piece_table::SMALL_PIECE_THRESHOLD_BYTES;
use crate::document::search::LiteralSearchQuery;
use crate::document::state::{preserve_error_is, Document};
use crate::document::state_laws::law_new_document;
use crate::document::status::{
    CompactionRecommendation, DocumentEncodingErrorKind, DocumentError, DocumentMaintenanceStatus,
    ErrorView, FragmentationStats, IdleCompactionOutcome, MaintenanceAction,
};
use crate::document::types::{
    ByteProgress, CutResult, DocumentEncoding, DocumentSaveOptions, EditCapability, EditResult,
    LineCount, LineEnding, SearchMatch, TextPosition, TextRange, TextSelection, TextSlice, Viewport,
    ViewportRequest,
};
use crate::editor::session_core::{phase_of, plain_result, JobPoll, SaveCompletion, SessionCore};
use crate::editor::types::{
    cursor_at, law_cursor_from_one, law_cursor_round_trip, BackgroundActivity, BackgroundIssue, CursorPosition,
    EditorTabStatus, FileProgress, LoadPhase, SaveError,
};
use vstd::prelude::*;
use vstd::string::*;
use vstd::utf8::encode_utf8;

verus! {

/// A document with its background jobs, a cursor and a pin.
#[derive(Debug)]
pub struct EditorTab {
    pub id: u64,
    pub core: SessionCore,
    pub cursor: CursorPosition,
    pub pinned: bool,
}

impl EditorTab {
    pub open spec fn wf(self) -> bool {
        self.core.wf()
    }

    pub fn new(id: u64) -> (tab: EditorTab)
        ensures
            tab.wf(),
            tab.id == id,
            tab.core.doc.is_new(),
            tab.core.generation == 0,
            !tab.core.spec_busy(),
            tab.core.last_background_issue is None,
            tab.cursor == cursor_at(1, 1),
            !tab.pinned,
    {
        EditorTab {
            id,
            core: SessionCore::new(),
            cursor: CursorPosition::default(),
            pinned: false,
        }
    }

    pub fn id(&self) -> (id: u64)
        ensures
            id == self.id,
    {
        self.id
    }

    /// Counts the times that the document was replaced.
    pub fn generation(&self) -> (generation: u64)
        ensures
            generation == self.core.generation,
    {
        self.core.generation()
    }

    pub fn is_saving(&self) -> (saving: bool)
        ensures
            saving == (self.core.save_job is Some),
    {
        self.core.is_saving()
    }

    pub fn is_busy(&self) -> (busy: bool)
        ensures
            busy == self.core.spec_busy(),
    {
        self.core.is_busy()
    }

    pub fn is_indexing(&self) -> (indexing: bool)
        ensures
            indexing == self.core.doc.spec_indexing(),
    {
        self.core.document().is_indexing()
    }

    pub fn is_loading(&self) -> (loading: bool)
        ensures
            loading == (self.core.load_job is Some),
    {
        self.core.is_loading()
    }

    pub fn indexing_progress(&self) -> (progress: Option<(usize, usize)>)
        ensures
            progress == (match self.core.doc.spec_indexing_state() {
                Some(state) => Some((state.completed_bytes, state.total_bytes)),
                None => None,
            }),
    {
        self.core.indexing_progress()
    }

    pub fn indexing_state(&self) -> (progress: Option<ByteProgress>)
        ensures
            progress == self.core.doc.spec_indexing_state(),
    {
        self.core.indexing_state()
    }

    pub fn loading_state(&self) -> (progress: Option<FileProgress>)
        ensures
            match self.core.spec_loading_state() {
                Some(view) => progress is Some && progress->Some_0@ == view,
                None => progress is None,
            },
    {
        self.core.loading_state()
    }

    pub fn loading_phase(&self) -> (phase: Option<LoadPhase>)
        ensures
            phase == (match self.core.load_job {
                Some(job) => Some(phase_of(job.phase)),
                None => None,
            }),
    {
        self.core.loading_phase()
    }

    pub fn loading_progress(&self) -> (progress: Option<(u64, u64, String)>)
        ensures
            match self.core.spec_loading_state() {
                Some(view) => progress is Some && progress->Some_0.0 == view.completed_bytes
                    && progress->Some_0.1 == view.total_bytes && progress->Some_0.2@ == view.path,
                None => progress is None,
            },
    {
        self.core.loading_progress()
    }

    pub fn save_state(&self) -> (progress: Option<FileProgress>)
        ensures
            match self.core.spec_save_state() {
                Some(view) => progress is Some && progress->Some_0@ == view,
                None => progress is None,
            },
    {
        self.core.save_state()
    }

    pub fn save_progress(&self) -> (progress: Option<(u64, u64, String)>)
        ensures
            match self.core.spec_save_state() {
                Some(view) => progress is Some && progress->Some_0.0 == view.completed_bytes
                    && progress->Some_0.1 == view.total_bytes && progress->Some_0.2@ == view.path,
                None => progress is None,
            },
    {
        self.core.save_progress()
    }

    pub fn document(&self) -> (doc: &Document)
        ensures
            *doc == self.core.doc,
    {
        self.core.document()
    }

    /// The document, to be changed. The result of a running job is outdated from then on, and
    /// a close that waits for it is given up.
    pub fn document_mut(&mut self) -> (doc: &mut Document)
        ensures
            *doc == old(self).core.doc,
            *final(self) == (EditorTab {
                core: SessionCore { doc: *final(doc), ..old(self).core.with_change_noted() },
                ..*old(self)
            }),
    {
        self.core.document_mut()
    }

    pub fn text(&self) -> (text: String)
        requires
            self.wf(),
            self.core.doc.stored().len() <= isize::MAX / 3,
            self.core.doc.text().len() <= isize::MAX / 3,
        ensures
            self.core.doc.is_whole_text(text@),
    {
        self.core.document().text_lossy()
    }

    pub fn current_path(&self) -> (path: Option<&str>)
        ensures
            match self.core.doc.path {
                Some(own) => path is Some && path->Some_0@ == own@,
                None => path is None,
            },
    {
        self.core.current_path()
    }

    pub fn is_dirty(&self) -> (dirty: bool)
        ensures
            dirty == self.core.doc.dirty,
    {
        self.core.is_dirty()
    }

    pub fn line_count(&self) -> (count: LineCount)
        requires
            self.wf(),
        ensures
            count == self.core.doc.spec_line_count(),
            count is Exact ==> count->Exact_0 > 0,
    {
        self.core.document().line_count()
    }

    pub fn exact_line_count(&self) -> (lines: Option<usize>)
        requires
            self.wf(),
        ensures
            lines == self.core.doc.spec_exact_line_count(),
            lines is Some ==> lines->Some_0 > 0,
    {
        self.core.document().exact_line_count()
    }

    pub fn display_line_count(&self) -> (rows: usize)
        requires
            self.wf(),
        ensures
            rows == self.core.doc.spec_line_count().spec_display_rows(),
    {
        self.core.document().display_line_count()
    }

    pub fn is_line_count_exact(&self) -> (exact: bool)
        requires
            self.wf(),
        ensures
            exact == (self.core.doc.spec_exact_line_count() is Some),
    {
        self.core.document().is_line_count_exact()
    }

    pub fn file_len(&self) -> (len: usize)
        requires
            self.wf(),
        ensures
            len == self.core.doc.spec_file_len(),
    {
        self.core.document().file_len()
    }

    pub fn line_ending(&self) -> (ending: LineEnding)
        ensures
            ending == self.core.doc.line_ending,
    {
        self.core.document().line_ending()
    }

    pub fn line_len_chars(&self, line0: usize) -> (cols: usize)
        requires
            self.wf(),
        ensures
            cols == self.core.doc.spec_line_len(line0),
    {
        self.core.document().line_len_chars(line0)
    }

    pub fn is_pinned(&self) -> (pinned: bool)
        ensures
            pinned == self.pinned,
    {
        self.pinned
    }

    pub fn toggle_pinned(&mut self)
        ensures
            *final(self) == (EditorTab { pinned: !old(self).pinned, ..*old(self) }),
    {
        self.pinned = !self.pinned;
    }

    pub fn cursor(&self) -> (cursor: CursorPosition)
        ensures
            cursor == self.cursor,
    {
        self.cursor
    }

    pub fn cursor_position(&self) -> (position: TextPosition)
        ensures
            position == self.cursor.spec_text_position(),
    {
        self.cursor.to_text_position()
    }

    /// This tab after an edit that has left its session as `core` is, with the cursor where the
    /// edit has put it; an edit that was not made leaves the cursor.
    pub open spec fn after_edit(self, core: SessionCore, cursor: Option<TextPosition>) -> EditorTab {
        EditorTab {
            core,
            cursor: match cursor {
                Some(position) => CursorPosition::at_text_position(position),
                None => self.cursor,
            },
            ..self
        }
    }

    /// Sets the cursor, with lines and columns counted from one.
    pub fn set_cursor_line_col(&mut self, line: usize, column: usize)
        ensures
            *final(self) == (EditorTab { cursor: cursor_at(line, column), ..*old(self) }),
    {
        self.cursor = CursorPosition::new(line, column);
    }

    /// Sets the cursor to the place that `position` means in the document.
    pub fn set_cursor_position(&mut self, position: TextPosition)
        requires
            old(self).wf(),
        ensures
            *final(self) == (EditorTab {
                cursor: CursorPosition::at_text_position(old(self).core.doc.spec_clamp(position)),
                ..*old(self)
            }),
    {
        self.cursor = CursorPosition::from_text_position(self.clamp_position(position));
    }

    /// Sets the cursor in front of the character with this index.
    pub fn update_cursor_char_index(&mut self, char_index: usize)
        requires
            old(self).wf(),
        ensures
            *final(self) == (EditorTab {
                cursor: CursorPosition::at_text_position(
                    old(self).core.doc.spec_position_of_index(char_index),
                ),
                ..*old(self)
            }),
    {
        self.cursor = CursorPosition::from_text_position(self.position_for_char_index(char_index));
    }

    pub fn clamp_position(&self, position: TextPosition) -> (clamped: TextPosition)
        requires
            self.wf(),
        ensures
            clamped == self.core.doc.spec_clamp(position),
    {
        self.core.document().clamp_position(position)
    }

    pub fn position_for_char_index(&self, char_index: usize) -> (position: TextPosition)
        requires
            self.wf(),
        ensures
            position == self.core.doc.spec_position_of_index(char_index),
    {
        self.core.document().position_for_char_index(char_index)
    }

    pub fn char_index_for_position(&self, position: TextPosition) -> (index: usize)
        requires
            self.wf(),
        ensures
            index == self.core.doc.spec_index_of_position(position),
    {
        self.core.document().char_index_for_position(position)
    }

    pub fn ordered_positions(
        &self,
        first: TextPosition,
        second: TextPosition,
    ) -> (pair: (TextPosition, TextPosition))
        requires
            self.wf(),
        ensures
            pair == self.core.doc.spec_ordered(first, second),
    {
        self.core.document().ordered_positions(first, second)
    }

    pub fn clamp_selection(&self, selection: TextSelection) -> (clamped: TextSelection)
        requires
            self.wf(),
        ensures
            clamped == (TextSelection {
                anchor: self.core.doc.spec_clamp(selection.anchor),
                head: self.core.doc.spec_clamp(selection.head),
            }),
    {
        self.core.document().clamp_selection(selection)
    }

    pub fn text_units_between(&self, start: TextPosition, end: TextPosition) -> (units: usize)
        requires
            self.wf(),
        ensures
            units == self.core.doc.spec_units_between(start, end),
    {
        self.core.document().text_units_between(start, end)
    }

    pub fn text_range_between(&self, start: TextPosition, end: TextPosition) -> (range: TextRange)
        requires
            self.wf(),
        ensures
            range == self.core.doc.spec_selection_range(
                TextSelection { anchor: start, head: end },
            ),
    {
        self.core.document().text_range_between(start, end)
    }

    pub fn text_range_for_selection(&self, selection: TextSelection) -> (range: TextRange)
        requires
            self.wf(),
        ensures
            range == self.core.doc.spec_selection_range(selection),
    {
        self.core.document().text_range_for_selection(selection)
    }

    pub fn read_text(&self, range: TextRange) -> (slice: TextSlice)
        requires
            self.wf(),
            self.core.doc.text().len() <= isize::MAX / 3,
        ensures
            self.core.doc.is_range_text(range, slice),
    {
        self.core.document().read_text(range)
    }

    pub fn read_selection(&self, selection: TextSelection) -> (slice: TextSlice)
        requires
            self.wf(),
            self.core.doc.text().len() <= isize::MAX / 3,
        ensures
            self.core.doc.is_selection_text(selection, slice),
    {
        self.core.document().read_selection(selection)
    }

    pub fn fragmentation_stats(&self) -> (stats: Option<FragmentationStats>)
        requires
            self.wf(),
        ensures
            stats == self.core.doc.spec_fragmentation(SMALL_PIECE_THRESHOLD_BYTES),
    {
        self.core.document().fragmentation_stats()
    }

    pub fn fragmentation_stats_with_threshold(
        &self,
        small_piece_threshold_bytes: usize,
    ) -> (stats: Option<FragmentationStats>)
        requires
            self.wf(),
        ensures
            stats == self.core.doc.spec_fragmentation(small_piece_threshold_bytes),
    {
        self.core.document().fragmentation_stats_with_threshold(small_piece_threshold_bytes)
    }

    pub fn maintenance_status(
        &self,
        recommendation: Option<CompactionRecommendation>,
    ) -> (status: DocumentMaintenanceStatus)
        requires
            self.wf(),
        ensures
            status == self.core.doc.spec_maintenance(SMALL_PIECE_THRESHOLD_BYTES, recommendation),
    {
        self.core.document().maintenance_status(recommendation)
    }

    pub fn maintenance_action(
        &self,
        recommendation: Option<CompactionRecommendation>,
    ) -> (action: MaintenanceAction)
        requires
            self.wf(),
        ensures
            action == self.core.doc.spec_maintenance(
                SMALL_PIECE_THRESHOLD_BYTES,
                recommendation,
            ).spec_recommended_action(),
    {
        self.core.document().maintenance_action(recommendation)
    }

    pub fn maintenance_status_with_policy(
        &self,
        small_piece_threshold_bytes: usize,
        recommendation: Option<CompactionRecommendation>,
    ) -> (status: DocumentMaintenanceStatus)
        requires
            self.wf(),
        ensures
            status == self.core.doc.spec_maintenance(small_piece_threshold_bytes, recommendation),
    {
        self.core.document().maintenance_status_with_policy(small_piece_threshold_bytes, recommendation)
    }

    pub fn maintenance_action_with_policy(
        &self,
        small_piece_threshold_bytes: usize,
        recommendation: Option<CompactionRecommendation>,
    ) -> (action: MaintenanceAction)
        requires
            self.wf(),
        ensures
            action == self.core.doc.spec_maintenance(
                small_piece_threshold_bytes,
                recommendation,
            ).spec_recommended_action(),
    {
        self.core.document().maintenance_action_with_policy(small_piece_threshold_bytes, recommendation)
    }

    pub fn find_next(&self, needle: &str, from: TextPosition) -> (found: Option<SearchMatch>)
        requires
            self.wf(),
        ensures
            found == self.core.doc.spec_find_next(encode_utf8(needle@), from),
    {
        self.core.document().find_next(needle, from)
    }

    pub fn find_prev(&self, needle: &str, before: TextPosition) -> (found: Option<SearchMatch>)
        requires
            self.wf(),
        ensures
            found == self.core.doc.spec_find_prev(encode_utf8(needle@), before),
    {
        self.core.document().find_prev(needle, before)
    }

    pub fn find_next_in_range(&self, needle: &str, range: TextRange) -> (found: Option<SearchMatch>)
        requires
            self.wf(),
        ensures
            found == self.core.doc.spec_find_next_bounded(
                encode_utf8(needle@),
                self.core.doc.spec_range_bounds(range),
            ),
    {
        self.core.document().find_next_in_range(needle, range)
    }

    pub fn find_next_between(
        &self,
        needle: &str,
        start: TextPosition,
        end: TextPosition,
    ) -> (found: Option<SearchMatch>)
        requires
            self.wf(),
        ensures
            found == self.core.doc.spec_find_next_bounded(
                encode_utf8(needle@),
                self.core.doc.spec_ordered(start, end),
            ),
    {
        self.core.document().find_next_between(needle, start, end)
    }

    pub fn find_prev_in_range(&self, needle: &str, range: TextRange) -> (found: Option<SearchMatch>)
        requires
            self.wf(),
        ensures
            found == self.core.doc.spec_find_prev_bounded(
                encode_utf8(needle@),
                self.core.doc.spec_range_bounds(range),
            ),
    {
        self.core.document().find_prev_in_range(needle, range)
    }

    pub fn find_prev_between(
        &self,
        needle: &str,
        start: TextPosition,
        end: TextPosition,
    ) -> (found: Option<SearchMatch>)
        requires
            self.wf(),
        ensures
            found == self.core.doc.spec_find_prev_bounded(
                encode_utf8(needle@),
                self.core.doc.spec_ordered(start, end),
            ),
    {
        self.core.document().find_prev_between(needle, start, end)
    }

    pub fn find_all(&self, needle: &str) -> (iter: LiteralSearchIter<'_>)
        requires
            self.wf(),
        ensures
            iter.wf(),
            iter.cursor() == self.core.doc.spec_cursor(
                encode_utf8(needle@),
                TextPosition { line0: 0, col0: 0 },
                None,
            ),
    {
        self.core.document().find_all(needle)
    }

    pub fn find_all_from(&self, needle: &str, from: TextPosition) -> (iter: LiteralSearchIter<'_>)
        requires
            self.wf(),
        ensures
            iter.wf(),
            iter.cursor() == self.core.doc.spec_cursor(encode_utf8(needle@), from, None),
    {
        self.core.document().find_all_from(needle, from)
    }

    pub fn find_all_in_range(&self, needle: &str, range: TextRange) -> (iter: LiteralSearchIter<'_>)
        requires
            self.wf(),
        ensures
            iter.wf(),
            iter.cursor() == self.core.doc.spec_cursor_between(
                encode_utf8(needle@),
                self.core.doc.spec_range_bounds(range),
            ),
    {
        self.core.document().find_all_in_range(needle, range)
    }

    pub fn find_all_between(
        &self,
        needle: &str,
        start: TextPosition,
        end: TextPosition,
    ) -> (iter: LiteralSearchIter<'_>)
        requires
            self.wf(),
        ensures
            iter.wf(),
            iter.cursor() == self.core.doc.spec_cursor_between(encode_utf8(needle@), (start, end)),
    {
        self.core.document().find_all_between(needle, start, end)
    }

    pub fn find_next_query(
        &self,
        query: &LiteralSearchQuery,
        from: TextPosition,
    ) -> (found: Option<SearchMatch>)
        requires
            self.wf(),
        ensures
            found == self.core.doc.spec_find_next(encode_utf8(query.spec_needle()), from),
    {
        self.core.document().find_next_query(query, from)
    }

    pub fn find_prev_query(
        &self,
        query: &LiteralSearchQuery,
        before: TextPosition,
    ) -> (found: Option<SearchMatch>)
        requires
            self.wf(),
        ensures
            found == self.core.doc.spec_find_prev(encode_utf8(query.spec_needle()), before),
    {
        self.core.document().find_prev_query(query, before)
    }

    pub fn find_next_query_in_range(
        &self,
        query: &LiteralSearchQuery,
        range: TextRange,
    ) -> (found: Option<SearchMatch>)
        requires
            self.wf(),
        ensures
            found == self.core.doc.spec_find_next_bounded(
                encode_utf8(query.spec_needle()),
                self.core.doc.spec_range_bounds(range),
            ),
    {
        self.core.document().find_next_query_in_range(query, range)
    }

    pub fn find_next_query_between(
        &self,
        query: &LiteralSearchQuery,
        start: TextPosition,
        end: TextPosition,
    ) -> (found: Option<SearchMatch>)
        requires
            self.wf(),
        ensures
            found == self.core.doc.spec_find_next_bounded(
                encode_utf8(query.spec_needle()),
                self.core.doc.spec_ordered(start, end),
            ),
    {
        self.core.document().find_next_query_between(query, start, end)
    }

    pub fn find_prev_query_in_range(
        &self,
        query: &LiteralSearchQuery,
        range: TextRange,
    ) -> (found: Option<SearchMatch>)
        requires
            self.wf(),
        ensures
            found == self.core.doc.spec_find_prev_bounded(
                encode_utf8(query.spec_needle()),
                self.core.doc.spec_range_bounds(range),
            ),
    {
        self.core.document().find_prev_query_in_range(query, range)
    }

    pub fn find_prev_query_between(
        &self,
        query: &LiteralSearchQuery,
        start: TextPosition,
        end: TextPosition,
    ) -> (found: Option<SearchMatch>)
        requires
            self.wf(),
        ensures
            found == self.core.doc.spec_find_prev_bounded(
                encode_utf8(query.spec_needle()),
                self.core.doc.spec_ordered(start, end),
            ),
    {
        self.core.document().find_prev_query_between(query, start, end)
    }

    pub fn find_all_query(&self, query: &LiteralSearchQuery) -> (iter: LiteralSearchIter<'_>)
        requires
            self.wf(),
        ensures
            iter.wf(),
            iter.cursor() == self.core.doc.spec_cursor(
                encode_utf8(query.spec_needle()),
                TextPosition { line0: 0, col0: 0 },
                None,
            ),
    {
        self.core.document().find_all_query(query)
    }

    pub fn find_all_query_from(
        &self,
        query: &LiteralSearchQuery,
        from: TextPosition,
    ) -> (iter: LiteralSearchIter<'_>)
        requires
            self.wf(),
        ensures
            iter.wf(),
            iter.cursor() == self.core.doc.spec_cursor(encode_utf8(query.spec_needle()), from, None),
    {
        self.core.document().find_all_query_from(query, from)
    }

    pub fn find_all_query_in_range(
        &self,
        query: &LiteralSearchQuery,
        range: TextRange,
    ) -> (iter: LiteralSearchIter<'_>)
        requires
            self.wf(),
        ensures
            iter.wf(),
            iter.cursor() == self.core.doc.spec_cursor_between(
                encode_utf8(query.spec_needle()),
                self.core.doc.spec_range_bounds(range),
            ),
    {
        self.core.document().find_all_query_in_range(query, range)
    }

    pub fn find_all_query_between(
        &self,
        query: &LiteralSearchQuery,
        start: TextPosition,
        end: TextPosition,
    ) -> (iter: LiteralSearchIter<'_>)
        requires
            self.wf(),
        ensures
            iter.wf(),
            iter.cursor() == self.core.doc.spec_cursor_between(
                encode_utf8(query.spec_needle()),
                (start, end),
            ),
    {
        self.core.document().find_all_query_between(query, start, end)
    }

    /// Why a save in the same encoding would fail, if it would.
    pub fn preserve_save_error(&self) -> (error: Option<DocumentEncodingErrorKind>)
        requires
            self.wf(),
        ensures
            preserve_error_is(self.core.doc.spec_preserve_error(), error),
    {
        self.core.document().preserve_save_error()
    }

    pub fn can_preserve_save(&self) -> (can: bool)
        requires
            self.wf(),
        ensures
            can == (self.core.doc.spec_preserve_error() is Nothing),
    {
        self.core.document().can_preserve_save()
    }

    /// Why a save with these options would fail, if it would.
    pub fn save_error_for_options(
        &self,
        options: DocumentSaveOptions,
    ) -> (error: Option<DocumentEncodingErrorKind>)
        requires
            self.wf(),
            options.encoding_policy is Convert ==> self.core.doc.fits_encoder(),
        ensures
            preserve_error_is(self.core.doc.spec_save_error(options), error),
    {
        self.core.document().save_error_for_options(options)
    }

    pub fn can_save_with_options(&self, options: DocumentSaveOptions) -> (can: bool)
        requires
            self.wf(),
            options.encoding_policy is Convert ==> self.core.doc.fits_encoder(),
        ensures
            can == (self.core.doc.spec_save_error(options) is Nothing),
    {
        self.core.document().can_save_with_options(options)
    }

    /// Why a save in another encoding would fail, if it would.
    pub fn save_error_for_encoding(
        &self,
        encoding: DocumentEncoding,
    ) -> (error: Option<DocumentEncodingErrorKind>)
        requires
            self.wf(),
            self.core.doc.fits_encoder(),
        ensures
            preserve_error_is(self.core.doc.spec_encoding_error(encoding@), error),
    {
        self.core.document().save_error_for_encoding(encoding)
    }

    pub fn can_save_with_encoding(&self, encoding: DocumentEncoding) -> (can: bool)
        requires
            self.wf(),
            self.core.doc.fits_encoder(),
        ensures
            can == (self.core.doc.spec_encoding_error(encoding@) is Nothing),
    {
        self.core.document().can_save_with_encoding(encoding)
    }

    pub fn background_activity(&self) -> (activity: BackgroundActivity)
        ensures
            self.core.is_activity(activity),
    {
        self.core.background_activity()
    }

    pub fn background_issue(&self) -> (issue: Option<&BackgroundIssue>)
        ensures
            match self.core.last_background_issue {
                Some(own) => issue is Some && *issue->Some_0 == own,
                None => issue is None,
            },
    {
        self.core.background_issue()
    }

    /// `true` where the document will be closed when the running job is done.
    pub fn close_pending(&self) -> (pending: bool)
        ensures
            pending == self.core.close_after_job,
    {
        self.core.close_pending()
    }

    pub fn status(&self) -> (status: EditorTabStatus)
        requires
            self.wf(),
        ensures
            status.id == self.id,
            self.core.is_status(status.session),
            status.cursor == self.cursor,
            status.pinned == self.pinned,
    {
        EditorTabStatus::new(self.id, self.core.status(), self.cursor, self.pinned)
    }

    /// Hands out the last problem of a background job and forgets it.
    pub fn take_background_issue(&mut self) -> (issue: Option<BackgroundIssue>)
        ensures
            issue == old(self).core.last_background_issue,
            *final(self) == (EditorTab {
                core: SessionCore { last_background_issue: None, ..old(self).core },
                ..*old(self)
            }),
    {
        self.core.take_background_issue()
    }

    /// The cursor goes back to the start when a job has left an empty document.
    pub open spec fn spec_resets_cursor(
        core: SessionCore,
        result: Option<Result<(), DocumentError>>,
    ) -> bool {
        result is Some && !core.close_after_job && core.spec_empty_document()
    }

    /// Where the cursor is after a job: at the start where a file has been loaded or the
    /// document has been closed, and else where it was.
    pub open spec fn cursor_after_job(
        self,
        was_load: bool,
        core: SessionCore,
        result: Option<Result<(), DocumentError>>,
    ) -> CursorPosition {
        if (was_load && result == Some(Ok::<(), DocumentError>(())))
            || EditorTab::spec_resets_cursor(core, result) {
            cursor_at(1, 1)
        } else {
            self.cursor
        }
    }

    fn should_reset_cursor_after_job(&self, result: &Option<Result<(), DocumentError>>) -> (reset:
        bool)
        requires
            self.wf(),
        ensures
            reset == EditorTab::spec_resets_cursor(self.core, *result),
    {
        result.is_some() && !self.core.close_pending() && self.core.is_empty_document()
    }

    /// Takes over what the worker of the running load says.
    pub fn poll_load_job(&mut self, event: JobPoll<Document>) -> (result: Option<
        Result<(), DocumentError>,
    >)
        requires
            old(self).wf(),
            event is Done && event->Done_0 is Ok ==> event->Done_0->Ok_0.wf(),
        ensures
            final(self).wf(),
            old(self).core.loads_to(event, final(self).core, result),
            *final(self) == (EditorTab {
                core: final(self).core,
                cursor: old(self).cursor_after_job(true, final(self).core, result),
                ..*old(self)
            }),
    {
        let result = self.core.poll_load_job(event);
        let loaded = match &result {
            Some(Ok(())) => true,
            _ => false,
        };
        if loaded || self.should_reset_cursor_after_job(&result) {
            self.cursor = CursorPosition::default();
        }
        result
    }

    /// Takes over what the worker of the running save says. `finish_save` gives the document
    /// as it is after the save.
    pub fn poll_save_job<F: FnOnce(&Document, &SaveCompletion) -> Result<Document, DocumentError>>(
        &mut self,
        event: JobPoll<SaveCompletion>,
        finish_save: F,
    ) -> (result: Option<Result<(), DocumentError>>)
        requires
            old(self).wf(),
            old(self).core.must_finish(event) ==> call_requires(
                finish_save,
                (&old(self).core.doc, &event->Done_0->Ok_0),
            ),
            old(self).core.must_finish(event) ==> forall|doc: Document|
                #[trigger] call_ensures(
                    finish_save,
                    (&old(self).core.doc, &event->Done_0->Ok_0),
                    Ok::<Document, DocumentError>(doc),
                ) ==> doc.wf(),
        ensures
            final(self).wf(),
            !old(self).core.must_finish(event) ==> old(self).core.saves_to(
                event,
                final(self).core,
                result,
            ),
            old(self).core.must_finish(event) ==> exists|outcome: Result<Document, DocumentError>|
                #[trigger] call_ensures(
                    finish_save,
                    (&old(self).core.doc, &event->Done_0->Ok_0),
                    outcome,
                ) && old(self).core.finishes_to(outcome, final(self).core, result),
            *final(self) == (EditorTab {
                core: final(self).core,
                cursor: old(self).cursor_after_job(false, final(self).core, result),
                ..*old(self)
            }),
    {
        let result = self.core.poll_save_job(event, finish_save);
        if self.should_reset_cursor_after_job(&result) {
            self.cursor = CursorPosition::default();
        }
        result
    }

    /// Takes over what the worker of the running job says, whichever it is.
    pub fn poll_background_job<
        F: FnOnce(&Document, &SaveCompletion) -> Result<Document, DocumentError>,
    >(
        &mut self,
        load_event: JobPoll<Document>,
        save_event: JobPoll<SaveCompletion>,
        finish_save: F,
    ) -> (result: Option<Result<(), DocumentError>>)
        requires
            old(self).wf(),
            load_event is Done && load_event->Done_0 is Ok ==> load_event->Done_0->Ok_0.wf(),
            old(self).core.must_finish(save_event) ==> call_requires(
                finish_save,
                (&old(self).core.doc, &save_event->Done_0->Ok_0),
            ),
            old(self).core.must_finish(save_event) ==> forall|doc: Document|
                #[trigger] call_ensures(
                    finish_save,
                    (&old(self).core.doc, &save_event->Done_0->Ok_0),
                    Ok::<Document, DocumentError>(doc),
                ) ==> doc.wf(),
        ensures
            final(self).wf(),
            old(self).core.load_job is Some ==> old(self).core.loads_to(
                load_event,
                final(self).core,
                result,
            ),
            old(self).core.load_job is None && !old(self).core.must_finish(save_event) ==> old(
                self,
            ).core.saves_to(save_event, final(self).core, result),
            old(self).core.must_finish(save_event) ==> exists|
                outcome: Result<Document, DocumentError>,
            |
                #[trigger] call_ensures(
                    finish_save,
                    (&old(self).core.doc, &save_event->Done_0->Ok_0),
                    outcome,
                ) && old(self).core.finishes_to(outcome, final(self).core, result),
            *final(self) == (EditorTab {
                core: final(self).core,
                cursor: old(self).cursor_after_job(
                    old(self).core.load_job is Some,
                    final(self).core,
                    result,
                ),
                ..*old(self)
            }),
    {
        if self.core.is_loading() {
            return self.poll_load_job(load_event);
        }
        self.poll_save_job(save_event, finish_save)
    }

    /// Opens a file in place of the document and puts the cursor to its start, if nothing is
    /// running. `open` reads the file.
    pub fn open_file<F: FnOnce(&String) -> Result<Document, DocumentError>>(
        &mut self,
        path: String,
        open: F,
    ) -> (result: Result<(), DocumentError>)
        requires
            old(self).wf(),
            !old(self).core.spec_busy() ==> call_requires(open, (&path,)),
            forall|doc: Document|
                #[trigger] call_ensures(open, (&path,), Ok::<Document, DocumentError>(doc))
                    ==> doc.wf(),
        ensures
            final(self).wf(),
            old(self).core.opens_to(path, open, final(self).core, result),
            *final(self) == (EditorTab {
                core: final(self).core,
                cursor: if result is Ok {
                    cursor_at(1, 1)
                } else {
                    old(self).cursor
                },
                ..*old(self)
            }),
    {
        match self.core.open_file(path, open) {
            Ok(()) => {
                self.cursor = CursorPosition::default();
                Ok(())
            },
            Err(error) => Err(error),
        }
    }

    /// Notes that a file of `total_bytes` is being opened in the background, if nothing else
    /// is running.
    pub fn open_file_async(&mut self, path: String, total_bytes: u64) -> (result: Result<
        (),
        DocumentError,
    >)
        requires
            old(self).wf(),
        ensures
            final(self).wf(),
            *final(self) == (EditorTab { core: final(self).core, ..*old(self) }),
            match old(self).core.spec_open_refusal(path@, "load already in progress"@) {
                Some(error) => result is Err && result->Err_0@ == error && final(self).core == old(
                    self,
                ).core,
                None => result is Ok && final(self).core == old(self).core.with_load_started(
                    path,
                    total_bytes,
                ),
            },
    {
        self.core.open_file_async(path, total_bytes)
    }

    /// Closes the document, or notes that it is to be closed when the running job is done.
    pub fn close_file(&mut self)
        requires
            old(self).wf(),
        ensures
            final(self).wf(),
            old(self).core.spec_busy() ==> *final(self) == (EditorTab {
                core: old(self).core.with_close_noted(),
                ..*old(self)
            }),
            !old(self).core.spec_busy() ==> old(self).core.closes_to(final(self).core)
                && *final(self) == (EditorTab {
                core: final(self).core,
                cursor: cursor_at(1, 1),
                ..*old(self)
            }),
    {
        if self.core.close_file() {
            self.cursor = CursorPosition::default();
        }
    }

    /// Marks a document clean that was clean when it was opened.
    pub fn after_text_edit_frame(&mut self)
        requires
            old(self).wf(),
        ensures
            final(self).wf(),
            *final(self) == (EditorTab { core: old(self).core.with_frame_drawn(), ..*old(self) }),
    {
        self.core.after_document_frame();
    }

    pub fn cancel_clear_dirty_after_open(&mut self)
        ensures
            old(self).wf() ==> final(self).wf(),
            *final(self) == (EditorTab {
                core: SessionCore { clear_dirty_after_open: false, ..old(self).core },
                ..*old(self)
            }),
    {
        self.core.cancel_clear_dirty_after_open();
    }

    /// Gives the document another file. The result of a running job is outdated from then on,
    /// and a close that waits for it is given up.
    pub fn set_path(&mut self, path: String)
        ensures
            old(self).wf() ==> final(self).wf(),
            *final(self) == (EditorTab {
                core: SessionCore {
                    doc: Document { path: Some(path), ..old(self).core.doc },
                    ..old(self).core.with_change_noted()
                },
                ..*old(self)
            }),
    {
        self.core.set_path(path);
    }

    /// Saves the document to its file. `save_to` writes it.
    pub fn save<F: FnOnce(&Document, &String) -> Result<Document, DocumentError>>(
        &mut self,
        live_matches: bool,
        save_to: F,
    ) -> (result: Result<(), SaveError>)
        requires
            old(self).wf(),
            old(self).core.doc.path is Some && !old(self).core.spec_busy() ==> call_requires(
                save_to,
                (&old(self).core.doc, &old(self).core.doc.path->Some_0),
            ),
            forall|path: String, doc: Document|
                #[trigger] call_ensures(
                    save_to,
                    (&old(self).core.doc, &path),
                    Ok::<Document, DocumentError>(doc),
                ) ==> doc.wf(),
        ensures
            final(self).wf(),
            *final(self) == (EditorTab { core: final(self).core, ..*old(self) }),
            old(self).core.save_job is Some ==> result is Err && result->Err_0 is InProgress
                && final(self).core == old(self).core,
            old(self).core.load_job is Some ==> result is Err && result->Err_0 is Io
                && result->Err_0->Io_0@ == (ErrorView::Write {
                path: old(self).core.spec_report_path(),
                source: "cannot save while load is in progress"@,
            }) && final(self).core == old(self).core,
            !old(self).core.spec_busy() && old(self).core.doc.path is None ==> result is Err
                && result->Err_0 is NoPath && final(self).core == old(self).core,
            !old(self).core.spec_busy() && old(self).core.doc.path is Some ==> old(
                self,
            ).core.writes_to(
                old(self).core.doc.path->Some_0,
                live_matches,
                save_to,
                final(self).core,
                plain_result(result),
            ) && (result is Err ==> result->Err_0 is Io),
    {
        self.core.save(live_matches, save_to)
    }

    /// Saves the document to another file. `save_to` writes it.
    pub fn save_as<F: FnOnce(&Document, &String) -> Result<Document, DocumentError>>(
        &mut self,
        path: String,
        live_matches: bool,
        save_to: F,
    ) -> (result: Result<(), DocumentError>)
        requires
            old(self).wf(),
            !old(self).core.spec_busy() ==> call_requires(save_to, (&old(self).core.doc, &path)),
            forall|doc: Document|
                #[trigger] call_ensures(
                    save_to,
                    (&old(self).core.doc, &path),
                    Ok::<Document, DocumentError>(doc),
                ) ==> doc.wf(),
        ensures
            final(self).wf(),
            *final(self) == (EditorTab { core: final(self).core, ..*old(self) }),
            match old(self).core.spec_save_refusal(path@) {
                Some(error) => result is Err && result->Err_0@ == error && final(self).core == old(
                    self,
                ).core,
                None => old(self).core.writes_to(path, live_matches, save_to, final(self).core, result),
            },
    {
        self.core.save_as(path, live_matches, save_to)
    }

    /// Starts a save to the file of the document in the background. `prepare` takes a snapshot.
    pub fn save_async<F: FnOnce(&Document, &String) -> Result<u64, DocumentError>>(
        &mut self,
        live_matches: bool,
        prepare: F,
    ) -> (result: Result<bool, SaveError>)
        requires
            old(self).wf(),
            old(self).core.doc.path is Some && !old(self).core.spec_busy() ==> call_requires(
                prepare,
                (&old(self).core.doc, &old(self).core.doc.path->Some_0),
            ),
        ensures
            final(self).wf(),
            *final(self) == (EditorTab { core: final(self).core, ..*old(self) }),
            old(self).core.save_job is Some ==> result is Err && result->Err_0 is InProgress
                && final(self).core == old(self).core,
            old(self).core.load_job is Some ==> result is Err && result->Err_0 is Io
                && result->Err_0->Io_0@ == (ErrorView::Write {
                path: old(self).core.spec_report_path(),
                source: "cannot save while load is in progress"@,
            }) && final(self).core == old(self).core,
            !old(self).core.spec_busy() && old(self).core.doc.path is None ==> result is Err
                && result->Err_0 is NoPath && final(self).core == old(self).core,
            !old(self).core.spec_busy() && old(self).core.doc.path is Some ==> old(
                self,
            ).core.starts_to(
                old(self).core.doc.path->Some_0,
                live_matches,
                prepare,
                final(self).core,
                plain_result(result),
            ) && (result is Err ==> result->Err_0 is Io),
    {
        self.core.save_async(live_matches, prepare)
    }

    /// Starts a save to another file in the background. `prepare` takes a snapshot.
    pub fn save_as_async<F: FnOnce(&Document, &String) -> Result<u64, DocumentError>>(
        &mut self,
        path: String,
        live_matches: bool,
        prepare: F,
    ) -> (result: Result<bool, DocumentError>)
        requires
            old(self).wf(),
            !old(self).core.spec_busy() ==> call_requires(prepare, (&old(self).core.doc, &path)),
        ensures
            final(self).wf(),
            *final(self) == (EditorTab { core: final(self).core, ..*old(self) }),
            match old(self).core.spec_save_refusal(path@) {
                Some(error) => result is Err && result->Err_0@ == error && final(self).core == old(
                    self,
                ).core,
                None => old(self).core.starts_to(path, live_matches, prepare, final(self).core, result),
            },
    {
        self.core.save_as_async(path, live_matches, prepare)
    }

    /// Inserts a text and puts the cursor behind it.
    pub fn try_insert<
        F: FnOnce(&Document, TextPosition, &str) -> Result<(Document, TextPosition), DocumentError>,
    >(
        &mut self,
        position: TextPosition,
        text: &str,
        edit: F,
    ) -> (result: Result<TextPosition, DocumentError>)
        requires
            old(self).wf(),
            !old(self).core.spec_busy() ==> call_requires(
                edit,
                (&old(self).core.doc, position, text),
            ),
            forall|outcome: Result<(Document, TextPosition), DocumentError>|
                #[trigger] call_ensures(edit, (&old(self).core.doc, position, text), outcome)
                    && outcome is Ok ==> outcome->Ok_0.0.wf(),
        ensures
            final(self).wf(),
            match old(self).core.spec_edit_refusal() {
                Some(error) => result is Err && result->Err_0@ == error && *final(self) == *old(
                    self,
                ),
                None => exists|outcome: Result<(Document, TextPosition), DocumentError>|
                    #[trigger] call_ensures(edit, (&old(self).core.doc, position, text), outcome)
                        && old(self).core.edited(outcome, final(self).core, result)
                        && *final(self) == old(self).after_edit(
                        final(self).core,
                        match outcome {
                            Ok((_, value)) => Some(value),
                            Err(_) => None,
                        },
                    ),
            },
    {
        match self.core.ensure_idle_for_edit() {
            Err(error) => return Err(error),
            Ok(()) => {},
        }
        let outcome = edit(self.core.document(), position, text);
        match self.core.apply_edit(outcome) {
            Err(error) => Err(error),
            Ok(value) => {
                self.cursor = CursorPosition::from_text_position(value);
                Ok(value)
            },
        }
    }

    /// Replaces a range and puts the cursor behind the new text.
    pub fn try_replace<
        F: FnOnce(&Document, TextRange, &str) -> Result<(Document, TextPosition), DocumentError>,
    >(
        &mut self,
        range: TextRange,
        text: &str,
        edit: F,
    ) -> (result: Result<TextPosition, DocumentError>)
        requires
            old(self).wf(),
            !old(self).core.spec_busy() ==> call_requires(edit, (&old(self).core.doc, range, text)),
            forall|outcome: Result<(Document, TextPosition), DocumentError>|
                #[trigger] call_ensures(edit, (&old(self).core.doc, range, text), outcome)
                    && outcome is Ok ==> outcome->Ok_0.0.wf(),
        ensures
            final(self).wf(),
            match old(self).core.spec_edit_refusal() {
                Some(error) => result is Err && result->Err_0@ == error && *final(self) == *old(
                    self,
                ),
                None => exists|outcome: Result<(Document, TextPosition), DocumentError>|
                    #[trigger] call_ensures(edit, (&old(self).core.doc, range, text), outcome)
                        && old(self).core.edited(outcome, final(self).core, result)
                        && *final(self) == old(self).after_edit(
                        final(self).core,
                        match outcome {
                            Ok((_, value)) => Some(value),
                            Err(_) => None,
                        },
                    ),
            },
    {
        match self.core.ensure_idle_for_edit() {
            Err(error) => return Err(error),
            Ok(()) => {},
        }
        let outcome = edit(self.core.document(), range, text);
        match self.core.apply_edit(outcome) {
            Err(error) => Err(error),
            Ok(value) => {
                self.cursor = CursorPosition::from_text_position(value);
                Ok(value)
            },
        }
    }

    /// Replaces a selection and puts the cursor behind the new text.
    pub fn try_replace_selection<
        F: FnOnce(&Document, TextSelection, &str) -> Result<(Document, TextPosition), DocumentError>,
    >(
        &mut self,
        selection: TextSelection,
        text: &str,
        edit: F,
    ) -> (result: Result<TextPosition, DocumentError>)
        requires
            old(self).wf(),
            !old(self).core.spec_busy() ==> call_requires(
                edit,
                (&old(self).core.doc, selection, text),
            ),
            forall|outcome: Result<(Document, TextPosition), DocumentError>|
                #[trigger] call_ensures(edit, (&old(self).core.doc, selection, text), outcome)
                    && outcome is Ok ==> outcome->Ok_0.0.wf(),
        ensures
            final(self).wf(),
            match old(self).core.spec_edit_refusal() {
                Some(error) => result is Err && result->Err_0@ == error && *final(self) == *old(
                    self,
                ),
                None => exists|outcome: Result<(Document, TextPosition), DocumentError>|
                    #[trigger] call_ensures(edit, (&old(self).core.doc, selection, text), outcome)
                        && old(self).core.edited(outcome, final(self).core, result)
                        && *final(self) == old(self).after_edit(
                        final(self).core,
                        match outcome {
                            Ok((_, value)) => Some(value),
                            Err(_) => None,
                        },
                    ),
            },
    {
        match self.core.ensure_idle_for_edit() {
            Err(error) => return Err(error),
            Ok(()) => {},
        }
        let outcome = edit(self.core.document(), selection, text);
        match self.core.apply_edit(outcome) {
            Err(error) => Err(error),
            Ok(value) => {
                self.cursor = CursorPosition::from_text_position(value);
                Ok(value)
            },
        }
    }

    /// Deletes the text unit in front of a position and moves the cursor.
    pub fn try_backspace<
        F: FnOnce(&Document, TextPosition) -> Result<(Document, EditResult), DocumentError>,
    >(
        &mut self,
        position: TextPosition,
        edit: F,
    ) -> (result: Result<EditResult, DocumentError>)
        requires
            old(self).wf(),
            !old(self).core.spec_busy() ==> call_requires(edit, (&old(self).core.doc, position)),
            forall|outcome: Result<(Document, EditResult), DocumentError>|
                #[trigger] call_ensures(edit, (&old(self).core.doc, position), outcome)
                    && outcome is Ok ==> outcome->Ok_0.0.wf(),
        ensures
            final(self).wf(),
            match old(self).core.spec_edit_refusal() {
                Some(error) => result is Err && result->Err_0@ == error && *final(self) == *old(
                    self,
                ),
                None => exists|outcome: Result<(Document, EditResult), DocumentError>|
                    #[trigger] call_ensures(edit, (&old(self).core.doc, position), outcome)
                        && old(self).core.edited(outcome, final(self).core, result)
                        && *final(self) == old(self).after_edit(
                        final(self).core,
                        match outcome {
                            Ok((_, value)) => Some(value.cursor),
                            Err(_) => None,
                        },
                    ),
            },
    {
        match self.core.ensure_idle_for_edit() {
            Err(error) => return Err(error),
            Ok(()) => {},
        }
        let outcome = edit(self.core.document(), position);
        match self.core.apply_edit(outcome) {
            Err(error) => Err(error),
            Ok(value) => {
                self.cursor = CursorPosition::from_text_position(value.cursor());
                Ok(value)
            },
        }
    }

    /// Deletes a selection, or the text unit in front of it, and moves the cursor.
    pub fn try_backspace_selection<
        F: FnOnce(&Document, TextSelection) -> Result<(Document, EditResult), DocumentError>,
    >(
        &mut self,
        selection: TextSelection,
        edit: F,
    ) -> (result: Result<EditResult, DocumentError>)
        requires
            old(self).wf(),
            !old(self).core.spec_busy() ==> call_requires(edit, (&old(self).core.doc, selection)),
            forall|outcome: Result<(Document, EditResult), DocumentError>|
                #[trigger] call_ensures(edit, (&old(self).core.doc, selection), outcome)
                    && outcome is Ok ==> outcome->Ok_0.0.wf(),
        ensures
            final(self).wf(),
            match old(self).core.spec_edit_refusal() {
                Some(error) => result is Err && result->Err_0@ == error && *final(self) == *old(
                    self,
                ),
                None => exists|outcome: Result<(Document, EditResult), DocumentError>|
                    #[trigger] call_ensures(edit, (&old(self).core.doc, selection), outcome)
                        && old(self).core.edited(outcome, final(self).core, result)
                        && *final(self) == old(self).after_edit(
                        final(self).core,
                        match outcome {
                            Ok((_, value)) => Some(value.cursor),
                            Err(_) => None,
                        },
                    ),
            },
    {
        match self.core.ensure_idle_for_edit() {
            Err(error) => return Err(error),
            Ok(()) => {},
        }
        let outcome = edit(self.core.document(), selection);
        match self.core.apply_edit(outcome) {
            Err(error) => Err(error),
            Ok(value) => {
                self.cursor = CursorPosition::from_text_position(value.cursor());
                Ok(value)
            },
        }
    }

    /// Deletes the text unit at a position and moves the cursor.
    pub fn try_delete_forward<
        F: FnOnce(&Document, TextPosition) -> Result<(Document, EditResult), DocumentError>,
    >(
        &mut self,
        position: TextPosition,
        edit: F,
    ) -> (result: Result<EditResult, DocumentError>)
        requires
            old(self).wf(),
            !old(self).core.spec_busy() ==> call_requires(edit, (&old(self).core.doc, position)),
            forall|outcome: Result<(Document, EditResult), DocumentError>|
                #[trigger] call_ensures(edit, (&old(self).core.doc, position), outcome)
                    && outcome is Ok ==> outcome->Ok_0.0.wf(),
        ensures
            final(self).wf(),
            match old(self).core.spec_edit_refusal() {
                Some(error) => result is Err && result->Err_0@ == error && *final(self) == *old(
                    self,
                ),
                None => exists|outcome: Result<(Document, EditResult), DocumentError>|
                    #[trigger] call_ensures(edit, (&old(self).core.doc, position), outcome)
                        && old(self).core.edited(outcome, final(self).core, result)
                        && *final(self) == old(self).after_edit(
                        final(self).core,
                        match outcome {
                            Ok((_, value)) => Some(value.cursor),
                            Err(_) => None,
                        },
                    ),
            },
    {
        match self.core.ensure_idle_for_edit() {
            Err(error) => return Err(error),
            Ok(()) => {},
        }
        let outcome = edit(self.core.document(), position);
        match self.core.apply_edit(outcome) {
            Err(error) => Err(error),
            Ok(value) => {
                self.cursor = CursorPosition::from_text_position(value.cursor());
                Ok(value)
            },
        }
    }

    /// Deletes a selection, or the text unit behind it, and moves the cursor.
    pub fn try_delete_forward_selection<
        F: FnOnce(&Document, TextSelection) -> Result<(Document, EditResult), DocumentError>,
    >(
        &mut self,
        selection: TextSelection,
        edit: F,
    ) -> (result: Result<EditResult, DocumentError>)
        requires
            old(self).wf(),
            !old(self).core.spec_busy() ==> call_requires(edit, (&old(self).core.doc, selection)),
            forall|outcome: Result<(Document, EditResult), DocumentError>|
                #[trigger] call_ensures(edit, (&old(self).core.doc, selection), outcome)
                    && outcome is Ok ==> outcome->Ok_0.0.wf(),
        ensures
            final(self).wf(),
            match old(self).core.spec_edit_refusal() {
                Some(error) => result is Err && result->Err_0@ == error && *final(self) == *old(
                    self,
                ),
                None => exists|outcome: Result<(Document, EditResult), DocumentError>|
                    #[trigger] call_ensures(edit, (&old(self).core.doc, selection), outcome)
                        && old(self).core.edited(outcome, final(self).core, result)
                        && *final(self) == old(self).after_edit(
                        final(self).core,
                        match outcome {
                            Ok((_, value)) => Some(value.cursor),
                            Err(_) => None,
                        },
                    ),
            },
    {
        match self.core.ensure_idle_for_edit() {
            Err(error) => return Err(error),
            Ok(()) => {},
        }
        let outcome = edit(self.core.document(), selection);
        match self.core.apply_edit(outcome) {
            Err(error) => Err(error),
            Ok(value) => {
                self.cursor = CursorPosition::from_text_position(value.cursor());
                Ok(value)
            },
        }
    }

    /// Deletes a selection and moves the cursor.
    pub fn try_delete_selection<
        F: FnOnce(&Document, TextSelection) -> Result<(Document, EditResult), DocumentError>,
    >(
        &mut self,
        selection: TextSelection,
        edit: F,
    ) -> (result: Result<EditResult, DocumentError>)
        requires
            old(self).wf(),
            !old(self).core.spec_busy() ==> call_requires(edit, (&old(self).core.doc, selection)),
            forall|outcome: Result<(Document, EditResult), DocumentError>|
                #[trigger] call_ensures(edit, (&old(self).core.doc, selection), outcome)
                    && outcome is Ok ==> outcome->Ok_0.0.wf(),
        ensures
            final(self).wf(),
            match old(self).core.spec_edit_refusal() {
                Some(error) => result is Err && result->Err_0@ == error && *final(self) == *old(
                    self,
                ),
                None => exists|outcome: Result<(Document, EditResult), DocumentError>|
                    #[trigger] call_ensures(edit, (&old(self).core.doc, selection), outcome)
                        && old(self).core.edited(outcome, final(self).core, result)
                        && *final(self) == old(self).after_edit(
                        final(self).core,
                        match outcome {
                            Ok((_, value)) => Some(value.cursor),
                            Err(_) => None,
                        },
                    ),
            },
    {
        match self.core.ensure_idle_for_edit() {
            Err(error) => return Err(error),
            Ok(()) => {},
        }
        let outcome = edit(self.core.document(), selection);
        match self.core.apply_edit(outcome) {
            Err(error) => Err(error),
            Ok(value) => {
                self.cursor = CursorPosition::from_text_position(value.cursor());
                Ok(value)
            },
        }
    }

    /// Cuts a selection out and moves the cursor.
    pub fn try_cut_selection<
        F: FnOnce(&Document, TextSelection) -> Result<(Document, CutResult), DocumentError>,
    >(
        &mut self,
        selection: TextSelection,
        edit: F,
    ) -> (result: Result<CutResult, DocumentError>)
        requires
            old(self).wf(),
            !old(self).core.spec_busy() ==> call_requires(edit, (&old(self).core.doc, selection)),
            forall|outcome: Result<(Document, CutResult), DocumentError>|
                #[trigger] call_ensures(edit, (&old(self).core.doc, selection), outcome)
                    && outcome is Ok ==> outcome->Ok_0.0.wf(),
        ensures
            final(self).wf(),
            match old(self).core.spec_edit_refusal() {
                Some(error) => result is Err && result->Err_0@ == error && *final(self) == *old(
                    self,
                ),
                None => exists|outcome: Result<(Document, CutResult), DocumentError>|
                    #[trigger] call_ensures(edit, (&old(self).core.doc, selection), outcome)
                        && old(self).core.edited(outcome, final(self).core, result)
                        && *final(self) == old(self).after_edit(
                        final(self).core,
                        match outcome {
                            Ok((_, value)) => Some(value.edit.cursor),
                            Err(_) => None,
                        },
                    ),
            },
    {
        match self.core.ensure_idle_for_edit() {
            Err(error) => return Err(error),
            Ok(()) => {},
        }
        let outcome = edit(self.core.document(), selection);
        match self.core.apply_edit(outcome) {
            Err(error) => Err(error),
            Ok(value) => {
                self.cursor = CursorPosition::from_text_position(value.cursor());
                Ok(value)
            },
        }
    }

    /// What a compaction comes to: the document is replaced, or an error names its file.
    pub open spec fn compacted<T>(
        self,
        outcome: Result<(Document, T), String>,
        after: EditorTab,
        result: Result<T, DocumentError>,
    ) -> bool {
        match outcome {
            Ok((doc, value)) => {
                &&& result == Ok::<T, DocumentError>(value)
                &&& after == (EditorTab { core: SessionCore { doc, ..self.core }, ..self })
            },
            Err(source) => {
                &&& result is Err
                &&& result->Err_0@ == (ErrorView::Write {
                    path: match self.core.doc.path {
                        Some(path) => path@,
                        None => Seq::empty(),
                    },
                    source: source@,
                })
                &&& after == self
            },
        }
    }

    /// Takes over what a compaction came to.
    fn apply_compaction<T>(&mut self, outcome: Result<(Document, T), String>) -> (result: Result<
        T,
        DocumentError,
    >)
        requires
            old(self).wf(),
            outcome is Ok ==> outcome->Ok_0.0.wf(),
        ensures
            final(self).wf(),
            old(self).compacted(outcome, *final(self), result),
    {
        match outcome {
            Ok((doc, value)) => {
                self.core.replace_document(doc);
                Ok(value)
            },
            Err(source) => {
                let path = match &self.core.doc.path {
                    Some(path) => path.clone(),
                    None => String::new(),
                };
                Err(DocumentError::Write { path, source })
            },
        }
    }

    /// Compacts the piece table. `compact` does it, and tells whether there was anything to do.
    pub fn compact_piece_table<F: FnOnce(&Document) -> Result<(Document, bool), String>>(
        &mut self,
        compact: F,
    ) -> (result: Result<bool, DocumentError>)
        requires
            old(self).wf(),
            !old(self).core.spec_busy() ==> call_requires(compact, (&old(self).core.doc,)),
            forall|outcome: Result<(Document, bool), String>|
                #[trigger] call_ensures(compact, (&old(self).core.doc,), outcome)
                    && outcome is Ok ==> outcome->Ok_0.0.wf(),
        ensures
            final(self).wf(),
            match old(self).core.spec_edit_refusal() {
                Some(error) => result is Err && result->Err_0@ == error && *final(self) == *old(
                    self,
                ),
                None => exists|outcome: Result<(Document, bool), String>|
                    #[trigger] call_ensures(compact, (&old(self).core.doc,), outcome)
                        && old(self).compacted(outcome, *final(self), result),
            },
    {
        match self.core.ensure_idle_for_edit() {
            Err(error) => return Err(error),
            Ok(()) => {},
        }
        let outcome = compact(self.core.document());
        self.apply_compaction(outcome)
    }

    /// Compacts the piece table where that is recommended, and tells what was recommended.
    /// `compact` does it. Without a piece table a recommendation counts for nothing.
    pub fn compact_piece_table_if_recommended<F: FnOnce(&Document) -> Result<Document, String>>(
        &mut self,
        recommendation: Option<CompactionRecommendation>,
        compact: F,
    ) -> (result: Result<Option<CompactionRecommendation>, DocumentError>)
        requires
            old(self).wf(),
            !old(self).core.spec_busy() && old(self).core.doc.spec_applicable(
                recommendation,
            ) is Some ==> call_requires(compact, (&old(self).core.doc,)),
            forall|outcome: Result<Document, String>|
                #[trigger] call_ensures(compact, (&old(self).core.doc,), outcome)
                    && outcome is Ok ==> outcome->Ok_0.wf(),
        ensures
            final(self).wf(),
            match old(self).core.spec_edit_refusal() {
                Some(error) => result is Err && result->Err_0@ == error && *final(self) == *old(
                    self,
                ),
                None => match old(self).core.doc.spec_applicable(recommendation) {
                    None => result == Ok::<Option<CompactionRecommendation>, DocumentError>(None)
                        && *final(self) == *old(self),
                    Some(advice) => exists|outcome: Result<Document, String>|
                        #[trigger] call_ensures(compact, (&old(self).core.doc,), outcome)
                            && old(self).compacted(
                            with_value(outcome, Some(advice)),
                            *final(self),
                            result,
                        ),
                },
            },
    {
        match self.core.ensure_idle_for_edit() {
            Err(error) => return Err(error),
            Ok(()) => {},
        }
        match self.core.document().applicable(recommendation) {
            None => Ok(None),
            Some(advice) => {
                let outcome = compact(self.core.document());
                let valued = match outcome {
                    Ok(doc) => Ok((doc, Some(advice))),
                    Err(source) => Err(source),
                };
                self.apply_compaction(valued)
            },
        }
    }

    /// What a compaction pass in idle time comes to: nothing is done while a job runs, a
    /// deferred recommendation is carried out, and a forced one is only reported.
    pub open spec fn idle_pass<F: FnOnce(&Document) -> Result<Document, String>>(
        self,
        recommendation: Option<CompactionRecommendation>,
        compact: F,
        after: EditorTab,
        result: Result<IdleCompactionOutcome, DocumentError>,
    ) -> bool {
        let step = IdleCompactionOutcome::spec_for(self.core.doc.spec_applicable(recommendation));
        match self.core.spec_edit_refusal() {
            Some(error) => result is Err && result->Err_0@ == error && after == self,
            None => if step is Compacted {
                exists|outcome: Result<Document, String>|
                    #[trigger] call_ensures(compact, (&self.core.doc,), outcome)
                        && self.compacted(with_value(outcome, step), after, result)
            } else {
                result == Ok::<IdleCompactionOutcome, DocumentError>(step) && after == self
            },
        }
    }

    /// Runs a compaction pass in idle time, given what the default policy recommends.
    pub fn run_idle_compaction<F: FnOnce(&Document) -> Result<Document, String>>(
        &mut self,
        recommendation: Option<CompactionRecommendation>,
        compact: F,
    ) -> (result: Result<IdleCompactionOutcome, DocumentError>)
        requires
            old(self).wf(),
            !old(self).core.spec_busy() && IdleCompactionOutcome::spec_for(
                old(self).core.doc.spec_applicable(recommendation),
            ) is Compacted ==> call_requires(compact, (&old(self).core.doc,)),
            forall|outcome: Result<Document, String>|
                #[trigger] call_ensures(compact, (&old(self).core.doc,), outcome)
                    && outcome is Ok ==> outcome->Ok_0.wf(),
        ensures
            final(self).wf(),
            old(self).idle_pass(recommendation, compact, *final(self), result),
    {
        self.run_idle_compaction_with_policy(recommendation, compact)
    }

    /// Runs a compaction pass in idle time, given what a policy of the caller recommends.
    /// `compact` is called for a deferred recommendation only: a forced one is reported, so
    /// that the caller can keep that work for a save or for the user.
    pub fn run_idle_compaction_with_policy<F: FnOnce(&Document) -> Result<Document, String>>(
        &mut self,
        recommendation: Option<CompactionRecommendation>,
        compact: F,
    ) -> (result: Result<IdleCompactionOutcome, DocumentError>)
        requires
            old(self).wf(),
            !old(self).core.spec_busy() && IdleCompactionOutcome::spec_for(
                old(self).core.doc.spec_applicable(recommendation),
            ) is Compacted ==> call_requires(compact, (&old(self).core.doc,)),
            forall|outcome: Result<Document, String>|
                #[trigger] call_ensures(compact, (&old(self).core.doc,), outcome)
                    && outcome is Ok ==> outcome->Ok_0.wf(),
        ensures
            final(self).wf(),
            old(self).idle_pass(recommendation, compact, *final(self), result),
    {
        match self.core.ensure_idle_for_edit() {
            Err(error) => return Err(error),
            Ok(()) => {},
        }
        let kept = self.core.document().applicable(recommendation);
        let step = IdleCompactionOutcome::for_recommendation(kept);
        match step {
            IdleCompactionOutcome::Compacted(_) => {
                let outcome = compact(self.core.document());
                let valued = match outcome {
                    Ok(doc) => Ok((doc, step)),
                    Err(source) => Err(source),
                };
                self.apply_compaction(valued)
            },
            _ => Ok(step),
        }
    }

    /// Reads the visible part of the document. `read` does it.
    pub fn read_viewport<F: FnOnce(&Document, ViewportRequest) -> Viewport>(
        &self,
        request: ViewportRequest,
        read: F,
    ) -> (viewport: Viewport)
        requires
            call_requires(read, (&self.core.doc, request)),
        ensures
            call_ensures(read, (&self.core.doc, request), viewport),
    {
        read(self.core.document(), request)
    }

    /// Tells whether the document can be edited at a position. `ask` finds out.
    pub fn edit_capability_at<F: FnOnce(&Document, TextPosition) -> EditCapability>(
        &self,
        position: TextPosition,
        ask: F,
    ) -> (capability: EditCapability)
        requires
            call_requires(ask, (&self.core.doc, position)),
        ensures
            call_ensures(ask, (&self.core.doc, position), capability),
    {
        ask(self.core.document(), position)
    }

    /// Tells whether a range of the document can be edited. `ask` finds out.
    pub fn edit_capability_for_range<F: FnOnce(&Document, TextRange) -> EditCapability>(
        &self,
        range: TextRange,
        ask: F,
    ) -> (capability: EditCapability)
        requires
            call_requires(ask, (&self.core.doc, range)),
        ensures
            call_ensures(ask, (&self.core.doc, range), capability),
    {
        ask(self.core.document(), range)
    }

    /// Tells whether a selection of the document can be edited. `ask` finds out.
    pub fn edit_capability_for_selection<F: FnOnce(&Document, TextSelection) -> EditCapability>(
        &self,
        selection: TextSelection,
        ask: F,
    ) -> (capability: EditCapability)
        requires
            call_requires(ask, (&self.core.doc, selection)),
        ensures
            call_ensures(ask, (&self.core.doc, selection), capability),
    {
        ask(self.core.document(), selection)
    }

    /// The compaction that `recommend` finds due for the document. Without a piece table there
    /// is none.
    pub fn compaction_recommendation<
        F: FnOnce(&Document) -> Option<CompactionRecommendation>,
    >(&self, recommend: F) -> (recommendation: Option<CompactionRecommendation>)
        requires
            call_requires(recommend, (&self.core.doc,)),
        ensures
            exists|found: Option<CompactionRecommendation>|
                #[trigger] call_ensures(recommend, (&self.core.doc,), found) && recommendation
                    == self.core.doc.spec_applicable(found),
    {
        let found = recommend(self.core.document());
        self.core.document().applicable(found)
    }

    /// The compaction that `recommend` finds due for the document by a policy of the caller.
    pub fn compaction_recommendation_with_policy<
        P,
        F: FnOnce(&Document, P) -> Option<CompactionRecommendation>,
    >(&self, policy: P, recommend: F) -> (recommendation: Option<CompactionRecommendation>)
        requires
            call_requires(recommend, (&self.core.doc, policy)),
        ensures
            exists|found: Option<CompactionRecommendation>|
                #[trigger] call_ensures(recommend, (&self.core.doc, policy), found)
                    && recommendation == self.core.doc.spec_applicable(found),
    {
        let found = recommend(self.core.document(), policy);
        self.core.document().applicable(found)
    }
}

/// The outcome of a compaction together with what there is to say of it.
pub open spec fn with_value<T>(outcome: Result<Document, String>, value: T) -> Result<
    (Document, T),
    String,
> {
    match outcome {
        Ok(doc) => Ok((doc, value)),
        Err(source) => Err(source),
    }
}

/// An edit that is made puts the cursor where it says, and changes nothing of the tab but its
/// session and its cursor; one that is not made leaves the cursor.
pub proof fn law_cursor_after_edit(tab: EditorTab, core: SessionCore, position: TextPosition)
    requires
        position.line0 < usize::MAX,
        position.col0 < usize::MAX,
    ensures
        tab.after_edit(core, Some(position)).cursor.spec_text_position() == position,
        tab.after_edit(core, None).cursor == tab.cursor,
        tab.after_edit(core, Some(position)).core == core,
        tab.after_edit(core, None).core == core,
        tab.after_edit(core, Some(position)).id == tab.id,
        tab.after_edit(core, Some(position)).pinned == tab.pinned,
{
    law_cursor_round_trip(tab.cursor, position);
}

/// A file that has been loaded and a document that has been closed start with the cursor at the
/// first column of the first line. As long as a job is running, and after a job that leaves a
/// document with a file or with text, the cursor stays.
pub proof fn law_cursor_after_job(
    tab: EditorTab,
    was_load: bool,
    core: SessionCore,
    result: Option<Result<(), DocumentError>>,
)
    ensures
        ({
            let cursor = tab.cursor_after_job(was_load, core, result);
            let start = TextPosition { line0: 0, col0: 0 };
            &&& result is None ==> cursor == tab.cursor
            &&& was_load && result is Some && result->Some_0 is Ok ==> cursor.spec_text_position()
                == start
            &&& result is Some && tab.core.closes_to(core) ==> cursor.spec_text_position() == start
            &&& !(was_load && result is Some && result->Some_0 is Ok) && (core.doc.path is Some
                || core.doc.dirty) ==> cursor == tab.cursor
        }),
{
    law_cursor_from_one(1, 1);
    if tab.core.closes_to(core) {
        law_new_document(core.doc);
    }
    if was_load && result is Some && result->Some_0 is Ok {
        assert(result->Some_0->Ok_0 == ());
        assert(result == Some(Ok::<(), DocumentError>(())));
    }
}

/// Only a deferred recommendation for a piece table rewrites the document in idle time. A
/// forced one is reported and changes nothing, as the maintenance action for it waits for the
/// caller.
pub proof fn law_idle_compaction<F: FnOnce(&Document) -> Result<Document, String>>(
    tab: EditorTab,
    threshold: usize,
    recommendation: Option<CompactionRecommendation>,
    compact: F,
    after: EditorTab,
    result: Result<IdleCompactionOutcome, DocumentError>,
)
    requires
        tab.wf(),
        tab.idle_pass(recommendation, compact, after, result),
    ensures
        ({
            let action = tab.core.doc.spec_maintenance(
                threshold,
                recommendation,
            ).spec_recommended_action();
            &&& !(action is IdleCompaction) ==> after == tab
            &&& result matches Ok(IdleCompactionOutcome::Compacted(advice)) ==> {
                &&& action is IdleCompaction
                &&& recommendation == Some(advice)
                &&& advice.urgency is Deferred
            }
            &&& tab.core.spec_edit_refusal() is None ==> {
                &&& action is ExplicitCompaction ==> result == Ok::<_, DocumentError>(
                    IdleCompactionOutcome::ForcedPending(recommendation->Some_0),
                )
                &&& action is Nothing ==> result == Ok::<_, DocumentError>(
                    IdleCompactionOutcome::NotNeeded,
                )
                &&& action is IdleCompaction && result is Ok ==> result == Ok::<_, DocumentError>(
                    IdleCompactionOutcome::Compacted(recommendation->Some_0),
                )
            }
        }),
{
}

} // verus!
