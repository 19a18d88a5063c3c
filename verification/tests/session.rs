use qem::document::piece_table::PieceTable;
use qem::document::search::LiteralSearchQuery;
use qem::document::state::Document;
use qem::document::status::{
    CompactionRecommendation, CompactionUrgency, DocumentEncodingErrorKind, DocumentError,
    IdleCompactionOutcome, MaintenanceAction,
};
use qem::document::types::{
    CutResult, DocumentBacking, DocumentEncoding, DocumentSaveOptions, EditCapability, EditResult,
    TextPosition, TextRange, TextSelection,
};
use qem::editlog::{Piece, PieceSource};
use qem::editor::session_core::{JobPoll, SaveCompletion, SessionCore};
use qem::editor::tab::EditorTab;
use qem::editor::types::{
    background_issue_from_error, map_open_phase, BackgroundActivity, BackgroundIssue,
    BackgroundIssueKind, CursorPosition, FileProgress, LoadPhase, OpenProgressPhase, SaveError,
};
use qem::piece_tree::PieceTree;

fn at(line0: usize, col0: usize) -> TextPosition {
    TextPosition::new(line0, col0)
}

fn file(path: &str, text: &str) -> Document {
    Document::from_bytes(Some(path.to_string()), text.as_bytes().to_vec())
}

fn open_file(path: &String) -> Result<Document, DocumentError> {
    Ok(file(path, "alpha\nbeta\n"))
}

/// The document with `text` in place of its own.
fn rewritten(doc: &Document, text: &str) -> Document {
    let mut next = Document::new();
    next.path = doc.path.clone();
    next.line_ending = doc.line_ending;
    next.encoding = doc.encoding;
    next.encoding_origin = doc.encoding_origin;
    next.decoding_had_errors = doc.decoding_had_errors;
    next.rope = Some(ropey::Rope::from_str(text));
    next.mark_dirty();
    next
}

fn spliced(doc: &Document, start: TextPosition, end: TextPosition, text: &str) -> Document {
    let old = doc.text_lossy();
    let (first, second) = doc.ordered_positions(start, end);
    let from = doc.search_byte_offset_for_position(first);
    let to = doc.search_byte_offset_for_position(second);
    rewritten(doc, &format!("{}{}{}", &old[..from], text, &old[to..]))
}

fn behind(start: TextPosition, text: &str) -> TextPosition {
    match text.rsplit_once('\n') {
        Some((head, last)) => {
            at(start.line0() + head.matches('\n').count() + 1, last.chars().count())
        }
        None => at(start.line0(), start.col0() + text.chars().count()),
    }
}

fn insert(
    doc: &Document,
    position: TextPosition,
    text: &str,
) -> Result<(Document, TextPosition), DocumentError> {
    let start = doc.clamp_position(position);
    Ok((spliced(doc, start, start, text), behind(start, text)))
}

fn replace_selection(
    doc: &Document,
    selection: TextSelection,
    text: &str,
) -> Result<(Document, TextPosition), DocumentError> {
    let (start, end) = doc.ordered_positions(selection.anchor(), selection.head());
    Ok((spliced(doc, start, end, text), behind(start, text)))
}

fn delete_selection(
    doc: &Document,
    selection: TextSelection,
) -> Result<(Document, EditResult), DocumentError> {
    let (start, end) = doc.ordered_positions(selection.anchor(), selection.head());
    let changed = start != end;
    Ok((spliced(doc, start, end, ""), EditResult::new(changed, start)))
}

fn delete_forward(
    doc: &Document,
    position: TextPosition,
) -> Result<(Document, EditResult), DocumentError> {
    let range = TextRange::new(position, 1);
    let (start, end) = doc.search_range_bounds(range);
    Ok((spliced(doc, start, end, ""), EditResult::new(start != end, start)))
}

fn cut_selection(
    doc: &Document,
    selection: TextSelection,
) -> Result<(Document, CutResult), DocumentError> {
    let text = doc.read_selection(selection).into_text();
    let (next, edit) = delete_selection(doc, selection)?;
    Ok((next, CutResult::new(text, edit)))
}

fn backspace_selection(
    doc: &Document,
    selection: TextSelection,
) -> Result<(Document, EditResult), DocumentError> {
    if !selection.is_caret() {
        return delete_selection(doc, selection);
    }
    let head = selection.head();
    let start = at(head.line0(), head.col0() - 1);
    Ok((spliced(doc, start, head, ""), EditResult::new(true, start)))
}

fn saved(doc: &Document, path: &str) -> Document {
    let mut next = file(path, &doc.text_lossy());
    next.mark_clean();
    next
}

fn save_to(doc: &Document, path: &String) -> Result<Document, DocumentError> {
    Ok(saved(doc, path))
}

fn prepare(doc: &Document, _path: &String) -> Result<u64, DocumentError> {
    Ok(doc.file_len() as u64)
}

fn finish(doc: &Document, completion: &SaveCompletion) -> Result<Document, DocumentError> {
    Ok(saved(doc, &completion.path))
}

fn written(path: &str) -> JobPoll<SaveCompletion> {
    JobPoll::Done(Ok(SaveCompletion { path: path.to_string(), reload_after_save: true }))
}

fn write_failed<T>(path: &str) -> JobPoll<T> {
    JobPoll::Done(Err(DocumentError::Write {
        path: path.to_string(),
        source: "not a directory".to_string(),
    }))
}

fn open_failed<T>(path: &str) -> JobPoll<T> {
    JobPoll::Done(Err(DocumentError::Open {
        path: path.to_string(),
        source: "no such file".to_string(),
    }))
}

fn open_tab(id: u64, path: &str, text: &str) -> EditorTab {
    let mut tab = EditorTab::new(id);
    tab.open_file(path.to_string(), |path: &String| Ok(file(path, text))).unwrap();
    tab
}

fn open_session(path: &str, text: &str) -> SessionCore {
    let mut session = SessionCore::new();
    session.open_file(path.to_string(), |path: &String| Ok(file(path, text))).unwrap();
    session
}

fn edit_raw(tab: &mut EditorTab, text: &str) {
    let doc = tab.document_mut();
    let next = insert(doc, at(0, 0), text).unwrap().0;
    *doc = next;
}

#[test]
fn save_async_completes_and_clears_dirty_flag() {
    let mut tab = open_tab(1, "large.txt", "abc\ndef\n");
    edit_raw(&mut tab, "123");

    assert!(tab.is_dirty());
    assert!(tab.save_async(true, prepare).unwrap());
    assert!(tab.is_saving());
    assert!(tab.is_busy());

    assert!(tab.poll_background_job(JobPoll::Pending, JobPoll::Pending, finish).is_none());
    tab.poll_background_job(JobPoll::Pending, written("large.txt"), finish).unwrap().unwrap();

    assert!(!tab.is_dirty());
    assert!(!tab.is_saving());
    assert!(tab.text().starts_with("123abc\ndef\n"));
}

#[test]
fn session_save_async_rejects_invalid_preserve_without_starting_job() {
    let encoding = DocumentEncoding::from_label("shift_jis").unwrap();
    let mut session = SessionCore::new();
    session
        .open_file("lossy-shift-jis.txt".to_string(), |path: &String| {
            let mut doc = Document::new();
            doc.path = Some(path.clone());
            doc.encoding = encoding;
            doc.decoding_had_errors = true;
            doc.rope = Some(ropey::Rope::from_str("\u{FFFD}"));
            Ok(doc)
        })
        .unwrap();
    let next = insert(session.document(), at(0, 0), "x");
    session.ensure_idle_for_edit().unwrap();
    session.apply_edit(next).unwrap();

    let err = session.save_async(true, prepare).unwrap_err();
    assert!(matches!(
        err,
        SaveError::Io(DocumentError::Encoding {
            path: failed_path,
            operation: "save",
            encoding: failed_encoding,
            reason: DocumentEncodingErrorKind::LossyDecodedPreserve,
        }) if failed_path == "lossy-shift-jis.txt" && failed_encoding == encoding
    ));
    assert!(!session.is_saving());
    assert!(session.save_state().is_none());
    assert!(session.background_issue().is_none());
    assert!(matches!(session.background_activity(), BackgroundActivity::Idle));
}

#[test]
fn session_and_tab_save_conversion_preflight_reports_success_and_failures() {
    let cp1251 = DocumentEncoding::from_label("windows-1251").unwrap();

    let mut session = SessionCore::new();
    let next = insert(
        session.document(),
        at(0, 0),
        "\u{043F}\u{0440}\u{0438}\u{0432}\u{0435}\u{0442}\n",
    )
    .unwrap()
    .0;
    *session.document_mut() = next;
    assert_eq!(session.document().save_error_for_encoding(cp1251), None);
    assert!(session.document().can_save_with_encoding(cp1251));

    let mut tab = EditorTab::new(77);
    edit_raw(&mut tab, "emoji \u{1F642}\n");
    assert_eq!(
        tab.save_error_for_encoding(cp1251),
        Some(DocumentEncodingErrorKind::UnrepresentableText)
    );
    assert!(!tab.can_save_with_encoding(cp1251));
    assert_eq!(
        tab.save_error_for_options(
            DocumentSaveOptions::new().with_encoding(DocumentEncoding::utf16le())
        ),
        Some(DocumentEncodingErrorKind::UnsupportedSaveTarget)
    );
    assert!(!tab.can_save_with_options(
        DocumentSaveOptions::new().with_encoding(DocumentEncoding::utf16le())
    ));
    assert!(tab.can_preserve_save());
    assert_eq!(tab.preserve_save_error(), None);
}

#[test]
fn session_and_tab_find_next_delegate_to_document_search() {
    let mut session = SessionCore::new();
    let next = insert(session.document(), at(0, 0), "alpha\nbeta\ngamma\nbeta").unwrap().0;
    *session.document_mut() = next;
    let session = session.document();

    let session_found = session.find_next("beta", at(1, 1)).unwrap();
    assert_eq!(session_found.start(), at(3, 0));
    assert_eq!(session_found.end(), at(3, 4));

    let mut tab = EditorTab::new(1);
    edit_raw(&mut tab, "alpha\nbeta\ngamma\nbeta");

    let tab_found = tab.find_next("beta", at(1, 1)).unwrap();
    assert_eq!(tab_found.start(), at(3, 0));
    assert_eq!(tab_found.end(), at(3, 4));

    let session_prev = session.find_prev("beta", at(3, 4)).unwrap();
    assert_eq!(session_prev.start(), at(3, 0));
    assert_eq!(session_prev.end(), at(3, 4));

    let tab_prev = tab.find_prev("beta", at(3, 0)).unwrap();
    assert_eq!(tab_prev.start(), at(1, 0));
    assert_eq!(tab_prev.end(), at(1, 4));

    let query = LiteralSearchQuery::new("beta").unwrap();
    let session_query_found = session.find_next_query(&query, at(1, 1)).unwrap();
    assert_eq!(session_query_found.start(), at(3, 0));
    assert_eq!(session_query_found.end(), at(3, 4));

    let tab_query_prev = tab.find_prev_query(&query, at(3, 0)).unwrap();
    assert_eq!(tab_query_prev.start(), at(1, 0));
    assert_eq!(tab_query_prev.end(), at(1, 4));

    let range = session.text_range_between(at(1, 0), at(3, 0));
    let session_bounded = session.find_next_in_range("beta", range).unwrap();
    assert_eq!(session_bounded.start(), at(1, 0));
    assert_eq!(session_bounded.end(), at(1, 4));

    let tab_bounded = tab.find_prev_query_in_range(&query, range).unwrap();
    assert_eq!(tab_bounded.start(), at(1, 0));
    assert_eq!(tab_bounded.end(), at(1, 4));

    let session_between = session.find_next_between("beta", at(1, 0), at(3, 0)).unwrap();
    assert_eq!(session_between.start(), at(1, 0));
    assert_eq!(session_between.end(), at(1, 4));

    let tab_between = tab.find_prev_query_between(&query, at(1, 0), at(3, 0)).unwrap();
    assert_eq!(tab_between.start(), at(1, 0));
    assert_eq!(tab_between.end(), at(1, 4));

    let session_all = session.find_all("beta").collect();
    assert_eq!(session_all.len(), 2);
    assert_eq!(session_all[0].start(), at(1, 0));
    assert_eq!(session_all[1].start(), at(3, 0));

    let session_all_query = session.find_all_query(&query).collect();
    assert_eq!(session_all_query, session_all);

    let tab_all_in_range = tab.find_all_in_range("beta", range).collect();
    assert_eq!(tab_all_in_range.len(), 1);
    assert_eq!(tab_all_in_range[0].start(), at(1, 0));

    let tab_all_query_in_range = tab.find_all_query_in_range(&query, range).collect();
    assert_eq!(tab_all_query_in_range, tab_all_in_range);

    let session_all_between = session.find_all_between("beta", at(1, 0), at(3, 0)).collect();
    assert_eq!(session_all_between.len(), 1);
    assert_eq!(session_all_between[0].start(), at(1, 0));

    let tab_all_query_between =
        tab.find_all_query_between(&query, at(1, 0), at(3, 0)).collect();
    assert_eq!(tab_all_query_between, session_all_between);
}

#[test]
fn save_as_async_failure_preserves_dirty_state_and_clears_job() {
    let mut tab = open_tab(2, "large.txt", "abc\ndef\n");
    let generation = tab.generation();
    edit_raw(&mut tab, "123");

    assert!(tab.save_as_async("blocked/copy.txt".to_string(), true, prepare).unwrap());
    assert!(tab.is_saving());
    assert_eq!(
        tab.save_state().expect("save state should exist").path(),
        "blocked/copy.txt"
    );

    let err = tab.poll_save_job(write_failed("blocked/copy.txt"), finish).unwrap().unwrap_err();

    assert!(matches!(err, DocumentError::Write { .. }));
    assert!(tab.is_dirty());
    assert!(!tab.is_saving());
    assert!(!tab.is_busy());
    assert_eq!(tab.generation(), generation);
    assert_eq!(tab.current_path(), Some("large.txt"));
    assert!(tab.save_state().is_none());
}

#[test]
fn editor_tab_rejects_edits_while_async_save_is_in_progress() {
    let mut tab = open_tab(16, "guard.txt", "abc\ndef\n");
    let inserted = tab.try_insert(at(0, 0), "123", insert);
    assert!(matches!(inserted, Ok(cursor) if cursor == at(0, 3)));

    assert!(tab.save_async(true, prepare).unwrap());
    assert!(tab.is_saving());

    let err = tab.try_insert(at(0, 0), "Z", insert).unwrap_err();
    assert!(matches!(
        err,
        DocumentError::EditUnsupported {
            path: Some(ref blocked_path),
            reason,
        } if blocked_path == "guard.txt"
            && reason == "cannot edit while background save is in progress"
    ));
    assert!(tab.text().starts_with("123abc\ndef\n"));

    tab.poll_background_job(JobPoll::Pending, written("guard.txt"), finish).unwrap().unwrap();

    assert!(!tab.is_busy());
    assert!(!tab.is_dirty());
    assert!(tab.text().starts_with("123abc\ndef\n"));
}

#[test]
fn editor_tab_repeated_save_as_async_keeps_first_job_authoritative() {
    let mut tab = open_tab(18, "source.txt", "abc\ndef\n");
    let _ = tab.try_insert(at(0, 0), "123", insert).unwrap();

    assert!(tab.save_as_async("a.txt".to_string(), true, prepare).unwrap());
    let err = tab.save_as_async("b.txt".to_string(), true, prepare).unwrap_err();
    assert!(matches!(
        err,
        DocumentError::Write { path, ref source }
            if path == "b.txt" && source == "save already in progress"
    ));
    assert_eq!(
        tab.save_state().expect("first save job should remain authoritative").path(),
        "a.txt"
    );
    assert!(matches!(tab.background_activity(), BackgroundActivity::Saving(_)));

    tab.poll_background_job(JobPoll::Pending, written("a.txt"), finish).unwrap().unwrap();
    assert_eq!(tab.current_path(), Some("a.txt"));
}

#[test]
fn session_sync_save_rejects_when_async_save_is_in_progress() {
    let mut session = open_session("guard.txt", "abc\ndef\n");
    let next = insert(session.document(), at(0, 0), "123");
    session.apply_edit(next).unwrap();

    assert!(session.save_async(true, prepare).unwrap());
    assert!(session.is_saving());

    let err = session.save(true, save_to).unwrap_err();
    assert!(matches!(err, SaveError::InProgress));
    assert!(session.is_saving());
    assert!(session.is_dirty());

    session
        .poll_background_job(JobPoll::Pending, written("guard.txt"), finish)
        .unwrap()
        .unwrap();
    assert!(!session.is_saving());
    assert!(!session.is_dirty());
}

#[test]
fn session_sync_save_as_same_path_preserve_is_clean_noop() {
    let mut session = open_session("clean.txt", "alpha\nbeta\n");
    let generation = session.generation();

    session
        .save_as("clean.txt".to_string(), true, |_: &Document, _: &String| {
            panic!("nothing is to be written")
        })
        .unwrap();

    assert_eq!(session.generation(), generation);
    assert_eq!(session.current_path(), Some("clean.txt"));
    assert!(!session.is_dirty());
}

#[test]
fn tab_sync_save_as_rejects_when_async_save_is_in_progress() {
    let mut tab = open_tab(118, "source.txt", "abc\ndef\n");
    let _ = tab.try_insert(at(0, 0), "123", insert).unwrap();

    assert!(tab.save_as_async("a.txt".to_string(), true, prepare).unwrap());
    assert!(tab.is_saving());

    let err = tab.save_as("b.txt".to_string(), true, save_to).unwrap_err();
    assert!(matches!(
        err,
        DocumentError::Write { path, ref source }
            if path == "b.txt" && source == "save already in progress"
    ));
    assert_eq!(
        tab.save_state().expect("first async save should remain authoritative").path(),
        "a.txt"
    );

    tab.poll_background_job(JobPoll::Pending, written("a.txt"), finish).unwrap().unwrap();
    assert_eq!(tab.current_path(), Some("a.txt"));
}

#[test]
fn editor_tab_close_file_while_async_save_defers_until_completion() {
    let mut tab = open_tab(17, "close-save.txt", "abc\ndef\n");
    let _ = tab.try_insert(at(0, 0), "123", insert).unwrap();
    let generation = tab.generation();
    let cursor = tab.cursor();

    assert!(tab.save_async(true, prepare).unwrap());
    tab.close_file();

    assert!(tab.is_saving());
    assert!(tab.is_busy());
    assert!(tab.close_pending());
    assert_eq!(tab.current_path(), Some("close-save.txt"));
    assert_eq!(tab.cursor(), cursor);
    assert!(tab.text().starts_with("123abc\ndef\n"));
    assert_eq!(tab.generation(), generation);
    assert!(tab.status().close_pending());

    tab.poll_background_job(JobPoll::Pending, written("close-save.txt"), finish)
        .unwrap()
        .unwrap();

    assert!(!tab.is_busy());
    assert!(!tab.close_pending());
    assert_eq!(tab.current_path(), None);
    assert_eq!(tab.text(), "");
    assert!(!tab.is_dirty());
    assert_eq!(tab.cursor(), CursorPosition::default());
    assert_eq!(tab.generation(), generation.wrapping_add(1));
    assert!(!tab.status().close_pending());
}

#[test]
fn editor_tab_close_file_while_async_save_failure_keeps_dirty_document_open() {
    let mut tab = open_tab(19, "close-save-failure.txt", "abc\ndef\n");
    let _ = tab.try_insert(at(0, 0), "123", insert).unwrap();
    let generation = tab.generation();
    let cursor = tab.cursor();
    let text = tab.text();

    assert!(tab.save_as_async("blocked/copy.txt".to_string(), true, prepare).unwrap());
    tab.close_file();

    assert!(tab.is_saving());
    assert!(tab.close_pending());
    assert_eq!(tab.current_path(), Some("close-save-failure.txt"));
    assert_eq!(tab.cursor(), cursor);
    assert_eq!(tab.text(), text);
    assert!(tab.status().close_pending());

    let err = tab
        .poll_background_job(JobPoll::Pending, write_failed("blocked/copy.txt"), finish)
        .unwrap()
        .unwrap_err();

    assert!(matches!(err, DocumentError::Write { path, .. } if path == "blocked/copy.txt"));
    assert!(!tab.is_busy());
    assert!(!tab.close_pending());
    assert!(tab.is_dirty());
    assert_eq!(tab.current_path(), Some("close-save-failure.txt"));
    assert_eq!(tab.cursor(), cursor);
    assert_eq!(tab.text(), text);
    assert_eq!(tab.generation(), generation);
    assert!(tab.save_state().is_none());
    assert!(!tab.status().close_pending());

    tab.close_file();
    assert_eq!(tab.current_path(), None);
    assert_eq!(tab.text(), "");
    assert!(!tab.is_dirty());
    assert_eq!(tab.cursor(), CursorPosition::default());
    assert_eq!(tab.generation(), generation.wrapping_add(1));
}

#[test]
fn editor_tab_document_mut_while_close_is_deferred_cancels_pending_close() {
    let mut tab = open_tab(22, "source.txt", "abc\ndef\n");
    let _ = tab.try_insert(at(0, 0), "123", insert).unwrap();

    assert!(tab.save_as_async("output.txt".to_string(), true, prepare).unwrap());
    tab.close_file();
    assert!(tab.close_pending());
    assert!(tab.status().close_pending());

    edit_raw(&mut tab, "Z");
    assert!(!tab.close_pending());
    assert!(!tab.status().close_pending());

    let err = tab
        .poll_background_job(JobPoll::Pending, written("output.txt"), finish)
        .unwrap()
        .unwrap_err();

    assert!(matches!(
        err,
        DocumentError::Write { path, ref source } if path == "output.txt"
            && source == "background save result discarded after current session state changed"
    ));
    assert!(!tab.is_busy());
    assert!(!tab.close_pending());
    assert_eq!(tab.current_path(), Some("source.txt"));
    assert!(tab.is_dirty());
    assert!(tab.text().starts_with("Z123abc\ndef\n"));
}

#[test]
fn editor_tab_document_mut_during_async_save_discards_stale_save_result() {
    let mut tab = open_tab(20, "source.txt", "abc\ndef\n");
    let _ = tab.try_insert(at(0, 0), "123", insert).unwrap();

    assert!(tab.save_as_async("output.txt".to_string(), true, prepare).unwrap());
    edit_raw(&mut tab, "Z");

    let err = tab
        .poll_background_job(JobPoll::Pending, written("output.txt"), finish)
        .unwrap()
        .unwrap_err();

    assert!(matches!(
        err,
        DocumentError::Write { path, ref source } if path == "output.txt"
            && source == "background save result discarded after current session state changed"
    ));
    assert!(!tab.is_busy());
    assert!(tab.is_dirty());
    assert_eq!(tab.current_path(), Some("source.txt"));
    assert!(tab.text().starts_with("Z123abc\ndef\n"));
    let issue = tab.background_issue().expect("discarded background save should be retained");
    assert_eq!(issue.kind(), BackgroundIssueKind::SaveDiscarded);
    assert_eq!(issue.path(), "output.txt");
    assert_eq!(
        issue.message(),
        "background save result discarded after current session state changed"
    );
    let status = tab.status();
    let status_issue =
        status.background_issue().expect("status should retain discarded background save");
    assert_eq!(status_issue.kind(), BackgroundIssueKind::SaveDiscarded);
    assert_eq!(status_issue.path(), "output.txt");
}

#[test]
fn update_cursor_char_index_treats_crlf_as_single_newline() {
    let mut tab = open_tab(1, "crlf.txt", "a\r\nb\r\n");

    tab.update_cursor_char_index(2);
    assert_eq!(tab.cursor().line(), 2);
    assert_eq!(tab.cursor().column(), 1);

    tab.update_cursor_char_index(3);
    assert_eq!(tab.cursor().line(), 2);
    assert_eq!(tab.cursor().column(), 1);

    tab.update_cursor_char_index(4);
    assert_eq!(tab.cursor().line(), 2);
    assert_eq!(tab.cursor().column(), 2);
}

#[test]
fn cursor_position_roundtrips_with_text_position() {
    let cursor = CursorPosition::new(3, 5);
    let position = cursor.to_text_position();

    assert_eq!(position.line0(), 2);
    assert_eq!(position.col0(), 4);
    assert_eq!(CursorPosition::from_text_position(position), cursor);
}

#[test]
fn loads_replace_the_document_and_show_their_progress() {
    let mut tab = EditorTab::new(7);
    tab.set_cursor_line_col(9, 9);
    tab.open_file_async("open.txt".to_string(), 11).unwrap();
    tab.core.note_load_progress(99, LoadPhase::PreparingIndex.as_raw());

    let progress = tab.loading_state().expect("typed load progress should exist");
    assert_eq!(progress.total_bytes(), 11);
    assert_eq!(progress.completed_bytes(), 11);
    assert_eq!(progress.path(), "open.txt");
    assert_eq!(progress.load_phase(), Some(LoadPhase::PreparingIndex));
    assert_eq!(tab.loading_phase(), Some(LoadPhase::PreparingIndex));
    assert_eq!(tab.loading_progress(), Some((11, 11, "open.txt".to_string())));
    assert!(matches!(tab.background_activity(), BackgroundActivity::Loading(_)));
    let loading_status = tab.status();
    assert!(loading_status.is_loading());
    assert!(loading_status.loading_phase().is_some());
    assert_eq!(loading_status.loading_state().unwrap().path(), "open.txt");
    assert!(tab.is_loading());
    assert!(tab.is_busy());

    let opened = file("open.txt", "alpha\nbeta\n");
    tab.poll_background_job(JobPoll::Done(Ok(opened)), JobPoll::Pending, finish)
        .unwrap()
        .unwrap();

    assert!(!tab.is_loading());
    assert_eq!(tab.cursor().line(), 1);
    assert_eq!(tab.cursor().column(), 1);
    assert_eq!(tab.cursor_position(), at(0, 0));
    assert_eq!(tab.current_path(), Some("open.txt"));
    assert_eq!(tab.exact_line_count(), Some(3));
    assert_eq!(tab.display_line_count(), 3);
    assert!(tab.is_line_count_exact());
    assert_eq!(tab.line_len_chars(0), 5);
    assert_eq!(tab.position_for_char_index(6), at(1, 0));
    assert_eq!(tab.char_index_for_position(at(1, 0)), 6);
    assert_eq!(tab.text_range_between(at(1, 2), at(0, 4)).len_chars(), 4);
    assert!(matches!(tab.background_activity(), BackgroundActivity::Idle));
    assert!(tab.background_issue().is_none());
}

#[test]
fn open_file_async_failure_preserves_existing_tab_state() {
    let mut tab = open_tab(8, "open.txt", "alpha\nbeta\n");
    edit_raw(&mut tab, "X");
    tab.set_cursor_position(at(1, 2));

    let generation = tab.generation();
    let cursor = tab.cursor();
    let text = tab.text();

    tab.open_file_async("missing.txt".to_string(), 0).unwrap();

    let progress = tab.loading_state().unwrap();
    assert_eq!(progress.path(), "missing.txt");
    assert_eq!(progress.total_bytes(), 0);
    assert!(tab.is_loading());
    assert!(tab.is_busy());

    let err = tab
        .poll_background_job(open_failed("missing.txt"), JobPoll::Pending, finish)
        .unwrap()
        .unwrap_err();

    assert!(matches!(err, DocumentError::Open { path, .. } if path == "missing.txt"));
    assert!(!tab.is_loading());
    assert!(!tab.is_busy());
    assert!(tab.loading_state().is_none());
    assert!(matches!(tab.background_activity(), BackgroundActivity::Idle));
    assert_eq!(tab.generation(), generation);
    assert_eq!(tab.cursor(), cursor);
    assert_eq!(tab.current_path(), Some("open.txt"));
    assert_eq!(tab.text(), text);
    assert!(tab.is_dirty());
    let issue = tab.background_issue().expect("failed load should retain background issue");
    assert_eq!(issue.kind(), BackgroundIssueKind::LoadFailed);
    assert_eq!(issue.path(), "missing.txt");
    let status = tab.status();
    let status_issue = status.background_issue().expect("status should retain failed load");
    assert_eq!(status_issue.kind(), BackgroundIssueKind::LoadFailed);
    assert_eq!(status_issue.path(), "missing.txt");

    tab.open_file("open.txt".to_string(), open_file).unwrap();
    assert!(tab.background_issue().is_none());
    assert!(tab.status().background_issue().is_none());
}

#[test]
fn editor_tab_take_background_issue_clears_retained_failure() {
    let mut tab = EditorTab::new(23);
    tab.open_file_async("missing.txt".to_string(), 0).unwrap();

    let err = tab
        .poll_background_job(open_failed("missing.txt"), JobPoll::Pending, finish)
        .unwrap()
        .unwrap_err();
    assert!(matches!(err, DocumentError::Open { path, .. } if path == "missing.txt"));

    let issue = tab
        .take_background_issue()
        .expect("failed load should be available for explicit acknowledgement");
    assert_eq!(issue.kind(), BackgroundIssueKind::LoadFailed);
    assert_eq!(issue.path(), "missing.txt");
    assert!(tab.background_issue().is_none());
    assert!(tab.status().background_issue().is_none());
    assert!(tab.take_background_issue().is_none());
}

#[test]
fn document_session_repeated_open_file_async_keeps_first_job_authoritative() {
    let mut session = SessionCore::new();
    session.open_file_async("first.txt".to_string(), 6).unwrap();

    let err = session.open_file_async("second.txt".to_string(), 7).unwrap_err();
    assert!(matches!(
        err,
        DocumentError::Open { path, ref source }
            if path == "second.txt" && source == "load already in progress"
    ));
    assert_eq!(session.loading_state().unwrap().path(), "first.txt");
    assert!(matches!(session.background_activity(), BackgroundActivity::Loading(_)));

    let opened = file("first.txt", "first\n");
    session
        .poll_background_job(JobPoll::Done(Ok(opened)), JobPoll::Pending, finish)
        .unwrap()
        .unwrap();

    assert_eq!(session.current_path(), Some("first.txt"));
    assert_eq!(session.document().text_lossy(), "first\n");
}

#[test]
fn editor_tab_try_insert_updates_cursor() {
    let mut tab = EditorTab::new(11);

    let cursor = tab.try_insert(at(0, 0), "alpha\nbeta", insert).unwrap();
    let status = tab.status();

    assert_eq!(cursor, at(1, 4));
    assert_eq!(tab.cursor_position(), at(1, 4));
    assert_eq!(tab.cursor().line(), 2);
    assert_eq!(tab.cursor().column(), 5);
    assert!(tab.is_dirty());
    assert_eq!(tab.display_line_count(), 2);
    assert_eq!(tab.text(), "alpha\nbeta");
    assert_eq!(status.id(), 11);
    assert_eq!(status.generation(), 0);
    assert_eq!(status.cursor().line(), 2);
    assert_eq!(status.cursor().column(), 5);
    assert!(status.is_dirty());
    assert_eq!(status.file_len(), tab.file_len());
    assert_eq!(status.exact_line_count(), Some(2));
    assert!(status.has_edit_buffer());
    assert!(status.has_rope());
    assert!(!status.has_piece_table());
    assert!(!status.is_busy());
}

#[test]
fn editor_tab_selection_helpers_update_cursor() {
    let mut tab = EditorTab::new(12);
    let _ = tab.try_insert(at(0, 0), "alpha\nbeta", insert).unwrap();

    let ask = |doc: &Document, _: TextPosition| EditCapability::Editable { backing: doc.backing() };
    assert_eq!(
        tab.edit_capability_at(at(0, 1), ask),
        EditCapability::Editable { backing: DocumentBacking::Rope }
    );
    let selection = TextSelection::new(at(1, 2), at(0, 4));
    let selected = tab.read_selection(selection);
    assert!(selected.is_exact());
    assert_eq!(selected.text(), "a\nbe");
    let cursor = tab.try_replace_selection(selection, "Z", replace_selection).unwrap();

    assert_eq!(cursor, at(0, 5));
    assert_eq!(tab.cursor_position(), at(0, 5));
    assert_eq!(tab.text(), "alphZta");

    let delete =
        tab.try_delete_selection(TextSelection::caret(at(0, 2)), delete_selection).unwrap();
    assert!(!delete.changed());
    assert_eq!(delete.cursor(), at(0, 2));
    assert_eq!(tab.cursor_position(), at(0, 2));
}

#[test]
fn editor_tab_delete_forward_updates_cursor() {
    let mut tab = EditorTab::new(13);
    let _ = tab.try_insert(at(0, 0), "alpha\nbeta", insert).unwrap();

    let result = tab.try_delete_forward(at(0, 5), delete_forward).unwrap();
    assert!(result.changed());
    assert_eq!(result.cursor(), at(0, 5));
    assert_eq!(tab.cursor_position(), at(0, 5));
    assert_eq!(tab.text(), "alphabeta");
}

#[test]
fn editor_tab_cut_selection_updates_cursor() {
    let mut tab = EditorTab::new(14);
    let _ = tab.try_insert(at(0, 0), "alpha\nbeta", insert).unwrap();

    let cut =
        tab.try_cut_selection(TextSelection::new(at(0, 3), at(1, 2)), cut_selection).unwrap();

    assert_eq!(cut.text(), "ha\nbe");
    assert!(cut.changed());
    assert_eq!(cut.cursor(), at(0, 3));
    assert_eq!(tab.cursor_position(), at(0, 3));
    assert_eq!(tab.text(), "alpta");
}

#[test]
fn editor_tab_selection_delete_commands_update_cursor() {
    let mut tab = EditorTab::new(15);
    let _ = tab.try_insert(at(0, 0), "alpha\nbeta", insert).unwrap();

    let deleted = tab
        .try_delete_forward_selection(TextSelection::new(at(0, 3), at(1, 2)), delete_selection)
        .unwrap();
    assert!(deleted.changed());
    assert_eq!(deleted.cursor(), at(0, 3));
    assert_eq!(tab.cursor_position(), at(0, 3));
    assert_eq!(tab.text(), "alpta");

    let backspace = tab
        .try_backspace_selection(TextSelection::caret(at(0, 2)), backspace_selection)
        .unwrap();
    assert!(backspace.changed());
    assert_eq!(backspace.cursor(), at(0, 1));
    assert_eq!(tab.cursor_position(), at(0, 1));
    assert_eq!(tab.text(), "apta");
}

#[test]
fn cancel_clear_dirty_after_open_preserves_real_edit() {
    let mut tab = open_tab(3, "dirty-open.txt", "alpha\n");
    edit_raw(&mut tab, "X");
    tab.cancel_clear_dirty_after_open();
    tab.after_text_edit_frame();

    assert!(tab.is_dirty());
    assert!(tab.text().starts_with('X'));
}

#[test]
fn after_text_edit_frame_does_not_clear_real_tab_edit_after_clean_open() {
    let mut tab = open_tab(31, "dirty-open-auto-cancel.txt", "alpha\n");
    let cursor = tab.try_insert(at(0, 0), "X", insert).unwrap();
    assert_eq!(cursor, at(0, 1));
    assert!(tab.is_dirty());

    tab.after_text_edit_frame();

    assert!(tab.is_dirty());
    assert!(tab.status().is_dirty());
    assert_eq!(tab.text(), "Xalpha\n");
}

#[test]
fn after_document_frame_does_not_clear_real_session_edit_after_async_open() {
    let mut session = SessionCore::new();
    session.open_file_async("dirty-open-auto-cancel.txt".to_string(), 6).unwrap();
    let opened = file("dirty-open-auto-cancel.txt", "alpha\n");
    session.poll_load_job(JobPoll::Done(Ok(opened))).unwrap().unwrap();

    let next = insert(session.document(), at(0, 0), "X");
    let cursor = session.apply_edit(next).unwrap();
    assert_eq!(cursor, at(0, 1));
    assert!(session.is_dirty());

    session.after_document_frame();

    assert!(session.is_dirty());
    assert!(session.status().is_dirty());
    assert_eq!(session.document().text_lossy(), "Xalpha\n");
}

#[test]
fn document_session_rejects_edits_while_async_open_is_in_progress() {
    let mut session = open_session("current.txt", "current\n");
    assert_eq!(session.document().text_lossy(), "current\n");

    session.open_file_async("next.txt".to_string(), 5).unwrap();
    assert!(session.is_loading());

    let err = session.ensure_idle_for_edit().unwrap_err();
    assert!(matches!(
        err,
        DocumentError::EditUnsupported { path: Some(ref blocked_path), reason }
            if blocked_path == "current.txt"
                && reason == "cannot edit while background load is in progress"
    ));
    assert_eq!(session.current_path(), Some("current.txt"));
    assert_eq!(session.document().text_lossy(), "current\n");

    let opened = file("next.txt", "next\n");
    session
        .poll_background_job(JobPoll::Done(Ok(opened)), JobPoll::Pending, finish)
        .unwrap()
        .unwrap();

    assert!(!session.is_busy());
    assert_eq!(session.current_path(), Some("next.txt"));
    assert_eq!(session.document().text_lossy(), "next\n");
}

#[test]
fn document_session_save_apis_report_loading_instead_of_no_path_during_first_async_open() {
    let mut session = SessionCore::new();
    session.open_file_async("input.txt".to_string(), 6).unwrap();
    assert!(session.is_loading());
    assert!(session.current_path().is_none());

    let save_err = session.save(true, save_to).unwrap_err();
    assert!(matches!(
        save_err,
        SaveError::Io(DocumentError::Write { path, ref source })
            if path == "input.txt" && source == "cannot save while load is in progress"
    ));

    let save_async_err = session.save_async(true, prepare).unwrap_err();
    assert!(matches!(
        save_async_err,
        SaveError::Io(DocumentError::Write { path, ref source })
            if path == "input.txt" && source == "cannot save while load is in progress"
    ));

    assert_eq!(session.loading_state().unwrap().path(), "input.txt");

    let opened = file("input.txt", "input\n");
    session.poll_load_job(JobPoll::Done(Ok(opened))).unwrap().unwrap();
    assert_eq!(session.current_path(), Some("input.txt"));
    assert_eq!(session.document().text_lossy(), "input\n");
}

#[test]
fn document_session_document_mut_during_async_open_discards_stale_load_result() {
    let mut session = open_session("current.txt", "current\n");
    session.open_file_async("next.txt".to_string(), 5).unwrap();
    let doc = session.document_mut();
    let next = insert(doc, at(0, 0), "X").unwrap().0;
    *doc = next;

    let opened = file("next.txt", "next\n");
    let err = session.poll_load_job(JobPoll::Done(Ok(opened))).unwrap().unwrap_err();

    assert!(matches!(
        err,
        DocumentError::Open { path, ref source } if path == "next.txt"
            && source == "background load result discarded after current session state changed"
    ));
    assert!(!session.is_busy());
    assert_eq!(session.current_path(), Some("current.txt"));
    assert!(session.is_dirty());
    assert_eq!(session.document().text_lossy(), "Xcurrent\n");
    let issue = session.background_issue().expect("discarded background load should be retained");
    assert_eq!(issue.kind(), BackgroundIssueKind::LoadDiscarded);
    assert_eq!(issue.path(), "next.txt");
    assert_eq!(
        issue.message(),
        "background load result discarded after current session state changed"
    );
    let status = session.status();
    let status_issue =
        status.background_issue().expect("status should retain discarded background load");
    assert_eq!(status_issue.kind(), BackgroundIssueKind::LoadDiscarded);
    assert_eq!(status_issue.path(), "next.txt");
}

#[test]
fn document_session_take_background_issue_clears_retained_discard() {
    let mut session = open_session("current.txt", "current\n");
    session.open_file_async("next.txt".to_string(), 5).unwrap();
    session.document_mut().mark_dirty();

    let opened = file("next.txt", "next\n");
    let err = session.poll_load_job(JobPoll::Done(Ok(opened))).unwrap().unwrap_err();
    assert!(matches!(
        err,
        DocumentError::Open { path, ref source } if path == "next.txt"
            && source == "background load result discarded after current session state changed"
    ));

    let issue = session
        .take_background_issue()
        .expect("discarded load should be available for explicit acknowledgement");
    assert_eq!(issue.kind(), BackgroundIssueKind::LoadDiscarded);
    assert_eq!(issue.path(), "next.txt");
    assert!(session.background_issue().is_none());
    assert!(session.status().background_issue().is_none());
    assert!(session.take_background_issue().is_none());
}

#[test]
fn editor_tab_set_path_during_async_save_discards_stale_save_result() {
    let mut tab = open_tab(21, "source.txt", "abc\ndef\n");
    let _ = tab.try_insert(at(0, 0), "123", insert).unwrap();

    assert!(tab.save_as_async("output.txt".to_string(), true, prepare).unwrap());
    tab.set_path("override.txt".to_string());

    let err = tab
        .poll_background_job(JobPoll::Pending, written("output.txt"), finish)
        .unwrap()
        .unwrap_err();

    assert!(matches!(
        err,
        DocumentError::Write { path, ref source } if path == "output.txt"
            && source == "background save result discarded after current session state changed"
    ));
    assert!(!tab.is_busy());
    assert!(tab.is_dirty());
    assert_eq!(tab.current_path(), Some("override.txt"));
    assert!(tab.text().starts_with("123abc\ndef\n"));
    let issue = tab.background_issue().expect("discarded background save should be retained");
    assert_eq!(issue.kind(), BackgroundIssueKind::SaveDiscarded);
    assert_eq!(issue.path(), "output.txt");
}

#[test]
fn document_session_set_path_during_async_open_discards_stale_load_result() {
    let mut session = open_session("current.txt", "current\n");
    session.open_file_async("next.txt".to_string(), 5).unwrap();
    session.set_path("override.txt".to_string());

    let opened = file("next.txt", "next\n");
    let err = session.poll_load_job(JobPoll::Done(Ok(opened))).unwrap().unwrap_err();

    assert!(matches!(
        err,
        DocumentError::Open { path, ref source } if path == "next.txt"
            && source == "background load result discarded after current session state changed"
    ));
    assert!(!session.is_busy());
    assert_eq!(session.current_path(), Some("override.txt"));
    assert!(!session.is_dirty());
    assert_eq!(session.document().text_lossy(), "current\n");
    let issue = session.background_issue().expect("discarded background load should be retained");
    assert_eq!(issue.kind(), BackgroundIssueKind::LoadDiscarded);
    assert_eq!(issue.path(), "next.txt");
}

#[test]
fn document_session_set_path_while_close_is_deferred_cancels_pending_close() {
    let mut session = open_session("current.txt", "current\n");
    session.open_file_async("next.txt".to_string(), 5).unwrap();
    session.close_file();
    assert!(session.close_pending());
    assert!(session.status().close_pending());

    session.set_path("override.txt".to_string());
    assert!(!session.close_pending());
    assert!(!session.status().close_pending());

    let opened = file("next.txt", "next\n");
    let err = session.poll_load_job(JobPoll::Done(Ok(opened))).unwrap().unwrap_err();

    assert!(matches!(
        err,
        DocumentError::Open { path, ref source } if path == "next.txt"
            && source == "background load result discarded after current session state changed"
    ));
    assert!(!session.is_busy());
    assert!(!session.close_pending());
    assert_eq!(session.current_path(), Some("override.txt"));
    assert_eq!(session.document().text_lossy(), "current\n");
}

#[test]
fn session_save_writes_after_set_path_even_when_document_is_clean() {
    let mut session = open_session("source.txt", "alpha\nbeta\n");
    assert!(!session.is_dirty());

    session.set_path("target.txt".to_string());
    let mut seen = String::new();
    session
        .save(false, |doc: &Document, path: &String| {
            seen = format!("{path}: {}", doc.text_lossy());
            Ok(saved(doc, path))
        })
        .unwrap();

    assert_eq!(seen, "target.txt: alpha\nbeta\n");
    assert_eq!(session.current_path(), Some("target.txt"));
}

#[test]
fn tab_save_async_writes_after_set_path_even_when_document_is_clean() {
    let mut tab = open_tab(224, "source.txt", "alpha\nbeta\n");
    assert!(!tab.is_dirty());

    tab.set_path("target.txt".to_string());
    assert!(
        tab.save_async(false, prepare).unwrap(),
        "clean save_async after set_path should start a real save"
    );

    tab.poll_background_job(JobPoll::Pending, written("target.txt"), finish).unwrap().unwrap();
    assert_eq!(tab.text(), "alpha\nbeta\n");
    assert_eq!(tab.current_path(), Some("target.txt"));
}

#[test]
fn session_save_rewrites_clean_file_after_external_mutation() {
    let mut session = open_session("source.txt", "alpha\nbeta\n");
    assert!(!session.is_dirty());

    let mut seen = String::new();
    session
        .save(false, |doc: &Document, path: &String| {
            seen = doc.text_lossy();
            Ok(saved(doc, path))
        })
        .unwrap();

    assert_eq!(
        seen, "alpha\nbeta\n",
        "explicit save should restore the in-memory clean document after external mutation"
    );
}

#[test]
fn tab_save_async_rewrites_clean_file_after_external_mutation() {
    let mut tab = open_tab(225, "source.txt", "alpha\nbeta\n");
    assert!(!tab.is_dirty());

    assert!(
        tab.save_async(false, prepare).unwrap(),
        "explicit save_async should start when the live file diverged externally"
    );
    tab.poll_background_job(JobPoll::Pending, written("source.txt"), finish).unwrap().unwrap();
    assert!(!tab.save_async(true, prepare).unwrap());
}

#[test]
fn document_session_close_file_while_async_open_defers_until_completion() {
    let mut session = open_session("current.txt", "current\n");
    let generation = session.generation();

    session.open_file_async("next.txt".to_string(), 5).unwrap();
    session.close_file();

    assert!(session.is_loading());
    assert!(session.is_busy());
    assert!(session.close_pending());
    assert_eq!(session.current_path(), Some("current.txt"));
    assert_eq!(session.document().text_lossy(), "current\n");
    assert_eq!(session.generation(), generation);
    assert!(session.status().close_pending());

    let opened = file("next.txt", "next\n");
    session
        .poll_background_job(JobPoll::Done(Ok(opened)), JobPoll::Pending, finish)
        .unwrap()
        .unwrap();

    assert!(!session.is_busy());
    assert!(!session.close_pending());
    assert_eq!(session.current_path(), None);
    assert_eq!(session.document().text_lossy(), "");
    assert!(!session.is_dirty());
    assert_eq!(session.generation(), generation.wrapping_add(1));
    assert!(!session.status().close_pending());
}

#[test]
fn lost_workers_count_as_failed() {
    let mut session = open_session("current.txt", "current\n");
    session.open_file_async("next.txt".to_string(), 5).unwrap();
    let err = session.poll_load_job(JobPoll::Disconnected).unwrap().unwrap_err();
    assert_eq!(
        err,
        DocumentError::Open {
            path: "next.txt".to_string(),
            source: "load worker disconnected unexpectedly".to_string(),
        }
    );
    assert!(!session.is_busy());
    assert_eq!(session.background_issue().unwrap().kind(), BackgroundIssueKind::LoadFailed);

    session.document_mut().mark_dirty();
    assert!(session.save_async(true, prepare).unwrap());
    session.close_file();
    let err = session.poll_save_job(JobPoll::Disconnected, finish).unwrap().unwrap_err();
    assert_eq!(err.message(), "write `current.txt`: save worker disconnected unexpectedly");
    assert!(!session.close_pending());
    assert_eq!(session.current_path(), Some("current.txt"));
    assert_eq!(session.background_issue().unwrap().kind(), BackgroundIssueKind::SaveFailed);
}

#[test]
fn saves_that_cannot_be_finished_fail() {
    let mut session = open_session("current.txt", "current\n");
    session.document_mut().mark_dirty();
    assert!(session.save_async(true, prepare).unwrap());
    session.note_save_progress(3);
    assert_eq!(session.save_progress(), Some((3, 8, "current.txt".to_string())));
    let err = session
        .poll_save_job(written("current.txt"), |_: &Document, done: &SaveCompletion| {
            Err(DocumentError::Open {
                path: done.path.clone(),
                source: "cannot be read again".to_string(),
            })
        })
        .unwrap()
        .unwrap_err();
    assert_eq!(err.message(), "open `current.txt`: cannot be read again");
    assert!(session.is_dirty());
    assert!(!session.is_busy());
}

#[test]
fn files_are_not_opened_over_a_running_job() {
    let mut tab = open_tab(5, "current.txt", "current\n");
    tab.open_file_async("next.txt".to_string(), 5).unwrap();
    let err = tab.open_file("other.txt".to_string(), open_file).unwrap_err();
    assert_eq!(err.message(), "open `other.txt`: cannot open while another load is in progress");
    let err = tab.save_as("other.txt".to_string(), true, save_to).unwrap_err();
    assert_eq!(err.message(), "write `other.txt`: cannot save while load is in progress");
    assert!(tab.poll_load_job(open_failed("next.txt")).unwrap().is_err());

    assert!(tab.save_as_async("copy.txt".to_string(), true, prepare).unwrap());
    let err = tab.open_file("other.txt".to_string(), open_file).unwrap_err();
    assert_eq!(err.message(), "write `other.txt`: cannot open while save is in progress");
    let err = tab.open_file_async("other.txt".to_string(), 1).unwrap_err();
    assert_eq!(err.message(), "write `other.txt`: cannot open while save is in progress");
    assert_eq!(tab.current_path(), Some("current.txt"));
}

#[test]
fn documents_without_a_file_cannot_be_saved_to_it() {
    let mut tab = EditorTab::new(6);
    let err = tab.save(true, save_to).unwrap_err();
    assert_eq!(err, SaveError::NoPath);
    assert_eq!(err.message(), "no path set for current document");
    assert!(err.source().is_none());
    assert_eq!(tab.save_async(true, prepare), Err(SaveError::NoPath));
    assert_eq!(SaveError::InProgress.message(), "save already in progress");

    tab.save_as("new.txt".to_string(), true, save_to).unwrap();
    assert_eq!(tab.current_path(), Some("new.txt"));
    assert_eq!(tab.generation(), 1);
}

#[test]
fn clean_documents_are_marked_clean_after_the_first_frame() {
    let mut tab = open_tab(9, "clean.txt", "alpha\n");
    tab.document_mut().mark_dirty();
    tab.after_text_edit_frame();
    assert!(!tab.is_dirty());
    tab.document_mut().mark_dirty();
    tab.after_text_edit_frame();
    assert!(tab.is_dirty());
}

fn table_tab(id: u64) -> EditorTab {
    let mut tab = EditorTab::new(id);
    tab.open_file("table.txt".to_string(), |path: &String| Ok(table(path, 2))).unwrap();
    tab
}

/// "alpha\n" in a piece table of one or two pieces.
fn table(path: &str, pieces: usize) -> Document {
    let mut doc = Document::new();
    doc.path = Some(path.to_string());
    let first = if pieces == 1 { 6 } else { 3 };
    doc.piece_table = Some(PieceTable {
        original: b"alpha\n".to_vec(),
        add: Vec::new(),
        pieces: PieceTree::from_pieces(vec![
            Piece { src: PieceSource::Original, start: 0, len: first, line_breaks: 0 },
            Piece { src: PieceSource::Original, start: first, len: 6 - first, line_breaks: 0 },
        ]),
        known_line_count: 2,
        known_byte_len: 6,
        total_len: 6,
        full_index: true,
    });
    doc
}

fn compacted(doc: &Document) -> Result<Document, String> {
    Ok(table(doc.path().unwrap(), 1))
}

fn never_compacted(_: &Document) -> Result<Document, String> {
    panic!("nothing is to be compacted")
}

fn advice(tab: &EditorTab, urgency: CompactionUrgency) -> CompactionRecommendation {
    CompactionRecommendation { stats: tab.fragmentation_stats().unwrap(), urgency }
}

#[test]
fn compactions_run_while_idle_and_name_their_file() {
    let mut tab = table_tab(9);
    let deferred = advice(&tab, CompactionUrgency::Deferred);
    let same = |doc: &Document| Ok((table(doc.path().unwrap(), 2), true));
    assert_eq!(tab.compact_piece_table(same), Ok(true));
    let full = |_: &Document| -> Result<Document, String> { Err("disk is full".to_string()) };
    let error = DocumentError::Write {
        path: "table.txt".to_string(),
        source: "disk is full".to_string(),
    };
    assert_eq!(tab.run_idle_compaction(Some(deferred), full), Err(error.clone()));
    assert_eq!(tab.compact_piece_table_if_recommended(Some(deferred), full), Err(error));
    assert_eq!(tab.fragmentation_stats().unwrap().piece_count(), 2);

    tab.open_file_async("next.txt".to_string(), 5).unwrap();
    assert!(tab.compact_piece_table(same).is_err());
    assert!(tab.compact_piece_table_if_recommended(Some(deferred), never_compacted).is_err());
    assert!(tab.run_idle_compaction_with_policy(Some(deferred), never_compacted).is_err());
}

#[test]
fn recommended_compactions_are_carried_out() {
    let mut tab = table_tab(7);
    assert_eq!(tab.compact_piece_table_if_recommended(None, never_compacted), Ok(None));
    let recommended = tab.compaction_recommendation_with_policy(
        CompactionUrgency::Forced,
        |doc: &Document, urgency: CompactionUrgency| {
            Some(CompactionRecommendation { stats: doc.fragmentation_stats().unwrap(), urgency })
        },
    );
    assert_eq!(recommended, Some(advice(&tab, CompactionUrgency::Forced)));
    assert_eq!(
        tab.compact_piece_table_if_recommended(recommended, compacted),
        Ok(recommended)
    );
    assert_eq!(tab.fragmentation_stats().unwrap().piece_count(), 1);

    let mut plain = open_tab(8, "plain.txt", "alpha\n");
    assert_eq!(plain.compaction_recommendation(|_: &Document| recommended), None);
    assert_eq!(plain.compact_piece_table_if_recommended(recommended, never_compacted), Ok(None));
}

#[test]
fn session_and_tab_idle_compaction_wrappers_respect_deferred_and_forced_modes() {
    let mut tab = table_tab(707);
    let deferred = advice(&tab, CompactionUrgency::Deferred);
    let forced = advice(&tab, CompactionUrgency::Forced);
    assert_eq!(
        tab.run_idle_compaction_with_policy(None, never_compacted),
        Ok(IdleCompactionOutcome::NotNeeded)
    );
    match tab.run_idle_compaction_with_policy(Some(forced), never_compacted) {
        Ok(IdleCompactionOutcome::ForcedPending(recommendation)) => {
            assert_eq!(recommendation.urgency(), CompactionUrgency::Forced);
        }
        other => panic!("unexpected tab idle compaction result: {other:?}"),
    }
    assert_eq!(
        tab.maintenance_action_with_policy(usize::MAX, Some(forced)),
        MaintenanceAction::ExplicitCompaction
    );
    assert!(tab.fragmentation_stats().expect("tab stats after forced pending").piece_count() > 1);

    match tab.run_idle_compaction(Some(deferred), compacted) {
        Ok(IdleCompactionOutcome::Compacted(recommendation)) => {
            assert_eq!(recommendation.urgency(), CompactionUrgency::Deferred);
        }
        other => panic!("unexpected tab idle compaction result: {other:?}"),
    }
    assert_eq!(tab.fragmentation_stats().unwrap().piece_count(), 1);

    let mut plain = open_tab(708, "plain.txt", "alpha\n");
    assert_eq!(
        plain.run_idle_compaction(Some(deferred), never_compacted),
        Ok(IdleCompactionOutcome::NotNeeded)
    );
}

#[test]
fn issues_keep_what_an_error_says() {
    let encoding = DocumentEncoding::from_label("windows-1252").unwrap();
    let error = DocumentError::Encoding {
        path: "x.txt".to_string(),
        operation: "save",
        encoding,
        reason: DocumentEncodingErrorKind::UnsupportedSaveTarget,
    };
    let issue = background_issue_from_error(BackgroundIssueKind::SaveFailed, &error);
    assert_eq!(
        issue,
        BackgroundIssue::new(
            BackgroundIssueKind::SaveFailed,
            "x.txt".to_string(),
            "this encoding is not yet supported as a save target".to_string(),
        )
    );
    assert!(issue.is_save() && !issue.is_load() && !issue.is_discarded());

    let error = DocumentError::EditUnsupported { path: None, reason: "too large" };
    let issue = background_issue_from_error(BackgroundIssueKind::LoadDiscarded, &error);
    assert_eq!(issue.path(), "");
    assert_eq!(issue.message(), "too large");
    assert!(issue.is_load() && issue.is_discarded());
}

#[test]
fn load_phases_have_numbers() {
    for phase in [
        OpenProgressPhase::OpeningStorage,
        OpenProgressPhase::InspectingSource,
        OpenProgressPhase::PreparingIndex,
        OpenProgressPhase::RecoveringSession,
        OpenProgressPhase::Ready,
    ] {
        let load = map_open_phase(phase);
        assert_eq!(LoadPhase::from_raw(load.as_raw()), load);
    }
    assert_eq!(LoadPhase::from_raw(200), LoadPhase::Opening);
    assert_eq!(map_open_phase(OpenProgressPhase::Ready).as_raw(), 4);
}

#[test]
fn activities_show_their_progress() {
    let progress = FileProgress::new("x.txt".to_string(), 3, 9);
    let saving = BackgroundActivity::Saving(progress.clone());
    assert!(!saving.is_idle());
    assert_eq!(saving.save_state(), Some(&progress));
    assert_eq!(saving.progress(), Some(&progress));
    assert_eq!(saving.loading_state(), None);
    assert_eq!(saving.loading_phase(), None);
    assert!(BackgroundActivity::Idle.is_idle());
    assert_eq!(BackgroundActivity::Idle.progress(), None);
}

#[test]
fn tabs_are_pinned_and_their_cursors_stay_in_the_text() {
    let mut tab = open_tab(40, "pinned.txt", "alpha\nbeta\n");
    assert!(!tab.is_pinned());
    tab.toggle_pinned();
    assert!(tab.is_pinned());
    assert!(tab.status().is_pinned());
    tab.set_cursor_position(at(9, 9));
    assert_eq!(tab.cursor(), CursorPosition::new(3, 1));
    tab.set_cursor_line_col(0, 0);
    assert_eq!(tab.cursor(), CursorPosition::default());
    assert_eq!(tab.clamp_selection(TextSelection::new(at(0, 99), at(7, 7))),
        TextSelection::new(at(0, 5), at(2, 0)));
}
