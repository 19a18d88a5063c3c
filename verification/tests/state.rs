use qem::document::encode::{
    accept_encoded, encode_text_with_encoding, rope_save_len_bytes, rope_text_with_line_endings,
};
use qem::document::piece_table::PieceTable;
use qem::document::state::{Document, LineCountWait, MAX_ROPE_EDIT_FILE_BYTES};
use qem::document::status::{
    CompactionRecommendation, CompactionUrgency, DocumentEncodingErrorKind, DocumentError,
    MaintenanceAction,
};
use qem::document::types::{
    ByteProgress, DocumentBacking, DocumentEncoding, DocumentEncodingOrigin, DocumentOpenOptions,
    DocumentSaveOptions, LineCount, LineEnding, LineSlice, OpenEncodingPolicy, TextPosition,
    TextRange, TextSelection, TextSlice,
};
use qem::editlog::{Piece, PieceSource};
use qem::index::{build_index_file, DiskLineIndex, IndexMetadata, ReadyDiskLineIndex};
use qem::piece_tree::PieceTree;

fn rope_doc(text: &str) -> Document {
    let mut doc = Document::new();
    doc.rope = Some(ropey::Rope::from_str(text));
    doc.mark_dirty();
    doc
}

fn file_doc(bytes: &[u8]) -> Document {
    Document::from_bytes(None, bytes.to_vec())
}

fn breaks(bytes: &[u8]) -> usize {
    bytes.iter().filter(|byte| **byte == b'\n').count()
}

/// A document held in a piece table, with all lines indexed. `true` marks added text.
fn table_doc(segments: &[(bool, &[u8])]) -> Document {
    let mut original = Vec::new();
    let mut add = Vec::new();
    let mut pieces = Vec::new();
    let mut total_len = 0;
    let mut lines = 1;
    for (added, bytes) in segments {
        let (src, buffer) = if *added {
            (PieceSource::Add, &mut add)
        } else {
            (PieceSource::Original, &mut original)
        };
        pieces.push(Piece {
            src,
            start: buffer.len(),
            len: bytes.len(),
            line_breaks: breaks(bytes),
        });
        buffer.extend_from_slice(bytes);
        total_len += bytes.len();
        lines += breaks(bytes);
    }
    let mut doc = Document::new();
    doc.piece_table = Some(PieceTable {
        original,
        add,
        pieces: PieceTree::from_pieces(pieces),
        known_line_count: lines,
        known_byte_len: total_len,
        total_len,
        full_index: true,
    });
    doc.mark_dirty();
    doc
}

/// A file whose first line is indexed, with `top` inserted in front of it.
fn partial_doc(top: &[u8], bytes: &[u8], known_lines: usize, known_bytes: usize) -> Document {
    let mut pieces = Vec::new();
    if !top.is_empty() {
        pieces.push(Piece {
            src: PieceSource::Add,
            start: 0,
            len: top.len(),
            line_breaks: breaks(top),
        });
    }
    pieces.push(Piece {
        src: PieceSource::Original,
        start: 0,
        len: known_bytes,
        line_breaks: known_lines,
    });
    if known_bytes < bytes.len() {
        pieces.push(Piece {
            src: PieceSource::Original,
            start: known_bytes,
            len: bytes.len() - known_bytes,
            line_breaks: 0,
        });
    }
    let mut doc = Document::new();
    doc.storage = Some(bytes.to_vec());
    doc.file_len = bytes.len();
    doc.piece_table = Some(PieceTable {
        original: bytes.to_vec(),
        add: top.to_vec(),
        pieces: PieceTree::from_pieces(pieces),
        known_line_count: known_lines + breaks(top),
        known_byte_len: known_bytes + top.len(),
        total_len: bytes.len() + top.len(),
        full_index: false,
    });
    doc
}

/// A file of which nothing has been indexed.
fn unindexed_doc(bytes: &[u8], avg_line_len: usize) -> Document {
    let mut doc = Document::new();
    doc.storage = Some(bytes.to_vec());
    doc.file_len = bytes.len();
    doc.avg_line_len = avg_line_len;
    doc
}

fn at(line0: usize, col0: usize) -> TextPosition {
    TextPosition::new(line0, col0)
}

fn in_encoding(doc: &mut Document, label: &str) -> DocumentEncoding {
    let encoding = DocumentEncoding::from_label(label).unwrap();
    doc.encoding = encoding;
    encoding
}

#[test]
fn indexing_progress_reports_inflight_state() {
    let mut doc = Document::new();
    doc.indexing = true;
    doc.file_len = 128;
    doc.indexed_bytes = 32;

    let progress = doc.indexing_state().expect("typed indexing progress should exist");
    assert_eq!(progress.completed_bytes(), 32);
    assert_eq!(progress.total_bytes(), 128);
    assert_eq!(doc.indexing_state(), Some(ByteProgress::new(32, 128)));
    assert_eq!(doc.indexing_progress(), Some((32, 128)));
}

#[test]
fn open_options_auto_detection_fallback_exposes_override() {
    let encoding = DocumentEncoding::from_label("windows-1252").unwrap();
    let options = DocumentOpenOptions::new().with_auto_encoding_detection_and_fallback(encoding);

    assert_eq!(options.encoding_override(), Some(encoding));
    assert_eq!(
        options.encoding_policy(),
        OpenEncodingPolicy::AutoDetectOrReinterpret(encoding)
    );
}

#[test]
fn fully_indexed_short_line_mmap_uses_exact_line_count() {
    let doc = file_doc("x\n".repeat(10_000).as_bytes());

    assert!(doc.is_fully_indexed());
    assert!(doc.has_precise_line_lengths());
    assert_eq!(doc.line_count(), LineCount::Exact(10_001));
    assert_eq!(doc.exact_line_count(), Some(10_001));
}

#[test]
fn document_exposes_detected_line_ending_style() {
    let doc = file_doc(b"alpha\r\nbeta\r\n");

    assert_eq!(doc.line_ending(), LineEnding::Crlf);
    assert_eq!(doc.line_ending().as_str(), "\r\n");
    assert_eq!(file_doc(b"alpha\rbeta\n").line_ending(), LineEnding::Cr);
    assert_eq!(file_doc(b"alpha").line_ending(), LineEnding::Lf);
}

#[test]
fn display_line_count_helpers_follow_exactness() {
    let doc = Document::new();
    assert_eq!(doc.display_line_count(), 1);
    assert!(doc.is_line_count_exact());

    let doc = rope_doc("one\ntwo");

    assert_eq!(doc.display_line_count(), 2);
    assert!(doc.is_line_count_exact());
    assert_eq!(doc.line_count(), LineCount::Exact(2));
}

#[test]
fn document_status_reports_frontend_snapshot() {
    let doc = rope_doc("alpha\nbeta");

    let status = doc.status();

    assert!(status.is_dirty());
    assert_eq!(doc.backing(), DocumentBacking::Rope);
    assert_eq!(status.backing(), DocumentBacking::Rope);
    assert_eq!(status.backing().as_str(), "rope");
    assert_eq!(status.line_count(), LineCount::Exact(2));
    assert_eq!(status.exact_line_count(), Some(2));
    assert_eq!(status.display_line_count(), 2);
    assert!(status.is_line_count_exact());
    assert_eq!(status.line_ending(), LineEnding::Lf);
    assert_eq!(status.encoding_origin(), DocumentEncodingOrigin::NewDocument);
    assert!(status.can_preserve_save());
    assert_eq!(status.preserve_save_error(), None);
    assert!(status.has_edit_buffer());
    assert!(status.has_rope());
    assert!(!status.has_piece_table());
    assert!(!status.is_indexing());
}

#[test]
fn preserve_save_preflight_reports_lossy_and_unsupported_contracts() {
    let mut lossy_doc = rope_doc("\u{FFFD}");
    in_encoding(&mut lossy_doc, "shift_jis");
    lossy_doc.decoding_had_errors = true;
    assert!(!lossy_doc.can_preserve_save());
    assert_eq!(
        lossy_doc.preserve_save_error(),
        Some(DocumentEncodingErrorKind::LossyDecodedPreserve)
    );
    assert_eq!(
        lossy_doc.status().preserve_save_error(),
        Some(DocumentEncodingErrorKind::LossyDecodedPreserve)
    );

    let mut utf16_doc = rope_doc("hello\n");
    utf16_doc.encoding = DocumentEncoding::utf16le();
    assert!(!utf16_doc.can_preserve_save());
    assert_eq!(
        utf16_doc.preserve_save_error(),
        Some(DocumentEncodingErrorKind::PreserveSaveUnsupported)
    );
    assert_eq!(
        utf16_doc.status().preserve_save_error(),
        Some(DocumentEncodingErrorKind::PreserveSaveUnsupported)
    );
}

#[test]
fn save_conversion_preflight_reports_success_and_failures() {
    let cp1251 = DocumentEncoding::from_label("windows-1251").unwrap();

    let representable = rope_doc("\u{043F}\u{0440}\u{0438}\u{0432}\u{0435}\u{0442}\n");
    assert_eq!(representable.save_error_for_encoding(cp1251), None);
    assert!(representable.can_save_with_encoding(cp1251));

    let unrepresentable = rope_doc("emoji \u{1F642}\n");
    assert_eq!(
        unrepresentable.save_error_for_encoding(cp1251),
        Some(DocumentEncodingErrorKind::UnrepresentableText)
    );
    assert!(!unrepresentable.can_save_with_encoding(cp1251));
    assert_eq!(
        unrepresentable.save_error_for_options(
            DocumentSaveOptions::new().with_encoding(DocumentEncoding::utf16le())
        ),
        Some(DocumentEncodingErrorKind::UnsupportedSaveTarget)
    );
}

#[test]
fn lossy_document_save_conversion_preflight_allows_utf8_salvage() {
    let mut doc = rope_doc("\u{FFFD}");
    let shift_jis = in_encoding(&mut doc, "shift_jis");
    doc.decoding_had_errors = true;

    assert_eq!(doc.save_error_for_encoding(DocumentEncoding::utf8()), None);
    assert!(doc.can_save_with_encoding(DocumentEncoding::utf8()));
    assert_eq!(
        doc.save_error_for_encoding(shift_jis),
        Some(DocumentEncodingErrorKind::UnrepresentableText)
    );
}

#[test]
fn unrepresentable_legacy_edits_bar_a_preserving_save() {
    let mut doc = rope_doc("emoji \u{1F642}\n\u{043F}\u{0440}\u{0438}\u{0432}\u{0435}\u{0442}\n");
    in_encoding(&mut doc, "windows-1251");

    assert_eq!(
        doc.preserve_save_error(),
        Some(DocumentEncodingErrorKind::UnrepresentableText)
    );
    assert!(!doc.can_preserve_save());
    assert_eq!(
        doc.save_error_for_options(DocumentSaveOptions::new()),
        Some(DocumentEncodingErrorKind::UnrepresentableText)
    );
    assert_eq!(
        doc.status().preserve_save_error(),
        Some(DocumentEncodingErrorKind::UnrepresentableText)
    );
    doc.remember_preserve_save_error();
    assert_eq!(
        doc.preserve_save_error(),
        Some(DocumentEncodingErrorKind::UnrepresentableText)
    );
    doc.mark_dirty();
    assert!(doc.preserve_save_error_cache.is_none());
}

#[test]
fn invalid_utf8_can_be_saved_until_it_is_edited() {
    let mut doc = file_doc(&[0x66, 0x6f, 0x80, 0x6f, b'\n']);
    assert_eq!(doc.encoding(), DocumentEncoding::utf8());
    assert_eq!(doc.encoding_origin(), DocumentEncodingOrigin::Utf8FastPath);
    assert!(doc.decoding_had_errors());
    assert!(doc.can_preserve_save());
    assert_eq!(doc.preserve_save_error(), None);
    assert!(doc.status().decoding_had_errors());
    assert_eq!(doc.text_lossy(), "fo\u{FFFD}o\n");

    let edited = format!("X{}", doc.text_lossy());
    doc.rope = Some(ropey::Rope::from_str(&edited));
    doc.mark_dirty();
    assert!(doc.decoding_had_errors());
    assert!(!doc.can_preserve_save());
    assert_eq!(
        doc.preserve_save_error(),
        Some(DocumentEncodingErrorKind::LossyDecodedPreserve)
    );
    assert_eq!(
        doc.save_error_for_options(DocumentSaveOptions::new()),
        Some(DocumentEncodingErrorKind::LossyDecodedPreserve)
    );
}

#[test]
fn valid_utf8_is_read_without_errors() {
    for text in ["", "plain\n", "\u{7FF}\u{800}", "\u{D7FF}\u{E000}\u{FFFF}\u{10000}\u{10FFFF}"] {
        assert!(!file_doc(text.as_bytes()).decoding_had_errors());
    }
    let invalid: [&[u8]; 7] = [
        &[0x80],
        &[b'a', 0xC3],
        &[0xC0, 0xAF],
        &[0xED, 0xA0, 0x80],
        &[0xE0, 0x80, 0x80],
        &[0xF4, 0x90, 0x80, 0x80],
        &[0xF0, 0x9F, 0x92, b'x'],
    ];
    for bytes in invalid {
        assert!(file_doc(bytes).decoding_had_errors());
    }

    let mut doc = file_doc("valid \u{20AC}\n".as_bytes());
    doc.rope = Some(ropey::Rope::from_str("Xvalid\n"));
    doc.mark_dirty();
    assert!(doc.can_preserve_save());
    assert_eq!(doc.preserve_save_error(), None);
}

#[test]
fn large_files_are_not_saved_where_they_cannot_be_read_again() {
    let doc = file_doc(&vec![b'x'; MAX_ROPE_EDIT_FILE_BYTES + 1]);
    let cp1251 = DocumentEncoding::from_label("windows-1251").unwrap();
    let error = DocumentEncodingErrorKind::SaveReopenTooLarge { max_bytes: 128 * 1024 * 1024 };
    assert_eq!(doc.save_error_for_encoding(cp1251), Some(error));
    assert_eq!(doc.save_error_for_encoding(DocumentEncoding::utf8()), None);
    assert_eq!(
        error.message(),
        "saving to this non-UTF8 target would require reopening a full transcoded buffer and is limited to 134217728 bytes"
    );
}

#[test]
fn encoders_are_told_apart_by_what_they_give_back() {
    let cp1251 = DocumentEncoding::from_label("windows-1251").unwrap();
    let utf8 = DocumentEncoding::utf8();
    assert_eq!(encode_text_with_encoding("дa", cp1251), Ok(vec![0xe4, b'a']));
    assert_eq!(encode_text_with_encoding("д", utf8), Ok(vec![0xd0, 0xb4]));
    assert_eq!(
        encode_text_with_encoding("x", DocumentEncoding::utf16be()),
        Err(DocumentEncodingErrorKind::UnsupportedSaveTarget)
    );
    assert_eq!(
        accept_encoded("x", cp1251, Some((vec![b'x'], utf8, false))),
        Err(DocumentEncodingErrorKind::RedirectedSaveTarget { actual: utf8 })
    );
    assert_eq!(
        accept_encoded("x", cp1251, None),
        Err(DocumentEncodingErrorKind::UnsupportedSaveTarget)
    );
    assert_eq!(
        accept_encoded("x", cp1251, Some((vec![b'?'], cp1251, true))),
        Err(DocumentEncodingErrorKind::UnrepresentableText)
    );
    assert_eq!(accept_encoded("x", cp1251, Some((vec![7], cp1251, false))), Ok(vec![7]));
}

#[test]
fn lengths_are_those_of_the_file() {
    let mut doc = rope_doc("a\nб\n");
    assert_eq!(doc.file_len(), 5);
    doc.line_ending = LineEnding::Crlf;
    assert_eq!(doc.file_len(), 7);
    in_encoding(&mut doc, "windows-1251");
    assert_eq!(doc.file_len(), 6);
    let mut foreign = rope_doc("\u{1F642}");
    in_encoding(&mut foreign, "windows-1251");
    assert_eq!(foreign.file_len(), 4);

    let rope = ropey::Rope::from_str("a\nb");
    assert_eq!(rope_text_with_line_endings(&rope, LineEnding::Crlf), "a\r\nb");
    assert_eq!(rope_text_with_line_endings(&rope, LineEnding::Cr), "a\rb");
    assert_eq!(rope_text_with_line_endings(&rope, LineEnding::Lf), "a\nb");
    assert_eq!(rope_save_len_bytes(&rope, LineEnding::Crlf), 4);
    assert_eq!(rope_save_len_bytes(&rope, LineEnding::Cr), 3);
}

#[test]
fn document_maintenance_status_is_empty_for_non_piece_table_backings() {
    let doc = rope_doc("alpha\nbeta");

    let maintenance = doc.maintenance_status(None);

    assert_eq!(maintenance.backing(), DocumentBacking::Rope);
    assert!(!maintenance.has_piece_table());
    assert!(!maintenance.has_fragmentation_stats());
    assert_eq!(maintenance.fragmentation_stats(), None);
    assert!(!maintenance.is_compaction_recommended());
    assert_eq!(maintenance.compaction_recommendation(), None);
    assert_eq!(maintenance.compaction_urgency(), None);
    assert_eq!(maintenance.recommended_action(), MaintenanceAction::Nothing);
    assert!(!maintenance.should_run_idle_compaction());
    assert!(!maintenance.should_wait_for_explicit_compaction());
}

#[test]
fn nothing_is_compacted_without_a_piece_table() {
    let table = table_doc(&[(true, b"[qem]"), (false, b"alpha\n")]);
    let stats = table.fragmentation_stats().unwrap();
    for urgency in [CompactionUrgency::Deferred, CompactionUrgency::Forced] {
        let advice = Some(CompactionRecommendation { stats, urgency });
        for doc in [rope_doc("alpha"), file_doc(b"alpha"), Document::new()] {
            assert_eq!(doc.maintenance_action(advice), MaintenanceAction::Nothing);
            assert_eq!(doc.maintenance_action_with_policy(9, advice), MaintenanceAction::Nothing);
            assert_eq!(doc.maintenance_status(advice).compaction_recommendation(), None);
        }
        assert_eq!(
            table.maintenance_action(advice),
            table.maintenance_status(advice).recommended_action()
        );
        assert_eq!(
            table.maintenance_action(advice),
            table.maintenance_action_with_policy(1024, advice)
        );
        assert_eq!(table.maintenance_status(advice).compaction_recommendation(), advice);
    }
}

#[test]
fn document_maintenance_status_reports_piece_table_fragmentation_and_policy() {
    let file = b"0000target\n".repeat(1024 * 1024 / 11 + 64);
    let doc = table_doc(&[(true, b"[qem]"), (false, &file)]);
    assert_eq!(doc.backing(), DocumentBacking::PieceTable);

    let stats = doc.fragmentation_stats_with_threshold(usize::MAX).unwrap();
    let advice = CompactionRecommendation { stats, urgency: CompactionUrgency::Deferred };
    let maintenance = doc.maintenance_status_with_policy(usize::MAX, Some(advice));
    let stats = maintenance.fragmentation_stats().expect("piece-table maintenance stats");
    let recommendation = maintenance
        .compaction_recommendation()
        .expect("piece-table maintenance recommendation");

    assert_eq!(maintenance.backing(), DocumentBacking::PieceTable);
    assert!(maintenance.has_piece_table());
    assert!(maintenance.has_fragmentation_stats());
    assert!(stats.piece_count() > 1);
    assert!(maintenance.is_compaction_recommended());
    assert_eq!(maintenance.compaction_urgency(), Some(CompactionUrgency::Deferred));
    assert_eq!(recommendation.urgency(), CompactionUrgency::Deferred);
    assert_eq!(recommendation.stats(), stats);
    assert_eq!(maintenance.recommended_action(), MaintenanceAction::IdleCompaction);
    assert!(maintenance.should_run_idle_compaction());
    assert!(!maintenance.should_wait_for_explicit_compaction());
    assert_eq!(
        doc.maintenance_action_with_policy(usize::MAX, Some(advice)),
        MaintenanceAction::IdleCompaction
    );
    let forced = CompactionRecommendation { stats, urgency: CompactionUrgency::Forced };
    assert_eq!(
        doc.maintenance_action(Some(forced)),
        MaintenanceAction::ExplicitCompaction
    );
    let small = doc.fragmentation_stats().unwrap();
    assert_eq!(small.small_piece_count, 1);
    assert_eq!(small.small_piece_bytes, 5);
}

#[test]
fn estimates_grow_with_what_has_been_seen() {
    let doc = unindexed_doc(&vec![b'x'; 1000], 80);
    assert_eq!(doc.line_count(), LineCount::Estimated(13));
    assert_eq!(doc.exact_line_count(), None);
    assert!(!doc.is_line_count_pending());

    let mut indexing = unindexed_doc(&vec![b'x'; 1000], 0);
    indexing.indexing = true;
    assert_eq!(indexing.avg_line_len(), 1);
    assert_eq!(indexing.display_line_count(), 1000);
    assert!(indexing.is_line_count_pending());
    assert_eq!(indexing.wait_for_exact_line_count(false), LineCountWait::Sleep);
    assert_eq!(indexing.wait_for_exact_line_count(true), LineCountWait::Done(None));
    assert_eq!(
        file_doc(b"a\n").wait_for_exact_line_count(false),
        LineCountWait::Done(Some(2))
    );

    let partial = partial_doc(b"", b"a\nb\nc\n", 1, 2);
    assert_eq!(partial.display_line_count(), 1);
    assert!(!partial.has_precise_line_lengths());
}

#[test]
fn a_partly_indexed_table_has_no_exact_count() {
    let mut partial = partial_doc(b"", b"a\nb\nc\n", 1, 2);
    partial.indexed_bytes = 6;
    assert!(partial.is_fully_indexed());
    assert_eq!(partial.exact_line_count(), None);
    assert!(!partial.is_line_count_exact());
    assert_eq!(partial.line_count(), LineCount::Estimated(1));
    assert_eq!(partial.wait_for_exact_line_count(false), LineCountWait::Done(None));
    assert_eq!(partial.status().exact_line_count(), None);

    let whole = table_doc(&[(false, b"a\nb\nc\n")]);
    assert_eq!(whole.exact_line_count(), Some(4));
}

#[test]
fn valid_text_is_read_as_it_is() {
    let text = "\u{20AC}\u{1F600}\r\nb\u{E9}\n";
    let table = table_doc(&[(false, "\u{20AC}\u{1F600}\r\nb".as_bytes()), (true, "\u{E9}\n".as_bytes())]);
    for doc in [file_doc(text.as_bytes()), table] {
        assert_eq!(doc.text_lossy(), text);
        let slice = doc.read_text(TextRange::new(at(0, 1), 4));
        assert!(slice.is_exact());
        assert_eq!(slice.text(), "\u{1F600}\r\nb\u{E9}");
        let selection = TextSelection::new(at(1, 1), at(0, 0));
        assert_eq!(doc.read_selection(selection).text(), "\u{20AC}\u{1F600}\r\nb");
    }
    assert_eq!(rope_doc("a\u{E9}b").read_text(TextRange::new(at(0, 1), 1)).text(), "\u{E9}");
    assert_eq!(file_doc(b"x\x80y").read_text(TextRange::new(at(0, 1), 2)).text(), "\u{FFFD}y");
}

#[test]
fn disk_indexes_count_lines_of_files() {
    let meta = IndexMetadata { source_len: 8, source_mtime_ns: 1, source_fingerprint: 2 };
    let text = b"a\nb\nc\nd\n";
    let ready = ReadyDiskLineIndex::open_existing(build_index_file(text, meta), meta).unwrap();
    let mut doc = unindexed_doc(text, 80);
    doc.disk_index = Some(DiskLineIndex::Building);
    assert!(doc.is_line_count_pending());
    doc.disk_index = Some(DiskLineIndex::Ready(ready));
    assert_eq!(doc.exact_line_count(), Some(5));
    assert_eq!(doc.estimated_mmap_line_byte_range(5), None);
    assert_eq!(doc.estimated_mmap_line_byte_range(0), Some((0, 2)));
}

#[test]
fn lines_of_an_edited_file_are_counted_from_its_index() {
    let text = b"a\r\nb\nc\rd";
    let meta = IndexMetadata { source_len: 8, source_mtime_ns: 1, source_fingerprint: 2 };
    let ready = || {
        let file = build_index_file(text, meta);
        Some(DiskLineIndex::Ready(ReadyDiskLineIndex::open_existing(file, meta).unwrap()))
    };
    let count = |pieces: &[(PieceSource, usize, usize)], add: &[u8]| {
        let mut total_len = 0;
        let mut list = Vec::new();
        for (src, start, len) in pieces {
            list.push(Piece { src: *src, start: *start, len: *len, line_breaks: 0 });
            total_len += len;
        }
        let mut doc = Document::new();
        doc.storage = Some(text.to_vec());
        doc.file_len = text.len();
        doc.disk_index = ready();
        doc.piece_table = Some(PieceTable {
            original: text.to_vec(),
            add: add.to_vec(),
            pieces: PieceTree::from_pieces(list),
            known_line_count: 0,
            known_byte_len: 0,
            total_len,
            full_index: false,
        });
        doc.exact_line_count()
    };
    let (old, new) = (PieceSource::Original, PieceSource::Add);

    assert_eq!(count(&[(old, 0, 8)], b""), Some(4));
    assert_eq!(count(&[(old, 0, 2), (old, 2, 6)], b""), Some(4));
    assert_eq!(count(&[(new, 0, 4), (old, 0, 8)], b"x\ny\n"), Some(6));
    assert_eq!(count(&[(old, 0, 2), (new, 0, 1), (old, 2, 6)], b"x"), Some(5));
    assert_eq!(count(&[(old, 0, 7), (new, 0, 1), (old, 7, 1)], b"\n"), Some(4));
    assert_eq!(count(&[(old, 0, 2), (new, 0, 1), (old, 2, 6)], b"\n"), Some(5));
    assert_eq!(count(&[(old, 0, 4), (new, 0, 1), (old, 4, 4)], b"\r"), Some(4));
    assert_eq!(count(&[(old, 0, 3), (old, 4, 4)], b""), None);
    assert_eq!(count(&[(old, 2, 6), (old, 0, 2)], b""), None);
    assert_eq!(count(&[(new, 0, 1)], b"\n"), None);
}

#[test]
fn indexing_time_is_counted_from_its_start() {
    let mut doc = Document::new();
    assert_eq!(doc.indexing_elapsed(9), None);
    doc.indexing_started_ms = Some(5);
    assert_eq!(doc.indexing_elapsed(9), Some(4));
    assert_eq!(doc.indexing_elapsed(3), Some(0));
}

#[test]
fn values_convert_to_and_from_plain_ones() {
    let position: TextPosition = (3, 4).into();
    assert_eq!(position, at(3, 4));
    let pair: (usize, usize) = position.into();
    assert_eq!(pair, (3, 4));
    let slice = LineSlice::new("text".to_string(), true);
    assert_eq!(slice.as_ref(), "text");
    assert_eq!(&*slice, "text");
    assert_eq!(String::from(slice), "text");
    let slice = TextSlice::new("more".to_string(), false);
    assert_eq!(slice.as_ref(), "more");
    assert_eq!(&*slice, "more");
    assert_eq!(String::from(slice), "more");
}

#[test]
fn encodings_are_known_by_their_labels() {
    let latin = DocumentEncoding::from_label("latin1").unwrap();
    assert_eq!(latin.name(), "windows-1252");
    assert!(latin.can_roundtrip_save());
    assert!(!latin.is_utf8());
    assert_eq!(DocumentEncoding::from_label("utf-8"), Some(DocumentEncoding::utf8()));
    assert_eq!(DocumentEncoding::from_label("utf-16le"), Some(DocumentEncoding::utf16le()));
    assert!(!DocumentEncoding::utf16be().can_roundtrip_save());
    assert_eq!(DocumentEncoding::from_label("no such label"), None);
    assert_eq!(DocumentEncoding::default(), DocumentEncoding::utf8());
}

#[test]
fn errors_say_what_happened() {
    let error = DocumentError::Mmap { path: "a b".to_string(), source: "denied".to_string() };
    assert_eq!(error.message(), "mmap `a b`: denied");
    let error = DocumentError::EditUnsupported { path: None, reason: "too large" };
    assert_eq!(error.message(), "edit: too large");
    let error = DocumentError::EditUnsupported { path: Some("x".to_string()), reason: "busy" };
    assert_eq!(error.message(), "edit `x`: busy");
    let error = DocumentError::Encoding {
        path: "x".to_string(),
        operation: "save",
        encoding: DocumentEncoding::utf16le(),
        reason: DocumentEncodingErrorKind::RedirectedSaveTarget {
            actual: DocumentEncoding::utf8(),
        },
    };
    assert_eq!(
        error.message(),
        "save `x` with encoding `UTF-16LE`: encoding_rs redirected this save target to `UTF-8`"
    );
    assert_eq!(
        DocumentEncodingErrorKind::OpenTranscodeTooLarge { max_bytes: 1024 }.message(),
        "non-UTF8 open currently requires full transcoding and is limited to 1024 bytes"
    );
}
