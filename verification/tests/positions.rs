use qem::document::estimate::{APPROX_LINE_BACKTRACK_BYTES, APPROX_LINE_FORWARD_BYTES};
use qem::document::navigate::{line_offsets_anchor_for_byte, line_offsets_anchor_for_line};
use qem::document::piece_table::{PieceTable, PARTIAL_PIECE_TABLE_SCAN_BYTES};
use qem::document::state::{Document, LineOffsets};
use qem::document::stream_search::scanned_piece_table_byte_offset_for_position;
use qem::document::types::{TextPosition, TextRange, TextSelection};
use qem::editlog::{Piece, PieceSource};
use qem::piece_tree::PieceTree;

fn rope_doc(text: &str) -> Document {
    let mut doc = Document::new();
    doc.rope = Some(ropey::Rope::from_str(text));
    doc.mark_dirty();
    doc
}

fn file_doc(bytes: &[u8]) -> Document {
    Document::from_bytes(None, bytes.to_vec())
}

fn breaks(bytes: &[u8]) -> usize {
    bytes.iter().filter(|byte| **byte == b'\n').count()
}

/// A document held in a piece table, with all lines indexed. `true` marks added text.
fn table_doc(segments: &[(bool, &[u8])]) -> Document {
    let mut original = Vec::new();
    let mut add = Vec::new();
    let mut pieces = Vec::new();
    let mut total_len = 0;
    let mut lines = 1;
    for (added, bytes) in segments {
        let (src, buffer) = if *added {
            (PieceSource::Add, &mut add)
        } else {
            (PieceSource::Original, &mut original)
        };
        pieces.push(Piece {
            src,
            start: buffer.len(),
            len: bytes.len(),
            line_breaks: breaks(bytes),
        });
        buffer.extend_from_slice(bytes);
        total_len += bytes.len();
        lines += breaks(bytes);
    }
    let mut doc = Document::new();
    doc.piece_table = Some(PieceTable {
        original,
        add,
        pieces: PieceTree::from_pieces(pieces),
        known_line_count: lines,
        known_byte_len: total_len,
        total_len,
        full_index: true,
    });
    doc.mark_dirty();
    doc
}

/// A file whose first line is indexed, with `top` inserted in front of it.
fn partial_doc(top: &[u8], bytes: &[u8], known_lines: usize, known_bytes: usize) -> Document {
    let mut pieces = Vec::new();
    if !top.is_empty() {
        pieces.push(Piece {
            src: PieceSource::Add,
            start: 0,
            len: top.len(),
            line_breaks: breaks(top),
        });
    }
    pieces.push(Piece {
        src: PieceSource::Original,
        start: 0,
        len: known_bytes,
        line_breaks: known_lines,
    });
    if known_bytes < bytes.len() {
        pieces.push(Piece {
            src: PieceSource::Original,
            start: known_bytes,
            len: bytes.len() - known_bytes,
            line_breaks: 0,
        });
    }
    let mut doc = Document::new();
    doc.storage = Some(bytes.to_vec());
    doc.file_len = bytes.len();
    doc.piece_table = Some(PieceTable {
        original: bytes.to_vec(),
        add: top.to_vec(),
        pieces: PieceTree::from_pieces(pieces),
        known_line_count: known_lines + breaks(top),
        known_byte_len: known_bytes + top.len(),
        total_len: bytes.len() + top.len(),
        full_index: false,
    });
    doc
}

/// A file of which nothing has been indexed.
fn unindexed_doc(bytes: &[u8], avg_line_len: usize) -> Document {
    let mut doc = Document::new();
    doc.storage = Some(bytes.to_vec());
    doc.file_len = bytes.len();
    doc.avg_line_len = avg_line_len;
    doc
}

fn at(line0: usize, col0: usize) -> TextPosition {
    TextPosition::new(line0, col0)
}

fn long_line(head: &[u8], fill: usize, tail: &[u8]) -> Vec<u8> {
    let mut bytes = b"zero\n".to_vec();
    bytes.extend_from_slice(head);
    bytes.extend(std::iter::repeat(b'x').take(PARTIAL_PIECE_TABLE_SCAN_BYTES + fill));
    bytes.extend_from_slice(tail);
    bytes
}

#[test]
fn typed_selection_helpers_build_ordered_ranges() {
    let doc = rope_doc("alpha\nbeta\ngamma");

    let (start, end) = doc.ordered_positions(at(2, 3), at(0, 2));
    assert_eq!(start, at(0, 2));
    assert_eq!(end, at(2, 3));

    let range = doc.text_range_between(at(2, 3), at(0, 2));
    assert_eq!(range.start(), at(0, 2));
    assert_eq!(range.len_chars(), 12);
}

#[test]
fn typed_selection_helpers_treat_crlf_as_single_text_unit() {
    let doc = file_doc(b"a\r\nb\r\n");

    let range = doc.text_range_between(at(0, 1), at(1, 1));
    assert_eq!(range.start(), at(0, 1));
    assert_eq!(doc.char_index_for_position(at(1, 0)), 2);
    assert_eq!(doc.char_index_for_position(at(1, 1)), 3);
    assert_eq!(doc.position_for_char_index(2), at(1, 0));
    assert_eq!(doc.text_units_between(at(0, 1), at(1, 1)), 2);
    assert_eq!(range.len_chars(), 2);
}

#[test]
fn partial_piece_table_position_helpers_follow_current_text_after_prefix_edit() {
    let mut doc = partial_doc(b"TOP\n", b"zero\none\ntwo\nthree\n", 2, 9);
    doc.avg_line_len = 4;

    assert_eq!(doc.line_len_chars(3), 3);
    assert_eq!(doc.clamp_position(at(3, 99)), at(3, 3));
    assert_eq!(doc.char_index_for_position(at(3, 2)), 15);
    assert_eq!(doc.text_units_between(at(3, 1), at(4, 2)), 5);

    let selection = TextSelection::new(at(4, 2), at(3, 1));
    let range = doc.text_range_for_selection(selection);
    assert_eq!(range.start(), at(3, 1));
    assert_eq!(range.len_chars(), 5);

    let selected = doc.read_selection(selection);
    assert!(selected.is_exact());
    assert_eq!(selected.text(), "wo\nth");
}

#[test]
fn partial_piece_table_position_helpers_do_not_invent_text_units_past_safe_boundary() {
    let mut doc = partial_doc(b"", &long_line(b"", 32, b""), 1, 5);
    doc.avg_line_len = 1;

    assert_eq!(doc.char_index_for_position(at(99, 0)), 5);
    assert_eq!(doc.text_units_between(at(0, 0), at(99, 0)), 5);
    assert_eq!(
        doc.text_range_between(at(0, 0), at(99, 0)),
        TextRange::new(at(0, 0), 5)
    );
}

#[test]
fn partial_piece_table_position_helpers_do_not_fall_back_to_stale_mmap_beyond_scan_window() {
    let doc = partial_doc(b"TOP\n", &long_line(b"", 1, b"\ntail\n"), 1, 5);

    assert_eq!(doc.line_len_chars(3), 0);
    assert_eq!(doc.clamp_position(at(3, 99)), at(3, 0));
}

#[test]
fn incomplete_mmap_position_helpers_clamp_to_eof_instead_of_inventing_lines() {
    let doc = unindexed_doc(b"zero\n", 1);

    assert_eq!(doc.char_index_for_position(at(99, 0)), 5);
    assert_eq!(doc.text_units_between(at(0, 0), at(99, 0)), 5);
    assert_eq!(
        doc.text_range_between(at(0, 0), at(99, 0)),
        TextRange::new(at(0, 0), 5)
    );
}

#[test]
fn incomplete_mmap_line_len_chars_does_not_invent_tail_columns() {
    let doc = unindexed_doc(b"zero\n", 1);

    assert_eq!(doc.line_len_chars(0), 4);
    assert_eq!(doc.line_len_chars(1), 0);
    assert_eq!(doc.line_len_chars(99), 0);
    assert_eq!(doc.clamp_position(at(99, 7)), at(1, 0));
}

#[test]
fn mmap_line_len_counts_invalid_utf8_bytes() {
    let doc = file_doc(&[0xFF, b'a', b'\n']);
    assert_eq!(doc.line_len_chars(0), 2);
}

#[test]
fn typed_text_reads_cover_ranges_and_selections() {
    let doc = rope_doc("alpha\nbeta\ngamma");

    let range = doc.text_range_between(at(0, 2), at(1, 2));
    let slice = doc.read_text(range);
    assert!(slice.is_exact());
    assert_eq!(slice.text(), "pha\nbe");

    let selection = TextSelection::new(at(2, 2), at(1, 1));
    let selected = doc.read_selection(selection);
    assert!(selected.is_exact());
    assert_eq!(selected.text(), "eta\nga");
}

#[test]
fn selection_read_is_inexact_when_partial_piece_table_head_is_unresolved() {
    let doc = partial_doc(b"TOP\n", &long_line(b"", 32, b"\ntail\n"), 1, 5);

    let slice = doc.read_selection(TextSelection::new(at(1, 0), at(3, 2)));

    assert!(!slice.is_exact());
    assert!(slice.text().starts_with("zero\n"));
}

#[test]
fn selection_read_stays_exact_on_long_exact_partial_piece_table_line() {
    let prefix = "x".repeat(100_032);
    let text = format!("zero\n{prefix}target\n");
    let doc = partial_doc(b"", text.as_bytes(), 1, 5);

    let start_col = 100_028;
    let slice = doc.read_selection(TextSelection::new(at(1, start_col), at(1, start_col + 10)));

    assert!(slice.is_exact());
    assert_eq!(slice.text(), "xxxxtarget");
}

#[test]
fn empty_range_read_is_inexact_when_partial_piece_table_start_is_unresolved() {
    let doc = partial_doc(b"", &long_line(b"", 32, b"\ntail\n"), 1, 5);

    let slice = doc.read_text(TextRange::new(at(3, 0), 0));

    assert_eq!(slice.text(), "");
    assert!(!slice.is_exact());
}

#[test]
fn incomplete_mmap_nonempty_range_read_past_eof_is_empty_and_inexact() {
    let doc = unindexed_doc(b"zero\n", 1);

    let slice = doc.read_text(TextRange::new(at(99, 0), 3));
    assert_eq!(slice.text(), "");
    assert!(slice.is_exact());

    let selection = doc.read_selection(TextSelection::new(at(99, 0), at(99, 3)));
    assert_eq!(selection.text(), "");
    assert!(selection.is_exact());
}

#[test]
fn incomplete_mmap_typed_read_uses_exact_start_offset_instead_of_heuristic_line_range() {
    let doc = unindexed_doc(b"zero\none\ntwo\n", 128);

    let slice = doc.read_text(TextRange::new(at(1, 0), 3));
    assert_eq!(slice.text(), "one");
    assert!(slice.is_exact());

    let selection = doc.read_selection(TextSelection::new(at(1, 0), at(1, 3)));
    assert_eq!(selection.text(), "one");
    assert!(selection.is_exact());
}

#[test]
fn typed_text_reads_preserve_crlf_in_clean_mmap_documents() {
    let doc = file_doc(b"alpha\r\nbeta\r\n");
    let slice = doc.read_selection(TextSelection::new(at(0, 3), at(1, 2)));

    assert!(slice.is_exact());
    assert_eq!(slice.text(), "ha\r\nbe");
}

#[test]
fn partial_piece_table_empty_typed_reads_stay_exact_on_scannable_incomplete_line() {
    let doc = partial_doc(b"TOP\n", &long_line(b"target", 32, b""), 1, 5);

    let slice = doc.read_text(TextRange::new(at(2, 0), 0));
    assert_eq!(slice.text(), "");
    assert!(slice.is_exact());

    let selection = doc.read_selection(TextSelection::caret(at(2, 0)));
    assert_eq!(selection.text(), "");
    assert!(selection.is_exact());
}

#[test]
fn selection_read_stays_exact_when_partial_piece_table_head_is_scannable_incomplete() {
    let doc = partial_doc(b"TOP\n", &long_line(b"target", 32, b""), 1, 5);

    let slice = doc.read_selection(TextSelection::new(at(1, 0), at(2, 6)));
    assert_eq!(slice.text(), "zero\ntarget");
    assert!(slice.is_exact());
}

#[test]
fn typed_range_read_matches_selection_exactness_on_scannable_incomplete_partial_line() {
    let doc = partial_doc(b"TOP\n", &long_line(b"target", 32, b""), 1, 5);

    let selection = TextSelection::new(at(1, 0), at(2, 6));
    let selected = doc.read_selection(selection);
    let ranged = doc.read_text(doc.text_range_for_selection(selection));

    assert_eq!(ranged.text(), selected.text());
    assert_eq!(ranged.is_exact(), selected.is_exact());
    assert!(ranged.is_exact());
}

#[test]
fn columns_count_unicode_scalar_values() {
    let combining = rope_doc("e\u{0301}x");
    assert_eq!(combining.line_len_chars(0), 3);
    assert_eq!(combining.char_index_for_position(at(0, 1)), 1);
    assert_eq!(combining.char_index_for_position(at(0, 2)), 2);
    assert_eq!(combining.position_for_char_index(1), at(0, 1));
    assert_eq!(combining.position_for_char_index(2), at(0, 2));
    assert_eq!(combining.text_units_between(at(0, 0), at(0, 2)), 2);

    let wide = file_doc("界a\n".as_bytes());
    assert_eq!(wide.line_len_chars(0), 2);
    assert_eq!(wide.char_index_for_position(at(0, 1)), 1);
    assert_eq!(wide.position_for_char_index(1), at(0, 1));
    assert_eq!(wide.text_units_between(at(0, 0), at(0, 2)), 2);
}

#[test]
fn positions_survive_the_way_to_their_byte_and_back() {
    let text = "añb\r\n\r\nxyz\rlast";
    let doc = file_doc(text.as_bytes());
    for position in [at(0, 0), at(0, 2), at(0, 3), at(1, 0), at(2, 3), at(3, 4)] {
        let offset = doc.mmap_byte_offset_for_position(position);
        assert_eq!(doc.mmap_position_for_byte_offset(offset), position);
        assert_eq!(doc.search_byte_offset_for_position(position), offset);
        assert_eq!(doc.clamp_position(position), position);
    }
    assert_eq!(doc.mmap_byte_offset_for_position(at(2, 1)), 9);
    assert_eq!(doc.clamp_position(at(7, 9)), at(3, 4));
    assert_eq!(doc.clamp_position(doc.clamp_position(at(7, 9))), at(3, 4));
}

#[test]
fn line_starts_are_found_with_and_without_an_index() {
    let bytes = b"one\ntwo\r\nthree";
    for doc in [file_doc(bytes), unindexed_doc(bytes, 7)] {
        assert_eq!(doc.mmap_line_start_offset_exact(0), Some(0));
        assert_eq!(doc.mmap_line_start_offset_exact(1), Some(4));
        assert_eq!(doc.mmap_line_start_offset_exact(2), Some(9));
        assert_eq!(doc.mmap_line_start_offset_exact(3), Some(14));
        assert_eq!(doc.mmap_line_start_offset_exact(4), None);
    }
    assert_eq!(Document::new().mmap_line_start_offset_exact(0), Some(0));
    assert_eq!(Document::new().mmap_line_start_offset_exact(1), None);
}

#[test]
fn text_units_are_walked_over_line_ends() {
    let doc = file_doc(b"a\r\nb\nc");
    assert_eq!(doc.mmap_advance_offset_by_text_units(0, 2), 3);
    assert_eq!(doc.mmap_advance_offset_by_text_units(0, 4), 5);
    assert_eq!(doc.mmap_advance_offset_by_text_units(2, 1), 3);
    assert_eq!(doc.mmap_advance_offset_by_text_units(0, 99), 6);
    assert_eq!(doc.mmap_advance_offset_by_text_units(99, 1), 6);
    assert_eq!(
        doc.mmap_position_for_byte_offset_from(3, at(1, 0), 6),
        at(2, 1)
    );
    assert_eq!(
        doc.mmap_position_for_byte_offset_from(3, at(1, 0), 2),
        at(1, 0)
    );
}

#[test]
fn anchors_are_the_nearest_known_lines() {
    for offsets in [
        LineOffsets::U32(vec![0, 4, 9]),
        LineOffsets::U64(vec![0, 4, 9]),
    ] {
        assert_eq!(line_offsets_anchor_for_byte(&offsets, 0), (0, 0));
        assert_eq!(line_offsets_anchor_for_byte(&offsets, 8), (1, 4));
        assert_eq!(line_offsets_anchor_for_byte(&offsets, 9), (2, 9));
        assert_eq!(line_offsets_anchor_for_byte(&offsets, 99), (2, 9));
        assert_eq!(line_offsets_anchor_for_line(&offsets, 1), (1, 4));
        assert_eq!(line_offsets_anchor_for_line(&offsets, 50), (2, 9));
        assert_eq!(offsets.get_usize(1), Some(4));
        assert_eq!(offsets.get_usize(3), None);
        assert_eq!(offsets.len(), 3);
    }
    let none = LineOffsets::U32(Vec::new());
    assert!(none.is_empty());
    assert_eq!(line_offsets_anchor_for_byte(&none, 5), (0, 0));
    assert_eq!(line_offsets_anchor_for_line(&none, 5), (0, 0));
    assert_eq!(LineOffsets::default(), LineOffsets::U32(vec![0]));
}

#[test]
fn lines_are_estimated_around_their_probable_place() {
    let line = b"0123456789\n".repeat(1_000);
    let doc = unindexed_doc(&line, 11);
    assert_eq!(doc.estimated_mmap_line_byte_range(0), Some((0, 11)));
    assert_eq!(doc.estimated_mmap_line_byte_range(10), Some((110, 121)));
    assert_eq!(doc.estimated_mmap_line_byte_range(99_999), Some((10_989, 11_000)));

    let off = unindexed_doc(&line, 7);
    assert_eq!(off.estimated_mmap_line_byte_range(10), Some((66, 77)));
    assert_eq!(Document::new().estimated_mmap_line_byte_range(0), None);

    let indexed = file_doc(b"one\r\ntwo\r\n");
    assert_eq!(indexed.estimated_mmap_line_byte_range(1), Some((5, 10)));
}

#[test]
fn huge_estimates_stop_at_their_limits() {
    let bytes = vec![b'x'; 4 * APPROX_LINE_FORWARD_BYTES];
    let doc = unindexed_doc(&bytes, 2 * APPROX_LINE_FORWARD_BYTES);
    assert_eq!(
        doc.estimated_mmap_line_byte_range(1),
        Some((
            2 * APPROX_LINE_FORWARD_BYTES - APPROX_LINE_BACKTRACK_BYTES,
            3 * APPROX_LINE_FORWARD_BYTES
        ))
    );
    assert_eq!(
        doc.estimated_mmap_line_byte_range(usize::MAX).map(|range| range.1),
        Some(bytes.len())
    );
}

#[test]
fn piece_table_positions_follow_the_text() {
    let doc = table_doc(&[(false, b"one\ntwo"), (true, b"\r\nx\xc3\xa9y\n"), (false, b"end")]);
    let table = doc.piece_table.as_ref().unwrap();
    assert_eq!(table.total_len(), 17);
    assert_eq!(table.read_range(4, 9), b"two\r\n".to_vec());
    assert_eq!(table.read_range(15, 99), b"nd".to_vec());
    assert_eq!(table.line_count(), 4);
    assert_eq!(table.line_len_chars(2), 3);
    assert_eq!(table.line_len_chars(9), 0);
    assert_eq!(table.byte_offset_for_col(2, 2), 12);
    assert_eq!(table.byte_offset_for_col(9, 0), 17);
    assert_eq!(table.position_for_byte_offset(12), at(2, 2));
    assert_eq!(table.position_for_byte_offset(99), at(3, 3));
    assert_eq!(table.position_for_byte_offset_from(9, at(2, 0), 13), at(2, 3));
    assert_eq!(table.position_for_byte_offset_from(9, at(2, 0), 3), at(2, 0));
    assert_eq!(
        table.position_for_byte_offset_before_same_line(13, at(2, 3), 10),
        Some(at(2, 1))
    );
    assert_eq!(
        table.position_for_byte_offset_before_same_line(13, at(2, 3), 8),
        None
    );
    assert_eq!(table.newline_len_before(9), 2);
    assert_eq!(table.newline_len_before(14), 1);
    assert_eq!(table.newline_len_before(3), 0);
    assert_eq!(table.advance_offset_by_text_units(4, 4), 9);
    assert_eq!(table.to_string_lossy(), "one\ntwo\r\nxéy\nend");
    assert_eq!(table.source_bytes(PieceSource::Add), b"\r\nx\xc3\xa9y\n");
}

#[test]
fn piece_tables_are_made_from_line_lengths() {
    let table = PieceTable::new(b"zero\none\ntwo".to_vec(), vec![5, 4], false);
    assert!(!table.full_index());
    assert_eq!(table.line_count(), 2);
    assert_eq!(table.exact_line_count(), None);
    assert_eq!(table.to_string_lossy(), "zero\none\ntwo");
    assert_eq!(
        scanned_piece_table_byte_offset_for_position(&table, at(2, 1)),
        Some(10)
    );
    assert_eq!(scanned_piece_table_byte_offset_for_position(&table, at(3, 0)), None);

    let full = PieceTable::new(b"zero\none\n".to_vec(), vec![5, 4, 0], true);
    assert_eq!(full.exact_line_count(), Some(3));
    assert_eq!(
        full.prev_search_anchor_before_trailing_newline(at(2, 0), 9),
        Some((at(1, 3), 8))
    );
    assert_eq!(full.prev_search_anchor_before_trailing_newline(at(1, 0), 5), None);
    let stats = full.fragmentation_stats();
    assert_eq!(stats.piece_count(), 1);
    assert_eq!(stats.small_piece_bytes, 9);
}
