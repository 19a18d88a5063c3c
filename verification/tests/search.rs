use qem::document::piece_table::{PieceTable, PARTIAL_PIECE_TABLE_SCAN_BYTES};
use qem::document::search::LiteralSearchQuery;
use qem::document::state::Document;
use qem::document::types::{DocumentBacking, SearchMatch, TextPosition, TextRange};
use qem::editlog::{Piece, PieceSource};
use qem::piece_tree::PieceTree;

fn rope_doc(text: &str) -> Document {
    let mut doc = Document::new();
    doc.rope = Some(ropey::Rope::from_str(text));
    doc.mark_dirty();
    doc
}

fn file_doc(bytes: &[u8]) -> Document {
    Document::from_bytes(None, bytes.to_vec())
}

fn breaks(bytes: &[u8]) -> usize {
    bytes.iter().filter(|byte| **byte == b'\n').count()
}

/// A document held in a piece table, with all lines indexed. `true` marks added text.
fn table_doc(segments: &[(bool, &[u8])]) -> Document {
    let mut original = Vec::new();
    let mut add = Vec::new();
    let mut pieces = Vec::new();
    let mut total_len = 0;
    let mut lines = 1;
    for (added, bytes) in segments {
        let (src, buffer) = if *added {
            (PieceSource::Add, &mut add)
        } else {
            (PieceSource::Original, &mut original)
        };
        pieces.push(Piece {
            src,
            start: buffer.len(),
            len: bytes.len(),
            line_breaks: breaks(bytes),
        });
        buffer.extend_from_slice(bytes);
        total_len += bytes.len();
        lines += breaks(bytes);
    }
    let mut doc = Document::new();
    doc.piece_table = Some(PieceTable {
        original,
        add,
        pieces: PieceTree::from_pieces(pieces),
        known_line_count: lines,
        known_byte_len: total_len,
        total_len,
        full_index: true,
    });
    doc.mark_dirty();
    doc
}

/// A file whose first line is indexed, with `top` inserted in front of it.
fn partial_doc(top: &[u8], bytes: &[u8], known_lines: usize, known_bytes: usize) -> Document {
    let mut pieces = Vec::new();
    if !top.is_empty() {
        pieces.push(Piece {
            src: PieceSource::Add,
            start: 0,
            len: top.len(),
            line_breaks: breaks(top),
        });
    }
    pieces.push(Piece {
        src: PieceSource::Original,
        start: 0,
        len: known_bytes,
        line_breaks: known_lines,
    });
    if known_bytes < bytes.len() {
        pieces.push(Piece {
            src: PieceSource::Original,
            start: known_bytes,
            len: bytes.len() - known_bytes,
            line_breaks: 0,
        });
    }
    let mut doc = Document::new();
    doc.storage = Some(bytes.to_vec());
    doc.file_len = bytes.len();
    doc.piece_table = Some(PieceTable {
        original: bytes.to_vec(),
        add: top.to_vec(),
        pieces: PieceTree::from_pieces(pieces),
        known_line_count: known_lines + breaks(top),
        known_byte_len: known_bytes + top.len(),
        total_len: bytes.len() + top.len(),
        full_index: false,
    });
    doc
}

fn at(line0: usize, col0: usize) -> TextPosition {
    TextPosition::new(line0, col0)
}

fn big(line: &str) -> Vec<u8> {
    let repeat = (1024 * 1024 / line.len()).saturating_add(64);
    line.repeat(repeat).into_bytes()
}

fn long_line(head: &[u8], fill: usize, tail: &[u8]) -> Vec<u8> {
    let mut bytes = b"zero\n".to_vec();
    bytes.extend_from_slice(head);
    bytes.extend(std::iter::repeat(b'x').take(PARTIAL_PIECE_TABLE_SCAN_BYTES + fill));
    bytes.extend_from_slice(tail);
    bytes
}

#[test]
fn literal_search_finds_next_match_in_clean_mmap_document() {
    let doc = file_doc(b"alpha\r\nbeta\r\ngamma\r\n");
    let found = doc.find_next("beta", at(0, 0)).unwrap();

    assert_eq!(found.start(), at(1, 0));
    assert_eq!(found.end(), at(1, 4));
    assert_eq!(doc.read_text(found.range()).text(), "beta");

    let query = LiteralSearchQuery::new("beta").unwrap();
    let compiled = doc.find_next_query(&query, at(0, 0)).unwrap();
    assert_eq!(compiled, found);
}

#[test]
fn literal_search_finds_next_match_in_rope_document() {
    let doc = rope_doc("alpha\nbeta\ngamma\nbeta");

    let found = doc.find_next("beta", at(1, 1)).unwrap();

    assert_eq!(found.start(), at(3, 0));
    assert_eq!(found.end(), at(3, 4));
    assert_eq!(doc.read_text(found.range()).text(), "beta");
}

#[test]
fn literal_search_finds_next_match_across_piece_table_boundary() {
    let file = big("0000target\n");
    let doc = table_doc(&[(true, b"[qem]"), (false, &file)]);
    assert_eq!(doc.backing(), DocumentBacking::PieceTable);

    let found = doc.find_next("[qem]0000target", at(0, 0)).unwrap();

    assert_eq!(found.start(), at(0, 0));
    assert_eq!(found.end(), at(0, 15));
    assert_eq!(doc.read_text(found.range()).text(), "[qem]0000target");
}

#[test]
fn literal_search_finds_next_match_from_nonzero_piece_table_anchor() {
    let file = big("alpha target\n");
    let doc = table_doc(&[
        (true, b"[qem]"),
        (false, &file[..13]),
        (true, b">>"),
        (false, &file[13..26]),
        (true, b">>"),
        (false, &file[26..]),
    ]);
    assert_eq!(doc.backing(), DocumentBacking::PieceTable);

    let found = doc.find_next("target", at(2, 2)).unwrap();

    assert_eq!(found.start(), at(2, 8));
    assert_eq!(found.end(), at(2, 14));
    assert_eq!(doc.read_text(found.range()).text(), "target");
}

#[test]
fn literal_search_finds_previous_match_with_end_before_boundary() {
    let doc = file_doc(b"alpha\r\nbeta\r\ngamma\r\nbeta\r\n");
    let found = doc.find_prev("beta", at(3, 4)).unwrap();

    assert_eq!(found.start(), at(3, 0));
    assert_eq!(found.end(), at(3, 4));
    assert_eq!(doc.read_text(found.range()).text(), "beta");

    let previous = doc.find_prev("beta", at(3, 0)).unwrap();
    assert_eq!(previous.start(), at(1, 0));
    assert_eq!(previous.end(), at(1, 4));

    let query = LiteralSearchQuery::new("beta").unwrap();
    let compiled = doc.find_prev_query(&query, at(3, 0)).unwrap();
    assert_eq!(compiled, previous);
}

#[test]
fn long_exact_mmap_lines_do_not_cap_typed_columns_or_rewind_search_start() {
    let prefix = "x".repeat(100_032);
    let text = format!("{prefix}target\n");
    let doc = file_doc(text.as_bytes());
    let line_len = prefix.len().saturating_add("target".len());

    assert_eq!(doc.line_len_chars(0), line_len);
    assert_eq!(doc.clamp_position(at(0, line_len)), at(0, line_len));
    assert_eq!(doc.find_next("target", at(0, line_len)), None);
}

#[test]
fn long_piece_table_lines_do_not_cap_typed_columns_or_rewind_search_start() {
    let prefix = "x".repeat(1024 * 1024 + 32);
    let text = format!("{prefix}target\n");
    let doc = table_doc(&[(true, b"!"), (false, text.as_bytes())]);
    assert_eq!(doc.backing(), DocumentBacking::PieceTable);

    let line_len = 1 + prefix.len() + "target".len();
    assert_eq!(doc.line_len_chars(0), line_len);
    assert_eq!(doc.clamp_position(at(0, line_len)), at(0, line_len));
    assert_eq!(doc.find_next("target", at(0, line_len)), None);
}

#[test]
fn literal_search_bounded_range_returns_only_fully_contained_matches() {
    let doc = file_doc(b"alpha\r\nbeta\r\ngamma\r\nbeta\r\n");
    let range = doc.text_range_between(at(1, 0), at(3, 0));

    let next = doc.find_next_in_range("beta", range).unwrap();
    assert_eq!(next.start(), at(1, 0));
    assert_eq!(next.end(), at(1, 4));

    let prev = doc.find_prev_in_range("beta", range).unwrap();
    assert_eq!(prev.start(), at(1, 0));
    assert_eq!(prev.end(), at(1, 4));

    let query = LiteralSearchQuery::new("beta").unwrap();
    let compiled = doc.find_next_query_in_range(&query, range).unwrap();
    assert_eq!(compiled, next);

    let between_next = doc.find_next_between("beta", at(1, 0), at(3, 0)).unwrap();
    assert_eq!(between_next, next);

    let between_prev = doc.find_prev_query_between(&query, at(1, 0), at(3, 0)).unwrap();
    assert_eq!(between_prev, prev);
}

#[test]
fn literal_search_iterator_yields_non_overlapping_matches() {
    let doc = rope_doc("aaaa");

    let matches = doc.find_all("aa").collect();
    let query = LiteralSearchQuery::new("aa").unwrap();
    let query_matches = doc.find_all_query(&query).collect();

    assert_eq!(matches.len(), 2);
    assert_eq!(matches[0].start(), at(0, 0));
    assert_eq!(matches[0].end(), at(0, 2));
    assert_eq!(matches[1].start(), at(0, 2));
    assert_eq!(matches[1].end(), at(0, 4));
    assert_eq!(query_matches, matches);
}

#[test]
fn literal_search_iterator_is_fused() {
    let doc = rope_doc("aaaa");

    let mut iter = doc.find_all("aa");
    assert!(iter.next().is_some());
    assert!(iter.next().is_some());
    assert_eq!(iter.next(), None);
    assert_eq!(iter.next(), None);

    let query = LiteralSearchQuery::new("aa").unwrap();
    let mut iter = doc.find_all_query(&query);
    assert!(iter.next().is_some());
    assert!(iter.next().is_some());
    assert_eq!(iter.next(), None);
    assert_eq!(iter.next(), None);
}

#[test]
fn literal_search_iterator_respects_piece_table_range_boundaries() {
    let file = big("0000target\n");
    let doc = table_doc(&[(true, b"[qem]"), (false, &file)]);
    assert_eq!(doc.backing(), DocumentBacking::PieceTable);

    let range = doc.text_range_between(at(0, 0), at(2, 0));
    let matches = doc.find_all_in_range("target", range).collect();
    let between_matches = doc.find_all_between("target", at(0, 0), at(2, 0)).collect();
    let query = LiteralSearchQuery::new("target").unwrap();
    let query_matches = doc.find_all_query_in_range(&query, range).collect();
    let query_between_matches =
        doc.find_all_query_between(&query, at(0, 0), at(2, 0)).collect();

    assert_eq!(matches.len(), 2);
    assert_eq!(matches[0].start(), at(0, 9));
    assert_eq!(matches[0].end(), at(0, 15));
    assert_eq!(matches[1].start(), at(1, 4));
    assert_eq!(matches[1].end(), at(1, 10));
    assert_eq!(between_matches, matches);
    assert_eq!(query_matches, matches);
    assert_eq!(query_between_matches, matches);
}

#[test]
fn literal_search_bounded_range_rejects_partial_piece_table_match_at_end_boundary() {
    let file = big("0000target\n");
    let doc = table_doc(&[(true, b"[qem]"), (false, &file)]);
    assert_eq!(doc.backing(), DocumentBacking::PieceTable);

    let clipped = TextRange::new(at(0, 0), 14);
    assert!(
        doc.find_next_in_range("[qem]0000target", clipped).is_none(),
        "match must stay fully inside bounded range"
    );

    let query = LiteralSearchQuery::new("[qem]0000target").unwrap();
    assert!(doc.find_next_query_in_range(&query, clipped).is_none());
}

#[test]
fn literal_search_finds_previous_match_in_rope_document() {
    let doc = rope_doc("alpha\nbeta\ngamma\nbeta");

    let found = doc.find_prev("beta", at(3, 4)).unwrap();

    assert_eq!(found.start(), at(3, 0));
    assert_eq!(found.end(), at(3, 4));

    let previous = doc.find_prev("beta", at(3, 0)).unwrap();
    assert_eq!(previous.start(), at(1, 0));
    assert_eq!(previous.end(), at(1, 4));
}

#[test]
fn literal_search_finds_previous_match_across_piece_table_boundary() {
    let file = big("0000target\n");
    let doc = table_doc(&[(true, b"[qem]"), (false, &file)]);
    assert_eq!(doc.backing(), DocumentBacking::PieceTable);

    let found = doc.find_prev("[qem]0000target", at(0, 15)).unwrap();
    assert_eq!(found.start(), at(0, 0));
    assert_eq!(found.end(), at(0, 15));

    assert!(doc.find_prev("[qem]0000target", at(0, 0)).is_none());
}

#[test]
fn literal_search_finds_previous_match_from_nonzero_piece_table_anchor() {
    let file = big("0000target\n");
    let doc = table_doc(&[(true, b"[qem]\n"), (false, &file)]);
    assert_eq!(doc.backing(), DocumentBacking::PieceTable);

    let before = at(1, 15);
    let found = doc.find_prev("0000target", before).unwrap();

    assert_eq!(found.start(), at(1, 0));
    assert_eq!(found.end(), at(1, 10));
}

#[test]
fn literal_search_finds_previous_same_line_piece_table_match_near_anchor() {
    let file = big("0000target\n");
    let doc = table_doc(&[(true, b"[qem]"), (false, &file)]);
    assert_eq!(doc.backing(), DocumentBacking::PieceTable);

    let found = doc.find_prev("00", at(0, 10)).unwrap();
    assert_eq!(found.start(), at(0, 7));
    assert_eq!(found.end(), at(0, 9));
}

#[test]
fn literal_search_finds_previous_piece_table_match_before_trailing_newline_anchor() {
    let file = big("0000target\n");
    let doc = table_doc(&[(true, b"[qem]\n"), (false, &file)]);
    assert_eq!(doc.backing(), DocumentBacking::PieceTable);

    let found = doc.find_prev("00", at(usize::MAX, usize::MAX)).unwrap();
    let last_line0 = doc.line_count().display_rows().saturating_sub(2);
    assert_eq!(found.start(), at(last_line0, 2));
    assert_eq!(found.end(), at(last_line0, 4));
}

#[test]
fn partial_piece_table_find_prev_does_not_return_match_after_unresolved_before_position() {
    let bytes = long_line(b"", 32, b"target\ntail target\n");
    let doc = partial_doc(b"TOP\n", &bytes, 1, 5);

    assert_eq!(
        doc.find_prev("target", at(2, 2)),
        None,
        "reverse search must not escape past an unresolved partial piece-table boundary"
    );
    let query = LiteralSearchQuery::new("target").unwrap();
    assert_eq!(doc.find_prev_query(&query, at(2, 2)), None);
}

#[test]
fn partial_piece_table_find_next_does_not_start_before_unresolved_from_position() {
    let bytes = long_line(b"target", 32, b"\ntail\n");
    let doc = partial_doc(b"TOP\n", &bytes, 1, 5);

    assert_eq!(
        doc.find_next("target", at(3, 0)),
        None,
        "forward search must not rewind before an unresolved partial piece-table start position"
    );
    let query = LiteralSearchQuery::new("target").unwrap();
    assert_eq!(doc.find_next_query(&query, at(3, 0)), None);
}

#[test]
fn partial_piece_table_find_next_and_iterators_do_not_relabel_match_before_unresolved_start() {
    let bytes = long_line(b"target", 32, b"\ntail\n");
    let doc = partial_doc(b"TOP\n", &bytes, 1, 5);

    assert_eq!(doc.find_next("target", at(3, 0)), None);
    let query = LiteralSearchQuery::new("target").unwrap();
    assert_eq!(doc.find_next_query(&query, at(3, 0)), None);
    assert_eq!(
        doc.find_all_from("target", at(3, 0)).collect(),
        Vec::<SearchMatch>::new()
    );
    assert_eq!(
        doc.find_all_query_from(&query, at(3, 0)).collect(),
        Vec::<SearchMatch>::new()
    );
}

#[test]
fn partial_piece_table_find_next_can_start_on_scannable_incomplete_line() {
    let bytes = long_line(b"target", 32, b"");
    let doc = partial_doc(b"TOP\n", &bytes, 1, 5);

    let visible = doc.read_text(TextRange::new(at(2, 0), 6));
    assert_eq!(visible.text(), "target");

    let found = doc.find_next("target", at(2, 0)).unwrap();
    assert_eq!(found.start(), at(2, 0));
    assert_eq!(found.end(), at(2, 6));
    let found_text = doc.read_text(found.range());
    assert_eq!(found_text.text(), "target");
    assert!(found_text.is_exact());

    let query = LiteralSearchQuery::new("target").unwrap();
    assert_eq!(doc.find_next_query(&query, at(2, 0)), Some(found));
    assert_eq!(doc.find_all_from("target", at(2, 0)).collect(), vec![found]);
    assert_eq!(doc.find_all_query_from(&query, at(2, 0)).collect(), vec![found]);
}

#[test]
fn partial_piece_table_find_prev_can_end_on_scannable_incomplete_line() {
    let bytes = long_line(b"target", 32, b"");
    let doc = partial_doc(b"TOP\n", &bytes, 1, 5);

    let found = doc.find_prev("target", at(2, 6)).unwrap();
    assert_eq!(found.start(), at(2, 0));
    assert_eq!(found.end(), at(2, 6));

    let query = LiteralSearchQuery::new("target").unwrap();
    assert_eq!(doc.find_prev_query(&query, at(2, 6)), Some(found));
}

#[test]
fn partial_piece_table_bounded_search_does_not_escape_unresolved_end_position() {
    let bytes = long_line(b"", 32, b"target\ntail target\n");
    let doc = partial_doc(b"TOP\n", &bytes, 1, 5);

    assert_eq!(
        doc.find_all_between("target", at(0, 0), at(2, 2)).collect(),
        Vec::<SearchMatch>::new(),
        "bounded search must not widen an unresolved partial piece-table end position to EOF"
    );
    let query = LiteralSearchQuery::new("target").unwrap();
    assert_eq!(
        doc.find_all_query_between(&query, at(0, 0), at(2, 2)).collect(),
        Vec::<SearchMatch>::new()
    );
}

#[test]
fn partial_piece_table_bounded_search_does_not_expand_unresolved_end_line_to_eof() {
    let bytes = long_line(b"", 32, b"\ntarget tail\n");
    let doc = partial_doc(b"TOP\n", &bytes, 1, 5);

    assert_eq!(
        doc.find_all_between("target", at(0, 0), at(3, 0)).collect(),
        Vec::<SearchMatch>::new()
    );
    let query = LiteralSearchQuery::new("target").unwrap();
    assert_eq!(
        doc.find_all_query_between(&query, at(0, 0), at(3, 0)).collect(),
        Vec::<SearchMatch>::new()
    );
}

#[test]
fn partial_piece_table_find_next_in_range_does_not_rewind_unresolved_start() {
    let bytes = long_line(b"target", 32, b"\ntail\n");
    let doc = partial_doc(b"TOP\n", &bytes, 1, 5);

    assert_eq!(
        doc.find_next_in_range("target", TextRange::new(at(3, 0), 8)),
        None
    );
    let query = LiteralSearchQuery::new("target").unwrap();
    assert_eq!(
        doc.find_next_query_in_range(&query, TextRange::new(at(3, 0), 8)),
        None
    );
}

#[test]
fn empty_needles_are_never_found() {
    assert!(LiteralSearchQuery::new("").is_none());
    for doc in [file_doc(b"abc\n"), rope_doc("abc\n"), table_doc(&[(true, b"abc\n")])] {
        assert_eq!(doc.find_next("", at(0, 0)), None);
        assert_eq!(doc.find_prev("", at(9, 9)), None);
        assert_eq!(doc.find_next_between("", at(0, 0), at(1, 0)), None);
        assert_eq!(doc.find_prev_between("", at(0, 0), at(1, 0)), None);
        assert_eq!(doc.find_next_in_range("", TextRange::new(at(0, 0), 3)), None);
        assert_eq!(doc.find_prev_in_range("", TextRange::new(at(0, 0), 3)), None);
        assert!(doc.find_all("").collect().is_empty());
        assert!(doc.find_all_between("", at(0, 0), at(1, 0)).collect().is_empty());
    }
}

#[test]
fn queries_know_their_text_units() {
    let query = LiteralSearchQuery::new("a\r\né").unwrap();
    assert_eq!(query.needle(), "a\r\né");
    assert_eq!(query.len_chars(), 3);
    assert_eq!(query.clone().needle(), "a\r\né");
}

#[test]
fn all_backings_find_the_same_places() {
    let text = "one é two\nthree two\n\ntwo";
    let docs = [
        file_doc(text.as_bytes()),
        rope_doc(text),
        table_doc(&[
            (false, &text.as_bytes()[..6]),
            (true, &text.as_bytes()[6..9]),
            (false, &text.as_bytes()[9..]),
        ]),
    ];
    for doc in docs {
        let found = doc.find_all("two").collect();
        let starts: Vec<TextPosition> = found.iter().map(|one| one.start()).collect();
        assert_eq!(starts, vec![at(0, 6), at(1, 6), at(3, 0)]);
        assert_eq!(doc.find_next("é two", at(0, 0)).map(|one| one.start()), Some(at(0, 4)));
        assert_eq!(doc.find_prev("two", at(3, 2)).map(|one| one.start()), Some(at(1, 6)));
        assert_eq!(doc.find_next_query_between(
            &LiteralSearchQuery::new("two").unwrap(),
            at(1, 9),
            at(0, 7),
        ).map(|one| one.start()), Some(at(1, 6)));
        assert_eq!(doc.find_prev_query_in_range(
            &LiteralSearchQuery::new("two").unwrap(),
            TextRange::new(at(0, 0), 19),
        ).map(|one| one.start()), Some(at(1, 6)));
    }
}

#[test]
fn matches_across_many_rope_chunks_are_found() {
    let mut text = "abcdefghij".repeat(5_000);
    text.push_str("needle in a haystack\n");
    text.push_str(&"klmnopqrst".repeat(5_000));
    text.push_str("needle");
    let doc = rope_doc(&text);

    let found = doc.find_all("needle").collect();
    assert_eq!(found.len(), 2);
    assert_eq!(found[0].start(), at(0, 50_000));
    assert_eq!(found[1].start(), at(1, 50_000));
    assert_eq!(doc.find_prev("needle", at(1, 50_005)), Some(found[0]));
    let joined = doc.find_next("ijneedle in a haystack\nkl", at(0, 0)).unwrap();
    assert_eq!(joined.start(), at(0, 49_998));
    assert_eq!(joined.end(), at(1, 2));
}

#[test]
fn searches_in_invalid_text_count_stray_bytes_as_columns() {
    let doc = file_doc(b"\xff\xc3b\xe2\x82target\n");
    let found = doc.find_next("target", at(0, 0)).unwrap();
    assert_eq!(found.start(), at(0, 5));
    assert_eq!(doc.find_prev("target", at(5, 5)), Some(found));
}
