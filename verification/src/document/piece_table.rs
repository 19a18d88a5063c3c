//! The text of an edited large file: pieces of the original bytes and of added bytes.

use crate::document::encode::{lossy_text, shows};
use crate::document::status::FragmentationStats;
use crate::document::text::{
    advance_by_text_units, byte_offset_for_text_col_in_bytes, col_offset, line_cols, line_start,
    line_start_from, next_line_start_exact, text_cols_in_bytes, units_end,
};
use crate::editlog::{push_bytes, Piece, PieceSource};
use crate::piece_tree::{nonempty, visited, PieceTree};
use crate::scan::{breaks, count_breaks, ends_line, lemma_breaks_concat, line_ends, CR, LF};
use crate::tree_model::{lemma_sum_len_concat, max_int, min_int, sat_add, sum_len};
use vstd::prelude::*;
use vstd::utf8::encode_utf8;

verus! {

/// Pieces up to this size count as small unless the caller says otherwise.
pub const SMALL_PIECE_THRESHOLD_BYTES: usize = 1024;

/// How far behind the indexed part of a text lines are looked up.
pub const PARTIAL_PIECE_TABLE_SCAN_BYTES: usize = 8_388_608;

/// How far back the column of a match is counted from a known place.
pub const REVERSE_POSITION_FAST_PATH_BYTES: usize = 1024;

/// The text of an edited large file. Lines are indexed from the start on, as far as
/// `known_byte_len`.
#[derive(Debug)]
pub struct PieceTable {
    pub original: Vec<u8>,
    pub add: Vec<u8>,
    pub pieces: PieceTree,
    pub known_line_count: usize,
    pub known_byte_len: usize,
    pub total_len: usize,
    pub full_index: bool,
}

/// The bytes of a piece.
pub open spec fn bytes_of(original: Seq<u8>, add: Seq<u8>, piece: Piece) -> Seq<u8> {
    let buffer = match piece.src {
        PieceSource::Original => original,
        PieceSource::Add => add,
    };
    buffer.subrange(piece.start as int, piece.start + piece.len)
}

/// `true` where the piece lies inside its buffer.
pub open spec fn in_bounds(original: Seq<u8>, add: Seq<u8>, piece: Piece) -> bool {
    match piece.src {
        PieceSource::Original => piece.start + piece.len <= original.len(),
        PieceSource::Add => piece.start + piece.len <= add.len(),
    }
}

/// The bytes of all of `pieces`.
pub open spec fn text_of(original: Seq<u8>, add: Seq<u8>, pieces: Seq<Piece>) -> Seq<u8>
    decreases pieces.len(),
{
    if pieces.len() == 0 {
        Seq::empty()
    } else {
        text_of(original, add, pieces.drop_last()) + bytes_of(original, add, pieces.last())
    }
}

/// The bytes of parts of pieces.
pub open spec fn parts_bytes(
    original: Seq<u8>,
    add: Seq<u8>,
    parts: Seq<(Piece, usize, usize)>,
) -> Seq<u8>
    decreases parts.len(),
{
    if parts.len() == 0 {
        Seq::empty()
    } else {
        let (piece, lo, hi) = parts.last();
        parts_bytes(original, add, parts.drop_last()) + bytes_of(original, add, piece).subrange(
            lo as int,
            hi as int,
        )
    }
}

pub open spec fn all_in_bounds(original: Seq<u8>, add: Seq<u8>, pieces: Seq<Piece>) -> bool {
    forall|i: int| 0 <= i < pieces.len() ==> in_bounds(original, add, #[trigger] pieces[i])
}

proof fn lemma_text_len(original: Seq<u8>, add: Seq<u8>, pieces: Seq<Piece>)
    requires
        all_in_bounds(original, add, pieces),
    ensures
        text_of(original, add, pieces).len() == sum_len(pieces),
    decreases pieces.len(),
{
    if pieces.len() > 0 {
        let front = pieces.drop_last();
        assert forall|i: int| 0 <= i < front.len() implies in_bounds(
            original,
            add,
            #[trigger] front[i],
        ) by {
            assert(front[i] == pieces[i]);
        }
        lemma_text_len(original, add, front);
        assert(in_bounds(original, add, pieces[pieces.len() - 1]));
    }
}

/// The parts of pieces that lie in a range hold the bytes of the range.
pub proof fn lemma_visited_bytes(
    original: Seq<u8>,
    add: Seq<u8>,
    pieces: Seq<Piece>,
    start: int,
    end: int,
)
    requires
        all_in_bounds(original, add, pieces),
        sum_len(pieces) <= usize::MAX,
        0 <= start <= end,
    ensures
        ({
            let text = text_of(original, add, pieces);
            let len = text.len() as int;
            let parts = visited(pieces, start, end);
            &&& parts_bytes(original, add, parts) == text.subrange(
                min_int(start, len),
                min_int(end, len),
            )
            &&& forall|i: int|
                0 <= i < parts.len() ==> {
                    &&& (#[trigger] parts[i]).1 < parts[i].2 <= parts[i].0.len
                    &&& in_bounds(original, add, parts[i].0)
                }
        }),
    decreases pieces.len(),
{
    let text = text_of(original, add, pieces);
    lemma_text_len(original, add, pieces);
    if pieces.len() > 0 {
        let front = pieces.drop_last();
        let piece = pieces[pieces.len() - 1];
        assert forall|i: int| 0 <= i < front.len() implies in_bounds(
            original,
            add,
            #[trigger] front[i],
        ) by {
            assert(front[i] == pieces[i]);
        }
        assert(in_bounds(original, add, piece));
        lemma_visited_bytes(original, add, front, start, end);
        lemma_text_len(original, add, front);
        let base = sum_len(front) as int;
        let lo = max_int(start - base, 0);
        let hi = min_int(end, base + piece.len) - base;
        let parts = visited(pieces, start, end);
        let before = visited(front, start, end);
        let front_text = text_of(original, add, front);
        let own = bytes_of(original, add, piece);
        if lo < hi {
            assert(parts.drop_last() =~= before);
            assert(text.subrange(min_int(start, text.len() as int), min_int(end, text.len() as int))
                =~= front_text.subrange(min_int(start, base), min_int(end, base)) + own.subrange(
                lo,
                hi,
            ));
            assert forall|i: int| 0 <= i < parts.len() implies {
                &&& (#[trigger] parts[i]).1 < parts[i].2 <= parts[i].0.len
                &&& in_bounds(original, add, parts[i].0)
            } by {
                if i < before.len() {
                    assert(parts[i] == before[i]);
                }
            }
        } else {
            assert(text.subrange(min_int(start, text.len() as int), min_int(end, text.len() as int))
                =~= front_text.subrange(min_int(start, base), min_int(end, base)));
        }
    } else {
        assert(text.subrange(0, 0) =~= Seq::empty());
    }
}

impl PieceTable {
    pub open spec fn text(self) -> Seq<u8> {
        text_of(self.original@, self.add@, self.pieces.pieces())
    }

    /// The pieces lie in their buffers, and the line index is that of the text.
    pub open spec fn wf(self) -> bool {
        &&& self.pieces.wf()
        &&& all_in_bounds(self.original@, self.add@, self.pieces.pieces())
        &&& self.total_len == sum_len(self.pieces.pieces())
        &&& index_ok(self.text(), self.known_line_count, self.known_byte_len, self.full_index)
    }

    pub proof fn lemma_len(self)
        requires
            self.wf(),
        ensures
            self.text().len() == self.total_len,
    {
        lemma_text_len(self.original@, self.add@, self.pieces.pieces());
    }

    /// The unedited text of a file, of which the first lines are known by their lengths, line
    /// ends included.
    pub fn new(original: Vec<u8>, line_lengths: Vec<usize>, full_index: bool) -> (table: PieceTable)
        requires
            sum_of(line_lengths@) <= original@.len(),
            index_ok(
                original@,
                line_lengths@.len() as usize,
                sum_of(line_lengths@) as usize,
                full_index,
            ),
        ensures
            table.wf(),
            table.text() == original@,
            table.original@ == original@,
            table.add@.len() == 0,
            table.known_line_count == line_lengths@.len(),
            table.known_byte_len == sum_of(line_lengths@),
            table.full_index == full_index,
    {
        let total_len: usize = original.len();
        let lines: usize = line_lengths.len();
        let known: usize = sum_lengths(&line_lengths, total_len);
        let breaks: usize = if full_index {
            lines - 1
        } else {
            lines
        };
        let mut pieces: Vec<Piece> = Vec::new();
        if known > 0 {
            pieces.push(Piece { src: PieceSource::Original, start: 0, len: known, line_breaks: breaks });
        }
        if known < total_len {
            pieces.push(
                Piece {
                    src: PieceSource::Original,
                    start: known,
                    len: total_len - known,
                    line_breaks: 0,
                },
            );
        }
        let add: Vec<u8> = Vec::new();
        proof {
            reveal_with_fuel(nonempty, 3);
            reveal_with_fuel(sum_len, 3);
            reveal_with_fuel(text_of, 3);
            crate::scan::lemma_line_ends_monotone(original@, 0, known as int);
            assert(nonempty(pieces@) =~= pieces@);
            assert(text_of(original@, add@, pieces@) =~= original@);
        }
        let tree = PieceTree::from_pieces(pieces);
        PieceTable {
            original,
            add,
            pieces: tree,
            known_line_count: lines,
            known_byte_len: known,
            total_len,
            full_index,
        }
    }

    pub fn source_bytes(&self, src: PieceSource) -> (bytes: &[u8])
        ensures
            bytes@ == (match src {
                PieceSource::Original => self.original@,
                PieceSource::Add => self.add@,
            }),
    {
        match src {
            PieceSource::Original => self.original.as_slice(),
            PieceSource::Add => self.add.as_slice(),
        }
    }

    pub fn total_len(&self) -> (len: usize)
        ensures
            len == self.total_len,
    {
        self.total_len
    }

    pub fn full_index(&self) -> (full: bool)
        ensures
            full == self.full_index,
    {
        self.full_index
    }

    /// How many lines are indexed.
    pub fn line_count(&self) -> (lines: usize)
        ensures
            lines == self.known_line_count,
    {
        self.known_line_count
    }

    pub(crate) fn part_bytes<'a>(&'a self, part: (Piece, usize, usize)) -> (bytes: &'a [u8])
        requires
            in_bounds(self.original@, self.add@, part.0),
            part.1 <= part.2 <= part.0.len,
        ensures
            bytes@ == bytes_of(self.original@, self.add@, part.0).subrange(
                part.1 as int,
                part.2 as int,
            ),
    {
        let (piece, lo, hi) = part;
        let src = self.source_bytes(piece.src);
        let len: usize = src.len();
        let out = vstd::slice::slice_subrange(src, piece.start + lo, piece.start + hi);
        assert(out@ =~= bytes_of(self.original@, self.add@, piece).subrange(lo as int, hi as int));
        out
    }

    /// The bytes of `start..end`, as far as there are any.
    pub fn read_range(&self, start: usize, end: usize) -> (bytes: Vec<u8>)
        requires
            self.wf(),
        ensures
            bytes@ == self.text().subrange(
                min_int(start as int, self.total_len as int),
                max_int(min_int(end as int, self.total_len as int), min_int(
                    start as int,
                    self.total_len as int,
                )),
            ),
    {
        proof {
            self.lemma_len();
        }
        let mut out: Vec<u8> = Vec::new();
        if start >= end {
            assert(out@ =~= self.text().subrange(
                min_int(start as int, self.total_len as int),
                min_int(start as int, self.total_len as int),
            ));
            return out;
        }
        let parts = self.pieces.visit_range(start, end);
        proof {
            lemma_visited_bytes(
                self.original@,
                self.add@,
                self.pieces.pieces(),
                start as int,
                end as int,
            );
        }
        let mut i: usize = 0;
        assert(parts@.take(0) =~= Seq::empty());
        while i < parts.len()
            invariant
                i <= parts@.len(),
                forall|i: int|
                    0 <= i < parts@.len() ==> {
                        &&& (#[trigger] parts@[i]).1 < parts@[i].2 <= parts@[i].0.len
                        &&& in_bounds(self.original@, self.add@, parts@[i].0)
                    },
                out@ == parts_bytes(self.original@, self.add@, parts@.take(i as int)),
            decreases parts@.len() - i,
        {
            let part = parts[i];
            assert(parts@[i as int].1 < parts@[i as int].2);
            push_bytes(&mut out, self.part_bytes(part));
            assert(parts@.take(i + 1).drop_last() =~= parts@.take(i as int));
            i = i + 1;
        }
        assert(parts@.take(i as int) =~= parts@);
        out
    }

    /// How many bytes the line end in front of `offset` takes.
    pub fn newline_len_before(&self, offset: usize) -> (len: usize)
        requires
            self.wf(),
            offset <= self.total_len,
        ensures
            len == newline_len(self.text(), offset as int),
    {
        proof {
            self.lemma_len();
        }
        if offset == 0 {
            return 0;
        }
        let from: usize = if offset >= 2 {
            offset - 2
        } else {
            0
        };
        let tail = self.read_range(from, offset);
        let last: u8 = tail[offset - from - 1];
        assert(last == self.text()[offset - 1]);
        if last == LF {
            if offset >= 2 && tail[0] == CR {
                2
            } else {
                1
            }
        } else if last == CR {
            1
        } else {
            0
        }
    }

    /// How many columns an indexed line has.
    pub fn line_len_chars(&self, line0: usize) -> (cols: usize)
        requires
            self.wf(),
        ensures
            cols == table_line_len(self.text(), self.known_line_count, line0),
    {
        if line0 >= self.known_line_count {
            return 0;
        }
        proof {
            self.lemma_len();
        }
        let text = self.read_range(0, self.total_len);
        assert(text@ =~= self.text());
        let start: usize = line_start_in(text.as_slice(), line0);
        text_cols_in_bytes(text.as_slice(), (start, text.len()))
    }

    /// Where a column of an indexed line lies; the end of the text for another line.
    pub fn byte_offset_for_col(&self, line0: usize, col0: usize) -> (offset: usize)
        requires
            self.wf(),
        ensures
            offset == table_col_offset(self.text(), self.known_line_count, line0, col0),
            offset <= self.total_len,
    {
        proof {
            self.lemma_len();
        }
        if line0 >= self.known_line_count {
            return self.total_len;
        }
        let text = self.read_range(0, self.total_len);
        assert(text@ =~= self.text());
        let start: usize = line_start_in(text.as_slice(), line0);
        byte_offset_for_text_col_in_bytes(text.as_slice(), (start, text.len()), col0)
    }

    /// Where `text_units` text units from `start` on end.
    pub fn advance_offset_by_text_units(&self, start: usize, text_units: usize) -> (offset: usize)
        requires
            self.wf(),
        ensures
            offset == units_end(
                self.text(),
                min_int(start as int, self.total_len as int),
                self.total_len as int,
                text_units as nat,
            ),
            offset <= self.total_len,
    {
        proof {
            self.lemma_len();
        }
        let text = self.read_range(0, self.total_len);
        assert(text@ =~= self.text());
        let from: usize = if start <= text.len() {
            start
        } else {
            text.len()
        };
        advance_by_text_units(text.as_slice(), from, text_units)
    }

    /// How fragmented the text is, with pieces of up to `threshold` bytes counted as small.
    pub fn fragmentation_stats_with_threshold(&self, threshold: usize) -> (stats: FragmentationStats)
        requires
            self.wf(),
        ensures
            stats == fragmentation(self.pieces.pieces(), threshold),
    {
        let pieces = self.pieces.to_vec();
        let mut small: usize = 0;
        let mut small_bytes: usize = 0;
        let mut i: usize = 0;
        assert(pieces@.take(0) =~= Seq::empty());
        while i < pieces.len()
            invariant
                i <= pieces@.len(),
                sum_len(pieces@) <= usize::MAX,
                small == small_count(pieces@.take(i as int), threshold),
                small <= i,
                small_bytes == small_sum(pieces@.take(i as int), threshold),
                small_bytes <= sum_len(pieces@.take(i as int)),
            decreases pieces@.len() - i,
        {
            proof {
                assert(pieces@.take(i + 1).drop_last() =~= pieces@.take(i as int));
                lemma_sum_len_concat(pieces@.take(i + 1), pieces@.skip(i + 1));
                assert(pieces@.take(i + 1) + pieces@.skip(i + 1) =~= pieces@);
            }
            if pieces[i].len <= threshold {
                small = small + 1;
                small_bytes = small_bytes + pieces[i].len;
            }
            i = i + 1;
        }
        assert(pieces@.take(i as int) =~= pieces@);
        FragmentationStats {
            piece_count: pieces.len(),
            total_bytes: self.total_len,
            small_piece_count: small,
            small_piece_bytes: small_bytes,
            small_piece_threshold_bytes: threshold,
        }
    }

    pub fn fragmentation_stats(&self) -> (stats: FragmentationStats)
        requires
            self.wf(),
        ensures
            stats == fragmentation(self.pieces.pieces(), SMALL_PIECE_THRESHOLD_BYTES),
    {
        self.fragmentation_stats_with_threshold(SMALL_PIECE_THRESHOLD_BYTES)
    }

    /// The text, with replacement characters for bytes that are not UTF-8.
    pub fn to_string_lossy(&self) -> (text: String)
        requires
            self.wf(),
            self.total_len <= isize::MAX / 3,
        ensures
            shows(text@, self.text()),
            encode_utf8(text@).len() <= 3 * self.total_len,
    {
        proof {
            self.lemma_len();
        }
        let bytes = self.read_range(0, self.total_len);
        assert(bytes@ =~= self.text());
        lossy_text(bytes.as_slice())
    }

    /// The number of lines, where all of them are indexed. Else, where the original bytes are
    /// all still there and in order, it is the number of lines of the original, as `fallback`
    /// has it, and what the added bytes make of it.
    pub open spec fn spec_line_count_with_fallback(self, fallback: Option<usize>) -> Option<usize> {
        if self.full_index {
            Some(self.known_line_count)
        } else {
            match fallback {
                Some(lines) if whole_from(self.pieces.pieces(), 0, self.original@.len() as int) =>
                Some(sat_add(lines as int, breaks(self.text()) - breaks(self.original@))),
                _ => None,
            }
        }
    }

    pub fn exact_line_count_with_fallback(&self, fallback: Option<usize>) -> (lines: Option<usize>)
        requires
            self.wf(),
        ensures
            lines == self.spec_line_count_with_fallback(fallback),
    {
        if let Some(lines) = self.exact_line_count() {
            return Some(lines);
        }
        let of_original: usize = match fallback {
            Some(lines) => lines,
            None => return None,
        };
        let pieces = self.pieces.to_vec();
        let original_len: usize = self.original.len();
        let ghost original = self.original@;
        let ghost add = self.add@;
        proof {
            self.lemma_len();
            assert(pieces@.skip(0) =~= pieces@);
            assert(pieces@.take(0) =~= Seq::empty());
            assert(original.take(0) =~= Seq::empty());
        }
        let mut at: usize = 0;
        let mut grown: usize = 0;
        let mut text_return: bool = false;
        let mut original_return: bool = false;
        let mut i: usize = 0;
        while i < pieces.len()
            invariant
                !self.full_index,
                fallback == Some(of_original),
                i <= pieces@.len(),
                pieces@ == self.pieces.pieces(),
                original_len == original.len(),
                original == self.original@,
                add == self.add@,
                all_in_bounds(original, add, pieces@),
                text_of(original, add, pieces@).len() <= usize::MAX,
                at <= original.len(),
                whole_from(pieces@, 0, original.len() as int) == whole_from(
                    pieces@.skip(i as int),
                    at as int,
                    original.len() as int,
                ),
                grows(
                    text_of(original, add, pieces@.take(i as int)),
                    original.take(at as int),
                    grown,
                    text_return,
                    original_return,
                ),
            decreases pieces@.len() - i,
        {
            let piece = pieces[i];
            let ghost before = text_of(original, add, pieces@.take(i as int));
            let ghost run = original.take(at as int);
            let ghost own = bytes_of(original, add, piece);
            proof {
                assert(pieces@.skip(i as int).skip(1) =~= pieces@.skip(i + 1));
                assert(pieces@.skip(i as int)[0] == piece);
                assert(pieces@.take(i + 1).drop_last() =~= pieces@.take(i as int));
                assert(in_bounds(original, add, pieces@[i as int]));
                assert(text_of(original, add, pieces@.take(i + 1)) == before + own);
                lemma_text_of_part(original, add, pieces@, i + 1);
            }
            match piece.src {
                PieceSource::Add => {
                    let bytes = self.part_bytes((piece, 0, piece.len));
                    assert(bytes@ =~= own);
                    proof {
                        lemma_grows_add(before, run, own, grown, text_return, original_return);
                    }
                    if bytes.len() > 0 {
                        let mut more: usize = count_breaks(bytes);
                        if text_return && bytes[0] == LF {
                            more = more - 1;
                        }
                        grown = grown + more;
                        text_return = bytes[bytes.len() - 1] == CR;
                    }
                },
                PieceSource::Original => {
                    if piece.start != at {
                        return None;
                    }
                    let bytes = self.part_bytes((piece, 0, piece.len));
                    assert(bytes@ =~= own);
                    proof {
                        assert(original.take(at + piece.len) =~= run + own);
                        lemma_grows_original(before, run, own, grown, text_return, original_return);
                    }
                    at = at + piece.len;
                    if bytes.len() > 0 {
                        if bytes[0] == LF {
                            if text_return && !original_return {
                                grown = grown - 1;
                            } else if !text_return && original_return {
                                grown = grown + 1;
                            }
                        }
                        text_return = bytes[bytes.len() - 1] == CR;
                        original_return = text_return;
                    }
                },
            }
            i = i + 1;
        }
        if at != original_len {
            return None;
        }
        proof {
            assert(pieces@.take(i as int) =~= pieces@);
            assert(original.take(at as int) =~= original);
        }
        Some(of_original.saturating_add(grown))
    }

    /// The number of lines, where all of them are indexed.
    pub fn exact_line_count(&self) -> (lines: Option<usize>)
        ensures
            lines == (if self.full_index {
                Some(self.known_line_count)
            } else {
                None
            }),
    {
        if self.full_index {
            Some(self.known_line_count)
        } else {
            None
        }
    }
}

/// The pieces of the original bytes are those of `at..len`, in order and without a gap.
pub open spec fn whole_from(pieces: Seq<Piece>, at: int, len: int) -> bool
    decreases pieces.len(),
{
    if pieces.len() == 0 {
        at == len
    } else {
        match pieces[0].src {
            PieceSource::Add => whole_from(pieces.skip(1), at, len),
            PieceSource::Original => pieces[0].start == at && whole_from(
                pieces.skip(1),
                at + pieces[0].len,
                len,
            ),
        }
    }
}

spec fn ends_in_return(bytes: Seq<u8>) -> bool {
    bytes.len() > 0 && bytes.last() == CR
}

/// `text` has `grown` line ends more than the run of original bytes in it. One of them is the
/// carriage return that it ends with, if the run does not.
spec fn grows(text: Seq<u8>, run: Seq<u8>, grown: usize, text_return: bool, run_return: bool) -> bool {
    &&& breaks(text) == breaks(run) + grown
    &&& text_return == ends_in_return(text)
    &&& run_return == ends_in_return(run)
    &&& text_return && !run_return ==> grown > 0
}

proof fn lemma_breaks_bound(bytes: Seq<u8>)
    ensures
        breaks(bytes) <= bytes.len(),
        ends_in_return(bytes) ==> breaks(bytes) > 0,
        bytes.len() > 0 && bytes[0] == LF ==> breaks(bytes) > 0,
        ends_in_return(bytes) && bytes[0] == LF ==> breaks(bytes) > 1,
{
    crate::scan::lemma_line_ends_monotone(bytes, 0, bytes.len() as int);
    if bytes.len() > 0 {
        crate::scan::lemma_line_ends_monotone(bytes, 1, bytes.len() as int);
        assert(line_ends(bytes, 1) == line_ends(bytes, 0) + (if ends_line(bytes, 0) {
            1nat
        } else {
            0
        }));
        if bytes.len() > 1 {
            crate::scan::lemma_line_ends_monotone(bytes, 1, bytes.len() - 1);
        }
    }
}

proof fn lemma_grows_add(
    text: Seq<u8>,
    run: Seq<u8>,
    own: Seq<u8>,
    grown: usize,
    text_return: bool,
    run_return: bool,
)
    requires
        grows(text, run, grown, text_return, run_return),
        (text + own).len() <= usize::MAX,
    ensures
        own.len() == 0 ==> text + own == text,
        own.len() > 0 ==> {
            let less: int = if text_return && own[0] == LF {
                1
            } else {
                0
            };
            &&& breaks(own) >= less
            &&& grown + breaks(own) - less <= usize::MAX
            &&& grows(
                text + own,
                run,
                (grown + breaks(own) - less) as usize,
                own.last() == CR,
                run_return,
            )
        },
{
    lemma_breaks_concat(text, own);
    lemma_breaks_bound(own);
    lemma_breaks_bound(text + own);
    if own.len() == 0 {
        assert(text + own =~= text);
    }
}

proof fn lemma_grows_original(
    text: Seq<u8>,
    run: Seq<u8>,
    own: Seq<u8>,
    grown: usize,
    text_return: bool,
    run_return: bool,
)
    requires
        grows(text, run, grown, text_return, run_return),
        (text + own).len() <= usize::MAX,
    ensures
        own.len() == 0 ==> text + own == text && run + own == run,
        own.len() > 0 ==> {
            let change: int = if own[0] != LF || text_return == run_return {
                0
            } else if text_return {
                -1
            } else {
                1
            };
            &&& 0 <= grown + change <= usize::MAX
            &&& grows(
                text + own,
                run + own,
                (grown + change) as usize,
                own.last() == CR,
                own.last() == CR,
            )
        },
{
    lemma_breaks_concat(text, own);
    lemma_breaks_concat(run, own);
    lemma_breaks_bound(text + own);
    if own.len() == 0 {
        assert(text + own =~= text);
        assert(run + own =~= run);
    }
}

/// The text of the first pieces is no longer than that of all.
proof fn lemma_text_of_part(original: Seq<u8>, add: Seq<u8>, pieces: Seq<Piece>, k: int)
    requires
        0 <= k <= pieces.len(),
    ensures
        text_of(original, add, pieces.take(k)).len() <= text_of(original, add, pieces).len(),
    decreases pieces.len(),
{
    if k < pieces.len() {
        assert(pieces.drop_last().take(k) =~= pieces.take(k));
        lemma_text_of_part(original, add, pieces.drop_last(), k);
    } else {
        assert(pieces.take(k) =~= pieces);
    }
}

/// The sum of `lengths`.
pub open spec fn sum_of(lengths: Seq<usize>) -> nat
    decreases lengths.len(),
{
    if lengths.len() == 0 {
        0
    } else {
        sum_of(lengths.drop_last()) + lengths.last() as nat
    }
}

proof fn lemma_sum_of_take(lengths: Seq<usize>, k: int)
    requires
        0 <= k <= lengths.len(),
    ensures
        sum_of(lengths.take(k)) <= sum_of(lengths),
    decreases lengths.len(),
{
    if k < lengths.len() {
        assert(lengths.drop_last().take(k) =~= lengths.take(k));
        lemma_sum_of_take(lengths.drop_last(), k);
    } else {
        assert(lengths.take(k) =~= lengths);
    }
}

fn sum_lengths(lengths: &Vec<usize>, limit: usize) -> (sum: usize)
    requires
        sum_of(lengths@) <= limit,
    ensures
        sum == sum_of(lengths@),
{
    let mut sum: usize = 0;
    let mut i: usize = 0;
    assert(lengths@.take(0) =~= Seq::empty());
    while i < lengths.len()
        invariant
            i <= lengths@.len(),
            sum == sum_of(lengths@.take(i as int)),
            sum_of(lengths@) <= limit,
        decreases lengths@.len() - i,
    {
        proof {
            lemma_sum_of_take(lengths@, i + 1);
            assert(lengths@.take(i + 1).drop_last() =~= lengths@.take(i as int));
        }
        sum = sum + lengths[i];
        i = i + 1;
    }
    assert(lengths@.take(i as int) =~= lengths@);
    sum
}

/// How many of `pieces` are small.
pub open spec fn small_count(pieces: Seq<Piece>, threshold: usize) -> nat
    decreases pieces.len(),
{
    if pieces.len() == 0 {
        0
    } else {
        small_count(pieces.drop_last(), threshold) + (if pieces.last().len <= threshold {
            1nat
        } else {
            0
        })
    }
}

/// The bytes of the small ones of `pieces`.
pub open spec fn small_sum(pieces: Seq<Piece>, threshold: usize) -> nat
    decreases pieces.len(),
{
    if pieces.len() == 0 {
        0
    } else {
        small_sum(pieces.drop_last(), threshold) + (if pieces.last().len <= threshold {
            pieces.last().len as nat
        } else {
            0
        })
    }
}

pub open spec fn fragmentation(pieces: Seq<Piece>, threshold: usize) -> FragmentationStats {
    FragmentationStats {
        piece_count: pieces.len() as usize,
        total_bytes: sum_len(pieces) as usize,
        small_piece_count: small_count(pieces, threshold) as usize,
        small_piece_bytes: small_sum(pieces, threshold) as usize,
        small_piece_threshold_bytes: threshold,
    }
}

/// The index covers all lines, or whole lines from the start on.
pub open spec fn index_ok(text: Seq<u8>, lines: usize, bytes: usize, full: bool) -> bool {
    if full {
        bytes == text.len() && lines == line_ends(text, text.len() as int) + 1
    } else {
        &&& bytes <= text.len()
        &&& lines == line_ends(text, bytes as int)
        &&& bytes == 0 || ends_line(text, bytes - 1)
    }
}

/// How many bytes the line end in front of `offset` takes.
pub open spec fn newline_len(text: Seq<u8>, offset: int) -> int {
    if offset <= 0 {
        0
    } else if text[offset - 1] == LF {
        if offset >= 2 && text[offset - 2] == CR {
            2
        } else {
            1
        }
    } else if text[offset - 1] == CR {
        1
    } else {
        0
    }
}

/// The columns of line `line0`, if it is indexed.
pub open spec fn table_line_len(text: Seq<u8>, known_lines: usize, line0: usize) -> nat {
    if line0 >= known_lines {
        0
    } else {
        line_cols(text, line_start(text, line0 as nat), text.len() as int)
    }
}

/// Where column `col0` of line `line0` lies, if the line is indexed.
pub open spec fn table_col_offset(text: Seq<u8>, known_lines: usize, line0: usize, col0: usize) -> int {
    if line0 >= known_lines {
        text.len() as int
    } else {
        col_offset(
            text,
            line_start(text, line0 as nat),
            text.len() as int,
            col0 as nat,
        )
    }
}

/// Where line `line0` starts; the end of the bytes where there are fewer lines.
pub fn line_start_in(bytes: &[u8], line0: usize) -> (start: usize)
    ensures
        start == line_start(bytes@, line0 as nat),
        start <= bytes@.len(),
{
    let mut at: usize = 0;
    let mut left: usize = line0;
    while left > 0 && at < bytes.len()
        invariant
            at <= bytes@.len(),
            line_start_from(bytes@, at as int, left as nat) == line_start(bytes@, line0 as nat),
        decreases bytes@.len() - at,
    {
        let next: usize = next_line_start_exact(bytes, at);
        proof {
            crate::document::text::lemma_line_start_step(bytes@, at as int, left as nat);
        }
        at = next;
        left = left - 1;
    }
    proof {
        crate::document::text::lemma_line_start_end(bytes@, at as int, left as nat);
    }
    at
}

} // verus!
