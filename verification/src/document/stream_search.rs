//! Literal search through text that is stored in segments.
//!
//! A window of the last bytes of earlier segments in front of the next segment finds the
//! matches that cross a border.

use crate::document::piece_table::{
    in_bounds, newline_len, parts_bytes, table_col_offset, table_line_len, PieceTable,
    PARTIAL_PIECE_TABLE_SCAN_BYTES, REVERSE_POSITION_FAST_PATH_BYTES,
};
use crate::document::rope::{chunk_at, rope_bytes};
use crate::document::text::{
    advance_position_by_bytes, advanced, byte_offset_for_text_col_in_bytes, col_offset, line_cols,
    line_start_from, next_line_start_exact, position_at, scan_position_bytes, text_cols_in_bytes,
    PositionScanState,
};
use crate::document::types::TextPosition;
use crate::editlog::{push_bytes, Piece};
use crate::piece_tree::visited;
use crate::scan::{is_either, is_first, is_last, lemma_occurs_part, occurs, CR, LF};
use crate::tree_model::{max_int, min_int};
use vstd::prelude::*;

verus! {

/// No occurrence that starts at `from` or later ends by `pos`.
pub open spec fn clear_between(text: Seq<u8>, needle: Seq<u8>, from: int, pos: int) -> bool {
    forall|i: int| from <= i && i + needle.len() <= pos ==> !occurs(text, needle, i)
}

/// Fills the window with what was kept and with the next segment.
fn refill_search_window(window: &mut Vec<u8>, overlap: &[u8], segment: &[u8])
    ensures
        final(window)@ == overlap@ + segment@,
{
    window.clear();
    push_bytes(window, overlap);
    push_bytes(window, segment);
    assert(window@ =~= overlap@ + segment@);
}

/// The last bytes of a window that a match across the border could start in.
fn keep_tail(window: &Vec<u8>, needle_len: usize) -> (tail: Vec<u8>)
    requires
        needle_len > 0,
    ensures
        tail@ == window@.skip(
            window@.len() - min_int(needle_len - 1, window@.len() as int),
        ),
{
    let keep: usize = if needle_len - 1 <= window.len() {
        needle_len - 1
    } else {
        window.len()
    };
    let mut tail: Vec<u8> = Vec::new();
    let from: usize = window.len() - keep;
    push_bytes(
        &mut tail,
        vstd::slice::slice_subrange(window.as_slice(), from, window.len()),
    );
    assert(tail@ =~= window@.skip(from as int));
    tail
}

/// The first bytes of a window that a match across the border could end in.
fn keep_head(window: &Vec<u8>, needle_len: usize) -> (head: Vec<u8>)
    requires
        needle_len > 0,
    ensures
        head@ == window@.take(min_int(needle_len - 1, window@.len() as int)),
{
    let keep: usize = if needle_len - 1 <= window.len() {
        needle_len - 1
    } else {
        window.len()
    };
    let mut head: Vec<u8> = Vec::new();
    push_bytes(&mut head, vstd::slice::slice_subrange(window.as_slice(), 0, keep));
    assert(head@ =~= window@.take(keep as int));
    head
}

/// Where the window over the bytes up to `pos` starts.
pub open spec fn window_start(from: int, pos: int, needle_len: int) -> int {
    max_int(from, pos - (needle_len - 1))
}

/// What a search of one window tells of the whole text.
proof fn lemma_window_first(
    text: Seq<u8>,
    needle: Seq<u8>,
    from: int,
    pos: int,
    next: int,
    found: Option<usize>,
)
    requires
        needle.len() > 0,
        0 <= from <= pos <= next <= text.len(),
        clear_between(text, needle, from, pos),
        is_first(
            text.subrange(window_start(from, pos, needle.len() as int), next),
            needle,
            0,
            found,
        ),
    ensures
        match found {
            Some(rel) => {
                let at = window_start(from, pos, needle.len() as int) + rel;
                &&& from <= at
                &&& occurs(text, needle, at)
                &&& forall|i: int| from <= i < at ==> !occurs(text, needle, i)
            },
            None => clear_between(text, needle, from, next),
        },
{
    let start = window_start(from, pos, needle.len() as int);
    let n = needle.len() as int;
    match found {
        Some(rel) => {
            lemma_occurs_part(text, needle, start, next, rel as int);
            let at = start + rel;
            assert forall|i: int| from <= i < at implies !occurs(text, needle, i) by {
                if i + n <= pos {
                } else {
                    assert(i >= start);
                    lemma_occurs_part(text, needle, start, next, i - start);
                    assert(!occurs(text.subrange(start, next), needle, i - start));
                }
            }
        },
        None => {
            assert forall|i: int| from <= i && i + n <= next implies !occurs(text, needle, i) by {
                if i + n <= pos {
                } else {
                    assert(i >= start);
                    lemma_occurs_part(text, needle, start, next, i - start);
                    assert(!occurs(text.subrange(start, next), needle, i - start));
                }
            }
        },
    }
}

/// What a search from the back of one window tells of the text up to its end.
proof fn lemma_window_last(
    text: Seq<u8>,
    needle: Seq<u8>,
    pos: int,
    next: int,
    best: Option<usize>,
    found: Option<usize>,
)
    requires
        needle.len() > 0,
        0 <= pos <= next <= text.len() <= usize::MAX,
        is_last(text, needle, pos, best),
        is_last(
            text.subrange(window_start(0, pos, needle.len() as int), next),
            needle,
            next - window_start(0, pos, needle.len() as int),
            found,
        ),
    ensures
        is_last(
            text,
            needle,
            next,
            match found {
                Some(rel) => Some(
                    (window_start(0, pos, needle.len() as int) + rel) as usize,
                ),
                None => best,
            },
        ),
{
    let start = window_start(0, pos, needle.len() as int);
    let n = needle.len() as int;
    let window = text.subrange(start, next);
    match found {
        Some(rel) => {
            lemma_occurs_part(text, needle, start, next, rel as int);
            let at = start + rel;
            assert forall|i: int| at < i && i + n <= next implies !occurs(text, needle, i) by {
                lemma_occurs_part(text, needle, start, next, i - start);
                assert(!occurs(window, needle, i - start));
            }
        },
        None => {
            assert forall|i: int| i + n <= next && i >= start implies !occurs(text, needle, i) by {
                lemma_occurs_part(text, needle, start, next, i - start);
                assert(!occurs(window, needle, i - start));
            }
            match best {
                Some(at) => {
                    assert forall|i: int| at < i && i + n <= next implies !occurs(
                        text,
                        needle,
                        i,
                    ) by {
                        if 0 <= i < start {
                            assert(i + n <= pos);
                        }
                    }
                },
                None => {
                    assert forall|i: int| i + n <= next implies !occurs(text, needle, i) by {
                        if 0 <= i < start {
                            assert(i + n <= pos);
                        }
                    }
                },
            }
        },
    }
}

/// What a search from the back of one window tells when the text is walked from its end.
proof fn lemma_window_back(
    text: Seq<u8>,
    needle: Seq<u8>,
    end: int,
    pos: int,
    prev: int,
    found: Option<usize>,
)
    requires
        needle.len() > 0,
        0 <= prev <= pos <= end <= text.len() <= usize::MAX,
        clear_between(text, needle, pos, end),
        is_last(
            text.subrange(prev, min_int(end, pos + needle.len() - 1)),
            needle,
            min_int(end, pos + needle.len() - 1) - prev,
            found,
        ),
    ensures
        match found {
            Some(rel) => is_last(text, needle, end, Some((prev + rel) as usize)),
            None => clear_between(text, needle, prev, end),
        },
{
    let stop = min_int(end, pos + needle.len() - 1);
    let n = needle.len() as int;
    let window = text.subrange(prev, stop);
    match found {
        Some(rel) => {
            lemma_occurs_part(text, needle, prev, stop, rel as int);
            let at = prev + rel;
            assert forall|i: int| at < i && i + n <= end implies !occurs(text, needle, i) by {
                if i < pos {
                    assert(i + n <= stop);
                    lemma_occurs_part(text, needle, prev, stop, i - prev);
                    assert(!occurs(window, needle, i - prev));
                }
            }
        },
        None => {
            assert forall|i: int| prev <= i && i + n <= end implies !occurs(text, needle, i) by {
                if i < pos {
                    assert(i + n <= stop);
                    lemma_occurs_part(text, needle, prev, stop, i - prev);
                    assert(!occurs(window, needle, i - prev));
                }
            }
        },
    }
}

/// The first match at `start_byte` or behind it in a rope.
pub fn find_next_in_rope_chunks(rope: &ropey::Rope, start_byte: usize, needle: &[u8]) -> (found:
    Option<usize>)
    requires
        start_byte <= rope_bytes(*rope).len(),
    ensures
        needle@.len() == 0 ==> found is None,
        needle@.len() > 0 ==> is_first(rope_bytes(*rope), needle@, start_byte as int, found),
{
    if needle.len() == 0 {
        return None;
    }
    let ghost text = rope_bytes(*rope);
    let len: usize = rope.len_bytes();
    let mut overlap: Vec<u8> = Vec::new();
    let mut window: Vec<u8> = Vec::new();
    let mut pos: usize = start_byte;
    assert(overlap@ =~= text.subrange(start_byte as int, start_byte as int));
    while pos < len
        invariant
            text == rope_bytes(*rope),
            len == text.len(),
            needle@.len() > 0,
            start_byte <= pos <= len,
            clear_between(text, needle@, start_byte as int, pos as int),
            overlap@ == text.subrange(
                window_start(start_byte as int, pos as int, needle@.len() as int),
                pos as int,
            ),
        decreases len - pos,
    {
        let (chunk, chunk_start) = chunk_at(rope, pos);
        let segment = vstd::slice::slice_subrange(chunk, pos - chunk_start, chunk.len());
        let ghost next = pos + segment@.len();
        let ghost start = window_start(start_byte as int, pos as int, needle@.len() as int);
        refill_search_window(&mut window, overlap.as_slice(), segment);
        proof {
            assert(segment@ =~= text.subrange(pos as int, next as int));
            assert(window@ =~= text.subrange(start, next as int));
        }
        let hit = memchr::memmem::find(window.as_slice(), needle);
        proof {
            lemma_window_first(
                text,
                needle@,
                start_byte as int,
                pos as int,
                next as int,
                hit,
            );
        }
        match hit {
            Some(rel) => return Some(pos - overlap.len() + rel),
            None => {},
        }
        overlap = keep_tail(&window, needle.len());
        pos = pos + segment.len();
        assert(overlap@ =~= text.subrange(
            window_start(start_byte as int, pos as int, needle@.len() as int),
            pos as int,
        ));
    }
    None
}

/// The last match that ends by `end_byte` in a rope.
pub fn find_prev_in_rope_chunks(rope: &ropey::Rope, end_byte: usize, needle: &[u8]) -> (found:
    Option<usize>)
    requires
        end_byte <= rope_bytes(*rope).len(),
    ensures
        needle@.len() == 0 ==> found is None,
        needle@.len() > 0 ==> is_last(rope_bytes(*rope), needle@, end_byte as int, found),
{
    if needle.len() == 0 {
        return None;
    }
    let ghost text = rope_bytes(*rope);
    let len: usize = rope.len_bytes();
    let mut overlap: Vec<u8> = Vec::new();
    let mut window: Vec<u8> = Vec::new();
    let mut pos: usize = 0;
    let mut found: Option<usize> = None;
    assert(overlap@ =~= text.subrange(0, 0));
    while pos < end_byte
        invariant
            text == rope_bytes(*rope),
            len == text.len(),
            needle@.len() > 0,
            pos <= end_byte <= len,
            is_last(text, needle@, pos as int, found),
            overlap@ == text.subrange(
                window_start(0, pos as int, needle@.len() as int),
                pos as int,
            ),
        decreases end_byte - pos,
    {
        let (chunk, chunk_start) = chunk_at(rope, pos);
        let chunk_end: usize = chunk_start + chunk.len();
        let stop: usize = if chunk_end <= end_byte {
            chunk_end
        } else {
            end_byte
        };
        let segment = vstd::slice::slice_subrange(chunk, pos - chunk_start, stop - chunk_start);
        let ghost start = window_start(0, pos as int, needle@.len() as int);
        refill_search_window(&mut window, overlap.as_slice(), segment);
        proof {
            assert(segment@ =~= text.subrange(pos as int, stop as int));
            assert(window@ =~= text.subrange(start, stop as int));
        }
        let hit = memchr::memmem::rfind(window.as_slice(), needle);
        proof {
            lemma_window_last(text, needle@, pos as int, stop as int, found, hit);
        }
        match hit {
            Some(rel) => {
                found = Some(pos - overlap.len() + rel);
            },
            None => {},
        }
        overlap = keep_tail(&window, needle.len());
        pos = stop;
        assert(overlap@ =~= text.subrange(
            window_start(0, pos as int, needle@.len() as int),
            pos as int,
        ));
    }
    found
}

/// The bytes of the first parts are the first of all bytes.
proof fn lemma_parts_prefix(
    original: Seq<u8>,
    add: Seq<u8>,
    parts: Seq<(Piece, usize, usize)>,
    k: int,
)
    requires
        0 <= k <= parts.len(),
    ensures
        parts_bytes(original, add, parts.take(k)).len() <= parts_bytes(original, add, parts).len(),
        parts_bytes(original, add, parts.take(k)) == parts_bytes(original, add, parts).take(
            parts_bytes(original, add, parts.take(k)).len() as int,
        ),
    decreases parts.len(),
{
    let all = parts_bytes(original, add, parts);
    if k < parts.len() {
        let front = parts.drop_last();
        lemma_parts_prefix(original, add, front, k);
        assert(front.take(k) =~= parts.take(k));
        let head = parts_bytes(original, add, front);
        let part = parts_bytes(original, add, parts.take(k));
        assert(all.take(part.len() as int) =~= head.take(part.len() as int));
    } else {
        assert(parts.take(k) =~= parts);
        assert(all.take(all.len() as int) =~= all);
    }
}

impl PieceTable {
    /// The first match at `start` or behind it, and its place counted from `start_pos`, which
    /// is the place of `start`.
    pub fn find_literal_next_from_position(
        &self,
        start: usize,
        start_pos: TextPosition,
        needle: &[u8],
    ) -> (found: Option<(TextPosition, usize)>)
        requires
            self.wf(),
        ensures
            needle@.len() == 0 || start >= self.total_len ==> found is None,
            needle@.len() > 0 && start < self.total_len ==> match found {
                Some((position, at)) => {
                    &&& is_first(self.text(), needle@, start as int, Some(at))
                    &&& position == advanced(
                        start_pos,
                        self.text().subrange(start as int, at as int),
                    )
                },
                None => is_first(self.text(), needle@, start as int, None),
            },
    {
        if needle.len() == 0 || start >= self.total_len {
            return None;
        }
        let ghost text = self.text();
        proof {
            self.lemma_len();
            self.lemma_parts(start as int, self.total_len as int);
        }
        let parts = self.pieces.visit_range(start, self.total_len);
        let ghost whole = text.subrange(start as int, self.total_len as int);
        let mut overlap: Vec<u8> = Vec::new();
        let mut window: Vec<u8> = Vec::new();
        let mut pos: usize = start;
        let mut i: usize = 0;
        assert(parts@.take(0) =~= Seq::empty());
        assert(overlap@ =~= text.subrange(start as int, start as int));
        while i < parts.len()
            invariant
                self.wf(),
                text == self.text(),
                text.len() == self.total_len,
                needle@.len() > 0,
                start <= pos <= self.total_len,
                i <= parts@.len(),
                forall|k: int|
                    0 <= k < parts@.len() ==> {
                        &&& (#[trigger] parts@[k]).1 < parts@[k].2 <= parts@[k].0.len
                        &&& in_bounds(self.original@, self.add@, parts@[k].0)
                    },
                whole == text.subrange(start as int, self.total_len as int),
                parts_bytes(self.original@, self.add@, parts@) == whole,
                pos == start + parts_bytes(self.original@, self.add@, parts@.take(i as int)).len(),
                clear_between(text, needle@, start as int, pos as int),
                overlap@ == text.subrange(
                    window_start(start as int, pos as int, needle@.len() as int),
                    pos as int,
                ),
            decreases parts@.len() - i,
        {
            assert(parts@[i as int].1 < parts@[i as int].2);
            let segment = self.part_bytes(parts[i]);
            let ghost next = pos + segment@.len();
            let ghost from = window_start(start as int, pos as int, needle@.len() as int);
            proof {
                let (o, a) = (self.original@, self.add@);
                lemma_parts_prefix(o, a, parts@, i as int);
                lemma_parts_prefix(o, a, parts@, i + 1);
                assert(parts@.take(i + 1).drop_last() =~= parts@.take(i as int));
                let done = parts_bytes(o, a, parts@.take(i as int));
                let more = parts_bytes(o, a, parts@.take(i + 1));
                assert(more == done + segment@);
                assert(segment@ =~= more.skip(done.len() as int));
                assert(segment@ =~= text.subrange(pos as int, next as int));
            }
            refill_search_window(&mut window, overlap.as_slice(), segment);
            assert(window@ =~= text.subrange(from, next as int));
            let hit = memchr::memmem::find(window.as_slice(), needle);
            proof {
                lemma_window_first(
                    text,
                    needle@,
                    start as int,
                    pos as int,
                    next as int,
                    hit,
                );
            }
            match hit {
                Some(rel) => {
                    let at: usize = pos - overlap.len() + rel;
                    let passed = self.read_range(start, at);
                    return Some((advance_position_by_bytes(start_pos, passed.as_slice()), at));
                },
                None => {},
            }
            overlap = keep_tail(&window, needle.len());
            pos = pos + segment.len();
            assert(overlap@ =~= text.subrange(
                window_start(start as int, pos as int, needle@.len() as int),
                pos as int,
            ));
            i = i + 1;
        }
        assert(parts@.take(i as int) =~= parts@);
        None
    }

    /// The parts of the range hold its bytes.
    proof fn lemma_parts(self, start: int, end: int)
        requires
            self.wf(),
            0 <= start <= end <= self.total_len,
        ensures
            ({
                let parts = visited(self.pieces.pieces(), start, end);
                &&& parts_bytes(self.original@, self.add@, parts) == self.text().subrange(
                    start,
                    end,
                )
                &&& forall|i: int|
                    0 <= i < parts.len() ==> {
                        &&& (#[trigger] parts[i]).1 < parts[i].2 <= parts[i].0.len
                        &&& in_bounds(self.original@, self.add@, parts[i].0)
                    }
            }),
    {
        self.lemma_len();
        crate::document::piece_table::lemma_visited_bytes(
            self.original@,
            self.add@,
            self.pieces.pieces(),
            start,
            end,
        );
    }

    /// The last match that ends by `end`.
    pub fn find_literal_prev(&self, end: usize, needle: &[u8]) -> (found: Option<usize>)
        requires
            self.wf(),
        ensures
            needle@.len() == 0 ==> found is None,
            needle@.len() > 0 ==> is_last(
                self.text(),
                needle@,
                min_int(end as int, self.total_len as int),
                found,
            ),
    {
        if needle.len() == 0 {
            return None;
        }
        let ghost text = self.text();
        let stop: usize = if end <= self.total_len {
            end
        } else {
            self.total_len
        };
        proof {
            self.lemma_len();
            self.lemma_parts(0, stop as int);
        }
        let parts = self.pieces.visit_range(0, stop);
        let mut overlap: Vec<u8> = Vec::new();
        let mut window: Vec<u8> = Vec::new();
        let mut pos: usize = stop;
        let mut i: usize = parts.len();
        assert(parts@.take(i as int) =~= parts@);
        assert(overlap@ =~= text.subrange(stop as int, stop as int));
        while i > 0
            invariant
                self.wf(),
                text == self.text(),
                text.len() == self.total_len,
                needle@.len() > 0,
                pos <= stop,
                stop == min_int(end as int, self.total_len as int),
                i <= parts@.len(),
                forall|k: int|
                    0 <= k < parts@.len() ==> {
                        &&& (#[trigger] parts@[k]).1 < parts@[k].2 <= parts@[k].0.len
                        &&& in_bounds(self.original@, self.add@, parts@[k].0)
                    },
                parts_bytes(self.original@, self.add@, parts@) == text.subrange(0, stop as int),
                pos == parts_bytes(self.original@, self.add@, parts@.take(i as int)).len(),
                clear_between(text, needle@, pos as int, stop as int),
                overlap@ == text.subrange(
                    pos as int,
                    min_int(stop as int, pos + needle@.len() - 1),
                ),
            decreases i,
        {
            i = i - 1;
            assert(parts@[i as int].1 < parts@[i as int].2);
            let segment = self.part_bytes(parts[i]);
            let ghost prev = pos - segment@.len();
            let ghost limit = min_int(stop as int, pos + needle@.len() - 1);
            proof {
                let (o, a) = (self.original@, self.add@);
                lemma_parts_prefix(o, a, parts@, i as int);
                lemma_parts_prefix(o, a, parts@, i + 1);
                assert(parts@.take(i + 1).drop_last() =~= parts@.take(i as int));
                let done = parts_bytes(o, a, parts@.take(i as int));
                let more = parts_bytes(o, a, parts@.take(i + 1));
                assert(more == done + segment@);
                assert(segment@ =~= more.skip(done.len() as int));
                assert(segment@ =~= text.subrange(prev, pos as int));
            }
            refill_search_window(&mut window, segment, overlap.as_slice());
            assert(window@ =~= text.subrange(prev, limit));
            let hit = memchr::memmem::rfind(window.as_slice(), needle);
            proof {
                lemma_window_back(text, needle@, stop as int, pos as int, prev, hit);
            }
            let segment_start: usize = pos - segment.len();
            match hit {
                Some(rel) => return Some(segment_start + rel),
                None => {},
            }
            overlap = keep_head(&window, needle.len());
            pos = segment_start;
            assert(overlap@ =~= text.subrange(
                pos as int,
                min_int(stop as int, pos + needle@.len() - 1),
            ));
        }
        proof {
            assert(parts@.take(0) =~= Seq::empty());
        }
        None
    }

    /// The place of byte `byte_offset`.
    pub fn position_for_byte_offset(&self, byte_offset: usize) -> (position: TextPosition)
        requires
            self.wf(),
        ensures
            position == position_at(
                self.text(),
                min_int(byte_offset as int, self.total_len as int),
            ),
    {
        let target: usize = if byte_offset <= self.total_len {
            byte_offset
        } else {
            self.total_len
        };
        proof {
            self.lemma_len();
            crate::document::text::lemma_scan_subrange(
                self.text(),
                0,
                0,
                target as int,
                PositionScanState { line0: 0, col0: 0, prev_was_cr: false },
            );
        }
        let bytes = self.read_range(0, target);
        let mut state = PositionScanState::new(0, 0);
        scan_position_bytes(bytes.as_slice(), &mut state);
        state.position()
    }

    /// The place of byte `byte_offset`, counted from a known place in front of it.
    pub fn position_for_byte_offset_from(
        &self,
        anchor_offset: usize,
        anchor_position: TextPosition,
        byte_offset: usize,
    ) -> (position: TextPosition)
        requires
            self.wf(),
        ensures
            ({
                let anchor = min_int(anchor_offset as int, self.total_len as int);
                let target = min_int(byte_offset as int, self.total_len as int);
                position == (if target <= anchor {
                    anchor_position
                } else {
                    advanced(anchor_position, self.text().subrange(anchor, target))
                })
            }),
    {
        let anchor: usize = if anchor_offset <= self.total_len {
            anchor_offset
        } else {
            self.total_len
        };
        let target: usize = if byte_offset <= self.total_len {
            byte_offset
        } else {
            self.total_len
        };
        if target <= anchor {
            return anchor_position;
        }
        let bytes = self.read_range(anchor, target);
        advance_position_by_bytes(anchor_position, bytes.as_slice())
    }

    /// The place of byte `byte_offset`, counted back in the line from a known place, where
    /// that is near.
    pub fn position_for_byte_offset_before_same_line(
        &self,
        anchor_offset: usize,
        anchor_position: TextPosition,
        byte_offset: usize,
    ) -> (position: Option<TextPosition>)
        requires
            self.wf(),
        ensures
            position == counted_back(
                self.text(),
                min_int(anchor_offset as int, self.total_len as int),
                anchor_position,
                byte_offset as int,
            ),
    {
        proof {
            self.lemma_len();
        }
        let anchor: usize = if anchor_offset <= self.total_len {
            anchor_offset
        } else {
            self.total_len
        };
        let target: usize = if byte_offset <= anchor {
            byte_offset
        } else {
            anchor
        };
        if target == anchor {
            return Some(anchor_position);
        }
        let span: usize = anchor - target;
        if span > REVERSE_POSITION_FAST_PATH_BYTES || anchor_position.col0 == 0 {
            return None;
        }
        let bytes = self.read_range(target, anchor);
        let breaks = memchr::memchr2(LF, CR, bytes.as_slice());
        if breaks.is_some() {
            return None;
        }
        let units: usize = text_cols_in_bytes(bytes.as_slice(), (0, bytes.len()));
        if units <= anchor_position.col0 {
            Some(TextPosition::new(anchor_position.line0, anchor_position.col0 - units))
        } else {
            None
        }
    }

    /// The end of the line in front of the end of the text, where the text ends with a line
    /// end and the search starts there.
    pub fn prev_search_anchor_before_trailing_newline(
        &self,
        before: TextPosition,
        end_offset: usize,
    ) -> (anchor: Option<(TextPosition, usize)>)
        requires
            self.wf(),
        ensures
            anchor == trailing_anchor(
                self.text(),
                self.known_line_count,
                before,
                end_offset as int,
            ),
    {
        proof {
            self.lemma_len();
        }
        if before.line0 == 0 || before.col0 != 0 || end_offset == 0 || end_offset
            != self.total_len {
            return None;
        }
        let newline_len: usize = self.newline_len_before(end_offset);
        if newline_len == 0 {
            return None;
        }
        let prev_line0: usize = before.line0 - 1;
        let prev_col0: usize = self.line_len_chars(prev_line0);
        Some((TextPosition::new(prev_line0, prev_col0), end_offset - newline_len))
    }
}

/// The place of byte `target`, counted back from `anchor_position` in the same line.
pub open spec fn counted_back(
    text: Seq<u8>,
    anchor: int,
    anchor_position: TextPosition,
    byte_offset: int,
) -> Option<TextPosition> {
    let target = min_int(byte_offset, anchor);
    let part = text.subrange(target, anchor);
    let units = line_cols(part, 0, part.len() as int);
    if target == anchor {
        Some(anchor_position)
    } else if anchor - target > REVERSE_POSITION_FAST_PATH_BYTES || anchor_position.col0 == 0 {
        None
    } else if exists|i: int| 0 <= i < part.len() && is_either(#[trigger] part[i], LF, CR) {
        None
    } else if units <= anchor_position.col0 {
        Some(
            TextPosition {
                line0: anchor_position.line0,
                col0: (anchor_position.col0 - units) as usize,
            },
        )
    } else {
        None
    }
}

/// The end of the last line in front of a trailing line end.
pub open spec fn trailing_anchor(
    text: Seq<u8>,
    known_lines: usize,
    before: TextPosition,
    end_offset: int,
) -> Option<(TextPosition, usize)> {
    if before.line0 == 0 || before.col0 != 0 || end_offset == 0 || end_offset != text.len()
        || newline_len(text, end_offset) == 0 {
        None
    } else {
        let line0 = (before.line0 - 1) as usize;
        Some(
            (
                TextPosition { line0, col0: table_line_len(text, known_lines, line0) as usize },
                (end_offset - newline_len(text, end_offset)) as usize,
            ),
        )
    }
}

/// A line that was looked up behind the indexed part.
#[derive(Clone, Copy, Debug, PartialEq, Eq)]
pub struct PieceTableLineScan {
    pub range: (usize, usize),
    pub complete: bool,
}

/// The line at `start0` of a buffer, and whether its end is in the buffer.
pub fn next_piece_table_scan_line_range(
    bytes: &[u8],
    start0: usize,
    buffer_reaches_eof: bool,
) -> (scan: Option<PieceTableLineScan>)
    ensures
        start0 >= bytes@.len() ==> scan is None,
        start0 < bytes@.len() ==> {
            let end = line_start_from(bytes@, start0 as int, 1);
            &&& start0 < end <= bytes@.len()
            &&& scan == Some(
                PieceTableLineScan {
                    range: (start0, end as usize),
                    complete: end < bytes@.len() || buffer_reaches_eof,
                },
            )
        },
{
    if start0 >= bytes.len() {
        return None;
    }
    let end: usize = next_line_start_exact(bytes, start0);
    Some(
        PieceTableLineScan {
            range: (start0, end),
            complete: end < bytes.len() || buffer_reaches_eof,
        },
    )
}

/// Where a line starts that is `skip` whole lines behind `from` in a buffer.
pub open spec fn scan_skip(bytes: Seq<u8>, from: int, skip: nat, eof: bool) -> Option<int>
    decreases skip,
{
    if skip == 0 {
        Some(from)
    } else if from >= bytes.len() {
        None
    } else {
        let end = line_start_from(bytes, from, 1);
        if end < bytes.len() || eof {
            scan_skip(bytes, end, (skip - 1) as nat, eof)
        } else {
            None
        }
    }
}

/// Where `position` lies in a text of which only the first lines are indexed: in an indexed
/// line, or in one that begins in the bytes looked up behind them.
pub open spec fn scanned_offset(
    text: Seq<u8>,
    known_lines: usize,
    known_bytes: usize,
    full: bool,
    position: TextPosition,
) -> Option<int> {
    if full || position.line0 < known_lines {
        let len = table_line_len(text, known_lines, position.line0);
        Some(
            table_col_offset(
                text,
                known_lines,
                position.line0,
                min_int(position.col0 as int, len as int) as usize,
            ),
        )
    } else {
        let start = known_bytes as int;
        let end = min_int(start + PARTIAL_PIECE_TABLE_SCAN_BYTES, text.len() as int);
        if start >= end {
            None
        } else {
            let bytes = text.subrange(start, end);
            match scan_skip(
                bytes,
                0,
                (position.line0 - known_lines) as nat,
                end == text.len(),
            ) {
                None => None,
                Some(from) => if from >= bytes.len() {
                    None
                } else {
                    Some(
                        start + col_offset(
                            bytes,
                            from,
                            line_start_from(bytes, from, 1),
                            position.col0 as nat,
                        ),
                    )
                },
            }
        }
    }
}

impl PieceTable {
    pub open spec fn spec_scanned_offset(self, position: TextPosition) -> Option<int> {
        scanned_offset(
            self.text(),
            self.known_line_count,
            self.known_byte_len,
            self.full_index,
            position,
        )
    }
}

/// Where `position` lies, if that can be told.
pub fn scanned_piece_table_byte_offset_for_position(
    piece_table: &PieceTable,
    position: TextPosition,
) -> (offset: Option<usize>)
    requires
        piece_table.wf(),
    ensures
        match piece_table.spec_scanned_offset(position) {
            Some(at) => offset is Some && offset->Some_0 == at && at <= piece_table.total_len,
            None => offset is None,
        },
{
    proof {
        piece_table.lemma_len();
    }
    if piece_table.full_index || position.line0 < piece_table.known_line_count {
        let len: usize = piece_table.line_len_chars(position.line0);
        let col0: usize = if position.col0 <= len {
            position.col0
        } else {
            len
        };
        return Some(piece_table.byte_offset_for_col(position.line0, col0));
    }
    let total: usize = piece_table.total_len;
    let scan_start: usize = piece_table.known_byte_len;
    let scan_end: usize = if total - scan_start > PARTIAL_PIECE_TABLE_SCAN_BYTES {
        scan_start + PARTIAL_PIECE_TABLE_SCAN_BYTES
    } else {
        total
    };
    if scan_start >= scan_end {
        return None;
    }
    let bytes = piece_table.read_range(scan_start, scan_end);
    let eof = scan_end == total;
    let mut rel: usize = 0;
    let mut skip: usize = position.line0 - piece_table.known_line_count;
    let ghost goal = scan_skip(bytes@, 0, skip as nat, eof);
    assert(bytes@ == piece_table.text().subrange(scan_start as int, scan_end as int));
    while skip > 0
        invariant
            rel <= bytes@.len(),
            goal == scan_skip(bytes@, rel as int, skip as nat, eof),
            !piece_table.full_index,
            position.line0 >= piece_table.known_line_count,
            piece_table.text().len() == total,
            scan_start == piece_table.known_byte_len,
            scan_end == min_int(
                scan_start + PARTIAL_PIECE_TABLE_SCAN_BYTES,
                total as int,
            ),
            scan_start < scan_end,
            bytes@ == piece_table.text().subrange(scan_start as int, scan_end as int),
            eof == (scan_end == total),
            goal == scan_skip(
                bytes@,
                0,
                (position.line0 - piece_table.known_line_count) as nat,
                eof,
            ),
        decreases skip,
    {
        match next_piece_table_scan_line_range(bytes.as_slice(), rel, eof) {
            None => return None,
            Some(scan) => {
                if !scan.complete {
                    return None;
                }
                rel = scan.range.1;
            },
        }
        skip = skip - 1;
    }
    match next_piece_table_scan_line_range(bytes.as_slice(), rel, eof) {
        None => None,
        Some(scan) => Some(
            scan_start + byte_offset_for_text_col_in_bytes(
                bytes.as_slice(),
                scan.range,
                position.col0,
            ),
        ),
    }
}

} // verus!
