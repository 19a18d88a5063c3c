//! Moving between positions, bytes and characters of a document.

use crate::document::positions::{clamp_in, cols_of_line, last_line, lemma_line_start_at, offset_in};
use crate::document::rope::{
    char_offset, count_lf, lemma_char_at, lemma_char_offsets, lemma_line_ends, lemma_line_tail,
    lemma_rope_cols, lemma_rope_line_start, lemma_rope_position, line_tail, plain_breaks, rope_bytes,
    rope_text,
};
use crate::document::state::{offsets_ok, Document, LineOffsets};
use crate::document::text::{
    advance_by_text_units, advance_position_by_bytes, advanced, byte_offset_for_text_col_in_bytes,
    char_width, lemma_position_from_line, lemma_scan_subrange, line_start, line_start_from,
    next_line_start_exact, position_at, scan_position_bytes, text_cols_in_bytes, text_units,
    units_end, PositionScanState,
};
use crate::document::types::TextPosition;
use crate::scan::{ends_line, is_either, lemma_line_ends_monotone, line_ends, CR, LF};
use crate::tree_model::min_int;
use vstd::prelude::*;
use vstd::utf8::encode_utf8;

verus! {

/// Between two neighbouring line starts there is one line.
proof fn lemma_rope_line(chars: Seq<char>, line0: nat, start: int, end: int)
    requires
        plain_breaks(chars),
        0 <= start <= end <= chars.len(),
        count_lf(chars.take(start)) == line0,
        start == 0 || chars[start - 1] as u32 == 10,
        count_lf(chars.take(end)) == line0,
        end == chars.len() || chars[end] as u32 == 10,
    ensures
        line_tail(chars, start) == end - start,
        line_start(encode_utf8(chars), line0) == char_offset(chars, start),
        cols_of_line(encode_utf8(chars), line0) == end - start,
{
    assert forall|k: int| start <= k < end implies (#[trigger] chars[k]) as u32 != 10 by {
        if chars[k] as u32 == 10 {
            assert(chars.take(k + 1).drop_last() =~= chars.take(k));
            crate::document::rope::lemma_count_monotone(chars, start, k);
            crate::document::rope::lemma_count_monotone(chars, k + 1, end);
        }
    }
    lemma_line_tail(chars, start, end);
    lemma_rope_line_start(chars, start);
    lemma_rope_cols(chars, start, 0);
}

/// The first character of a line of a rope, and how many columns the line has.
fn rope_line(rope: &ropey::Rope, line0: usize) -> (line: (usize, usize))
    requires
        plain_breaks(rope_text(*rope)),
        line0 <= count_lf(rope_text(*rope)),
    ensures
        line.0 + line.1 <= rope_text(*rope).len(),
        line_start(rope_bytes(*rope), line0 as nat) == char_offset(rope_text(*rope), line.0 as int),
        cols_of_line(rope_bytes(*rope), line0 as nat) == line.1,
{
    let ghost chars = rope_text(*rope);
    let lines: usize = rope.len_lines();
    let start: usize = rope.line_to_char(line0);
    let end: usize = if line0 + 1 < lines {
        let next: usize = rope.line_to_char(line0 + 1);
        proof {
            if next == 0 {
                assert(chars.take(0) =~= Seq::empty());
            }
            assert(chars.take(next as int).drop_last() =~= chars.take(next - 1));
            if next <= start {
                crate::document::rope::lemma_count_monotone(chars, next as int, start as int);
            }
        }
        next - 1
    } else {
        rope.len_chars()
    };
    proof {
        assert(chars.take(chars.len() as int) =~= chars);
        lemma_rope_line(chars, line0 as nat, start as int, end as int);
    }
    (start, end - start)
}

/// The lines of a rope are those of its bytes.
pub proof fn lemma_rope_last_line(chars: Seq<char>)
    requires
        plain_breaks(chars),
    ensures
        last_line(encode_utf8(chars)) == count_lf(chars),
{
    lemma_line_ends(chars, chars.len() as int);
    lemma_char_offsets(chars, 0, chars.len() as int);
    assert(chars.take(chars.len() as int) =~= chars);
}

/// Where a position lies in a rope: the position that it means, and its character.
pub(crate) fn rope_place(rope: &ropey::Rope, position: TextPosition) -> (place: (TextPosition, usize))
    requires
        plain_breaks(rope_text(*rope)),
    ensures
        place.0 == clamp_in(rope_bytes(*rope), position),
        place.1 <= rope_text(*rope).len(),
        char_offset(rope_text(*rope), place.1 as int) == offset_in(rope_bytes(*rope), place.0),
{
    let ghost chars = rope_text(*rope);
    proof {
        lemma_rope_last_line(chars);
    }
    let total: usize = rope.len_chars();
    let last: usize = rope.len_lines() - 1;
    let line0: usize = if position.line0 <= last {
        position.line0
    } else {
        last
    };
    let (start, len) = rope_line(rope, line0);
    let col0: usize = if position.col0 <= len {
        position.col0
    } else {
        len
    };
    proof {
        lemma_rope_cols(chars, start as int, col0 as nat);
    }
    (TextPosition::new(line0, col0), start + col0)
}

/// Where `n` characters from `i` on end.
pub open spec fn chars_end(bytes: Seq<u8>, i: int, n: nat) -> int
    decreases n,
{
    if n == 0 || i >= bytes.len() {
        i
    } else {
        chars_end(bytes, i + char_width(bytes, i, bytes.len() as int), (n - 1) as nat)
    }
}

/// The characters of a rope are those of its bytes.
pub proof fn lemma_rope_chars_end(chars: Seq<char>, c: int, n: nat)
    requires
        0 <= c <= chars.len(),
    ensures
        chars_end(encode_utf8(chars), char_offset(chars, c), n) == char_offset(
            chars,
            min_int(c + n, chars.len() as int),
        ),
    decreases n,
{
    lemma_char_offsets(chars, c, chars.len() as int);
    if n > 0 && c < chars.len() {
        lemma_char_at(chars, c);
        lemma_rope_chars_end(chars, c + 1, (n - 1) as nat);
    }
}

/// The place of a character of a rope.
pub(crate) fn rope_position(rope: &ropey::Rope, char_index: usize) -> (position: TextPosition)
    requires
        plain_breaks(rope_text(*rope)),
        char_index <= rope_text(*rope).len(),
    ensures
        position == position_at(
            rope_bytes(*rope),
            char_offset(rope_text(*rope), char_index as int),
        ),
{
    let ghost chars = rope_text(*rope);
    let total: usize = rope.len_chars();
    let line0: usize = rope.char_to_line(char_index);
    proof {
        crate::document::rope::lemma_count_monotone(chars, char_index as int, chars.len() as int);
        assert(chars.take(chars.len() as int) =~= chars);
        lemma_rope_position(chars, char_index as int);
    }
    let start: usize = rope.line_to_char(line0);
    proof {
        crate::document::rope::lemma_line_begin(chars, char_index as int);
        let own = crate::document::rope::line_begin(chars, char_index as int);
        if own <= start {
            crate::document::rope::lemma_line_begin_unique(chars, own, start as int);
        } else {
            crate::document::rope::lemma_line_begin_unique(chars, start as int, own);
        }
    }
    TextPosition::new(line0, char_index - start)
}

/// The place of a byte of a rope that starts a character, or of its end.
pub(crate) fn rope_position_of_byte(rope: &ropey::Rope, byte: usize) -> (position: TextPosition)
    requires
        plain_breaks(rope_text(*rope)),
        byte <= rope_bytes(*rope).len(),
        exists|c: int|
            0 <= c <= rope_text(*rope).len() && #[trigger] char_offset(rope_text(*rope), c) == byte,
    ensures
        position == position_at(rope_bytes(*rope), byte as int),
{
    let ghost chars = rope_text(*rope);
    let ghost c = choose|c: int|
        0 <= c <= rope_text(*rope).len() && #[trigger] char_offset(rope_text(*rope), c) == byte;
    let index: usize = rope.byte_to_char(byte);
    proof {
        assert(char_offset(chars, index as int) <= byte);
        if c < index {
            lemma_char_offsets(chars, c, index as int);
        } else if c > index {
            assert(byte < char_offset(chars, index + 1));
            lemma_char_offsets(chars, index + 1, c);
        }
    }
    rope_position(rope, index)
}

/// The last start of a line at or in front of a byte, and which line it is.
pub fn line_offsets_anchor_for_byte(offsets: &LineOffsets, byte_offset: usize) -> (anchor: (
    usize,
    usize,
))
    requires
        forall|i: int, j: int| 0 <= i <= j < offsets@.len() ==> offsets@[i] <= offsets@[j],
    ensures
        offsets@.len() == 0 ==> anchor == (0usize, 0usize),
        offsets@.len() > 0 ==> {
            &&& anchor.0 < offsets@.len()
            &&& anchor.1 == offsets@[anchor.0 as int]
            &&& offsets@[0] <= byte_offset ==> anchor.1 <= byte_offset
            &&& offsets@[0] > byte_offset ==> anchor.0 == 0
            &&& forall|i: int| anchor.0 < i < offsets@.len() ==> offsets@[i] > byte_offset
        },
{
    let mut lo: usize = 0;
    let mut hi: usize = offsets.len();
    while lo < hi
        invariant
            lo <= hi <= offsets@.len(),
            forall|i: int, j: int| 0 <= i <= j < offsets@.len() ==> offsets@[i] <= offsets@[j],
            forall|i: int| 0 <= i < lo ==> offsets@[i] <= byte_offset,
            forall|i: int| hi <= i < offsets@.len() ==> offsets@[i] > byte_offset,
        decreases hi - lo,
    {
        let mid: usize = lo + (hi - lo) / 2;
        let start: usize = match offsets.get_usize(mid) {
            Some(start) => start,
            None => 0,
        };
        assert(start == offsets@[mid as int]);
        if start <= byte_offset {
            lo = mid + 1;
        } else {
            hi = mid;
        }
    }
    let index: usize = lo.saturating_sub(1);
    match offsets.get_usize(index) {
        Some(start) => (index, start),
        None => (index, 0),
    }
}

/// A known line at or in front of a line, and where it starts.
pub fn line_offsets_anchor_for_line(offsets: &LineOffsets, line0: usize) -> (anchor: (
    usize,
    usize,
))
    ensures
        offsets@.len() == 0 ==> anchor == (0usize, 0usize),
        offsets@.len() > 0 ==> {
            &&& anchor.0 == min_int(line0 as int, offsets@.len() - 1)
            &&& anchor.1 == offsets@[anchor.0 as int]
        },
{
    let last: usize = offsets.len().saturating_sub(1);
    let anchor_line0: usize = if line0 <= last {
        line0
    } else {
        last
    };
    match offsets.get_usize(anchor_line0) {
        Some(start) => (anchor_line0, start),
        None => (anchor_line0, 0),
    }
}

proof fn lemma_offsets_sorted(offsets: Seq<usize>, text: Seq<u8>)
    requires
        offsets_ok(offsets, text),
    ensures
        forall|i: int, j: int| 0 <= i <= j < offsets.len() ==> offsets[i] <= offsets[j],
        offsets.len() > 0 ==> offsets[0] == 0,
{
    assert forall|i: int, j: int| 0 <= i <= j < offsets.len() implies offsets[i] <= offsets[j] by {
        if offsets[j] < offsets[i] {
            lemma_line_ends_monotone(text, offsets[j] as int, offsets[i] as int);
            assert(i == j);
        }
    }
    if offsets.len() > 0 && offsets[0] > 0 {
        assert(ends_line(text, offsets[0] - 1));
        assert(line_ends(text, offsets[0] as int) == line_ends(text, offsets[0] - 1) + 1);
    }
}

/// The number of steps from line to line that lead to the end of a text.
pub open spec fn line_steps(text: Seq<u8>) -> nat {
    if text.len() > 0 && !ends_line(text, text.len() - 1) {
        last_line(text) + 1
    } else {
        last_line(text)
    }
}

/// One step from a line start leads to the next line start, or to the end.
pub proof fn lemma_step(text: Seq<u8>, at: int)
    requires
        0 <= at < text.len(),
    ensures
        ({
            let next = line_start_from(text, at, 1);
            &&& at < next <= text.len()
            &&& ends_line(text, next - 1) ==> line_ends(text, next) == line_ends(text, at) + 1
            &&& !ends_line(text, next - 1) ==> next == text.len() && line_ends(text, next)
                == line_ends(text, at)
        }),
    decreases text.len() - at,
{
    assert(line_ends(text, at + 1) == line_ends(text, at) + (if ends_line(text, at) {
        1nat
    } else {
        0
    }));
    if !ends_line(text, at) {
        if at + 1 < text.len() {
            lemma_step(text, at + 1);
        } else {
            reveal_with_fuel(line_start_from, 2);
        }
    } else {
        reveal_with_fuel(line_start_from, 2);
    }
}

/// Lines that do not exist start at the end.
proof fn lemma_line_start_past(text: Seq<u8>, i: int, k: nat)
    requires
        0 <= i <= text.len(),
        line_ends(text, i) + k > last_line(text),
    ensures
        line_start_from(text, i, k) == text.len(),
    decreases text.len() - i,
{
    if i < text.len() {
        if k == 0 {
            lemma_line_ends_monotone(text, i, text.len() as int);
        } else {
            assert(line_ends(text, i + 1) == line_ends(text, i) + (if ends_line(text, i) {
                1nat
            } else {
                0
            }));
            lemma_line_start_past(
                text,
                i + 1,
                if ends_line(text, i) {
                    (k - 1) as nat
                } else {
                    k
                },
            );
        }
    } else {
        lemma_line_ends_monotone(text, 0, i);
    }
}

impl Document {
    /// Walks from a known line to `target_line0`, or to the end of the file.
    fn walk_to_line(&self, target_line0: usize) -> (place: (usize, usize))
        requires
            offsets_ok(self.line_offsets@, self.file_text()),
        ensures
            place.1 <= self.file_text().len(),
            ({
                let text = self.file_text();
                &&& target_line0 <= line_steps(text) ==> place.0 == target_line0 && place.1
                    == line_start(text, target_line0 as nat)
                &&& target_line0 > line_steps(text) ==> place.0 == line_steps(text) && place.1
                    == text.len()
            }),
    {
        let bytes = self.file_bytes();
        let ghost text = self.file_text();
        let (mut line0, mut at) = line_offsets_anchor_for_line(&self.line_offsets, target_line0);
        proof {
            lemma_offsets_sorted(self.line_offsets@, text);
            assert(line_ends(text, 0) == 0);
            if self.line_offsets@.len() > 0 {
                assert(self.line_offsets@[line0 as int] <= text.len());
            }
            lemma_line_ends_monotone(text, at as int, text.len() as int);
        }
        while line0 < target_line0 && at < bytes.len()
            invariant
                bytes@ == text,
                text == self.file_text(),
                at <= text.len(),
                line0 <= target_line0,
                line0 <= line_steps(text),
                line_ends(text, at as int) == line0 && (at == 0 || ends_line(text, at - 1)) || (at
                    == text.len() && line0 == line_steps(text)),
            decreases text.len() - at,
        {
            let next: usize = next_line_start_exact(bytes, at);
            proof {
                lemma_step(text, at as int);
                lemma_line_ends_monotone(text, next as int, text.len() as int);
                lemma_line_ends_monotone(text, at as int, text.len() as int);
            }
            at = next;
            line0 = line0 + 1;
        }
        proof {
            if line0 == target_line0 {
                if line_ends(text, at as int) == line0 && at > 0 && ends_line(text, at - 1) {
                    crate::document::text::lemma_line_start_is(text, 0, at as int);
                } else if at > 0 {
                    assert(line_ends(text, 0) == 0);
                    if line0 > last_line(text) {
                        lemma_line_start_past(text, 0, line0 as nat);
                    } else {
                        lemma_line_start_at(text, 0, line0 as nat);
                        if text.len() > 0 {
                            crate::document::text::lemma_line_start_is(text, 0, text.len() as int);
                        }
                    }
                }
            } else {
                assert(at == text.len());
                if line_ends(text, at as int) == line0 && (at == 0 || ends_line(text, at - 1)) {
                    assert(line0 == last_line(text));
                }
            }
        }
        (line0, at)
    }

    /// Where line `target_line0` of the file starts. A line that starts at the end of the file
    /// behind an unfinished line counts too.
    pub fn mmap_line_start_offset_exact(&self, target_line0: usize) -> (start: Option<usize>)
        requires
            offsets_ok(self.line_offsets@, self.file_text()),
        ensures
            start == (if target_line0 <= line_steps(self.file_text()) {
                Some(line_start(self.file_text(), target_line0 as nat) as usize)
            } else {
                None
            }),
    {
        let (line0, at) = self.walk_to_line(target_line0);
        if line0 == target_line0 {
            Some(at)
        } else {
            None
        }
    }

    /// Where a position of the file lies: the position that it means, and its byte.
    pub(crate) fn mmap_place(&self, position: TextPosition) -> (place: (TextPosition, usize))
        requires
            offsets_ok(self.line_offsets@, self.file_text()),
        ensures
            place.0 == clamp_in(self.file_text(), position),
            place.1 == offset_in(self.file_text(), place.0),
            place.1 <= self.file_text().len(),
    {
        let bytes = self.file_bytes();
        let ghost text = self.file_text();
        let (reached, at) = self.walk_to_line(position.line0);
        let mut line0: usize = reached;
        let mut start: usize = at;
        proof {
            assert(line_ends(text, 0) == 0);
            lemma_line_ends_monotone(text, 0, text.len() as int);
            if position.line0 > last_line(text) {
                lemma_line_start_past(text, 0, position.line0 as nat);
            }
        }
        if start == bytes.len() && start > 0 && bytes[start - 1] != LF && bytes[start - 1] != CR
            && line0 > 0 {
            // The walk went over the end of an unfinished line.
            assert(!ends_line(text, text.len() - 1));
            proof {
                if position.line0 <= last_line(text) {
                    lemma_line_start_at(text, 0, position.line0 as nat);
                }
            }
            line0 = line0 - 1;
            let (_, own) = self.walk_to_line(line0);
            start = own;
        }
        proof {
            assert(line_ends(text, 0) == 0);
            if text.len() > 0 {
                assert(ends_line(text, text.len() - 1) == is_either(text[text.len() - 1], LF, CR));
            }
            if position.line0 <= last_line(text) {
                lemma_line_start_at(text, 0, position.line0 as nat);
                assert(line0 == position.line0);
                assert(start == line_start(text, line0 as nat));
            } else {
                lemma_line_start_at(text, 0, last_line(text));
                if text.len() > 0 && ends_line(text, text.len() - 1) {
                    crate::document::text::lemma_line_start_is(text, 0, text.len() as int);
                    assert(line0 == last_line(text));
                    assert(start == line_start(text, line0 as nat));
                }
                assert(line0 == last_line(text));
                assert(start == line_start(text, line0 as nat));
            }
        }
        let len: usize = text_cols_in_bytes(bytes, (start, bytes.len()));
        let col0: usize = if position.col0 <= len {
            position.col0
        } else {
            len
        };
        let offset: usize = byte_offset_for_text_col_in_bytes(bytes, (start, bytes.len()), col0);
        (TextPosition::new(line0, col0), offset)
    }

    /// The place of a byte of the file.
    pub fn mmap_position_for_byte_offset(&self, byte_offset: usize) -> (position: TextPosition)
        requires
            offsets_ok(self.line_offsets@, self.file_text()),
        ensures
            position == position_at(
                self.file_text(),
                min_int(byte_offset as int, self.file_text().len() as int),
            ),
    {
        let bytes = self.file_bytes();
        let ghost text = self.file_text();
        let target: usize = if byte_offset <= bytes.len() {
            byte_offset
        } else {
            bytes.len()
        };
        proof {
            lemma_offsets_sorted(self.line_offsets@, text);
            assert(line_ends(text, 0) == 0);
        }
        let (line0, start) = line_offsets_anchor_for_byte(&self.line_offsets, target);
        proof {
            if self.line_offsets@.len() > 0 {
                assert(self.line_offsets@[line0 as int] <= text.len());
            }
            lemma_position_from_line(text, start as int, target as int);
            lemma_scan_subrange(
                text,
                start as int,
                start as int,
                target as int,
                PositionScanState { line0, col0: 0, prev_was_cr: false },
            );
        }
        let mut state = PositionScanState::new(line0, 0);
        scan_position_bytes(vstd::slice::slice_subrange(bytes, start, target), &mut state);
        state.position()
    }

    /// The place of a byte of the file, counted from a known place in front of it.
    pub fn mmap_position_for_byte_offset_from(
        &self,
        anchor_offset: usize,
        anchor_position: TextPosition,
        byte_offset: usize,
    ) -> (position: TextPosition)
        ensures
            ({
                let text = self.file_text();
                let anchor = min_int(anchor_offset as int, text.len() as int);
                let target = min_int(byte_offset as int, text.len() as int);
                position == (if target <= anchor {
                    anchor_position
                } else {
                    advanced(anchor_position, text.subrange(anchor, target))
                })
            }),
    {
        let bytes = self.file_bytes();
        let anchor: usize = if anchor_offset <= bytes.len() {
            anchor_offset
        } else {
            bytes.len()
        };
        let target: usize = if byte_offset <= bytes.len() {
            byte_offset
        } else {
            bytes.len()
        };
        if target <= anchor {
            return anchor_position;
        }
        advance_position_by_bytes(
            anchor_position,
            vstd::slice::slice_subrange(bytes, anchor, target),
        )
    }

    /// Where `text_units` text units of the file from `start` on end.
    pub fn mmap_advance_offset_by_text_units(&self, start: usize, text_units: usize) -> (offset:
        usize)
        ensures
            offset == units_end(
                self.file_text(),
                min_int(start as int, self.file_text().len() as int),
                self.file_text().len() as int,
                text_units as nat,
            ),
            offset <= self.file_text().len(),
    {
        let bytes = self.file_bytes();
        let from: usize = if start <= bytes.len() {
            start
        } else {
            bytes.len()
        };
        advance_by_text_units(bytes, from, text_units)
    }

    /// The byte of a position of the file.
    pub fn mmap_byte_offset_for_position(&self, position: TextPosition) -> (offset: usize)
        requires
            offsets_ok(self.line_offsets@, self.file_text()),
        ensures
            offset == offset_in(self.file_text(), clamp_in(self.file_text(), position)),
            offset <= self.file_text().len(),
    {
        self.mmap_place(position).1
    }
}

} // verus!
