//! Where a position lies in a text of which only the first lines are indexed.

use crate::document::piece_table::{table_line_len, PieceTable, PARTIAL_PIECE_TABLE_SCAN_BYTES};
use crate::document::positions::{
    clamp_in, last_line, lemma_cols_bound, lemma_line_start_at, offset_in,
};
use crate::document::stream_search::{scan_skip, scanned_piece_table_byte_offset_for_position};
use crate::document::text::{
    char_width, col_offset, is_continuation, lead_width, lemma_line_start_is,
    lemma_position_from_line, lemma_scan_cols, lemma_scan_subrange, line_cols, line_start, line_start_from, position_at, second_fits,
    text_cols_in_bytes, PositionScanState,
};
use crate::document::types::TextPosition;
use crate::scan::{ends_line, is_either, lemma_line_ends_monotone, line_ends, CR, LF};
use crate::tree_model::min_int;
use vstd::prelude::*;

verus! {

/// The bytes that are looked up behind the indexed part of a text.
pub open spec fn looked_up(text: Seq<u8>, known_bytes: usize) -> Seq<u8> {
    text.subrange(
        known_bytes as int,
        min_int(known_bytes + PARTIAL_PIECE_TABLE_SCAN_BYTES, text.len() as int),
    )
}

/// Where line `line0` starts in the bytes that are looked up, if it starts in them.
pub open spec fn looked_up_line(
    text: Seq<u8>,
    known_lines: usize,
    known_bytes: usize,
    line0: usize,
) -> Option<int> {
    let bytes = looked_up(text, known_bytes);
    match scan_skip(
        bytes,
        0,
        (line0 - known_lines) as nat,
        known_bytes + bytes.len() == text.len(),
    ) {
        Some(from) => if from < bytes.len() {
            Some(from)
        } else {
            None
        },
        None => None,
    }
}

/// How many columns of line `line0` are in the bytes that are looked up.
pub open spec fn looked_up_cols(
    text: Seq<u8>,
    known_lines: usize,
    known_bytes: usize,
    line0: usize,
) -> nat {
    let bytes = looked_up(text, known_bytes);
    match looked_up_line(text, known_lines, known_bytes, line0) {
        Some(from) => line_cols(bytes, from, line_start_from(bytes, from, 1)),
        None => 0,
    }
}

impl PieceTable {
    /// How many columns a line has, as far as it is indexed or can be looked up.
    pub open spec fn spec_line_cols(self, line0: usize) -> nat {
        if self.full_index || line0 < self.known_line_count {
            table_line_len(self.text(), self.known_line_count, line0)
        } else {
            looked_up_cols(self.text(), self.known_line_count, self.known_byte_len, line0)
        }
    }

    /// The place that `position` means. A line that can neither be found in the index nor be
    /// looked up is left as it is, at its first column.
    pub open spec fn spec_clamp(self, position: TextPosition) -> TextPosition {
        if self.full_index || position.line0 < self.known_line_count {
            clamp_in(self.text(), position)
        } else {
            TextPosition {
                line0: position.line0,
                col0: min_int(
                    position.col0 as int,
                    self.spec_line_cols(position.line0) as int,
                ) as usize,
            }
        }
    }
}

pub proof fn lemma_range_bounds(bytes: Seq<u8>, i: int, end: int, col: nat)
    requires
        0 <= i <= end <= bytes.len(),
    ensures
        i <= col_offset(bytes, i, end, col) <= end,
        line_cols(bytes, i, end) <= end - i,
        forall|k: int|
            i <= k < col_offset(bytes, i, end, col) ==> !is_either(#[trigger] bytes[k], LF, CR),
    decreases end - i,
{
    if i < end && !is_either(bytes[i], LF, CR) {
        let next = i + char_width(bytes, i, end);
        assert forall|k: int| i < k < next implies !is_either(#[trigger] bytes[k], LF, CR) by {
            if k == i + 1 {
                assert(second_fits(bytes[i], bytes[i + 1]));
            } else if k == i + 2 {
                assert(is_continuation(bytes[i + 2]));
            } else {
                assert(is_continuation(bytes[i + 3]));
            }
        }
        if col > 0 {
            lemma_range_bounds(bytes, next, end, (col - 1) as nat);
        } else {
            lemma_range_bounds(bytes, next, end, 0);
        }
    }
}

/// The columns in front of column `col`.
proof fn lemma_cols_to(bytes: Seq<u8>, i: int, end: int, col: nat)
    requires
        0 <= i <= end <= bytes.len(),
    ensures
        line_cols(bytes, i, col_offset(bytes, i, end, col)) == min_int(
            col as int,
            line_cols(bytes, i, end) as int,
        ),
    decreases end - i,
{
    lemma_range_bounds(bytes, i, end, col);
    if col > 0 && i < end && !is_either(bytes[i], LF, CR) {
        let step = char_width(bytes, i, end);
        let at = col_offset(bytes, i, end, col);
        lemma_range_bounds(bytes, i + step, end, (col - 1) as nat);
        lemma_cols_to(bytes, i + step, end, (col - 1) as nat);
        assert(char_width(bytes, i, at) == step);
    }
}

/// Columns depend on the bytes of the range alone.
proof fn lemma_cols_part(bytes: Seq<u8>, a: int, i: int, end: int)
    requires
        0 <= a <= i <= end <= bytes.len(),
    ensures
        line_cols(bytes, i, end) == line_cols(bytes.subrange(a, end), i - a, end - a),
    decreases end - i,
{
    let part = bytes.subrange(a, end);
    if i < end {
        assert(part[i - a] == bytes[i]);
        let width = lead_width(bytes[i]);
        assert(char_width(part, i - a, end - a) == char_width(bytes, i, end)) by {
            if i + width <= end {
                if width > 1 {
                    assert(part[i + 1 - a] == bytes[i + 1]);
                }
                if width > 2 {
                    assert(part[i + 2 - a] == bytes[i + 2]);
                }
                if width > 3 {
                    assert(part[i + 3 - a] == bytes[i + 3]);
                }
            }
        }
        lemma_cols_part(bytes, a, i + char_width(bytes, i, end), end);
    }
}

/// A step from line to line in the bytes that are looked up is one in the text, as long as
/// more bytes follow.
proof fn lemma_step_in_part(text: Seq<u8>, a: int, end: int, from: int)
    requires
        0 <= a <= end <= text.len(),
        0 <= from < end - a,
        line_start_from(text.subrange(a, end), from, 1) < end - a,
    ensures
        ({
            let next = line_start_from(text.subrange(a, end), from, 1);
            &&& from < next
            &&& ends_line(text, a + next - 1)
            &&& line_ends(text, a + next) == line_ends(text, a + from) + 1
        }),
    decreases end - from,
{
    let part = text.subrange(a, end);
    assert(part[from] == text[a + from]);
    assert(line_ends(text, a + from + 1) == line_ends(text, a + from) + (if ends_line(
        text,
        a + from,
    ) {
        1nat
    } else {
        0
    }));
    if from + 1 < part.len() {
        assert(part[from + 1] == text[a + from + 1]);
        assert(ends_line(part, from) == ends_line(text, a + from));
        if ends_line(part, from) {
            reveal_with_fuel(line_start_from, 2);
        } else {
            lemma_step_in_part(text, a, end, from + 1);
        }
    } else {
        reveal_with_fuel(line_start_from, 2);
    }
}

/// Lines that are found by looking up are lines of the text.
proof fn lemma_looked_up_lines(text: Seq<u8>, a: int, end: int, from: int, skip: nat)
    requires
        0 <= a <= end <= text.len(),
        0 <= from <= end - a,
        a + from == 0 || ends_line(text, a + from - 1) || from == end - a,
        ({
            let found = scan_skip(text.subrange(a, end), from, skip, end == text.len());
            found is Some && found->Some_0 < end - a
        }),
    ensures
        ({
            let found = scan_skip(text.subrange(a, end), from, skip, end == text.len())->Some_0;
            &&& from <= found
            &&& line_ends(text, a + found) == line_ends(text, a + from) + skip
            &&& a + found == 0 || ends_line(text, a + found - 1)
        }),
    decreases skip,
{
    let part = text.subrange(a, end);
    if skip > 0 {
        let next = line_start_from(part, from, 1);
        if next < end - a {
            lemma_step_in_part(text, a, end, from);
            lemma_looked_up_lines(text, a, end, next, (skip - 1) as nat);
        } else {
            crate::document::text::lemma_line_start_step(part, from, 1);
            assert(next == end - a);
            reveal_with_fuel(scan_skip, 2);
            assert(scan_skip(part, next, (skip - 1) as nat, end == text.len()) == (if skip == 1 {
                Some(next)
            } else {
                None
            }));
        }
    }
}

/// A line that is found by looking up is a line of the text.
pub proof fn lemma_looked_up_line(table: PieceTable, position: TextPosition)
    requires
        table.wf(),
        !table.full_index,
        position.line0 >= table.known_line_count,
        table.spec_scanned_offset(position) is Some,
    ensures
        ({
            let at = table.spec_scanned_offset(position)->Some_0;
            let start = table.known_byte_len + looked_up_line(
                table.text(),
                table.known_line_count,
                table.known_byte_len,
                position.line0,
            )->Some_0;
            let clamped = table.spec_clamp(position);
            &&& looked_up_line(
                table.text(),
                table.known_line_count,
                table.known_byte_len,
                position.line0,
            ) is Some
            &&& table.spec_scanned_offset(TextPosition { line0: position.line0, col0: 0 }) == Some(
                start,
            )
            &&& start <= at <= table.total_len
            &&& line_cols(table.text().subrange(start, at), 0, at - start) == clamped.col0
            &&& position_at(table.text(), at) == clamped
        }),
{
    table.lemma_len();
    let text = table.text();
    let a = table.known_byte_len as int;
    let end = min_int(a + PARTIAL_PIECE_TABLE_SCAN_BYTES, text.len() as int);
    let part = text.subrange(a, end);
    let skip = (position.line0 - table.known_line_count) as nat;
    let from = scan_skip(part, 0, skip, end == text.len())->Some_0;
    assert(looked_up(text, table.known_byte_len) == part);
    lemma_looked_up_lines(text, a, end, 0, skip);
    crate::document::text::lemma_line_start_step(part, from, 1);
    let stop = line_start_from(part, from, 1);
    let off = col_offset(part, from, stop, position.col0 as nat);
    let at = a + off;
    let start = a + from;
    lemma_range_bounds(part, from, stop, position.col0 as nat);
    lemma_range_bounds(part, from, stop, 0);
    lemma_cols_to(part, from, stop, position.col0 as nat);
    lemma_cols_part(part, from, from, off);
    let own = text.subrange(start, at);
    assert(own =~= part.subrange(from, off));
    let state = PositionScanState { line0: position.line0, col0: 0, prev_was_cr: false };
    lemma_position_from_line(text, start, at);
    lemma_scan_subrange(text, start, start, at, state);
    assert forall|k: int| 0 <= k < own.len() implies !is_either(#[trigger] own[k], LF, CR) by {
        assert(own[k] == part[from + k]);
    }
    lemma_scan_cols(own, 0, own.len() as int, state);
    lemma_range_bounds(own, 0, own.len() as int, 0);
}

/// A line that ends inside the bytes that are looked up ends where it ends in the text.
proof fn lemma_line_in_part(text: Seq<u8>, a: int, end: int, i: int)
    requires
        0 <= a <= a + i < end <= text.len(),
        line_start_from(text, a + i, 1) < end,
    ensures
        line_start_from(text.subrange(a, end), i, 1) == line_start_from(text, a + i, 1) - a,
    decreases end - a - i,
{
    let part = text.subrange(a, end);
    crate::document::text::lemma_line_start_step(text, a + i, 1);
    reveal_with_fuel(line_start_from, 2);
    assert(part[i] == text[a + i]);
    crate::document::estimate::lemma_line_start_beyond(text, a + i, 1);
    assert(a + i + 1 < end);
    assert(part[i + 1] == text[a + i + 1]);
    assert(ends_line(part, i) == ends_line(text, a + i));
    if !ends_line(text, a + i) {
        lemma_line_in_part(text, a, end, i + 1);
    }
}

/// A line that starts inside the bytes that are looked up is found in them.
proof fn lemma_skip_finds(text: Seq<u8>, a: int, end: int, from: int, start: int)
    requires
        0 <= a <= a + from <= start < end <= text.len(),
        a + from == start || ends_line(text, start - 1),
    ensures
        scan_skip(
            text.subrange(a, end),
            from,
            (line_ends(text, start) - line_ends(text, a + from)) as nat,
            end == text.len(),
        ) == Some(start - a),
    decreases start - from,
{
    let part = text.subrange(a, end);
    if a + from < start {
        lemma_line_start_is(text, a + from, start);
        let skip = (line_ends(text, start) - line_ends(text, a + from)) as nat;
        let next = line_start_from(text, a + from, 1);
        crate::document::text::lemma_line_start_step(text, a + from, skip);
        crate::document::estimate::lemma_line_start_beyond(text, a + from, 1);
        crate::document::estimate::lemma_line_start_beyond(text, next, (skip - 1) as nat);
        crate::document::navigate::lemma_step(text, a + from);
        lemma_line_in_part(text, a, end, from);
        lemma_skip_finds(text, a, end, next - a, start);
    }
}

/// Behind the indexed part of a text, a position is found in every line that starts in the
/// next part of it, and it is the place of the byte that is found.
pub proof fn law_looked_up_position(table: PieceTable, position: TextPosition, start: int)
    requires
        table.wf(),
        !table.full_index,
        position.line0 >= table.known_line_count,
        table.known_byte_len <= start < table.text().len(),
        start < table.known_byte_len + 8_388_608,
        start == 0 || ends_line(table.text(), start - 1),
        line_ends(table.text(), start) == position.line0,
    ensures
        ({
            let at = table.spec_scanned_offset(position)->Some_0;
            &&& table.spec_scanned_offset(position) is Some
            &&& start <= at <= table.text().len()
            &&& position_at(table.text(), at) == table.spec_clamp(position)
            &&& table.spec_clamp(position).line0 == position.line0
            &&& table.spec_clamp(position).col0 <= position.col0
        }),
{
    table.lemma_len();
    let text = table.text();
    let a = table.known_byte_len as int;
    let end = min_int(a + PARTIAL_PIECE_TABLE_SCAN_BYTES, text.len() as int);
    lemma_skip_finds(text, a, end, 0, start);
    lemma_looked_up_line(table, position);
}

/// What follows the end of a line adds no columns to it.
proof fn lemma_cols_to_end(text: Seq<u8>, i: int, stop: int)
    requires
        0 <= i <= stop <= text.len(),
        stop > 0,
        is_either(text[stop - 1], LF, CR),
        i < stop,
    ensures
        line_cols(text, i, stop) == line_cols(text, i, text.len() as int),
    decreases stop - i,
{
    if !is_either(text[i], LF, CR) {
        crate::document::text::lemma_width_stops(text, i, stop, text.len() as int);
        let next = i + char_width(text, i, stop);
        if next < stop {
            lemma_cols_to_end(text, next, stop);
        } else {
            assert(i == stop - 1 || is_continuation(text[stop - 1]));
        }
    }
}

/// Behind the indexed part of a text, a line that starts and ends in the next part of it is as
/// long as it is in the text.
pub proof fn law_looked_up_line_len(table: PieceTable, line0: usize, start: int, next: int)
    requires
        table.wf(),
        !table.full_index,
        line0 >= table.known_line_count,
        table.known_byte_len <= start < next < table.text().len(),
        next < table.known_byte_len + 8_388_608,
        start == 0 || ends_line(table.text(), start - 1),
        ends_line(table.text(), next - 1),
        line_ends(table.text(), start) == line0,
        line_ends(table.text(), next) == line0 + 1,
    ensures
        table.spec_line_cols(line0) == line_cols(
            table.text(),
            start,
            table.text().len() as int,
        ),
{
    table.lemma_len();
    let text = table.text();
    let a = table.known_byte_len as int;
    let end = min_int(a + PARTIAL_PIECE_TABLE_SCAN_BYTES, text.len() as int);
    let part = text.subrange(a, end);
    let from = start - a;
    lemma_skip_finds(text, a, end, 0, start);
    lemma_line_start_is(text, start, next);
    lemma_line_in_part(text, a, end, from);
    let stop = next - a;
    lemma_cols_part(part, 0, from, stop);
    lemma_cols_part(text, a, start, next);
    assert(part.subrange(0, stop) =~= text.subrange(a, next));
    lemma_cols_to_end(text, start, next);
}

/// In an indexed line, the offset is that of the position in the text.
pub proof fn lemma_indexed_offset(table: PieceTable, position: TextPosition)
    requires
        table.wf(),
        table.full_index || position.line0 < table.known_line_count,
    ensures
        clamp_in(table.text(), position).line0 < table.known_line_count,
        table.spec_scanned_offset(clamp_in(table.text(), position)) == Some(
            offset_in(table.text(), clamp_in(table.text(), position)),
        ),
        table.spec_clamp(clamp_in(table.text(), position)) == clamp_in(table.text(), position),
{
    table.lemma_len();
    let text = table.text();
    lemma_line_ends_monotone(text, 0, text.len() as int);
    lemma_line_ends_monotone(text, table.known_byte_len as int, text.len() as int);
    let line0 = min_int(position.line0 as int, last_line(text) as int);
    lemma_line_start_at(text, 0, line0 as nat);
    lemma_cols_bound(text, line_start(text, line0 as nat));
    crate::document::positions::law_clamp_idempotent(text, position);
}

impl PieceTable {
    /// How many columns a line has, as far as it is indexed or can be looked up.
    pub fn visible_line_cols(&self, line0: usize) -> (cols: usize)
        requires
            self.wf(),
        ensures
            cols == self.spec_line_cols(line0),
    {
        proof {
            self.lemma_len();
        }
        if self.full_index || line0 < self.known_line_count {
            return self.line_len_chars(line0);
        }
        let (position, _) = self.place(TextPosition::new(line0, usize::MAX));
        proof {
            let bytes = looked_up(self.text(), self.known_byte_len);
            match looked_up_line(self.text(), self.known_line_count, self.known_byte_len, line0) {
                Some(from) => {
                    lemma_skip_bounds(
                        bytes,
                        0,
                        (line0 - self.known_line_count) as nat,
                        self.known_byte_len + bytes.len() == self.text().len(),
                    );
                    crate::document::text::lemma_line_start_step(bytes, from, 1);
                    lemma_range_bounds(bytes, from, line_start_from(bytes, from, 1), 0);
                },
                None => {},
            }
        }
        position.col0
    }

    /// The place that `position` means, and its byte, where that can be told.
    pub fn place(&self, position: TextPosition) -> (place: (TextPosition, Option<usize>))
        requires
            self.wf(),
        ensures
            place.0 == self.spec_clamp(position),
            match self.spec_scanned_offset(place.0) {
                Some(at) => place.1 is Some && place.1->Some_0 == at && at <= self.total_len,
                None => place.1 is None,
            },
            place.1 is Some ==> position_at(self.text(), place.1->Some_0 as int) == place.0,
    {
        proof {
            self.lemma_len();
        }
        if self.full_index || position.line0 < self.known_line_count {
            let line0: usize = if position.line0 < self.known_line_count {
                position.line0
            } else {
                self.known_line_count - 1
            };
            let len: usize = self.line_len_chars(line0);
            let col0: usize = if position.col0 <= len {
                position.col0
            } else {
                len
            };
            let offset: usize = self.byte_offset_for_col(line0, col0);
            let clamped = TextPosition::new(line0, col0);
            proof {
                let text = self.text();
                lemma_line_ends_monotone(text, self.known_byte_len as int, text.len() as int);
                assert(clamped == clamp_in(text, position));
                lemma_indexed_offset(*self, position);
                crate::document::positions::law_clamp_idempotent(text, position);
                crate::document::positions::law_position_round_trip(text, clamped);
            }
            return (clamped, Some(offset));
        }
        let start = scanned_piece_table_byte_offset_for_position(
            self,
            TextPosition::new(position.line0, 0),
        );
        match start {
            None => {
                proof {
                    let bytes = looked_up(self.text(), self.known_byte_len);
                    assert(looked_up_line(
                        self.text(),
                        self.known_line_count,
                        self.known_byte_len,
                        position.line0,
                    ) is None);
                }
                (TextPosition::new(position.line0, 0), None)
            },
            Some(start) => {
                let found = scanned_piece_table_byte_offset_for_position(self, position);
                assert(found is Some);
                proof {
                    lemma_looked_up_line(*self, position);
                }
                match found {
                    None => (TextPosition::new(position.line0, 0), None),
                    Some(at) => {
                        let bytes = self.read_range(start, at);
                        let col0: usize = text_cols_in_bytes(bytes.as_slice(), (0, bytes.len()));
                        let clamped = TextPosition::new(position.line0, col0);
                        assert(clamped == self.spec_clamp(position));
                        proof {
                            lemma_clamped_offset(*self, position);
                        }
                        (clamped, Some(at))
                    },
                }
            },
        }
    }
}

proof fn lemma_skip_bounds(bytes: Seq<u8>, from: int, skip: nat, eof: bool)
    requires
        0 <= from <= bytes.len(),
        scan_skip(bytes, from, skip, eof) is Some,
    ensures
        from <= scan_skip(bytes, from, skip, eof)->Some_0 <= bytes.len(),
    decreases skip,
{
    if skip > 0 {
        crate::document::text::lemma_line_start_step(bytes, from, 1);
        lemma_skip_bounds(bytes, line_start_from(bytes, from, 1), (skip - 1) as nat, eof);
    }
}

proof fn lemma_col_offset_capped(bytes: Seq<u8>, i: int, end: int, col: nat)
    requires
        0 <= i <= end <= bytes.len(),
    ensures
        col_offset(
            bytes,
            i,
            end,
            min_int(col as int, line_cols(bytes, i, end) as int) as nat,
        ) == col_offset(bytes, i, end, col),
    decreases end - i,
{
    if col > 0 && i < end && !is_either(bytes[i], LF, CR) {
        lemma_col_offset_capped(bytes, i + char_width(bytes, i, end), end, (col - 1) as nat);
    }
}

/// The clamped position lies where the position lies.
proof fn lemma_clamped_offset(table: PieceTable, position: TextPosition)
    requires
        table.wf(),
        !table.full_index,
        position.line0 >= table.known_line_count,
        table.spec_scanned_offset(position) is Some,
    ensures
        table.spec_scanned_offset(table.spec_clamp(position)) == table.spec_scanned_offset(
            position,
        ),
{
    let text = table.text();
    table.lemma_len();
    let part = looked_up(text, table.known_byte_len);
    let skip = (position.line0 - table.known_line_count) as nat;
    let eof = table.known_byte_len + part.len() == text.len();
    let from = scan_skip(part, 0, skip, eof)->Some_0;
    lemma_skip_bounds(part, 0, skip, eof);
    crate::document::text::lemma_line_start_step(part, from, 1);
    let stop = line_start_from(part, from, 1);
    lemma_col_offset_capped(part, from, stop, position.col0 as nat);
    lemma_range_bounds(part, from, stop, 0);
}

} // verus!
