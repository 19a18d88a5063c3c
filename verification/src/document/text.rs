//! Lines, columns and text units of stored bytes.
//!
//! A column is a Unicode scalar value, or one byte where the bytes are not UTF-8. A line
//! ends with a line feed, a carriage return, or both in this order.

use crate::document::types::TextPosition;
use crate::scan::{ends_line, is_either, line_ends, CR, LF};
use crate::tree_model::sat_add;
use vstd::prelude::*;
use vstd::string::*;

verus! {

/// How many bytes a sequence that starts with `byte` takes.
pub open spec fn lead_width(byte: u8) -> int {
    if 0xc2 <= byte <= 0xdf {
        2
    } else if 0xe0 <= byte <= 0xef {
        3
    } else if 0xf0 <= byte <= 0xf4 {
        4
    } else {
        1
    }
}

pub open spec fn is_continuation(byte: u8) -> bool {
    0x80 <= byte <= 0xbf
}

/// The second byte rules out overlong forms, surrogates and values that are too large.
pub open spec fn second_fits(lead: u8, second: u8) -> bool {
    &&& is_continuation(second)
    &&& lead == 0xe0 ==> second >= 0xa0
    &&& lead == 0xed ==> second <= 0x9f
    &&& lead == 0xf0 ==> second >= 0x90
    &&& lead == 0xf4 ==> second <= 0x8f
}

/// The bytes of the scalar value at `i`, which has to end by `end`; one where there is none.
pub open spec fn char_width(bytes: Seq<u8>, i: int, end: int) -> int {
    let width = lead_width(bytes[i]);
    if width > 1 && i + width <= end && second_fits(bytes[i], bytes[i + 1]) && (width < 3
        || is_continuation(bytes[i + 2])) && (width < 4 || is_continuation(bytes[i + 3])) {
        width
    } else {
        1
    }
}

/// The length of the scalar value at `i` in bytes.
pub fn utf8_step(bytes: &[u8], i: usize, end: usize) -> (step: usize)
    requires
        i < end <= bytes@.len(),
    ensures
        step == char_width(bytes@, i as int, end as int),
        1 <= step <= end - i,
{
    let lead: u8 = bytes[i];
    let width: usize = if 0xc2 <= lead && lead <= 0xdf {
        2
    } else if 0xe0 <= lead && lead <= 0xef {
        3
    } else if 0xf0 <= lead && lead <= 0xf4 {
        4
    } else {
        1
    };
    if width == 1 || end - i < width {
        return 1;
    }
    let second: u8 = bytes[i + 1];
    if second < 0x80 || second > 0xbf || (lead == 0xe0 && second < 0xa0) || (lead == 0xed && second
        > 0x9f) || (lead == 0xf0 && second < 0x90) || (lead == 0xf4 && second > 0x8f) {
        return 1;
    }
    if width >= 3 && (bytes[i + 2] < 0x80 || bytes[i + 2] > 0xbf) {
        return 1;
    }
    if width >= 4 && (bytes[i + 3] < 0x80 || bytes[i + 3] > 0xbf) {
        return 1;
    }
    width
}

/// A place that moves over bytes. Behind a carriage return, a line feed belongs to the same
/// line end.
#[derive(Clone, Copy, Debug, PartialEq, Eq, Structural)]
pub struct PositionScanState {
    pub line0: usize,
    pub col0: usize,
    pub prev_was_cr: bool,
}

impl PositionScanState {
    pub fn new(line0: usize, col0: usize) -> (state: PositionScanState)
        ensures
            state == (PositionScanState { line0, col0, prev_was_cr: false }),
    {
        PositionScanState { line0, col0, prev_was_cr: false }
    }

    pub open spec fn spec_position(self) -> TextPosition {
        TextPosition { line0: self.line0, col0: self.col0 }
    }

    pub fn position(self) -> (position: TextPosition)
        ensures
            position == self.spec_position(),
    {
        TextPosition { line0: self.line0, col0: self.col0 }
    }
}

/// One step of a scan from byte `i`.
pub open spec fn step_state(bytes: Seq<u8>, i: int, state: PositionScanState) -> PositionScanState {
    if bytes[i] == LF {
        PositionScanState {
            line0: if state.prev_was_cr {
                state.line0
            } else {
                sat_add(state.line0 as int, 1)
            },
            col0: 0,
            prev_was_cr: false,
        }
    } else if bytes[i] == CR {
        PositionScanState { line0: sat_add(state.line0 as int, 1), col0: 0, prev_was_cr: true }
    } else {
        PositionScanState {
            line0: state.line0,
            col0: sat_add(state.col0 as int, 1),
            prev_was_cr: false,
        }
    }
}

/// The place after the bytes `i..end`.
pub open spec fn scan_to(bytes: Seq<u8>, i: int, end: int, state: PositionScanState) -> PositionScanState
    decreases end - i,
{
    if i >= end {
        state
    } else {
        scan_to(bytes, i + char_width(bytes, i, end), end, step_state(bytes, i, state))
    }
}

/// The place after all of `bytes`, from `start` on.
pub open spec fn advanced(start: TextPosition, bytes: Seq<u8>) -> TextPosition {
    scan_to(
        bytes,
        0,
        bytes.len() as int,
        PositionScanState { line0: start.line0, col0: start.col0, prev_was_cr: false },
    ).spec_position()
}

/// The place of byte `offset`.
pub open spec fn position_at(bytes: Seq<u8>, offset: int) -> TextPosition {
    scan_to(
        bytes,
        0,
        offset,
        PositionScanState { line0: 0, col0: 0, prev_was_cr: false },
    ).spec_position()
}

/// Moves `state` over `bytes`.
pub fn scan_position_bytes(bytes: &[u8], state: &mut PositionScanState)
    ensures
        *final(state) == scan_to(bytes@, 0, bytes@.len() as int, *old(state)),
{
    let mut i: usize = 0;
    while i < bytes.len()
        invariant
            i <= bytes@.len(),
            scan_to(bytes@, i as int, bytes@.len() as int, *state) == scan_to(
                bytes@,
                0,
                bytes@.len() as int,
                *old(state),
            ),
        decreases bytes@.len() - i,
    {
        let step: usize = utf8_step(bytes, i, bytes.len());
        let byte: u8 = bytes[i];
        if byte == LF {
            if !state.prev_was_cr {
                state.line0 = state.line0.saturating_add(1);
            }
            state.col0 = 0;
            state.prev_was_cr = false;
        } else if byte == CR {
            state.line0 = state.line0.saturating_add(1);
            state.col0 = 0;
            state.prev_was_cr = true;
        } else {
            state.prev_was_cr = false;
            state.col0 = state.col0.saturating_add(1);
        }
        i = i + step;
    }
}

/// The place after `bytes`, from `start` on.
pub fn advance_position_by_bytes(start: TextPosition, bytes: &[u8]) -> (end: TextPosition)
    ensures
        end == advanced(start, bytes@),
{
    let mut state = PositionScanState::new(start.line0, start.col0);
    scan_position_bytes(bytes, &mut state);
    state.position()
}

/// Where the text unit that starts at `i` ends. A carriage return with its line feed is one.
pub open spec fn unit_end(bytes: Seq<u8>, i: int, end: int) -> int {
    if bytes[i] == CR && i + 1 < end && bytes[i + 1] == LF {
        i + 2
    } else {
        i + char_width(bytes, i, end)
    }
}

/// How many text units the bytes `i..end` hold.
pub open spec fn text_units(bytes: Seq<u8>, i: int, end: int) -> nat
    decreases end - i,
{
    if i >= end {
        0
    } else {
        1 + text_units(bytes, unit_end(bytes, i, end), end)
    }
}

/// Where `n` text units from `i` on end.
pub open spec fn units_end(bytes: Seq<u8>, i: int, end: int, n: nat) -> int
    decreases n,
{
    if n == 0 || i >= end {
        i
    } else {
        units_end(bytes, unit_end(bytes, i, end), end, (n - 1) as nat)
    }
}

/// How many text units bytes take.
pub fn text_units_in_bytes(bytes: &[u8]) -> (units: usize)
    ensures
        units == text_units(bytes@, 0, bytes@.len() as int),
{
    let end: usize = bytes.len();
    let mut units: usize = 0;
    let mut i: usize = 0;
    while i < end
        invariant
            i <= end == bytes@.len(),
            units <= i,
            units + text_units(bytes@, i as int, end as int) == text_units(
                bytes@,
                0,
                end as int,
            ),
        decreases end - i,
    {
        units = units + 1;
        if bytes[i] == CR && i + 1 < end && bytes[i + 1] == LF {
            i = i + 2;
        } else {
            i = i + utf8_step(bytes, i, end);
        }
    }
    units
}

/// How many text units a text takes.
pub fn search_text_units(text: &str) -> (units: usize)
    ensures
        units == text_units(text.spec_bytes(), 0, text.spec_bytes().len() as int),
{
    text_units_in_bytes(text.as_bytes())
}

/// Where `text_units` text units from `start` on end.
pub fn advance_by_text_units(bytes: &[u8], start: usize, text_units: usize) -> (offset: usize)
    requires
        start <= bytes@.len(),
    ensures
        offset == units_end(bytes@, start as int, bytes@.len() as int, text_units as nat),
        start <= offset <= bytes@.len(),
{
    let end: usize = bytes.len();
    let mut remaining: usize = text_units;
    let mut i: usize = start;
    while i < end && remaining > 0
        invariant
            start <= i <= end == bytes@.len(),
            units_end(bytes@, i as int, end as int, remaining as nat) == units_end(
                bytes@,
                start as int,
                end as int,
                text_units as nat,
            ),
        decreases end - i,
    {
        remaining = remaining - 1;
        if bytes[i] == CR && i + 1 < end && bytes[i + 1] == LF {
            i = i + 2;
        } else {
            i = i + utf8_step(bytes, i, end);
        }
    }
    i
}

/// Where the line starts that begins `k` line ends behind `i`; the end of the bytes where
/// there are fewer line ends.
pub open spec fn line_start_from(bytes: Seq<u8>, i: int, k: nat) -> int
    decreases bytes.len() - i,
{
    if k == 0 || i >= bytes.len() {
        i
    } else {
        line_start_from(
            bytes,
            i + 1,
            if ends_line(bytes, i) {
                (k - 1) as nat
            } else {
                k
            },
        )
    }
}

/// Where line `k` starts.
pub open spec fn line_start(bytes: Seq<u8>, k: nat) -> int {
    line_start_from(bytes, 0, k)
}

proof fn lemma_line_start_skip(bytes: Seq<u8>, a: int, b: int)
    requires
        0 <= a <= b <= bytes.len(),
        forall|i: int| a <= i < b ==> !is_either(#[trigger] bytes[i], LF, CR),
    ensures
        line_start_from(bytes, a, 1) == line_start_from(bytes, b, 1),
    decreases b - a,
{
    if a < b {
        assert(!is_either(bytes[a], LF, CR));
        lemma_line_start_skip(bytes, a + 1, b);
    }
}

/// Where the line behind the one at `line_start` starts, or the end of the bytes.
pub fn next_line_start_exact(bytes: &[u8], line_start: usize) -> (next: usize)
    requires
        line_start <= bytes@.len(),
    ensures
        next == line_start_from(bytes@, line_start as int, 1),
        line_start <= next <= bytes@.len(),
        line_start < bytes@.len() ==> line_start < next,
{
    let end: usize = bytes.len();
    if line_start >= end {
        return end;
    }
    let slice = vstd::slice::slice_subrange(bytes, line_start, end);
    match memchr::memchr2(LF, CR, slice) {
        None => {
            proof {
                assert forall|i: int| line_start <= i < end implies !is_either(
                    #[trigger] bytes@[i],
                    LF,
                    CR,
                ) by {
                    assert(slice@[i - line_start] == bytes@[i]);
                }
                lemma_line_start_skip(bytes@, line_start as int, end as int);
            }
            end
        },
        Some(rel) => {
            let idx: usize = line_start + rel;
            proof {
                assert forall|i: int| line_start <= i < idx implies !is_either(
                    #[trigger] bytes@[i],
                    LF,
                    CR,
                ) by {
                    assert(slice@[i - line_start] == bytes@[i]);
                }
                lemma_line_start_skip(bytes@, line_start as int, idx as int);
                assert(slice@[rel as int] == bytes@[idx as int]);
            }
            if bytes[idx] == CR && idx + 1 < end && bytes[idx + 1] == LF {
                proof {
                    reveal_with_fuel(line_start_from, 3);
                    assert(!ends_line(bytes@, idx as int));
                    assert(ends_line(bytes@, idx + 1));
                }
                idx + 2
            } else {
                proof {
                    reveal_with_fuel(line_start_from, 2);
                    assert(ends_line(bytes@, idx as int));
                }
                idx + 1
            }
        },
    }
}

/// Where column `col` of the line text from `i` on lies, or where the line text ends.
pub open spec fn col_offset(bytes: Seq<u8>, i: int, end: int, col: nat) -> int
    decreases end - i,
{
    if col == 0 || i >= end || is_either(bytes[i], LF, CR) {
        i
    } else {
        col_offset(bytes, i + char_width(bytes, i, end), end, (col - 1) as nat)
    }
}

/// How many columns the line text from `i` on has.
pub open spec fn line_cols(bytes: Seq<u8>, i: int, end: int) -> nat
    decreases end - i,
{
    if i >= end || is_either(bytes[i], LF, CR) {
        0
    } else {
        1 + line_cols(bytes, i + char_width(bytes, i, end), end)
    }
}

/// Where column `col0` of the line in `start..end` lies, or where the line text ends.
pub fn byte_offset_for_text_col_in_bytes(bytes: &[u8], range: (usize, usize), col0: usize) -> (offset:
    usize)
    requires
        range.0 <= range.1 <= bytes@.len(),
    ensures
        offset == col_offset(bytes@, range.0 as int, range.1 as int, col0 as nat),
        range.0 <= offset <= range.1,
{
    let (start, end) = range;
    let mut i: usize = start;
    let mut left: usize = col0;
    while i < end && left > 0 && bytes[i] != LF && bytes[i] != CR
        invariant
            start <= i <= end <= bytes@.len(),
            col_offset(bytes@, i as int, end as int, left as nat) == col_offset(
                bytes@,
                start as int,
                end as int,
                col0 as nat,
            ),
        decreases end - i,
    {
        i = i + utf8_step(bytes, i, end);
        left = left - 1;
    }
    i
}

/// How many columns the line in `start..end` has.
pub fn text_cols_in_bytes(bytes: &[u8], range: (usize, usize)) -> (cols: usize)
    requires
        range.0 <= range.1 <= bytes@.len(),
    ensures
        cols == line_cols(bytes@, range.0 as int, range.1 as int),
        cols <= range.1 - range.0,
{
    let (start, end) = range;
    let mut i: usize = start;
    let mut cols: usize = 0;
    while i < end && bytes[i] != LF && bytes[i] != CR
        invariant
            start <= i <= end <= bytes@.len(),
            cols <= i - start,
            cols + line_cols(bytes@, i as int, end as int) == line_cols(
                bytes@,
                start as int,
                end as int,
            ),
        decreases end - i,
    {
        i = i + utf8_step(bytes, i, end);
        cols = cols + 1;
    }
    cols
}

/// A character that starts in front of a line end does not reach over it.
pub proof fn lemma_width_stops(bytes: Seq<u8>, i: int, stop: int, end: int)
    requires
        0 <= i < stop <= end <= bytes.len(),
        is_either(bytes[stop - 1], LF, CR),
    ensures
        char_width(bytes, i, end) == char_width(bytes, i, stop),
        i + char_width(bytes, i, end) <= stop,
{
    let width = char_width(bytes, i, end);
    if width > 1 && i + width > stop {
        assert(i < stop - 1 < i + width) by {
            if i == stop - 1 {
                assert(lead_width(bytes[i]) == 1);
            }
        }
        if stop - 1 == i + 1 {
            assert(second_fits(bytes[i], bytes[i + 1]));
        } else if stop - 1 == i + 2 {
            assert(is_continuation(bytes[i + 2]));
        } else {
            assert(is_continuation(bytes[i + 3]));
        }
    }
}

/// A scan can be taken up again behind a line end.
pub proof fn lemma_scan_resume(
    bytes: Seq<u8>,
    i: int,
    stop: int,
    end: int,
    state: PositionScanState,
)
    requires
        0 <= i <= stop <= end <= bytes.len(),
        i == stop || is_either(bytes[stop - 1], LF, CR),
    ensures
        scan_to(bytes, i, end, state) == scan_to(
            bytes,
            stop,
            end,
            scan_to(bytes, i, stop, state),
        ),
    decreases stop - i,
{
    if i < stop {
        lemma_width_stops(bytes, i, stop, end);
        let next = i + char_width(bytes, i, end);
        lemma_scan_resume(bytes, next, stop, end, step_state(bytes, i, state));
    }
}

/// Only the bytes of the range count.
pub proof fn lemma_scan_subrange(
    bytes: Seq<u8>,
    a: int,
    i: int,
    end: int,
    state: PositionScanState,
)
    requires
        0 <= a <= i <= end <= bytes.len(),
    ensures
        scan_to(bytes, i, end, state) == scan_to(
            bytes.subrange(a, end),
            i - a,
            end - a,
            state,
        ),
    decreases end - i,
{
    let part = bytes.subrange(a, end);
    if i < end {
        assert(part[i - a] == bytes[i]);
        assert(char_width(part, i - a, end - a) == char_width(bytes, i, end)) by {
            let width = lead_width(bytes[i]);
            if i + width <= end {
                if width > 1 {
                    assert(part[i + 1 - a] == bytes[i + 1]);
                }
                if width > 2 {
                    assert(part[i + 2 - a] == bytes[i + 2]);
                }
                if width > 3 {
                    assert(part[i + 3 - a] == bytes[i + 3]);
                }
            }
        }
        assert(step_state(part, i - a, state) == step_state(bytes, i, state));
        lemma_scan_subrange(
            bytes,
            a,
            i + char_width(bytes, i, end),
            end,
            step_state(bytes, i, state),
        );
    }
}

/// A scan from the start counts the line ends, and is at column zero behind each.
pub proof fn lemma_scan_line(bytes: Seq<u8>, i: int, start: int, state: PositionScanState)
    requires
        0 <= i < start <= bytes.len() <= usize::MAX,
        ends_line(bytes, start - 1),
        state.line0 == line_ends(bytes, i) + (if state.prev_was_cr && bytes[i] == LF {
            1int
        } else {
            0
        }),
        state.prev_was_cr ==> i > 0 && bytes[i - 1] == CR,
    ensures
        ({
            let out = scan_to(bytes, i, start, state);
            &&& out.line0 == line_ends(bytes, start)
            &&& out.col0 == 0
            &&& out.prev_was_cr == (bytes[start - 1] == CR)
        }),
    decreases start - i,
{
    lemma_width_stops(bytes, i, start, start);
    let width = char_width(bytes, i, start);
    let next = i + width;
    let then = step_state(bytes, i, state);
    crate::scan::lemma_line_ends_monotone(bytes, 0, i);
    crate::scan::lemma_line_ends_monotone(bytes, 0, i + 1);
    if is_either(bytes[i], LF, CR) {
        assert(width == 1);
        assert(line_ends(bytes, i + 1) == line_ends(bytes, i) + (if ends_line(bytes, i) {
            1nat
        } else {
            0
        }));
        if next < start {
            if bytes[i] == CR && bytes[i + 1] == LF {
                assert(!ends_line(bytes, i));
            }
            lemma_scan_line(bytes, next, start, then);
        } else {
            reveal_with_fuel(scan_to, 2);
            assert(ends_line(bytes, i));
        }
    } else {
        assert(next < start);
        assert forall|j: int| i <= j < next implies !is_either(#[trigger] bytes[j], LF, CR) by {
            if j == i + 1 {
                assert(second_fits(bytes[i], bytes[i + 1]));
            }
        }
        crate::scan::lemma_no_line_end(bytes, i, next);
        lemma_scan_line(bytes, next, start, then);
    }
}

/// The place of a byte can be found from the start of its line, or of an earlier line.
pub proof fn lemma_position_from_line(bytes: Seq<u8>, start: int, offset: int)
    requires
        0 <= start <= offset <= bytes.len() <= usize::MAX,
        start == 0 || ends_line(bytes, start - 1),
    ensures
        position_at(bytes, offset) == scan_to(
            bytes,
            start,
            offset,
            PositionScanState {
                line0: line_ends(bytes, start) as usize,
                col0: 0,
                prev_was_cr: false,
            },
        ).spec_position(),
{
    let zero = PositionScanState { line0: 0, col0: 0, prev_was_cr: false };
    if start > 0 {
        assert(line_ends(bytes, 0) == 0);
        lemma_scan_line(bytes, 0, start, zero);
        lemma_scan_resume(bytes, 0, start, offset, zero);
        let there = scan_to(bytes, 0, start, zero);
        if start < offset && there.prev_was_cr {
            assert(bytes[start - 1] == CR);
            assert(bytes[start] != LF);
            lemma_scan_forgets_cr(bytes, start, offset, there);
        }
    } else {
        assert(line_ends(bytes, 0) == 0);
    }
}

/// That a carriage return came before matters to a line feed only.
proof fn lemma_scan_forgets_cr(bytes: Seq<u8>, i: int, end: int, state: PositionScanState)
    requires
        0 <= i < end <= bytes.len(),
        bytes[i] != LF,
    ensures
        scan_to(bytes, i, end, state) == scan_to(
            bytes,
            i,
            end,
            PositionScanState { prev_was_cr: false, ..state },
        ),
{
    assert(step_state(bytes, i, state) == step_state(
        bytes,
        i,
        PositionScanState { prev_was_cr: false, ..state },
    ));
}

/// A character does not reach over a byte that starts one.
pub proof fn lemma_width_boundary(bytes: Seq<u8>, i: int, stop: int, end: int)
    requires
        0 <= i < stop <= end <= bytes.len(),
        stop == end || !is_continuation(bytes[stop]),
    ensures
        char_width(bytes, i, end) == char_width(bytes, i, stop),
        i + char_width(bytes, i, end) <= stop,
{
    let width = char_width(bytes, i, end);
    if width > 1 && i + width > stop {
        if stop == i + 1 {
            assert(second_fits(bytes[i], bytes[i + 1]));
        } else if stop == i + 2 {
            assert(is_continuation(bytes[i + 2]));
        } else {
            assert(is_continuation(bytes[i + 3]));
        }
    }
}

/// A scan can be taken up again at a byte that starts a character.
pub proof fn lemma_scan_boundary(
    bytes: Seq<u8>,
    i: int,
    stop: int,
    end: int,
    state: PositionScanState,
)
    requires
        0 <= i <= stop <= end <= bytes.len(),
        stop == end || !is_continuation(bytes[stop]),
    ensures
        scan_to(bytes, i, end, state) == scan_to(
            bytes,
            stop,
            end,
            scan_to(bytes, i, stop, state),
        ),
    decreases stop - i,
{
    if i < stop {
        lemma_width_boundary(bytes, i, stop, end);
        let next = i + char_width(bytes, i, end);
        lemma_scan_boundary(bytes, next, stop, end, step_state(bytes, i, state));
    }
}

/// In a line, moving over bytes adds columns.
pub proof fn lemma_scan_cols(bytes: Seq<u8>, i: int, end: int, state: PositionScanState)
    requires
        0 <= i <= end <= bytes.len(),
        forall|k: int| i <= k < end ==> !is_either(#[trigger] bytes[k], LF, CR),
    ensures
        scan_to(bytes, i, end, state).line0 == state.line0,
        scan_to(bytes, i, end, state).col0 == sat_add(
            state.col0 as int,
            line_cols(bytes, i, end) as int,
        ),
    decreases end - i,
{
    if i < end {
        assert(!is_either(bytes[i], LF, CR));
        let next = i + char_width(bytes, i, end);
        lemma_scan_cols(bytes, next, end, step_state(bytes, i, state));
    }
}

/// An encoded character takes the width that its bytes show.
pub proof fn lemma_encoded_width(c: char, rest: Seq<u8>)
    ensures
        ({
            let own = vstd::utf8::encode_scalar(c as u32);
            let all = own + rest;
            &&& own.len() >= 1
            &&& char_width(all, 0, all.len() as int) == own.len()
            &&& lead_width(own[0]) == own.len()
            &&& !is_continuation(own[0])
            &&& (own[0] == LF) == (c as u32 == 10)
            &&& (own[0] == CR) == (c as u32 == 13)
            &&& is_either(own[0], LF, CR) ==> own.len() == 1
        }),
{
    let v = c as u32;
    let own = vstd::utf8::encode_scalar(v);
    let all = own + rest;
    vstd::utf8::char_is_scalar(c);
    assert(all[0] == own[0]);
    if vstd::utf8::has_width_1_encoding(v) {
        assert((v & 0x7f) as u8 == v && v <= 0x7f) by (bit_vector)
            requires
                v <= 0x7fu32,
        ;
    } else if vstd::utf8::has_width_2_encoding(v) {
        let lead = 0xC0u8 | ((v >> 6) & 0x1F) as u8;
        let last = 0x80u8 | (v & 0x3F) as u8;
        assert(0xc2 <= lead <= 0xdf && 0x80 <= last <= 0xbf) by (bit_vector)
            requires
                0x80u32 <= v <= 0x7ffu32,
                lead == 0xC0u8 | ((v >> 6) & 0x1F) as u8,
                last == 0x80u8 | (v & 0x3F) as u8,
        ;
        assert(all[1] == own[1]);
    } else if vstd::utf8::has_width_3_encoding(v) {
        let lead = 0xE0u8 | ((v >> 12) & 0x0F) as u8;
        let mid = 0x80u8 | ((v >> 6) & 0x3F) as u8;
        let last = 0x80u8 | (v & 0x3F) as u8;
        assert(0xe0 <= lead <= 0xef && 0x80 <= mid <= 0xbf && 0x80 <= last <= 0xbf && (lead == 0xe0
            ==> mid >= 0xa0) && (lead == 0xed ==> mid <= 0x9f)) by (bit_vector)
            requires
                0x800u32 <= v <= 0xffffu32,
                !(0xD800u32 <= v <= 0xDFFFu32),
                lead == 0xE0u8 | ((v >> 12) & 0x0F) as u8,
                mid == 0x80u8 | ((v >> 6) & 0x3F) as u8,
                last == 0x80u8 | (v & 0x3F) as u8,
        ;
        assert(all[1] == own[1]);
        assert(all[2] == own[2]);
    } else {
        let lead = 0xF0u8 | ((v >> 18) & 0x7) as u8;
        let two = 0x80u8 | ((v >> 12) & 0x3F) as u8;
        let mid = 0x80u8 | ((v >> 6) & 0x3F) as u8;
        let last = 0x80u8 | (v & 0x3F) as u8;
        assert(0xf0 <= lead <= 0xf4 && 0x80 <= two <= 0xbf && 0x80 <= mid <= 0xbf && 0x80 <= last
            <= 0xbf && (lead == 0xf0 ==> two >= 0x90) && (lead == 0xf4 ==> two <= 0x8f)) by (bit_vector)
            requires
                0x10000u32 <= v <= 0x10ffffu32,
                lead == 0xF0u8 | ((v >> 18) & 0x7) as u8,
                two == 0x80u8 | ((v >> 12) & 0x3F) as u8,
                mid == 0x80u8 | ((v >> 6) & 0x3F) as u8,
                last == 0x80u8 | (v & 0x3F) as u8,
        ;
        assert(all[1] == own[1]);
        assert(all[2] == own[2]);
        assert(all[3] == own[3]);
    }
}

/// `c` is a line feed or a carriage return.
pub open spec fn is_break_char(c: char) -> bool {
    c as u32 == 10 || c as u32 == 13
}

/// The columns of a line of valid UTF-8 are its Unicode scalar values, neither more nor
/// fewer.
pub proof fn law_columns_are_scalars(chars: Seq<char>)
    requires
        forall|i: int| 0 <= i < chars.len() ==> !is_break_char(#[trigger] chars[i]),
    ensures
        line_cols(
            vstd::utf8::encode_utf8(chars),
            0,
            vstd::utf8::encode_utf8(chars).len() as int,
        ) == chars.len(),
    decreases chars.len(),
{
    let bytes = vstd::utf8::encode_utf8(chars);
    if chars.len() > 0 {
        let rest = chars.drop_first();
        let tail = vstd::utf8::encode_utf8(rest);
        let own = vstd::utf8::encode_scalar(chars[0] as u32);
        assert(!is_break_char(chars[0]));
        lemma_encoded_width(chars[0], tail);
        assert forall|i: int| 0 <= i < rest.len() implies !is_break_char(#[trigger] rest[i]) by {
            assert(rest[i] == chars[i + 1]);
        }
        law_columns_are_scalars(rest);
        lemma_cols_shift(bytes, own.len() as int, own.len() as int);
        assert(bytes.subrange(own.len() as int, bytes.len() as int) =~= tail);
    }
}

/// Columns do not depend on what stands in front.
proof fn lemma_cols_shift(bytes: Seq<u8>, a: int, i: int)
    requires
        0 <= a <= i <= bytes.len(),
    ensures
        line_cols(bytes, i, bytes.len() as int) == line_cols(
            bytes.subrange(a, bytes.len() as int),
            i - a,
            bytes.len() - a,
        ),
    decreases bytes.len() - i,
{
    let end = bytes.len() as int;
    let part = bytes.subrange(a, end);
    if i < end {
        assert(part[i - a] == bytes[i]);
        let width = lead_width(bytes[i]);
        assert(char_width(part, i - a, end - a) == char_width(bytes, i, end)) by {
            if i + width <= end {
                if width > 1 {
                    assert(part[i + 1 - a] == bytes[i + 1]);
                }
                if width > 2 {
                    assert(part[i + 2 - a] == bytes[i + 2]);
                }
                if width > 3 {
                    assert(part[i + 3 - a] == bytes[i + 3]);
                }
            }
        }
        lemma_cols_shift(bytes, a, i + char_width(bytes, i, end));
    }
}

/// A character that ends at `end` takes the same width whether more bytes follow or not.
pub proof fn lemma_width_cut(bytes: Seq<u8>, i: int, end: int)
    requires
        0 <= i < end <= bytes.len(),
        char_width(bytes, i, bytes.len() as int) == end - i,
    ensures
        char_width(bytes, i, end) == end - i,
{
}

/// The place behind a line end is the start of the line that follows it.
pub proof fn lemma_line_start_is(bytes: Seq<u8>, i: int, start: int)
    requires
        0 <= i < start <= bytes.len(),
        ends_line(bytes, start - 1),
    ensures
        line_ends(bytes, i) < line_ends(bytes, start),
        line_start_from(bytes, i, (line_ends(bytes, start) - line_ends(bytes, i)) as nat) == start,
    decreases start - i,
{
    crate::scan::lemma_line_ends_monotone(bytes, i, start - 1);
    crate::scan::lemma_line_ends_monotone(bytes, i + 1, start);
    if i + 1 < start {
        lemma_line_start_is(bytes, i + 1, start);
    } else {
        reveal_with_fuel(line_start_from, 2);
    }
}

/// Lines can be walked one at a time.
pub proof fn lemma_line_start_step(bytes: Seq<u8>, i: int, k: nat)
    requires
        0 <= i <= bytes.len(),
        k > 0,
    ensures
        line_start_from(bytes, i, k) == line_start_from(
            bytes,
            line_start_from(bytes, i, 1),
            (k - 1) as nat,
        ),
        i <= line_start_from(bytes, i, 1) <= bytes.len(),
    decreases bytes.len() - i,
{
    if i < bytes.len() {
        if ends_line(bytes, i) {
            assert(line_start_from(bytes, i, 1) == line_start_from(bytes, i + 1, 0));
            assert(line_start_from(bytes, i + 1, 0) == i + 1);
        } else {
            lemma_line_start_step(bytes, i + 1, k);
        }
    }
}

/// No line starts behind the end.
pub proof fn lemma_line_start_end(bytes: Seq<u8>, i: int, k: nat)
    requires
        0 <= i <= bytes.len(),
        k == 0 || i == bytes.len(),
    ensures
        line_start_from(bytes, i, k) == i,
{
}

/// A byte sequence starts with a character where its first byte is ASCII, or where more than
/// one byte belongs to it.
proof fn lemma_first_scalar(bytes: Seq<u8>)
    requires
        bytes.len() > 0,
    ensures
        ({
            let width = char_width(bytes, 0, bytes.len() as int);
            &&& vstd::utf8::valid_first_scalar(bytes) == (bytes[0] < 0x80 || width > 1)
            &&& vstd::utf8::valid_first_scalar(bytes)
                ==> vstd::utf8::length_of_first_scalar(bytes) == width
        }),
{
    let a = bytes[0];
    if bytes.len() >= 2 {
        let b = bytes[1];
        if 0xc0 <= a <= 0xdf && is_continuation(b) {
            let cp = vstd::utf8::codepoint_width_2(a, b);
            assert((0x80u32 <= cp) == (a >= 0xc2u8) && cp <= 0x7ffu32) by (bit_vector)
                requires
                    0xc0u8 <= a <= 0xdfu8,
                    0x80u8 <= b <= 0xbfu8,
                    cp == (((a & 0x1Fu8) as u32) << 6) | ((b & 0x3Fu8) as u32),
            ;
        }
        if bytes.len() >= 3 {
            let c = bytes[2];
            if 0xe0 <= a <= 0xef && is_continuation(b) && is_continuation(c) {
                let cp = vstd::utf8::codepoint_width_3(a, b, c);
                assert((0x800u32 <= cp && !(0xD800u32 <= cp <= 0xDFFFu32)) == ((a == 0xe0u8 ==> b
                    >= 0xa0u8) && (a == 0xedu8 ==> b <= 0x9fu8))) by (bit_vector)
                    requires
                        0xe0u8 <= a <= 0xefu8,
                        0x80u8 <= b <= 0xbfu8,
                        0x80u8 <= c <= 0xbfu8,
                        cp == (((a & 0x0Fu8) as u32) << 12) | (((b & 0x3Fu8) as u32) << 6) | ((c
                            & 0x3Fu8) as u32),
                ;
            }
            if bytes.len() >= 4 {
                let d = bytes[3];
                if 0xf0 <= a <= 0xf7 && is_continuation(b) && is_continuation(c)
                    && is_continuation(d) {
                    let cp = vstd::utf8::codepoint_width_4(a, b, c, d);
                    assert((0x10000u32 <= cp <= 0x10ffffu32) == (a <= 0xf4u8 && (a == 0xf0u8 ==> b
                        >= 0x90u8) && (a == 0xf4u8 ==> b <= 0x8fu8))) by (bit_vector)
                        requires
                            0xf0u8 <= a <= 0xf7u8,
                            0x80u8 <= b <= 0xbfu8,
                            0x80u8 <= c <= 0xbfu8,
                            0x80u8 <= d <= 0xbfu8,
                            cp == (((a & 0x07u8) as u32) << 18) | (((b & 0x3Fu8) as u32) << 12) | (((
                            c & 0x3Fu8) as u32) << 6) | ((d & 0x3Fu8) as u32),
                    ;
                }
            }
        }
    }
}

/// Tells whether bytes are UTF-8.
pub fn is_utf8(bytes: &[u8]) -> (valid: bool)
    ensures
        valid == vstd::utf8::valid_utf8(bytes@),
{
    let end: usize = bytes.len();
    let mut i: usize = 0;
    assert(bytes@.skip(0) =~= bytes@);
    while i < end
        invariant
            i <= end == bytes@.len(),
            vstd::utf8::valid_utf8(bytes@.skip(i as int)) == vstd::utf8::valid_utf8(bytes@),
        decreases end - i,
    {
        let ghost rest = bytes@.skip(i as int);
        proof {
            lemma_first_scalar(rest);
            lemma_width_skip(bytes@, i as int);
            assert(rest[0] == bytes@[i as int]);
        }
        let step: usize = utf8_step(bytes, i, end);
        if bytes[i] >= 0x80 && step == 1 {
            return false;
        }
        assert(vstd::utf8::pop_first_scalar(rest) =~= bytes@.skip(i + step));
        i = i + step;
    }
    true
}

/// The width of a character does not depend on what stands in front of it.
proof fn lemma_width_skip(bytes: Seq<u8>, i: int)
    requires
        0 <= i < bytes.len(),
    ensures
        char_width(bytes.skip(i), 0, bytes.len() - i) == char_width(bytes, i, bytes.len() as int),
{
    let rest = bytes.skip(i);
    let width = lead_width(bytes[i]);
    assert(rest[0] == bytes[i]);
    if i + width <= bytes.len() {
        if width > 1 {
            assert(rest[1] == bytes[i + 1]);
        }
        if width > 2 {
            assert(rest[2] == bytes[i + 2]);
        }
        if width > 3 {
            assert(rest[3] == bytes[i + 3]);
        }
    }
}

/// A character of UTF-8 is followed by UTF-8.
pub proof fn lemma_char_step(bytes: Seq<u8>, i: int)
    requires
        0 <= i < bytes.len(),
        vstd::utf8::valid_utf8(bytes.skip(i)),
    ensures
        ({
            let next = i + char_width(bytes, i, bytes.len() as int);
            &&& i < next <= bytes.len()
            &&& vstd::utf8::valid_utf8(bytes.subrange(i, next))
            &&& vstd::utf8::valid_utf8(bytes.skip(next))
        }),
{
    let rest = bytes.skip(i);
    let next = i + char_width(bytes, i, bytes.len() as int);
    lemma_first_scalar(rest);
    lemma_width_skip(bytes, i);
    assert(vstd::utf8::pop_first_scalar(rest) =~= bytes.skip(next));
    assert(vstd::utf8::is_char_boundary(rest, next - i)) by {
        reveal_with_fuel(vstd::utf8::is_char_boundary, 2);
    }
    vstd::utf8::valid_utf8_split(rest, next - i);
    assert(rest.subrange(0, next - i) =~= bytes.subrange(i, next));
}

/// Text units of UTF-8 are UTF-8, and so is what follows them.
pub proof fn lemma_units_valid(bytes: Seq<u8>, i: int, n: nat)
    requires
        0 <= i <= bytes.len(),
        vstd::utf8::valid_utf8(bytes.skip(i)),
    ensures
        ({
            let end = units_end(bytes, i, bytes.len() as int, n);
            &&& i <= end <= bytes.len()
            &&& vstd::utf8::valid_utf8(bytes.subrange(i, end))
            &&& vstd::utf8::valid_utf8(bytes.skip(end))
        }),
    decreases n,
{
    let len = bytes.len() as int;
    let end = units_end(bytes, i, len, n);
    if n > 0 && i < len {
        lemma_char_step(bytes, i);
        let mid = unit_end(bytes, i, len);
        if bytes[i] == CR && i + 1 < len && bytes[i + 1] == LF {
            lemma_char_step(bytes, i + 1);
            vstd::utf8::valid_utf8_concat(
                bytes.subrange(i, i + 1),
                bytes.subrange(i + 1, i + 2),
            );
            assert(bytes.subrange(i, i + 1) + bytes.subrange(i + 1, i + 2) =~= bytes.subrange(
                i,
                mid,
            ));
        }
        lemma_units_valid(bytes, mid, (n - 1) as nat);
        vstd::utf8::valid_utf8_concat(bytes.subrange(i, mid), bytes.subrange(mid, end));
        assert(bytes.subrange(i, mid) + bytes.subrange(mid, end) =~= bytes.subrange(i, end));
    } else {
        assert(bytes.subrange(i, i) =~= Seq::empty());
    }
}

/// A column of UTF-8 is followed by UTF-8.
pub proof fn lemma_col_valid(bytes: Seq<u8>, i: int, col: nat)
    requires
        0 <= i <= bytes.len(),
        vstd::utf8::valid_utf8(bytes.skip(i)),
    ensures
        ({
            let at = col_offset(bytes, i, bytes.len() as int, col);
            &&& i <= at <= bytes.len()
            &&& vstd::utf8::valid_utf8(bytes.skip(at))
        }),
    decreases col,
{
    let len = bytes.len() as int;
    if col > 0 && i < len && !is_either(bytes[i], LF, CR) {
        lemma_char_step(bytes, i);
        lemma_col_valid(bytes, i + char_width(bytes, i, len), (col - 1) as nat);
    }
}

} // verus!
