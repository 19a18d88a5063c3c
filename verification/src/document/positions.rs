//! Positions and the bytes they stand for.

use crate::document::text::{
    advanced, char_width, col_offset, is_continuation, lemma_position_from_line,
    lemma_scan_boundary, lemma_scan_cols, lemma_scan_subrange, line_cols, line_start,
    line_start_from, position_at, scan_to, step_state, PositionScanState,
};
use crate::document::types::TextPosition;
use crate::scan::{
    ends_line, is_either, lemma_line_ends_monotone, line_ends, occurs, CR, LF,
};
use crate::tree_model::min_int;
use vstd::prelude::*;

verus! {

/// The scan state at the start of a text.
pub open spec fn zero_state() -> PositionScanState {
    PositionScanState { line0: 0, col0: 0, prev_was_cr: false }
}

/// The last line of a text.
pub open spec fn last_line(text: Seq<u8>) -> nat {
    line_ends(text, text.len() as int)
}

/// How many columns line `line0` has.
pub open spec fn cols_of_line(text: Seq<u8>, line0: nat) -> nat {
    line_cols(text, line_start(text, line0), text.len() as int)
}

/// The place that `position` means in a text: the line is at most the last one, the column at
/// most the end of the line.
pub open spec fn clamp_in(text: Seq<u8>, position: TextPosition) -> TextPosition {
    let line0 = min_int(position.line0 as int, last_line(text) as int);
    TextPosition {
        line0: line0 as usize,
        col0: min_int(position.col0 as int, cols_of_line(text, line0 as nat) as int) as usize,
    }
}

/// The byte that a position stands for.
pub open spec fn offset_in(text: Seq<u8>, position: TextPosition) -> int {
    col_offset(
        text,
        line_start(text, position.line0 as nat),
        text.len() as int,
        position.col0 as nat,
    )
}

/// A character keeps its width where more than the character is left of the text.
proof fn lemma_width_in(text: Seq<u8>, i: int, end: int)
    requires
        0 <= i < end <= text.len(),
        i + char_width(text, i, text.len() as int) <= end,
    ensures
        char_width(text, i, end) == char_width(text, i, text.len() as int),
{
}

/// Walking over columns of a line and then on is the same as walking on at once.
pub proof fn lemma_walk(
    text: Seq<u8>,
    i: int,
    col: nat,
    end: int,
    state: PositionScanState,
)
    requires
        0 <= i <= text.len(),
        col_offset(text, i, text.len() as int, col) <= end <= text.len(),
    ensures
        ({
            let at = col_offset(text, i, text.len() as int, col);
            let there = scan_to(text, i, at, state);
            let cols = line_cols(text, i, text.len() as int);
            &&& i <= at <= text.len()
            &&& cols <= text.len() - i
            &&& scan_to(text, i, end, state) == scan_to(text, at, end, there)
            &&& there.line0 == state.line0
            &&& state.col0 + text.len() <= usize::MAX ==> there.col0 == state.col0 + min_int(
                col as int,
                cols as int,
            )
            &&& at == i ==> there == state
            &&& at > i ==> !there.prev_was_cr
        }),
    decreases text.len() - i,
{
    lemma_col_offset_bounds(text, i, col);
    if col == 0 || i >= text.len() || is_either(text[i], LF, CR) {
        lemma_cols_bound(text, i);
    } else {
        let step = char_width(text, i, text.len() as int);
        let at = col_offset(text, i, text.len() as int, col);
        let then = step_state(text, i, state);
        lemma_col_offset_bounds(text, i + step, (col - 1) as nat);
        lemma_width_in(text, i, end);
        lemma_width_in(text, i, at);
        if state.col0 + text.len() <= usize::MAX {
            lemma_walk_from(text, i + step, (col - 1) as nat, end, then);
        } else {
            lemma_walk(text, i + step, (col - 1) as nat, end, then);
        }
    }
}

proof fn lemma_walk_from(
    text: Seq<u8>,
    i: int,
    col: nat,
    end: int,
    state: PositionScanState,
)
    requires
        0 <= i <= text.len(),
        col_offset(text, i, text.len() as int, col) <= end <= text.len(),
        state.col0 + (text.len() - i) <= usize::MAX,
    ensures
        ({
            let at = col_offset(text, i, text.len() as int, col);
            let there = scan_to(text, i, at, state);
            let cols = line_cols(text, i, text.len() as int);
            &&& i <= at <= text.len()
            &&& cols <= text.len() - i
            &&& scan_to(text, i, end, state) == scan_to(text, at, end, there)
            &&& there.line0 == state.line0
            &&& there.col0 == state.col0 + min_int(col as int, cols as int)
            &&& at == i ==> there == state
            &&& at > i ==> !there.prev_was_cr
        }),
    decreases text.len() - i,
{
    lemma_col_offset_bounds(text, i, col);
    if col == 0 || i >= text.len() || is_either(text[i], LF, CR) {
        lemma_cols_bound(text, i);
    } else {
        let step = char_width(text, i, text.len() as int);
        let at = col_offset(text, i, text.len() as int, col);
        let then = step_state(text, i, state);
        lemma_col_offset_bounds(text, i + step, (col - 1) as nat);
        lemma_width_in(text, i, end);
        lemma_width_in(text, i, at);
        lemma_walk_from(text, i + step, (col - 1) as nat, end, then);
    }
}

pub proof fn lemma_cols_bound(text: Seq<u8>, i: int)
    requires
        0 <= i <= text.len(),
    ensures
        line_cols(text, i, text.len() as int) <= text.len() - i,
    decreases text.len() - i,
{
    if i < text.len() && !is_either(text[i], LF, CR) {
        lemma_cols_bound(text, i + char_width(text, i, text.len() as int));
    }
}

pub proof fn lemma_col_offset_bounds(text: Seq<u8>, i: int, col: nat)
    requires
        0 <= i <= text.len(),
    ensures
        i <= col_offset(text, i, text.len() as int, col) <= text.len(),
    decreases text.len() - i,
{
    if col > 0 && i < text.len() && !is_either(text[i], LF, CR) {
        lemma_col_offset_bounds(text, i + char_width(text, i, text.len() as int), (col - 1) as nat);
    }
}

/// A line that exists starts behind as many line ends as its number says.
pub proof fn lemma_line_start_at(text: Seq<u8>, i: int, k: nat)
    requires
        0 <= i <= text.len(),
        line_ends(text, i) + k <= last_line(text),
    ensures
        ({
            let start = line_start_from(text, i, k);
            &&& i <= start <= text.len()
            &&& line_ends(text, start) == line_ends(text, i) + k
            &&& k > 0 ==> i < start && ends_line(text, start - 1)
        }),
    decreases text.len() - i,
{
    if k > 0 {
        if i < text.len() {
            assert(line_ends(text, i + 1) == line_ends(text, i) + (if ends_line(text, i) {
                1nat
            } else {
                0
            }));
            lemma_line_start_at(
                text,
                i + 1,
                if ends_line(text, i) {
                    (k - 1) as nat
                } else {
                    k
                },
            );
        }
    }
}

/// A position that lies in the text survives the way to its byte and back, and from there on
/// positions can be counted.
pub proof fn lemma_position_of_offset(text: Seq<u8>, position: TextPosition, end: int)
    requires
        text.len() <= usize::MAX,
        clamp_in(text, position) == position,
        offset_in(text, position) <= end <= text.len(),
    ensures
        0 <= offset_in(text, position),
        position_at(text, offset_in(text, position)) == position,
        position_at(text, end) == advanced(
            position,
            text.subrange(offset_in(text, position), end),
        ),
{
    let at = offset_in(text, position);
    let start = line_start(text, position.line0 as nat);
    let state = PositionScanState {
        line0: line_ends(text, start) as usize,
        col0: 0,
        prev_was_cr: false,
    };
    lemma_line_start_at(text, 0, position.line0 as nat);
    lemma_line_ends_monotone(text, 0, start);
    lemma_col_offset_bounds(text, start, position.col0 as nat);
    lemma_cols_bound(text, start);
    lemma_position_from_line(text, start, at);
    lemma_position_from_line(text, start, end);
    lemma_walk(text, start, position.col0 as nat, at, state);
    lemma_walk(text, start, position.col0 as nat, end, state);
    let there = scan_to(text, start, at, state);
    assert(there == PositionScanState {
        line0: position.line0,
        col0: position.col0,
        prev_was_cr: false,
    });
    lemma_scan_subrange(text, at, at, end, there);
}

/// A position that lies in the text is the place of the byte that it stands for.
pub proof fn law_position_round_trip(text: Seq<u8>, position: TextPosition)
    requires
        text.len() <= usize::MAX,
        clamp_in(text, position) == position,
    ensures
        0 <= offset_in(text, position) <= text.len(),
        position_at(text, offset_in(text, position)) == position,
{
    let start = line_start(text, position.line0 as nat);
    lemma_line_start_at(text, 0, position.line0 as nat);
    lemma_col_offset_bounds(text, start, position.col0 as nat);
    lemma_position_of_offset(text, position, offset_in(text, position));
}

/// Clamping a position again does not change it.
pub proof fn law_clamp_idempotent(text: Seq<u8>, position: TextPosition)
    requires
        text.len() <= usize::MAX,
    ensures
        clamp_in(text, clamp_in(text, position)) == clamp_in(text, position),
{
    let line0 = min_int(position.line0 as int, last_line(text) as int);
    lemma_line_ends_monotone(text, 0, text.len() as int);
    lemma_line_start_at(text, 0, line0 as nat);
    lemma_cols_bound(text, line_start(text, line0 as nat));
}

/// Moving over bytes never moves back.
pub proof fn lemma_scan_forward(text: Seq<u8>, i: int, end: int, state: PositionScanState)
    requires
        0 <= i <= end <= text.len(),
        state.prev_was_cr ==> state.col0 == 0,
        state.line0 + (end - i) <= usize::MAX,
    ensures
        scan_to(text, i, end, state).line0 <= state.line0 + (end - i),
        state.spec_position().spec_le(scan_to(text, i, end, state).spec_position()),
        scan_to(text, i, end, state).prev_was_cr ==> scan_to(text, i, end, state).col0 == 0,
    decreases end - i,
{
    if i < end {
        lemma_scan_forward(
            text,
            i + char_width(text, i, end),
            end,
            step_state(text, i, state),
        );
    }
}

/// The place of a byte has at most as many columns as bytes in front of it.
pub proof fn lemma_scan_col_bound(text: Seq<u8>, i: int, end: int, state: PositionScanState)
    requires
        0 <= i <= end <= text.len(),
    ensures
        scan_to(text, i, end, state).col0 <= state.col0 + (end - i),
    decreases end - i,
{
    if i < end {
        lemma_scan_col_bound(
            text,
            i + char_width(text, i, end),
            end,
            step_state(text, i, state),
        );
    }
}

/// The places of two bytes, of which the first starts a character or ends the text, are in
/// the order of the bytes.
pub proof fn law_positions_in_order(text: Seq<u8>, a: int, b: int)
    requires
        0 <= a <= b <= text.len() <= usize::MAX,
        a == b || !is_continuation(text[a]),
    ensures
        position_at(text, a).spec_le(position_at(text, b)),
{
    lemma_scan_boundary(text, 0, a, b, zero_state());
    lemma_scan_forward(text, 0, a, zero_state());
    lemma_scan_forward(text, a, b, scan_to(text, 0, a, zero_state()));
}

/// Counting back over a part without a line end gives the place of the byte in front.
pub proof fn lemma_counted_back(text: Seq<u8>, a: int, b: int)
    requires
        0 <= a <= b <= text.len() <= usize::MAX,
        a == b || !is_continuation(text[a]),
        forall|i: int| a <= i < b ==> !is_either(#[trigger] text[i], LF, CR),
    ensures
        ({
            let units = line_cols(text.subrange(a, b), 0, b - a);
            let there = position_at(text, b);
            &&& units <= there.col0
            &&& position_at(text, a) == (TextPosition {
                line0: there.line0,
                col0: (there.col0 - units) as usize,
            })
        }),
{
    let from = scan_to(text, 0, a, zero_state());
    let part = text.subrange(a, b);
    lemma_scan_boundary(text, 0, a, b, zero_state());
    lemma_scan_subrange(text, a, a, b, from);
    assert forall|i: int| 0 <= i < part.len() implies !is_either(#[trigger] part[i], LF, CR) by {
        assert(part[i] == text[a + i]);
    }
    lemma_scan_cols(part, 0, b - a, from);
    lemma_scan_col_bound(text, 0, a, zero_state());
    lemma_cols_bound(part, 0);
}

/// What follows a match is counted on from the place of the match, unless the match starts
/// inside a line end.
pub proof fn lemma_match_end(text: Seq<u8>, needle: Seq<u8>, at: int)
    requires
        needle.len() > 0,
        !is_continuation(needle[0]),
        occurs(text, needle, at),
        !(needle[0] == LF && at > 0 && text[at - 1] == CR),
    ensures
        position_at(text, at + needle.len()) == advanced(position_at(text, at), needle),
{
    let end = at + needle.len();
    let there = scan_to(text, 0, at, zero_state());
    assert(text.subrange(at, end)[0] == text[at]);
    lemma_scan_boundary(text, 0, at, end, zero_state());
    lemma_scan_subrange(text, at, at, end, there);
    if there.prev_was_cr {
        lemma_cr_before(text, 0, at, zero_state());
        assert(needle[0] != LF);
        assert(step_state(needle, 0, there) == step_state(
            needle,
            0,
            PositionScanState { prev_was_cr: false, ..there },
        ));
    }
}

/// Where a scan remembers a carriage return, there is one.
pub proof fn lemma_cr_before(text: Seq<u8>, i: int, end: int, state: PositionScanState)
    requires
        0 <= i <= end <= text.len(),
        scan_to(text, i, end, state).prev_was_cr,
        state.prev_was_cr ==> i > 0 && text[i - 1] == CR,
    ensures
        end > 0,
        text[end - 1] == CR,
    decreases end - i,
{
    if i < end {
        let step = char_width(text, i, end);
        if text[i] == CR {
            assert(step == 1);
        }
        lemma_cr_before(text, i + step, end, step_state(text, i, state));
    }
}

} // verus!
