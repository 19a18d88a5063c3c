//! What ranges between positions promise.

use crate::document::encode::{lemma_same_bytes, lossy};
use crate::document::matches::{keeps_line_ends, lemma_same_width};
use crate::document::places::lemma_range_bounds;
use crate::document::positions::{
    clamp_in, law_clamp_idempotent, lemma_col_offset_bounds, lemma_line_start_at, offset_in,
};
use crate::document::rope::{char_offset, lemma_char_at, lemma_char_offsets};
use crate::document::search::lemma_needle;
use crate::document::search_laws::lemma_known;
use crate::document::state::Document;
use crate::document::text::{
    char_width, col_offset, is_continuation, lemma_position_from_line, lemma_scan_cols,
    lemma_width_boundary, lemma_width_stops, line_cols, line_start, position_at, text_units,
    unit_end, units_end, PositionScanState,
};
use crate::document::types::{TextPosition, TextRange, TextSelection, TextSlice};
use crate::scan::{
    ends_line, is_either, lemma_line_ends_monotone, lemma_no_line_end, line_ends, occurs, CR, LF,
};
use vstd::prelude::*;
use vstd::utf8::encode_utf8;

verus! {

/// A text unit in front of a line does not reach into the line.
proof fn lemma_unit_stops(text: Seq<u8>, i: int, start: int, end: int)
    requires
        0 <= i < start <= end <= text.len(),
        ends_line(text, start - 1),
    ensures
        unit_end(text, i, end) == unit_end(text, i, start),
        unit_end(text, i, end) <= start,
{
    lemma_width_stops(text, i, start, end);
}

/// Counting text units can be split at the start of a line.
proof fn lemma_units_split(text: Seq<u8>, i: int, start: int, end: int)
    requires
        0 <= i <= start <= end <= text.len(),
        i == start || ends_line(text, start - 1),
    ensures
        text_units(text, i, end) == text_units(text, i, start) + text_units(text, start, end),
    decreases start - i,
{
    if i < start {
        lemma_unit_stops(text, i, start, end);
        lemma_units_split(text, unit_end(text, i, end), start, end);
    }
}

/// As many text units as there are up to the start of a line lead there.
proof fn lemma_units_to_line(text: Seq<u8>, i: int, start: int)
    requires
        0 <= i <= start <= text.len(),
        i == start || ends_line(text, start - 1),
    ensures
        units_end(text, i, text.len() as int, text_units(text, i, start)) == start,
    decreases start - i,
{
    if i < start {
        lemma_unit_stops(text, i, start, text.len() as int);
        lemma_units_to_line(text, unit_end(text, i, start), start);
    }
}

/// As many text units as there are up to a column of the same line lead there.
proof fn lemma_units_to_col(text: Seq<u8>, i: int, col: nat)
    requires
        0 <= i <= text.len(),
    ensures
        ({
            let at = col_offset(text, i, text.len() as int, col);
            units_end(text, i, text.len() as int, text_units(text, i, at)) == at
        }),
    decreases text.len() - i,
{
    lemma_col_offset_bounds(text, i, col);
    if col > 0 && i < text.len() && !is_either(text[i], LF, CR) {
        let at = col_offset(text, i, text.len() as int, col);
        let step = char_width(text, i, text.len() as int);
        lemma_col_offset_bounds(text, i + step, (col - 1) as nat);
        assert(char_width(text, i, at) == step);
        lemma_units_to_col(text, i + step, (col - 1) as nat);
    }
}

/// Steps of text units add up.
proof fn lemma_units_end_split(text: Seq<u8>, i: int, end: int, m: nat, n: nat)
    requires
        0 <= i <= end <= text.len(),
    ensures
        units_end(text, i, end, m + n) == units_end(text, units_end(text, i, end, m), end, n),
    decreases m,
{
    if m > 0 && i < end {
        lemma_units_end_split(text, unit_end(text, i, end), end, (m - 1) as nat, n);
    }
}

/// A later column of a line is found from an earlier one.
proof fn lemma_col_offset_from(text: Seq<u8>, i: int, a: nat, b: nat)
    requires
        0 <= i <= text.len(),
        a <= b,
    ensures
        col_offset(text, i, text.len() as int, b) == col_offset(
            text,
            col_offset(text, i, text.len() as int, a),
            text.len() as int,
            (b - a) as nat,
        ),
    decreases text.len() - i,
{
    if a > 0 && i < text.len() && !is_either(text[i], LF, CR) {
        lemma_col_offset_from(
            text,
            i + char_width(text, i, text.len() as int),
            (a - 1) as nat,
            (b - 1) as nat,
        );
    }
}

/// As many text units as there are between two positions lead from the first to the second.
proof fn lemma_units_reach(text: Seq<u8>, first: TextPosition, second: TextPosition)
    requires
        text.len() <= usize::MAX,
        clamp_in(text, first) == first,
        clamp_in(text, second) == second,
        first.spec_le(second),
    ensures
        ({
            let from = offset_in(text, first);
            let to = offset_in(text, second);
            &&& from <= to
            &&& units_end(text, from, text.len() as int, text_units(text, from, to)) == to
        }),
{
    let len = text.len() as int;
    let from = offset_in(text, first);
    let to = offset_in(text, second);
    let start1 = line_start(text, first.line0 as nat);
    let start2 = line_start(text, second.line0 as nat);
    lemma_line_start_at(text, 0, first.line0 as nat);
    lemma_line_start_at(text, 0, second.line0 as nat);
    lemma_range_bounds(text, start1, len, first.col0 as nat);
    lemma_range_bounds(text, start2, len, second.col0 as nat);
    if first.line0 == second.line0 {
        lemma_col_offset_from(text, start1, first.col0 as nat, second.col0 as nat);
        lemma_col_offset_bounds(text, from, (second.col0 - first.col0) as nat);
        lemma_units_to_col(text, from, (second.col0 - first.col0) as nat);
    } else {
        lemma_no_line_end(text, start1, from);
        if start2 <= from {
            lemma_line_ends_monotone(text, start2, from);
        }
        lemma_units_split(text, from, start2, to);
        lemma_units_to_line(text, from, start2);
        lemma_units_to_col(text, start2, second.col0 as nat);
        lemma_units_end_split(
            text,
            from,
            len,
            text_units(text, from, start2),
            text_units(text, start2, to),
        );
    }
}

/// The range between two known positions, in either order, covers the bytes between them, no
/// more and no fewer.
pub proof fn law_range_between(doc: Document, a: TextPosition, b: TextPosition)
    requires
        doc.wf(),
        doc.text().len() <= usize::MAX,
        doc.is_known(a),
        doc.is_known(b),
    ensures
        ({
            let (first, second) = doc.spec_ordered(a, b);
            let range = doc.spec_selection_range(TextSelection { anchor: a, head: b });
            &&& range.start == first
            &&& first.spec_le(second)
            &&& (first == doc.spec_clamp(a) && second == doc.spec_clamp(b)) || (first
                == doc.spec_clamp(b) && second == doc.spec_clamp(a))
            &&& position_at(doc.text(), doc.spec_safe_offset(first)) == first
            &&& position_at(doc.text(), doc.spec_safe_offset(second)) == second
            &&& doc.spec_range_bytes(range) == Some(
                (doc.spec_safe_offset(first), doc.spec_safe_offset(second)),
            )
        }),
{
    let text = doc.text();
    let (first, second) = doc.spec_ordered(a, b);
    lemma_known(doc, a);
    lemma_known(doc, b);
    law_clamp_idempotent(text, a);
    law_clamp_idempotent(text, b);
    lemma_clamped_known(doc, a);
    lemma_clamped_known(doc, b);
    lemma_known(doc, first);
    lemma_known(doc, second);
    lemma_units_reach(text, first, second);
    lemma_units_bound(text, offset_in(text, first), offset_in(text, second));
}

/// The text of a selection between two known positions is what is shown of the bytes between
/// them, whichever of them comes first, and it is exact.
pub proof fn law_selection_text(doc: Document, selection: TextSelection, slice: TextSlice)
    requires
        doc.wf(),
        doc.text().len() <= usize::MAX,
        doc.is_known(selection.anchor),
        doc.is_known(selection.head),
        doc.is_selection_text(selection, slice),
    ensures
        ({
            let (first, second) = doc.spec_ordered(selection.anchor, selection.head);
            let from = doc.spec_safe_offset(first);
            let to = doc.spec_safe_offset(second);
            &&& slice.exact
            &&& position_at(doc.text(), from) == first
            &&& position_at(doc.text(), to) == second
            &&& slice.text@ == lossy(doc.text().subrange(from, to))
            &&& vstd::utf8::valid_utf8(doc.text().subrange(from, to)) ==> encode_utf8(slice.text@)
                == doc.text().subrange(from, to)
        }),
{
    let text = doc.text();
    let a = selection.anchor;
    let b = selection.head;
    let (first, second) = doc.spec_ordered(a, b);
    law_range_between(doc, a, b);
    lemma_known(doc, a);
    lemma_known(doc, b);
    law_clamp_idempotent(text, a);
    law_clamp_idempotent(text, b);
    lemma_clamped_known(doc, a);
    lemma_clamped_known(doc, b);
    lemma_known(doc, first);
    lemma_known(doc, second);
    assert(selection == TextSelection { anchor: a, head: b });
    if doc.rope is None && doc.piece_table is Some {
        crate::document::places::lemma_indexed_offset(doc.piece_table->Some_0, first);
        crate::document::places::lemma_indexed_offset(doc.piece_table->Some_0, second);
    }
}

/// Where a position cannot be found, as much text counts as being in front of it as is indexed,
/// and a search from it has nothing left to search.
pub proof fn law_unknown_places(doc: Document, position: TextPosition)
    requires
        doc.wf(),
        doc.spec_offset(doc.spec_clamp(position)) is None,
    ensures
        doc.piece_table is Some,
        !doc.piece_table->Some_0.full_index,
        doc.spec_search_offset(position) == doc.text().len(),
        doc.spec_safe_offset(position) == doc.piece_table->Some_0.known_byte_len,
        doc.spec_index_of_position(position) == text_units(
            doc.text(),
            0,
            doc.piece_table->Some_0.known_byte_len as int,
        ),
{
}

/// What cannot be found is not made up: a range whose start cannot be found reads as nothing, and
/// neither it nor a selection of which an end cannot be found is called exact.
pub proof fn law_unknown_is_not_exact(
    doc: Document,
    range: TextRange,
    selection: TextSelection,
    slice: TextSlice,
)
    ensures
        doc.spec_offset(doc.spec_clamp(range.start)) is None && doc.is_range_text(range, slice)
            ==> !slice.exact && slice.text@.len() == 0,
        doc.spec_offset(doc.spec_clamp(range.start)) is Some && doc.is_range_text(range, slice)
            ==> slice.exact,
        doc.is_selection_text(selection, slice) && slice.exact ==> ({
            let (first, second) = doc.spec_ordered(selection.anchor, selection.head);
            &&& doc.spec_offset(doc.spec_clamp(first)) is Some
            &&& doc.spec_offset(doc.spec_clamp(second)) is Some
        }),
{
}

/// A known position stays known when it is clamped.
proof fn lemma_clamped_known(doc: Document, position: TextPosition)
    requires
        doc.wf(),
        doc.is_known(position),
    ensures
        doc.is_known(doc.spec_clamp(position)),
{
    if doc.rope is None && doc.piece_table is Some {
        crate::document::places::lemma_indexed_offset(doc.piece_table->Some_0, position);
    }
}

proof fn lemma_units_bound(text: Seq<u8>, i: int, end: int)
    requires
        0 <= i <= end <= text.len(),
    ensures
        text_units(text, i, end) <= end - i,
    decreases end - i,
{
    if i < end {
        lemma_units_bound(text, unit_end(text, i, end), end);
    }
}

/// In a line, as many columns as lie in front of a byte that starts a character lead to it.
proof fn lemma_cols_lead(text: Seq<u8>, i: int, at: int)
    requires
        0 <= i <= at <= text.len(),
        at == text.len() || !is_continuation(text[at]),
        forall|k: int| i <= k < at ==> !is_either(#[trigger] text[k], LF, CR),
    ensures
        col_offset(text, i, text.len() as int, line_cols(text, i, at)) == at,
        line_cols(text, i, at) <= line_cols(text, i, text.len() as int),
    decreases at - i,
{
    if i < at {
        assert(!is_either(text[i], LF, CR));
        lemma_width_boundary(text, i, at, text.len() as int);
        lemma_cols_lead(text, i + char_width(text, i, at), at);
    }
}

/// The place of a byte that starts a character, and does not split a line end, stands for the
/// byte.
pub proof fn lemma_offset_of_position(text: Seq<u8>, at: int)
    requires
        0 <= at <= text.len() <= usize::MAX,
        at == text.len() || !is_continuation(text[at]),
        !(0 < at < text.len() && text[at - 1] == CR && text[at] == LF),
    ensures
        clamp_in(text, position_at(text, at)) == position_at(text, at),
        offset_in(text, position_at(text, at)) == at,
{
    let len = text.len() as int;
    let line0 = line_ends(text, at);
    assert(line_ends(text, 0) == 0);
    lemma_line_ends_monotone(text, 0, at);
    lemma_line_ends_monotone(text, at, len);
    lemma_line_start_at(text, 0, line0);
    let start = line_start(text, line0);
    if start > at {
        lemma_line_ends_monotone(text, at, start - 1);
        assert(line_ends(text, start) == line_ends(text, start - 1) + 1);
    }
    assert forall|k: int| start <= k < at implies !is_either(#[trigger] text[k], LF, CR) by {
        if is_either(text[k], LF, CR) {
            if ends_line(text, k) {
                assert(line_ends(text, k + 1) == line_ends(text, k) + 1);
                lemma_line_ends_monotone(text, start, k);
                lemma_line_ends_monotone(text, k + 1, at);
            } else {
                assert(k + 1 < at);
                assert(ends_line(text, k + 1));
                assert(line_ends(text, k + 2) == line_ends(text, k + 1) + 1);
                lemma_line_ends_monotone(text, start, k + 1);
                lemma_line_ends_monotone(text, k + 2, at);
            }
        }
    }
    let state = PositionScanState { line0: line0 as usize, col0: 0, prev_was_cr: false };
    lemma_position_from_line(text, start, at);
    lemma_scan_cols(text, start, at, state);
    lemma_cols_lead(text, start, at);
    lemma_range_bounds(text, start, at, 0);
    crate::document::positions::lemma_cols_bound(text, start);
}

/// The text units of a match are those of the text that was looked for.
proof fn lemma_match_units(text: Seq<u8>, chars: Seq<char>, at: int, c: int)
    requires
        occurs(text, encode_utf8(chars), at),
        keeps_line_ends(text, encode_utf8(chars)),
        chars.len() > 0,
        0 <= c <= chars.len(),
    ensures
        ({
            let needle = encode_utf8(chars);
            let own = char_offset(chars, c);
            units_end(
                text,
                at + own,
                text.len() as int,
                text_units(needle, own, needle.len() as int),
            ) == at + needle.len()
        }),
    decreases chars.len() - c,
{
    let needle = encode_utf8(chars);
    let n = needle.len() as int;
    let len = text.len() as int;
    let own = char_offset(chars, c);
    lemma_char_offsets(chars, c, chars.len() as int);
    lemma_needle(chars);
    assert forall|k: int| 0 <= k < n implies needle[k] == #[trigger] text[at + k] by {
        assert(text.subrange(at, at + n)[k] == text[at + k]);
    }
    if c < chars.len() {
        lemma_char_at(chars, c);
        lemma_same_width(text, needle, at, own, len);
        assert(needle[own] == text[at + own]);
        if needle[own] == CR && own + 1 < n && needle[own + 1] == LF {
            assert(needle[own + 1] == text[at + (own + 1)]);
            lemma_char_offsets(chars, c + 1, chars.len() as int);
            lemma_char_at(chars, c + 1);
            lemma_match_units(text, chars, at, c + 2);
        } else {
            if own + 1 < n {
                assert(needle[own + 1] == text[at + (own + 1)]);
            }
            lemma_match_units(text, chars, at, c + 1);
        }
    }
}

/// The range of a match covers the match, no more and no less: reading it gives back what was
/// looked for. Documents of which lines are not known, and matches that split a line end of two
/// bytes, are left out.
pub proof fn law_match_range(doc: Document, chars: Seq<char>, at: int, slice: TextSlice)
    requires
        doc.wf(),
        doc.text().len() <= usize::MAX,
        doc.is_known(position_at(doc.text(), at)),
        chars.len() > 0,
        occurs(doc.text(), encode_utf8(chars), at),
        keeps_line_ends(doc.text(), encode_utf8(chars)),
    ensures
        ({
            let range = TextRange {
                start: position_at(doc.text(), at),
                len_chars: text_units(
                    encode_utf8(chars),
                    0,
                    encode_utf8(chars).len() as int,
                ) as usize,
            };
            &&& doc.spec_range_bytes(range) == Some((at, at + encode_utf8(chars).len()))
            &&& doc.is_range_text(range, slice) ==> slice.exact && slice.text@ == chars
        }),
{
    let text = doc.text();
    let needle = encode_utf8(chars);
    let start = position_at(text, at);
    lemma_needle(chars);
    assert(text.subrange(at, at + needle.len())[0] == text[at]);
    if at > 0 && text[at] == LF {
        assert(needle[0] == LF);
    }
    lemma_offset_of_position(text, at);
    lemma_known(doc, start);
    lemma_char_offsets(chars, 0, chars.len() as int);
    lemma_match_units(text, chars, at, 0);
    lemma_units_bound(needle, 0, needle.len() as int);
    vstd::utf8::encode_utf8_valid_utf8(chars);
    if encode_utf8(slice.text@) == needle {
        lemma_same_bytes(slice.text@, chars);
    }
}

} // verus!
