//! What searches promise.

use crate::document::encode::lemma_same_bytes;
use crate::document::matches::{
    keeps_line_ends, law_matches_are_where_they_are, law_matches_complete, law_matches_disjoint,
    law_walk_starts_true, lemma_scan_chars, SearchCursor,
};
use crate::document::places::lemma_indexed_offset;
use crate::document::positions::{
    clamp_in, law_clamp_idempotent, law_position_round_trip, lemma_col_offset_bounds,
    lemma_line_start_at, lemma_match_end, lemma_position_of_offset, lemma_scan_forward, offset_in,
    zero_state,
};
use crate::document::range_laws::law_match_range;
use crate::document::rope::lemma_char_offsets;
use crate::document::search::{lemma_needle, match_of};
use crate::document::state::Document;
use crate::document::text::{
    char_width, is_continuation, lemma_scan_boundary, line_start, position_at, scan_to, step_state,
    units_end, PositionScanState,
};
use crate::document::types::{SearchMatch, TextPosition, TextRange, TextSlice};
use crate::scan::{
    first_at, last_at, lemma_first_at_is, lemma_last_at_is, lemma_line_ends_monotone, occurs, CR,
    LF,
};
use vstd::prelude::*;
use vstd::utf8::encode_utf8;

verus! {

impl Document {
    /// The line of `position` is known: the document is not a piece table, or the line is
    /// indexed in it.
    pub open spec fn is_known(self, position: TextPosition) -> bool {
        match self.piece_table {
            Some(table) if self.rope is None => table.full_index || position.line0
                < table.known_line_count,
            _ => true,
        }
    }
}

impl Document {
    /// Reading the range of `found` reads the bytes of `needle` at `at`, if the line is known.
    pub open spec fn covers_match(self, found: SearchMatch, at: int, needle: Seq<u8>) -> bool {
        self.is_known(found.range.start) ==> {
            &&& self.spec_range_bytes(found.range) == Some((at, at + needle.len()))
            &&& self.text().subrange(at, at + needle.len()) == needle
        }
    }
}

/// The range of a match covers the match.
proof fn lemma_covers_match(doc: Document, chars: Seq<char>, at: int)
    requires
        doc.wf(),
        doc.text().len() <= usize::MAX,
        chars.len() > 0,
        occurs(doc.text(), encode_utf8(chars), at),
        keeps_line_ends(doc.text(), encode_utf8(chars)),
    ensures
        forall|end: TextPosition|
            doc.covers_match(
                #[trigger] match_of(encode_utf8(chars), position_at(doc.text(), at), end),
                at,
                encode_utf8(chars),
            ),
{
    if doc.is_known(position_at(doc.text(), at)) {
        let slice = TextSlice { text: arbitrary(), exact: true };
        law_match_range(doc, chars, at, slice);
    }
}

/// Reading the range of a match that a search reports gives back what was looked for.
pub proof fn law_found_reads_back(
    doc: Document,
    chars: Seq<char>,
    found: SearchMatch,
    at: int,
    slice: TextSlice,
)
    requires
        doc.wf(),
        doc.is_known(found.range.start),
        doc.covers_match(found, at, encode_utf8(chars)),
        doc.is_range_text(found.range, slice),
    ensures
        slice.exact,
        slice.text@ == chars,
{
    vstd::utf8::encode_utf8_valid_utf8(chars);
    lemma_same_bytes(slice.text@, chars);
}

/// Every match that a walk over a document reports stands where it is reported, and its range
/// covers it, no more and no less.
pub proof fn law_all_found(
    doc: Document,
    chars: Seq<char>,
    from: TextPosition,
    end: Option<TextPosition>,
    i: int,
)
    requires
        doc.wf(),
        doc.text().len() <= usize::MAX,
        chars.len() > 0,
        doc.is_known(from),
        keeps_line_ends(doc.text(), encode_utf8(chars)),
        0 <= i < doc.spec_cursor(encode_utf8(chars), from, end).matches().len(),
    ensures
        ({
            let cursor = doc.spec_cursor(encode_utf8(chars), from, end);
            let found = cursor.matches()[i];
            let at = cursor.places()[i];
            &&& i < cursor.places().len()
            &&& occurs(doc.text(), encode_utf8(chars), at)
            &&& doc.spec_search_offset(from) <= at
            &&& at + encode_utf8(chars).len() <= doc.text().len()
            &&& end is Some && doc.is_known(end->Some_0) ==> at + encode_utf8(chars).len()
                <= doc.spec_search_offset(end->Some_0)
            &&& i > 0 ==> cursor.places()[i - 1] + encode_utf8(chars).len() <= at
            &&& found.range.start == position_at(doc.text(), at)
            &&& found.end == position_at(doc.text(), at + encode_utf8(chars).len())
            &&& doc.covers_match(found, at, encode_utf8(chars))
        }),
{
    let cursor = doc.spec_cursor(encode_utf8(chars), from, end);
    lemma_known(doc, from);
    law_walk_starts_true(cursor, from);
    law_matches_disjoint(cursor);
    law_matches_are_where_they_are(cursor, chars);
    let at = cursor.places()[i];
    if end is Some && doc.is_known(end->Some_0) {
        lemma_known(doc, end->Some_0);
    }
    if i > 0 {
        assert(cursor.places()[i - 1] + cursor.needle.len() <= cursor.places()[i]);
    }
    lemma_covers_match(doc, chars, at);
    let found = cursor.matches()[i];
    lemma_walk_matches(cursor, i);
    assert(found == match_of(encode_utf8(chars), position_at(doc.text(), at), found.end));
}

/// A walk over a document leaves out no match between its bounds, unless it starts inside one
/// that is reported.
pub proof fn law_none_missed(
    doc: Document,
    chars: Seq<char>,
    from: TextPosition,
    end: Option<TextPosition>,
    place: int,
)
    requires
        doc.wf(),
        doc.text().len() <= usize::MAX,
        chars.len() > 0,
        doc.is_known(from),
        end is Some ==> doc.is_known(end->Some_0),
        occurs(doc.text(), encode_utf8(chars), place),
        doc.spec_search_offset(from) <= place,
        end is Some ==> place + encode_utf8(chars).len() <= doc.spec_search_offset(end->Some_0),
    ensures
        ({
            let cursor = doc.spec_cursor(encode_utf8(chars), from, end);
            &&& cursor.places().len() == cursor.matches().len()
            &&& exists|i: int|
                0 <= i < cursor.places().len() && #[trigger] cursor.places()[i] <= place
                    < cursor.places()[i] + encode_utf8(chars).len()
        }),
{
    let cursor = doc.spec_cursor(encode_utf8(chars), from, end);
    lemma_known(doc, from);
    lemma_needle(chars);
    if end is Some {
        let stop = end->Some_0;
        lemma_known(doc, stop);
        if doc.rope is None && doc.piece_table is Some {
            lemma_indexed_offset(doc.piece_table->Some_0, stop);
        }
    }
    law_matches_disjoint(cursor);
    law_matches_complete(cursor, place);
}

/// The bounds of a range are the places of its first byte and of the byte behind it.
pub proof fn law_range_bounds(doc: Document, range: TextRange)
    requires
        doc.wf(),
        doc.text().len() <= usize::MAX,
        doc.is_known(range.start),
    ensures
        ({
            let (start, end) = doc.spec_range_bounds(range);
            let (from, to) = doc.spec_range_bytes(range)->Some_0;
            &&& doc.spec_range_bytes(range) is Some
            &&& 0 <= from <= to <= doc.text().len()
            &&& start == doc.spec_clamp(range.start)
            &&& start == position_at(doc.text(), from)
            &&& end == position_at(doc.text(), to)
        }),
{
    let text = doc.text();
    lemma_known(doc, range.start);
    if doc.rope is None && doc.piece_table is Some {
        lemma_indexed_offset(doc.piece_table->Some_0, range.start);
    }
    let from = doc.spec_search_offset(range.start);
    crate::document::locate::lemma_units_end_bounds(
        text,
        from,
        text.len() as int,
        range.len_chars as nat,
    );
    let to = units_end(text, from, text.len() as int, range.len_chars as nat);
    law_clamp_idempotent(text, range.start);
    lemma_position_of_offset(text, clamp_in(text, range.start), to);
}

/// What a walk reports are matches of what is looked for.
proof fn lemma_walk_matches(cursor: SearchCursor, i: int)
    requires
        0 <= i < cursor.matches().len(),
    ensures
        cursor.matches()[i] == match_of(
            cursor.needle,
            cursor.matches()[i].range.start,
            cursor.matches()[i].end,
        ),
    decreases cursor.limit - cursor.offset,
{
    let at = cursor.upcoming()->Some_0;
    if i > 0 {
        lemma_walk_matches(cursor.behind(at), i - 1);
        assert(cursor.matches()[i] == cursor.behind(at).matches()[i - 1]);
    }
}

/// A known position means the place that it means in the text.
pub proof fn lemma_known(doc: Document, position: TextPosition)
    requires
        doc.wf(),
        doc.text().len() <= usize::MAX,
        doc.is_known(position),
    ensures
        doc.spec_clamp(position) == clamp_in(doc.text(), position),
        doc.spec_search_offset(position) == offset_in(doc.text(), doc.spec_clamp(position)),
        doc.spec_safe_offset(position) == offset_in(doc.text(), doc.spec_clamp(position)),
        0 <= doc.spec_search_offset(position) <= doc.text().len(),
        position_at(doc.text(), doc.spec_search_offset(position)) == doc.spec_clamp(position),
{
    let text = doc.text();
    law_clamp_idempotent(text, position);
    law_position_round_trip(text, clamp_in(text, position));
    if doc.rope is None && doc.piece_table is Some {
        lemma_indexed_offset(doc.piece_table->Some_0, position);
    }
}

/// Every byte behind the byte of a position lies at a later place.
proof fn lemma_later(text: Seq<u8>, position: TextPosition, end: int)
    requires
        text.len() <= usize::MAX,
        clamp_in(text, position) == position,
        offset_in(text, position) < end <= text.len(),
    ensures
        !position_at(text, end).spec_le(position),
        position.spec_le(position_at(text, end)),
{
    let at = offset_in(text, position);
    let start = line_start(text, position.line0 as nat);
    lemma_position_of_offset(text, position, end);
    lemma_line_start_at(text, 0, position.line0 as nat);
    lemma_col_offset_bounds(text, start, position.col0 as nat);
    lemma_line_ends_monotone(text, 0, start);
    let part = text.subrange(at, end);
    let state = PositionScanState {
        line0: position.line0,
        col0: position.col0,
        prev_was_cr: false,
    };
    let next = step_state(part, 0, state);
    crate::document::positions::lemma_scan_col_bound(text, 0, at, zero_state());
    let width = char_width(part, 0, part.len() as int);
    lemma_scan_forward(part, width, part.len() as int, next);
}

/// The place behind a match is not behind that of any later byte.
proof fn lemma_match_end_before(text: Seq<u8>, chars: Seq<char>, at: int, end: int)
    requires
        text.len() <= usize::MAX,
        chars.len() > 0,
        occurs(text, encode_utf8(chars), at),
        at + encode_utf8(chars).len() <= end <= text.len(),
    ensures
        position_at(text, at + encode_utf8(chars).len()).spec_le(position_at(text, end)),
{
    let needle = encode_utf8(chars);
    let stop = at + needle.len();
    lemma_needle(chars);
    assert(text.subrange(at, stop)[0] == text[at]);
    let first = scan_to(text, 0, at, zero_state());
    lemma_scan_boundary(text, 0, at, stop, zero_state());
    lemma_scan_boundary(text, 0, at, end, zero_state());
    lemma_char_offsets(chars, 0, chars.len() as int);
    lemma_scan_chars(text, chars, at, 0, end, first);
    let there = scan_to(text, 0, stop, zero_state());
    lemma_scan_forward(text, 0, stop, zero_state());
    lemma_scan_forward(text, stop, end, there);
}

/// Where the end of a match is reported.
proof fn lemma_reported_end(doc: Document, chars: Seq<char>, at: int)
    requires
        chars.len() > 0,
        occurs(doc.text(), encode_utf8(chars), at),
        keeps_line_ends(doc.text(), encode_utf8(chars)),
    ensures
        doc.spec_match_end(encode_utf8(chars), at, position_at(doc.text(), at)) == position_at(
            doc.text(),
            at + encode_utf8(chars).len(),
        ),
{
    let text = doc.text();
    let needle = encode_utf8(chars);
    lemma_needle(chars);
    if at > 0 && needle[0] == LF {
        assert(text[at - 1] != CR);
    }
    lemma_match_end(text, needle, at);
}

/// A match that a search reports stands where it is reported, and the search has not passed
/// over an earlier one.
pub proof fn law_find_next(doc: Document, chars: Seq<char>, from: TextPosition)
    requires
        doc.wf(),
        doc.text().len() <= usize::MAX,
        chars.len() > 0,
        doc.is_known(from),
        keeps_line_ends(doc.text(), encode_utf8(chars)),
    ensures
        match doc.spec_find_next(encode_utf8(chars), from) {
            Some(found) => exists|at: int|
                doc.spec_search_offset(from) <= at && #[trigger] occurs(
                    doc.text(),
                    encode_utf8(chars),
                    at,
                ) && found.range.start == position_at(doc.text(), at) && found.end == position_at(
                    doc.text(),
                    at + encode_utf8(chars).len(),
                ) && doc.covers_match(found, at, encode_utf8(chars)) && forall|i: int|
                    doc.spec_search_offset(from) <= i < at ==> !occurs(
                        doc.text(),
                        encode_utf8(chars),
                        i,
                    ),
            None => forall|i: int|
                doc.spec_search_offset(from) <= i ==> !occurs(doc.text(), encode_utf8(chars), i),
        },
{
    let text = doc.text();
    let needle = encode_utf8(chars);
    let offset = doc.spec_search_offset(from);
    lemma_needle(chars);
    lemma_known(doc, from);
    lemma_first_at_is(text, needle, offset);
    match first_at(text, needle, offset) {
        Some(at) => {
            law_clamp_idempotent(text, from);
            lemma_position_of_offset(text, clamp_in(text, from), at);
            lemma_reported_end(doc, chars, at);
            assert(occurs(text, needle, at));
            lemma_covers_match(doc, chars, at);
        },
        None => {},
    }
}

/// A search from a position backwards reports the last match that ends by it, where it
/// stands.
pub proof fn law_find_prev(doc: Document, chars: Seq<char>, before: TextPosition)
    requires
        doc.wf(),
        doc.text().len() <= usize::MAX,
        chars.len() > 0,
        doc.is_known(before),
        keeps_line_ends(doc.text(), encode_utf8(chars)),
    ensures
        match doc.spec_find_prev(encode_utf8(chars), before) {
            Some(found) => exists|at: int|
                at + encode_utf8(chars).len() <= doc.spec_search_offset(before)
                    && #[trigger] occurs(doc.text(), encode_utf8(chars), at) && found.range.start
                    == position_at(doc.text(), at) && found.end == position_at(
                    doc.text(),
                    at + encode_utf8(chars).len(),
                ) && doc.covers_match(found, at, encode_utf8(chars)) && forall|i: int|
                    at < i && i + encode_utf8(chars).len() <= doc.spec_search_offset(before)
                        ==> !occurs(doc.text(), encode_utf8(chars), i),
            None => forall|i: int|
                i + encode_utf8(chars).len() <= doc.spec_search_offset(before) ==> !occurs(
                    doc.text(),
                    encode_utf8(chars),
                    i,
                ),
        },
{
    let text = doc.text();
    let needle = encode_utf8(chars);
    lemma_needle(chars);
    lemma_known(doc, before);
    lemma_last_at_is(text, needle, doc.spec_safe_offset(before));
    match last_at(text, needle, doc.spec_safe_offset(before)) {
        Some(at) => {
            lemma_reported_end(doc, chars, at);
            assert(occurs(text, needle, at));
            lemma_covers_match(doc, chars, at);
        },
        None => {},
    }
}

/// A bounded search reports the first match that lies between the bounds as a whole, and
/// reports one whenever there is one.
pub proof fn law_find_next_bounded(
    doc: Document,
    chars: Seq<char>,
    start: TextPosition,
    end: TextPosition,
)
    requires
        doc.wf(),
        doc.text().len() <= usize::MAX,
        chars.len() > 0,
        doc.is_known(start),
        doc.is_known(end),
        doc.spec_clamp(start) == start,
        doc.spec_clamp(end) == end,
        keeps_line_ends(doc.text(), encode_utf8(chars)),
    ensures
        ({
            let from = doc.spec_search_offset(start);
            let to = doc.spec_search_offset(end);
            let needle = encode_utf8(chars);
            match doc.spec_find_next_bounded(needle, (start, end)) {
                Some(found) => exists|at: int|
                    from <= at && at + needle.len() <= to && #[trigger] occurs(
                        doc.text(),
                        needle,
                        at,
                    ) && found.range.start == position_at(doc.text(), at) && found.end
                        == position_at(doc.text(), at + needle.len()) && doc.covers_match(
                        found,
                        at,
                        needle,
                    ) && forall|i: int|
                        from <= i < at ==> !occurs(doc.text(), needle, i),
                None => forall|i: int|
                    from <= i && i + needle.len() <= to ==> !occurs(doc.text(), needle, i),
            }
        }),
{
    let text = doc.text();
    let needle = encode_utf8(chars);
    let from = doc.spec_search_offset(start);
    let to = doc.spec_search_offset(end);
    lemma_needle(chars);
    lemma_known(doc, start);
    lemma_known(doc, end);
    lemma_first_at_is(text, needle, from);
    if end.spec_le(start) {
        if from < to {
            lemma_later(text, start, to);
        }
    } else {
        match first_at(text, needle, from) {
            Some(at) => {
                lemma_position_of_offset(text, start, at);
                lemma_reported_end(doc, chars, at);
                assert(occurs(text, needle, at));
                lemma_covers_match(doc, chars, at);
                if at + needle.len() <= to {
                    lemma_match_end_before(text, chars, at, to);
                } else {
                    lemma_later(text, end, at + needle.len());
                }
            },
            None => {},
        }
    }
}

/// A bounded search backwards reports the last match that lies between the bounds as a whole,
/// and reports one whenever there is one.
pub proof fn law_find_prev_bounded(
    doc: Document,
    chars: Seq<char>,
    start: TextPosition,
    end: TextPosition,
)
    requires
        doc.wf(),
        doc.text().len() <= usize::MAX,
        chars.len() > 0,
        doc.is_known(start),
        doc.is_known(end),
        doc.spec_clamp(start) == start,
        doc.spec_clamp(end) == end,
        keeps_line_ends(doc.text(), encode_utf8(chars)),
    ensures
        ({
            let from = doc.spec_search_offset(start);
            let to = doc.spec_search_offset(end);
            let needle = encode_utf8(chars);
            match doc.spec_find_prev_bounded(needle, (start, end)) {
                Some(found) => exists|at: int|
                    from <= at && at + needle.len() <= to && #[trigger] occurs(
                        doc.text(),
                        needle,
                        at,
                    ) && found.range.start == position_at(doc.text(), at) && found.end
                        == position_at(doc.text(), at + needle.len()) && doc.covers_match(
                        found,
                        at,
                        needle,
                    ) && forall|i: int|
                        at < i && i + needle.len() <= to ==> !occurs(doc.text(), needle, i),
                None => forall|i: int|
                    from <= i && i + needle.len() <= to ==> !occurs(doc.text(), needle, i),
            }
        }),
{
    let text = doc.text();
    let needle = encode_utf8(chars);
    let from = doc.spec_search_offset(start);
    let to = doc.spec_search_offset(end);
    lemma_needle(chars);
    lemma_known(doc, start);
    lemma_known(doc, end);
    lemma_last_at_is(text, needle, to);
    if end.spec_le(start) {
        if from < to {
            lemma_later(text, start, to);
        }
    } else {
        match last_at(text, needle, to) {
            Some(at) => {
                assert(occurs(text, needle, at));
                assert(text.subrange(at, at + needle.len())[0] == text[at]);
                lemma_reported_end(doc, chars, at);
                lemma_covers_match(doc, chars, at);
                if at >= from {
                    if at > from {
                        lemma_later(text, start, at);
                    }
                } else {
                    lemma_earlier(text, start, at);
                }
            },
            None => {},
        }
    }
}

/// A byte that starts a character in front of the byte of a position lies at an earlier place.
proof fn lemma_earlier(text: Seq<u8>, position: TextPosition, at: int)
    requires
        text.len() <= usize::MAX,
        clamp_in(text, position) == position,
        0 <= at < offset_in(text, position) <= text.len(),
        !is_continuation(text[at]),
    ensures
        !position.spec_le(position_at(text, at)) || (text[at] == LF && at > 0 && text[at - 1] == CR),
{
    let end = offset_in(text, position);
    lemma_position_of_offset(text, position, end);
    lemma_scan_boundary(text, 0, at, end, zero_state());
    let there = scan_to(text, 0, at, zero_state());
    lemma_scan_forward(text, 0, at, zero_state());
    let width = char_width(text, at, end);
    let next = step_state(text, at, there);
    crate::document::positions::lemma_scan_col_bound(text, 0, at, zero_state());
    lemma_scan_forward(text, at + width, end, next);
    if there.prev_was_cr {
        crate::document::positions::lemma_cr_before(text, 0, at, zero_state());
    }
}

} // verus!
