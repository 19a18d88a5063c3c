//! Literal search.

use crate::document::places::lemma_range_bounds;
use crate::document::positions::{
    cols_of_line, last_line, law_clamp_idempotent, lemma_counted_back, lemma_line_start_at,
    lemma_position_of_offset, zero_state,
};
use crate::document::piece_table::{newline_len, PieceTable};
use crate::document::rope::{char_offset, lemma_char_at, lemma_char_offsets, rope_text};
use crate::document::state::Document;
use crate::document::stream_search::{
    counted_back, find_next_in_rope_chunks, find_prev_in_rope_chunks,
};
use crate::document::text::{
    advance_position_by_bytes, advanced, char_width, is_continuation, lemma_position_from_line,
    lemma_scan_cols, lemma_scan_line, lemma_width_boundary, line_cols, line_start, position_at,
    search_text_units, text_units, units_end, PositionScanState,
};
use crate::document::types::{SearchMatch, TextPosition, TextRange};
use crate::scan::{
    ends_line, first_at, is_either, is_first, is_last, last_at, lemma_first_at, lemma_first_at_is,
    lemma_last_at, lemma_line_ends_monotone, lemma_occurs_part, line_ends, occurs, CR, LF,
};
use vstd::prelude::*;
use vstd::string::*;
use vstd::utf8::encode_utf8;

verus! {

/// A text to search for: bytes that start a character.
pub open spec fn is_needle(needle: Seq<u8>) -> bool {
    needle.len() > 0 && !is_continuation(needle[0])
}

/// The match of `needle` at a place.
pub open spec fn match_of(needle: Seq<u8>, start: TextPosition, end: TextPosition) -> SearchMatch {
    SearchMatch {
        range: TextRange {
            start,
            len_chars: text_units(needle, 0, needle.len() as int) as usize,
        },
        end,
    }
}

/// A text that is not empty is something to search for.
pub proof fn lemma_needle(chars: Seq<char>)
    ensures
        chars.len() > 0 ==> is_needle(encode_utf8(chars)),
        chars.len() == 0 ==> encode_utf8(chars).len() == 0,
{
    if chars.len() > 0 {
        assert(chars.take(0) =~= Seq::empty());
        lemma_char_at(chars, 0);
    }
}

/// In the bytes of a rope, a byte that starts a character is where one starts.
pub proof fn lemma_rope_boundary(chars: Seq<char>, byte: int, c: int)
    requires
        0 <= c <= chars.len(),
        char_offset(chars, c) <= byte < encode_utf8(chars).len(),
        !is_continuation(encode_utf8(chars)[byte]),
    ensures
        exists|d: int| 0 <= d <= chars.len() && #[trigger] char_offset(chars, d) == byte,
    decreases chars.len() - c,
{
    let bytes = encode_utf8(chars);
    lemma_char_offsets(chars, c, chars.len() as int);
    if char_offset(chars, c) < byte {
        lemma_char_at(chars, c);
        let at = char_offset(chars, c);
        if byte < char_offset(chars, c + 1) {
            assert(crate::document::text::second_fits(bytes[at], bytes[at + 1]));
        }
        lemma_rope_boundary(chars, byte, c + 1);
    }
}

impl Document {
    /// Where a match ends. Behind a match in a file the place is counted from the start of
    /// the text, else from the start of the match.
    pub open spec fn spec_match_end(self, needle: Seq<u8>, at: int, start: TextPosition) -> TextPosition {
        if self.spec_has_edit_buffer() {
            advanced(start, needle)
        } else {
            position_at(self.text(), at + needle.len())
        }
    }

    /// The first match at `from` or behind it.
    pub open spec fn spec_find_next(self, needle: Seq<u8>, from: TextPosition) -> Option<SearchMatch> {
        let offset = self.spec_search_offset(from);
        if needle.len() == 0 {
            None
        } else {
            match first_at(self.text(), needle, offset) {
                Some(at) => {
                    let start = advanced(
                        self.spec_clamp(from),
                        self.text().subrange(offset, at),
                    );
                    Some(match_of(needle, start, self.spec_match_end(needle, at, start)))
                },
                None => None,
            }
        }
    }

    /// The last match that ends by `before`.
    pub open spec fn spec_find_prev(self, needle: Seq<u8>, before: TextPosition) -> Option<
        SearchMatch,
    > {
        if needle.len() == 0 {
            None
        } else {
            match last_at(self.text(), needle, self.spec_safe_offset(before)) {
                Some(at) => {
                    let start = position_at(self.text(), at);
                    Some(match_of(needle, start, self.spec_match_end(needle, at, start)))
                },
                None => None,
            }
        }
    }

    /// The places where a range starts and ends.
    pub open spec fn spec_range_bounds(self, range: TextRange) -> (TextPosition, TextPosition) {
        let start = self.spec_clamp(range.start);
        let from = self.spec_search_offset(range.start);
        let to = units_end(self.text(), from, self.text().len() as int, range.len_chars as nat);
        (start, advanced(start, self.text().subrange(from, to)))
    }

    /// The first match at `start` or behind it, if it ends by `end`.
    pub open spec fn spec_find_next_bounded(
        self,
        needle: Seq<u8>,
        bounds: (TextPosition, TextPosition),
    ) -> Option<SearchMatch> {
        if bounds.1.spec_le(bounds.0) {
            None
        } else {
            match self.spec_find_next(needle, bounds.0) {
                Some(found) => if found.end.spec_le(bounds.1) {
                    Some(found)
                } else {
                    None
                },
                None => None,
            }
        }
    }

    /// The last match that ends by `end`, if it starts at `start` or behind it.
    pub open spec fn spec_find_prev_bounded(
        self,
        needle: Seq<u8>,
        bounds: (TextPosition, TextPosition),
    ) -> Option<SearchMatch> {
        if bounds.1.spec_le(bounds.0) {
            None
        } else {
            match self.spec_find_prev(needle, bounds.1) {
                Some(found) => if bounds.0.spec_le(found.range.start) {
                    Some(found)
                } else {
                    None
                },
                None => None,
            }
        }
    }

    /// The byte that a forward search from `position` starts at, and the place it means.
    pub(crate) fn search_place(&self, position: TextPosition) -> (place: (TextPosition, usize))
        requires
            self.wf(),
        ensures
            place.0 == self.spec_clamp(position),
            place.1 == self.spec_search_offset(position),
            place.1 <= self.text().len(),
    {
        let (clamped, found) = self.locate(position);
        let at: usize = match found {
            Some(at) => at,
            None => self.text_len(),
        };
        (clamped, at)
    }

    /// The byte that a forward search from `position` starts at.
    pub fn search_byte_offset_for_position(&self, position: TextPosition) -> (offset: usize)
        requires
            self.wf(),
        ensures
            offset == self.spec_search_offset(position),
            offset <= self.text().len(),
    {
        self.search_place(position).1
    }

    /// The first match at byte `offset` or behind it.
    pub(crate) fn first_match(&self, needle: &[u8], offset: usize) -> (found: Option<usize>)
        requires
            self.wf(),
            is_needle(needle@),
            offset <= self.text().len(),
        ensures
            first_at(self.text(), needle@, offset as int) == (match found {
                Some(at) => Some(at as int),
                None => None,
            }),
            found is Some ==> offset <= found->Some_0 && occurs(
                self.text(),
                needle@,
                found->Some_0 as int,
            ),
    {
        let ghost text = self.text();
        proof {
            lemma_first_at_is(text, needle@, offset as int);
        }
        if let Some(rope) = &self.rope {
            let found = find_next_in_rope_chunks(rope, offset, needle);
            proof {
                lemma_first_at(text, needle@, offset as int, found);
            }
            return found;
        }
        if let Some(table) = &self.piece_table {
            proof {
                table.lemma_len();
            }
            let found = match table.find_literal_next_from_position(
                offset,
                TextPosition::new(0, 0),
                needle,
            ) {
                Some((_, at)) => Some(at),
                None => None,
            };
            proof {
                if offset < table.total_len {
                    lemma_first_at(text, needle@, offset as int, found);
                }
            }
            return found;
        }
        let bytes = self.file_bytes();
        let rest = vstd::slice::slice_subrange(bytes, offset, bytes.len());
        let hit = memchr::memmem::find(rest, needle);
        let found: Option<usize> = match hit {
            Some(rel) => Some(offset + rel),
            None => None,
        };
        proof {
            lemma_first_in_rest(text, needle@, offset as int, hit);
            lemma_first_at(text, needle@, offset as int, found);
        }
        found
    }

    /// The first match at `from` or behind it.
    fn find_next_with_finder(&self, needle: &[u8], needle_units: usize, from: TextPosition) -> (found:
        Option<SearchMatch>)
        requires
            self.wf(),
            is_needle(needle@),
            needle_units == text_units(needle@, 0, needle@.len() as int),
        ensures
            found == self.spec_find_next(needle@, from),
    {
        let ghost text = self.text();
        let text_len: usize = self.text_len();
        let (start, offset) = self.search_place(from);
        if self.rope.is_none() {
            if let Some(table) = &self.piece_table {
                proof {
                    table.lemma_len();
                    lemma_first_at_is(text, needle@, offset as int);
                }
                let hit = table.find_literal_next_from_position(offset, start, needle);
                return match hit {
                    None => {
                        proof {
                            if offset < table.total_len {
                                lemma_first_at(text, needle@, offset as int, None);
                            }
                        }
                        None
                    },
                    Some((start_pos, at)) => {
                        proof {
                            lemma_first_at(text, needle@, offset as int, Some(at));
                        }
                        let end_pos = advance_position_by_bytes(start_pos, needle);
                        Some(SearchMatch::new(TextRange::new(start_pos, needle_units), end_pos))
                    },
                };
            }
        }
        match self.first_match(needle, offset) {
            None => None,
            Some(at) => {
                proof {
                    law_clamp_idempotent(text, from);
                    lemma_position_of_offset(text, start, at as int);
                    self.lemma_match_starts(needle@, at as int);
                }
                let start_pos = self.position_of_byte(at);
                let end_pos = if self.rope.is_some() {
                    advance_position_by_bytes(start_pos, needle)
                } else {
                    self.mmap_position_for_byte_offset(at + needle.len())
                };
                Some(SearchMatch::new(TextRange::new(start_pos, needle_units), end_pos))
            },
        }
    }

    /// A match starts where a character starts.
    proof fn lemma_match_starts(self, needle: Seq<u8>, at: int)
        requires
            self.wf(),
            is_needle(needle),
            occurs(self.text(), needle, at),
        ensures
            !is_continuation(self.text()[at]),
            self.rope is Some ==> exists|c: int|
                0 <= c <= rope_text(self.rope->Some_0).len() && #[trigger] char_offset(
                    rope_text(self.rope->Some_0),
                    c,
                ) == at,
    {
        assert(self.text().subrange(at, at + needle.len())[0] == self.text()[at]);
        if self.rope is Some {
            let chars = rope_text(self.rope->Some_0);
            lemma_char_offsets(chars, 0, chars.len() as int);
            lemma_rope_boundary(chars, at, 0);
        }
    }

    /// The last match that ends by `before`.
    fn find_prev_with_finder(&self, needle: &[u8], needle_units: usize, before: TextPosition) -> (found:
        Option<SearchMatch>)
        requires
            self.wf(),
            is_needle(needle@),
            needle_units == text_units(needle@, 0, needle@.len() as int),
        ensures
            found == self.spec_find_prev(needle@, before),
    {
        let ghost text = self.text();
        if self.rope.is_none() {
            if let Some(table) = &self.piece_table {
                return self.find_prev_in_piece_table(table, needle, needle_units, before);
            }
        }
        let (_, place) = self.locate(before);
        let end: usize = match place {
            Some(at) => at,
            None => 0,
        };
        let hit = if let Some(rope) = &self.rope {
            find_prev_in_rope_chunks(rope, end, needle)
        } else {
            let head = vstd::slice::slice_subrange(self.file_bytes(), 0, end);
            let hit = memchr::memmem::rfind(head, needle);
            proof {
                lemma_last_in_head(text, needle@, end as int, hit);
            }
            hit
        };
        proof {
            lemma_last_at(text, needle@, end as int, hit);
        }
        match hit {
            None => None,
            Some(at) => {
                proof {
                    self.lemma_match_starts(needle@, at as int);
                }
                let start_pos = self.position_of_byte(at);
                let end_pos = if self.rope.is_some() {
                    advance_position_by_bytes(start_pos, needle)
                } else {
                    self.mmap_position_for_byte_offset(at + needle.len())
                };
                Some(SearchMatch::new(TextRange::new(start_pos, needle_units), end_pos))
            },
        }
    }
}

proof fn lemma_first_in_rest(text: Seq<u8>, needle: Seq<u8>, from: int, hit: Option<usize>)
    requires
        0 <= from <= text.len() <= usize::MAX,
        needle.len() > 0,
        is_first(text.subrange(from, text.len() as int), needle, 0, hit),
    ensures
        is_first(
            text,
            needle,
            from,
            match hit {
                Some(rel) => Some((from + rel) as usize),
                None => None,
            },
        ),
        hit is Some ==> from + hit->Some_0 + needle.len() <= text.len(),
{
    let len = text.len() as int;
    let rest = text.subrange(from, len);
    match hit {
        Some(rel) => {
            lemma_occurs_part(text, needle, from, len, rel as int);
            assert forall|i: int| from <= i < from + rel implies !occurs(text, needle, i) by {
                lemma_occurs_part(text, needle, from, len, i - from);
                assert(!occurs(rest, needle, i - from));
            }
        },
        None => {
            assert forall|i: int| from <= i implies !occurs(text, needle, i) by {
                lemma_occurs_part(text, needle, from, len, i - from);
                assert(!occurs(rest, needle, i - from));
            }
        },
    }
}

proof fn lemma_last_in_head(text: Seq<u8>, needle: Seq<u8>, end: int, hit: Option<usize>)
    requires
        0 <= end <= text.len(),
        needle.len() > 0,
        is_last(text.subrange(0, end), needle, end, hit),
    ensures
        is_last(text, needle, end, hit),
{
    let head = text.subrange(0, end);
    match hit {
        Some(at) => {
            lemma_occurs_part(text, needle, 0, end, at as int);
            assert forall|i: int| at < i && i + needle.len() <= end implies !occurs(
                text,
                needle,
                i,
            ) by {
                lemma_occurs_part(text, needle, 0, end, i);
                assert(!occurs(head, needle, i));
            }
        },
        None => {
            assert forall|i: int| i + needle.len() <= end implies !occurs(text, needle, i) by {
                lemma_occurs_part(text, needle, 0, end, i);
                assert(!occurs(head, needle, i));
            }
        },
    }
}

/// The place in front of the line end that ends a text.
proof fn lemma_trailing_place(text: Seq<u8>)
    requires
        0 < text.len() <= usize::MAX,
        ends_line(text, text.len() - 1),
    ensures
        ({
            let line0 = (last_line(text) - 1) as nat;
            let at = text.len() - newline_len(text, text.len() as int);
            &&& last_line(text) >= 1
            &&& position_at(text, at) == (TextPosition {
                line0: line0 as usize,
                col0: cols_of_line(text, line0) as usize,
            })
            &&& forall|i: int| at <= i < text.len() ==> is_either(#[trigger] text[i], LF, CR)
        }),
{
    let len = text.len() as int;
    let at = len - newline_len(text, len);
    lemma_line_ends_monotone(text, 0, len - 1);
    assert(line_ends(text, 0) == 0);
    assert(line_ends(text, len) == line_ends(text, len - 1) + 1);
    let line0 = (last_line(text) - 1) as nat;
    lemma_line_start_at(text, 0, line0);
    let start = line_start(text, line0);
    if start > at {
        lemma_line_ends_monotone(text, start, len - 1);
        assert(start == len - 1 || start == len);
        if start == len - 1 {
            assert(newline_len(text, len) == 2);
            assert(ends_line(text, start - 1));
        }
    }
    assert forall|i: int| start <= i < at implies !is_either(#[trigger] text[i], LF, CR) by {
        if is_either(text[i], LF, CR) {
            if ends_line(text, i) {
                assert(line_ends(text, i + 1) == line_ends(text, i) + 1);
                lemma_line_ends_monotone(text, start, i);
                lemma_line_ends_monotone(text, i + 1, len - 1);
            } else {
                assert(ends_line(text, i + 1));
                assert(line_ends(text, i + 2) == line_ends(text, i + 1) + 1);
                lemma_line_ends_monotone(text, start, i + 1);
                if i + 2 <= len - 1 {
                    lemma_line_ends_monotone(text, i + 2, len - 1);
                }
            }
        }
    }
    let state = PositionScanState { line0: line0 as usize, col0: 0, prev_was_cr: false };
    lemma_position_from_line(text, start, at);
    lemma_scan_cols(text, start, at, state);
    lemma_cols_stop(text, start, at);
    lemma_range_bounds(text, start, at, 0);
}

/// A line has the columns up to its line end.
proof fn lemma_cols_stop(text: Seq<u8>, i: int, stop: int)
    requires
        0 <= i <= stop < text.len(),
        is_either(text[stop], LF, CR),
        forall|k: int| i <= k < stop ==> !is_either(#[trigger] text[k], LF, CR),
    ensures
        line_cols(text, i, text.len() as int) == line_cols(text, i, stop),
    decreases stop - i,
{
    if i < stop {
        assert(!is_either(text[i], LF, CR));
        lemma_width_boundary(text, i, stop, text.len() as int);
        lemma_cols_stop(text, i + char_width(text, i, stop), stop);
    }
}

impl Document {
    /// The last match that ends by `before` in a piece table.
    fn find_prev_in_piece_table(
        &self,
        table: &PieceTable,
        needle: &[u8],
        needle_units: usize,
        before: TextPosition,
    ) -> (found: Option<SearchMatch>)
        requires
            self.wf(),
            self.rope is None,
            self.piece_table == Some(*table),
            is_needle(needle@),
            needle_units == text_units(needle@, 0, needle@.len() as int),
        ensures
            found == self.spec_find_prev(needle@, before),
    {
        let ghost text = self.text();
        proof {
            table.lemma_len();
        }
        let (clamped, place) = table.place(before);
        let mut search_before = clamped;
        let mut end_offset: usize = 0;
        match place {
            Some(at) => {
                end_offset = at;
            },
            None => {
                // A position behind the indexed text that cannot be found must not let the
                // search reach text behind it.
                end_offset = table.known_byte_len;
                search_before = table.position_for_byte_offset(end_offset);
            },
        }
        let ghost goal = end_offset;
        if memchr::memchr2(LF, CR, needle).is_none() {
            let anchor = table.prev_search_anchor_before_trailing_newline(clamped, end_offset);
            if let Some((adjusted_before, adjusted_end)) = anchor {
                proof {
                    let len = text.len() as int;
                    assert(ends_line(text, len - 1));
                    lemma_trailing_place(text);
                    let own = last_line(text);
                    lemma_scan_line(text, 0, len, zero_state());
                    lemma_line_ends_monotone(text, 0, len);
                    lemma_before_newline(text, needle@, adjusted_end as int);
                    if adjusted_before.col0 != 0 {
                        if place is None {
                            assert(!table.full_index);
                            assert(table.known_line_count == own);
                        }
                        assert(clamped.line0 == own);
                    }
                }
                search_before = adjusted_before;
                end_offset = adjusted_end;
            }
        }
        assert(search_before.col0 == 0 || search_before == position_at(text, end_offset as int));
        let hit = table.find_literal_prev(end_offset, needle);
        proof {
            lemma_last_at(text, needle@, end_offset as int, hit);
        }
        match hit {
            None => None,
            Some(at) => {
                proof {
                    self.lemma_match_starts(needle@, at as int);
                    lemma_counted(text, end_offset as int, search_before, at as int);
                }
                let near = table.position_for_byte_offset_before_same_line(
                    end_offset,
                    search_before,
                    at,
                );
                let start_pos = match near {
                    Some(start_pos) => start_pos,
                    None => table.position_for_byte_offset(at),
                };
                let end_pos = advance_position_by_bytes(start_pos, needle);
                Some(SearchMatch::new(TextRange::new(start_pos, needle_units), end_pos))
            },
        }
    }
}

/// What is counted back is the place of the byte.
proof fn lemma_counted(text: Seq<u8>, anchor: int, anchor_position: TextPosition, at: int)
    requires
        0 <= at < anchor <= text.len() <= usize::MAX,
        !is_continuation(text[at]),
        anchor_position.col0 == 0 || anchor_position == position_at(text, anchor),
    ensures
        match counted_back(text, anchor, anchor_position, at) {
            Some(position) => position == position_at(text, at),
            None => true,
        },
{
    let part = text.subrange(at, anchor);
    if anchor_position.col0 != 0 && !(exists|i: int|
        0 <= i < part.len() && is_either(#[trigger] part[i], LF, CR)) {
        assert forall|i: int| at <= i < anchor implies !is_either(#[trigger] text[i], LF, CR) by {
            assert(part[i - at] == text[i]);
        }
        lemma_counted_back(text, at, anchor);
    }
}

/// A needle without a line end does not reach into the line end of the text.
proof fn lemma_before_newline(text: Seq<u8>, needle: Seq<u8>, at: int)
    requires
        needle.len() > 0,
        0 <= at <= text.len(),
        forall|i: int| at <= i < text.len() ==> is_either(#[trigger] text[i], LF, CR),
        forall|i: int| 0 <= i < needle.len() ==> !is_either(#[trigger] needle[i], LF, CR),
    ensures
        last_at(text, needle, at) == last_at(text, needle, text.len() as int),
    decreases text.len() - at,
{
    lemma_shorter(text, needle, at, text.len() as int);
}

proof fn lemma_shorter(text: Seq<u8>, needle: Seq<u8>, at: int, end: int)
    requires
        needle.len() > 0,
        0 <= at <= end <= text.len(),
        forall|i: int| at <= i < text.len() ==> is_either(#[trigger] text[i], LF, CR),
        forall|i: int| 0 <= i < needle.len() ==> !is_either(#[trigger] needle[i], LF, CR),
    ensures
        last_at(text, needle, at) == last_at(text, needle, end),
    decreases end - at,
{
    if at < end {
        if end >= needle.len() && occurs(text, needle, end - needle.len()) {
            let from = end - needle.len();
            assert(text.subrange(from, end)[needle.len() - 1] == text[end - 1]);
            assert(!is_either(needle[needle.len() - 1], LF, CR));
        }
        lemma_shorter(text, needle, at, end - 1);
    }
}


/// A text to search for again and again.
#[derive(Debug)]
pub struct LiteralSearchQuery {
    needle: String,
    needle_units: usize,
}

impl LiteralSearchQuery {
    #[verifier::type_invariant]
    spec fn inv(self) -> bool {
        &&& self.needle@.len() > 0
        &&& self.needle_units == text_units(
            encode_utf8(self.needle@),
            0,
            encode_utf8(self.needle@).len() as int,
        )
    }

    /// The text to search for.
    pub closed spec fn spec_needle(self) -> Seq<char> {
        self.needle@
    }

    /// A query for a text that is not empty.
    pub fn new(needle: &str) -> (query: Option<LiteralSearchQuery>)
        ensures
            needle@.len() == 0 ==> query is None,
            needle@.len() > 0 ==> query is Some && query->Some_0.spec_needle() == needle@,
    {
        if needle.is_empty() {
            return None;
        }
        let needle_units: usize = search_text_units(needle);
        Some(LiteralSearchQuery { needle: String::from_str(needle), needle_units })
    }

    pub fn needle(&self) -> (needle: &str)
        ensures
            needle@ == self.spec_needle(),
            needle@.len() > 0,
    {
        proof {
            use_type_invariant(self);
        }
        self.needle.as_str()
    }

    /// How many text units the text has.
    pub fn len_chars(&self) -> (units: usize)
        ensures
            units == text_units(
                encode_utf8(self.spec_needle()),
                0,
                encode_utf8(self.spec_needle()).len() as int,
            ),
    {
        proof {
            use_type_invariant(self);
        }
        self.needle_units
    }

    pub(crate) fn bytes(&self) -> (bytes: &[u8])
        ensures
            bytes@ == encode_utf8(self.spec_needle()),
            is_needle(bytes@),
    {
        proof {
            use_type_invariant(self);
            lemma_needle(self.needle@);
        }
        self.needle.as_str().as_bytes()
    }
}

impl Clone for LiteralSearchQuery {
    fn clone(&self) -> (query: LiteralSearchQuery)
        ensures
            query.spec_needle() == self.spec_needle(),
    {
        proof {
            use_type_invariant(self);
        }
        LiteralSearchQuery { needle: self.needle.clone(), needle_units: self.needle_units }
    }
}

impl Document {
    /// The first match at `from` or behind it.
    pub fn find_next(&self, needle: &str, from: TextPosition) -> (found: Option<SearchMatch>)
        requires
            self.wf(),
        ensures
            found == self.spec_find_next(encode_utf8(needle@), from),
    {
        proof {
            lemma_needle(needle@);
        }
        if needle.is_empty() {
            return None;
        }
        self.find_next_with_finder(needle.as_bytes(), search_text_units(needle), from)
    }

    /// The last match that ends by `before`.
    pub fn find_prev(&self, needle: &str, before: TextPosition) -> (found: Option<SearchMatch>)
        requires
            self.wf(),
        ensures
            found == self.spec_find_prev(encode_utf8(needle@), before),
    {
        proof {
            lemma_needle(needle@);
        }
        if needle.is_empty() {
            return None;
        }
        self.find_prev_with_finder(needle.as_bytes(), search_text_units(needle), before)
    }

    /// The first match at `from` or behind it.
    pub fn find_next_query(&self, query: &LiteralSearchQuery, from: TextPosition) -> (found: Option<
        SearchMatch,
    >)
        requires
            self.wf(),
        ensures
            found == self.spec_find_next(encode_utf8(query.spec_needle()), from),
    {
        self.find_next_with_finder(query.bytes(), query.len_chars(), from)
    }

    /// The last match that ends by `before`.
    pub fn find_prev_query(&self, query: &LiteralSearchQuery, before: TextPosition) -> (found: Option<
        SearchMatch,
    >)
        requires
            self.wf(),
        ensures
            found == self.spec_find_prev(encode_utf8(query.spec_needle()), before),
    {
        self.find_prev_with_finder(query.bytes(), query.len_chars(), before)
    }

    /// The places where a range starts and ends.
    pub fn search_range_bounds(&self, range: TextRange) -> (bounds: (TextPosition, TextPosition))
        requires
            self.wf(),
        ensures
            bounds == self.spec_range_bounds(range),
    {
        let (start, from) = self.search_place(range.start());
        let to: usize = self.advance_offset(from, range.len_chars());
        let bytes = self.text_bytes(from, to);
        (start, advance_position_by_bytes(start, bytes.as_slice()))
    }

    fn find_next_bounded_with_finder(
        &self,
        needle: &[u8],
        needle_units: usize,
        start: TextPosition,
        end: TextPosition,
    ) -> (found: Option<SearchMatch>)
        requires
            self.wf(),
            is_needle(needle@),
            needle_units == text_units(needle@, 0, needle@.len() as int),
        ensures
            found == self.spec_find_next_bounded(needle@, (start, end)),
    {
        if end.le(start) {
            return None;
        }
        match self.find_next_with_finder(needle, needle_units, start) {
            Some(found) => if found.end().le(end) {
                Some(found)
            } else {
                None
            },
            None => None,
        }
    }

    fn find_prev_bounded_with_finder(
        &self,
        needle: &[u8],
        needle_units: usize,
        start: TextPosition,
        end: TextPosition,
    ) -> (found: Option<SearchMatch>)
        requires
            self.wf(),
            is_needle(needle@),
            needle_units == text_units(needle@, 0, needle@.len() as int),
        ensures
            found == self.spec_find_prev_bounded(needle@, (start, end)),
    {
        if end.le(start) {
            return None;
        }
        match self.find_prev_with_finder(needle, needle_units, end) {
            Some(found) => if start.le(found.start()) {
                Some(found)
            } else {
                None
            },
            None => None,
        }
    }

    /// The first match in a range.
    pub fn find_next_in_range(&self, needle: &str, range: TextRange) -> (found: Option<SearchMatch>)
        requires
            self.wf(),
        ensures
            found == self.spec_find_next_bounded(
                encode_utf8(needle@),
                self.spec_range_bounds(range),
            ),
    {
        proof {
            lemma_needle(needle@);
        }
        if needle.is_empty() {
            return None;
        }
        let (start, end) = self.search_range_bounds(range);
        self.find_next_bounded_with_finder(needle.as_bytes(), search_text_units(needle), start, end)
    }

    /// The first match between two positions.
    pub fn find_next_between(&self, needle: &str, start: TextPosition, end: TextPosition) -> (found:
        Option<SearchMatch>)
        requires
            self.wf(),
        ensures
            found == self.spec_find_next_bounded(
                encode_utf8(needle@),
                self.spec_ordered(start, end),
            ),
    {
        proof {
            lemma_needle(needle@);
        }
        if needle.is_empty() {
            return None;
        }
        let (first, second) = self.ordered_positions(start, end);
        self.find_next_bounded_with_finder(
            needle.as_bytes(),
            search_text_units(needle),
            first,
            second,
        )
    }

    /// The last match in a range.
    pub fn find_prev_in_range(&self, needle: &str, range: TextRange) -> (found: Option<SearchMatch>)
        requires
            self.wf(),
        ensures
            found == self.spec_find_prev_bounded(
                encode_utf8(needle@),
                self.spec_range_bounds(range),
            ),
    {
        proof {
            lemma_needle(needle@);
        }
        if needle.is_empty() {
            return None;
        }
        let (start, end) = self.search_range_bounds(range);
        self.find_prev_bounded_with_finder(needle.as_bytes(), search_text_units(needle), start, end)
    }

    /// The last match between two positions.
    pub fn find_prev_between(&self, needle: &str, start: TextPosition, end: TextPosition) -> (found:
        Option<SearchMatch>)
        requires
            self.wf(),
        ensures
            found == self.spec_find_prev_bounded(
                encode_utf8(needle@),
                self.spec_ordered(start, end),
            ),
    {
        proof {
            lemma_needle(needle@);
        }
        if needle.is_empty() {
            return None;
        }
        let (first, second) = self.ordered_positions(start, end);
        self.find_prev_bounded_with_finder(
            needle.as_bytes(),
            search_text_units(needle),
            first,
            second,
        )
    }

    /// The first match in a range.
    pub fn find_next_query_in_range(&self, query: &LiteralSearchQuery, range: TextRange) -> (found:
        Option<SearchMatch>)
        requires
            self.wf(),
        ensures
            found == self.spec_find_next_bounded(
                encode_utf8(query.spec_needle()),
                self.spec_range_bounds(range),
            ),
    {
        let (start, end) = self.search_range_bounds(range);
        self.find_next_bounded_with_finder(query.bytes(), query.len_chars(), start, end)
    }

    /// The first match between two positions.
    pub fn find_next_query_between(
        &self,
        query: &LiteralSearchQuery,
        start: TextPosition,
        end: TextPosition,
    ) -> (found: Option<SearchMatch>)
        requires
            self.wf(),
        ensures
            found == self.spec_find_next_bounded(
                encode_utf8(query.spec_needle()),
                self.spec_ordered(start, end),
            ),
    {
        let (first, second) = self.ordered_positions(start, end);
        self.find_next_bounded_with_finder(query.bytes(), query.len_chars(), first, second)
    }

    /// The last match in a range.
    pub fn find_prev_query_in_range(&self, query: &LiteralSearchQuery, range: TextRange) -> (found:
        Option<SearchMatch>)
        requires
            self.wf(),
        ensures
            found == self.spec_find_prev_bounded(
                encode_utf8(query.spec_needle()),
                self.spec_range_bounds(range),
            ),
    {
        let (start, end) = self.search_range_bounds(range);
        self.find_prev_bounded_with_finder(query.bytes(), query.len_chars(), start, end)
    }

    /// The last match between two positions.
    pub fn find_prev_query_between(
        &self,
        query: &LiteralSearchQuery,
        start: TextPosition,
        end: TextPosition,
    ) -> (found: Option<SearchMatch>)
        requires
            self.wf(),
        ensures
            found == self.spec_find_prev_bounded(
                encode_utf8(query.spec_needle()),
                self.spec_ordered(start, end),
            ),
    {
        let (first, second) = self.ordered_positions(start, end);
        self.find_prev_bounded_with_finder(query.bytes(), query.len_chars(), first, second)
    }
}

} // verus!
