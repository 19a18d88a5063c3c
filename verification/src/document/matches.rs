//! All matches of a text, one after the other.

use crate::document::positions::{
    clamp_in, law_clamp_idempotent, lemma_cr_before, lemma_match_end, lemma_position_of_offset,
    zero_state,
};
use crate::document::rope::{char_offset, lemma_char_at, lemma_char_offsets};
use crate::document::search::{is_needle, lemma_needle, match_of, LiteralSearchQuery};
use crate::document::state::Document;
use crate::document::text::{
    advance_position_by_bytes, advanced, char_width, lemma_scan_boundary, lemma_scan_subrange,
    position_at, scan_to, step_state, PositionScanState,
};
use crate::document::types::{SearchMatch, TextPosition, TextRange};
use crate::scan::{first_at, is_first, lemma_first_at, lemma_first_at_is, lemma_occurs_part, occurs, CR, LF};
use crate::tree_model::max_int;
use vstd::prelude::*;
use vstd::utf8::encode_utf8;

verus! {

/// Up to this many bytes are read at once to look for all matches in them.
pub const BUFFERED_LITERAL_RANGE_MAX_BYTES: usize = 8_388_608;

/// Where a walk over matches stands.
pub ghost struct SearchCursor {
    pub text: Seq<u8>,
    /// What is looked for; nothing is found where it is empty.
    pub needle: Seq<u8>,
    pub position: TextPosition,
    pub offset: int,
    /// Where a match has to end at the latest.
    pub limit: int,
    /// The place where a match has to end at the latest, if it cannot be found in the text.
    pub bound: Option<TextPosition>,
}

impl SearchCursor {
    /// Where the next match is, as far as bytes can tell.
    pub open spec fn candidate(self) -> Option<int> {
        if self.needle.len() == 0 {
            None
        } else {
            match first_at(self.text, self.needle, self.offset) {
                Some(at) => if self.offset <= at && at + self.needle.len() <= self.limit {
                    Some(at)
                } else {
                    None
                },
                None => None,
            }
        }
    }

    /// Where the next match is.
    pub open spec fn upcoming(self) -> Option<int> {
        match self.candidate() {
            Some(at) => match self.bound {
                Some(bound) => if self.match_at(at).end.spec_le(bound) {
                    Some(at)
                } else {
                    None
                },
                None => Some(at),
            },
            None => None,
        }
    }

    /// The match at `at`, which is the next one.
    pub open spec fn match_at(self, at: int) -> SearchMatch {
        let start = advanced(self.position, self.text.subrange(self.offset, at));
        match_of(self.needle, start, advanced(start, self.needle))
    }

    /// The walk goes on behind the match at `at`.
    pub open spec fn behind(self, at: int) -> SearchCursor {
        SearchCursor {
            position: self.match_at(at).end,
            offset: at + self.needle.len(),
            ..self
        }
    }

    /// The places of all matches that are still to come.
    pub open spec fn places(self) -> Seq<int>
        decreases self.limit - self.offset,
    {
        match self.upcoming() {
            Some(at) => seq![at] + self.behind(at).places(),
            None => Seq::empty(),
        }
    }

    /// All matches that are still to come.
    pub open spec fn matches(self) -> Seq<SearchMatch>
        decreases self.limit - self.offset,
    {
        match self.upcoming() {
            Some(at) => seq![self.match_at(at)] + self.behind(at).matches(),
            None => Seq::empty(),
        }
    }

    /// Places behind the offset can be counted from the position.
    pub open spec fn is_true(self) -> bool {
        forall|end: int|
            self.offset <= end <= self.text.len() ==> #[trigger] advanced(
                self.position,
                self.text.subrange(self.offset, end),
            ) == position_at(self.text, end)
    }
}

/// Matches do not overlap, and lie between the start and the limit of the walk.
pub proof fn law_matches_disjoint(cursor: SearchCursor)
    requires
        0 <= cursor.offset,
    ensures
        ({
            let places = cursor.places();
            &&& places.len() == cursor.matches().len()
            &&& forall|i: int|
                0 <= i < places.len() ==> {
                    &&& cursor.offset <= #[trigger] places[i]
                    &&& places[i] + cursor.needle.len() <= cursor.limit
                    &&& occurs(cursor.text, cursor.needle, places[i])
                }
            &&& forall|i: int, j: int|
                0 <= i < j < places.len() ==> #[trigger] places[i] + cursor.needle.len()
                    <= #[trigger] places[j]
        }),
    decreases cursor.limit - cursor.offset,
{
    match cursor.upcoming() {
        Some(at) => {
            let rest = cursor.behind(at);
            lemma_first_at_is(cursor.text, cursor.needle, cursor.offset);
            law_matches_disjoint(rest);
            let places = cursor.places();
            assert forall|i: int| 0 <= i < places.len() implies {
                &&& cursor.offset <= #[trigger] places[i]
                &&& places[i] + cursor.needle.len() <= cursor.limit
                &&& occurs(cursor.text, cursor.needle, places[i])
            } by {
                if i > 0 {
                    assert(places[i] == rest.places()[i - 1]);
                }
            }
            assert forall|i: int, j: int| 0 <= i < j < places.len() implies #[trigger] places[i]
                + cursor.needle.len() <= #[trigger] places[j] by {
                assert(places[j] == rest.places()[j - 1]);
                if i > 0 {
                    assert(places[i] == rest.places()[i - 1]);
                }
            }
        },
        None => {},
    }
}

/// No occurrence is left out unless it starts inside a match.
pub proof fn law_matches_complete(cursor: SearchCursor, place: int)
    requires
        cursor.bound is None,
        0 <= cursor.offset <= place,
        cursor.needle.len() > 0,
        place + cursor.needle.len() <= cursor.limit,
        occurs(cursor.text, cursor.needle, place),
    ensures
        exists|i: int|
            0 <= i < cursor.places().len() && #[trigger] cursor.places()[i] <= place
                < cursor.places()[i] + cursor.needle.len(),
    decreases cursor.limit - cursor.offset,
{
    lemma_first_at_is(cursor.text, cursor.needle, cursor.offset);
    let at = cursor.upcoming()->Some_0;
    assert(cursor.upcoming() is Some && at <= place);
    let rest = cursor.behind(at);
    if place < at + cursor.needle.len() {
        assert(cursor.places()[0] == at);
    } else {
        law_matches_complete(rest, place);
        let i = choose|i: int|
            0 <= i < rest.places().len() && #[trigger] rest.places()[i] <= place
                < rest.places()[i] + cursor.needle.len();
        assert(cursor.places()[i + 1] == rest.places()[i]);
    }
}

/// No match splits a line end of two bytes.
pub open spec fn keeps_line_ends(text: Seq<u8>, needle: Seq<u8>) -> bool {
    ||| needle.len() > 0 && needle[0] != LF && needle[needle.len() - 1] != CR
    ||| forall|i: int| 0 <= i < text.len() ==> #[trigger] text[i] != CR
}

/// A scan over whole characters can be taken up behind them.
pub proof fn lemma_scan_chars(
    text: Seq<u8>,
    chars: Seq<char>,
    at: int,
    c: int,
    end: int,
    state: PositionScanState,
)
    requires
        occurs(text, encode_utf8(chars), at),
        0 <= c <= chars.len(),
        at + encode_utf8(chars).len() <= end <= text.len(),
    ensures
        ({
            let stop = at + encode_utf8(chars).len();
            let i = at + char_offset(chars, c);
            scan_to(text, i, end, state) == scan_to(text, stop, end, scan_to(text, i, stop, state))
        }),
    decreases chars.len() - c,
{
    let bytes = encode_utf8(chars);
    let stop = at + bytes.len();
    let i = at + char_offset(chars, c);
    lemma_char_offsets(chars, c, chars.len() as int);
    if c < chars.len() {
        lemma_char_at(chars, c);
        let own = char_offset(chars, c);
        let width = char_width(bytes, own, bytes.len() as int);
        assert forall|k: int| 0 <= k < bytes.len() implies bytes[k] == #[trigger] text[at + k] by {
            assert(text.subrange(at, stop)[k] == text[at + k]);
        }
        assert(bytes[own] == text[at + own]);
        lemma_same_width(text, bytes, at, own, end);
        lemma_same_width(text, bytes, at, own, stop);
        lemma_scan_chars(text, chars, at, c + 1, end, step_state(text, i, state));
    }
}

/// A whole character has the same width wherever it stands.
pub proof fn lemma_same_width(text: Seq<u8>, bytes: Seq<u8>, at: int, own: int, end: int)
    requires
        0 <= at,
        0 <= own < bytes.len(),
        at + bytes.len() <= end <= text.len(),
        forall|k: int| 0 <= k < bytes.len() ==> bytes[k] == #[trigger] text[at + k],
        own + char_width(bytes, own, bytes.len() as int) <= bytes.len(),
        char_width(bytes, own, bytes.len() as int) > 1 || crate::document::text::lead_width(
            bytes[own],
        ) == 1,
    ensures
        char_width(text, at + own, end) == char_width(bytes, own, bytes.len() as int),
{
    let width = char_width(bytes, own, bytes.len() as int);
    assert(text[at + own] == bytes[own]);
    if width > 1 {
        assert(text[at + (own + 1)] == bytes[own + 1]);
    }
    if width > 2 {
        assert(text[at + (own + 2)] == bytes[own + 2]);
    }
    if width > 3 {
        assert(text[at + (own + 3)] == bytes[own + 3]);
    }
}

/// Behind a match that keeps line ends whole, places can be counted on.
proof fn lemma_behind_is_true(cursor: SearchCursor, chars: Seq<char>, at: int)
    requires
        0 <= cursor.offset <= at,
        cursor.needle == encode_utf8(chars),
        chars.len() > 0,
        cursor.is_true(),
        keeps_line_ends(cursor.text, cursor.needle),
        occurs(cursor.text, cursor.needle, at),
    ensures
        cursor.match_at(at).range.start == position_at(cursor.text, at),
        cursor.match_at(at).end == position_at(cursor.text, at + cursor.needle.len()),
        cursor.behind(at).is_true(),
{
    let text = cursor.text;
    let needle = cursor.needle;
    let stop = at + needle.len();
    lemma_needle(chars);
    let start = cursor.match_at(at).range.start;
    assert(start == position_at(text, at));
    assert(text.subrange(at, stop)[0] == text[at]);
    assert(text.subrange(at, stop)[needle.len() - 1] == text[stop - 1]);
    if at > 0 && needle[0] == LF {
        assert(text[at - 1] != CR);
    }
    lemma_match_end(text, needle, at);
    let rest = cursor.behind(at);
    assert forall|end: int| rest.offset <= end <= text.len() implies #[trigger] advanced(
        rest.position,
        text.subrange(rest.offset, end),
    ) == position_at(text, end) by {
        let there = scan_to(text, 0, stop, zero_state());
        let first = scan_to(text, 0, at, zero_state());
        lemma_scan_boundary(text, 0, at, stop, zero_state());
        lemma_scan_boundary(text, 0, at, end, zero_state());
        lemma_char_offsets(chars, 0, chars.len() as int);
        lemma_scan_chars(text, chars, at, 0, end, first);
        lemma_scan_subrange(
            text,
            stop,
            stop,
            end,
            PositionScanState { prev_was_cr: false, ..there },
        );
        if there.prev_was_cr {
            lemma_cr_before(text, 0, stop, zero_state());
        }
        assert(there.spec_position() == rest.position);
    }
}

/// Every match is reported at the place where it stands, as long as no match splits a line
/// end of two bytes.
pub proof fn law_matches_are_where_they_are(cursor: SearchCursor, chars: Seq<char>)
    requires
        0 <= cursor.offset,
        cursor.needle == encode_utf8(chars),
        chars.len() > 0,
        cursor.is_true(),
        keeps_line_ends(cursor.text, cursor.needle),
    ensures
        cursor.places().len() == cursor.matches().len(),
        forall|i: int|
            0 <= i < cursor.matches().len() ==> {
                &&& (#[trigger] cursor.matches()[i]).range.start == position_at(
                    cursor.text,
                    cursor.places()[i],
                )
                &&& cursor.matches()[i].end == position_at(
                    cursor.text,
                    cursor.places()[i] + cursor.needle.len(),
                )
            },
    decreases cursor.limit - cursor.offset,
{
    match cursor.upcoming() {
        Some(at) => {
            lemma_first_at_is(cursor.text, cursor.needle, cursor.offset);
            lemma_needle(chars);
            lemma_behind_is_true(cursor, chars, at);
            let rest = cursor.behind(at);
            law_matches_are_where_they_are(rest, chars);
            assert forall|i: int| 0 <= i < cursor.matches().len() implies {
                &&& (#[trigger] cursor.matches()[i]).range.start == position_at(
                    cursor.text,
                    cursor.places()[i],
                )
                &&& cursor.matches()[i].end == position_at(
                    cursor.text,
                    cursor.places()[i] + cursor.needle.len(),
                )
            } by {
                if i > 0 {
                    assert(cursor.matches()[i] == rest.matches()[i - 1]);
                    assert(cursor.places()[i] == rest.places()[i - 1]);
                }
            }
        },
        None => {},
    }
}

/// A walk that starts at a position of the text counts true places.
pub proof fn law_walk_starts_true(cursor: SearchCursor, position: TextPosition)
    requires
        cursor.text.len() <= usize::MAX,
        cursor.position == clamp_in(cursor.text, position),
        cursor.offset == crate::document::positions::offset_in(cursor.text, cursor.position),
    ensures
        cursor.is_true(),
{
    law_clamp_idempotent(cursor.text, position);
    assert forall|end: int| cursor.offset <= end <= cursor.text.len() implies #[trigger] advanced(
        cursor.position,
        cursor.text.subrange(cursor.offset, end),
    ) == position_at(cursor.text, end) by {
        lemma_position_of_offset(cursor.text, cursor.position, end);
    }
}

/// Bytes that are read at once, from `base_offset` on.
#[derive(Debug)]
struct BufferedLiteralSearchRange {
    base_offset: usize,
    bytes: Vec<u8>,
}

/// A walk over the matches of a text in a document. Matches do not overlap: each search goes
/// on behind the last match.
#[derive(Debug)]
pub struct LiteralSearchIter<'a> {
    doc: &'a Document,
    query: Option<LiteralSearchQuery>,
    next_from: TextPosition,
    next_offset: usize,
    limit: usize,
    bound: Option<TextPosition>,
    buffered_range: Option<BufferedLiteralSearchRange>,
    finished: bool,
}

impl<'a> LiteralSearchIter<'a> {
    /// Where the walk stands.
    pub closed spec fn cursor(self) -> SearchCursor {
        SearchCursor {
            text: self.doc.text(),
            needle: match self.query {
                Some(query) => encode_utf8(query.spec_needle()),
                None => Seq::empty(),
            },
            position: self.next_from,
            offset: self.next_offset as int,
            limit: self.limit as int,
            bound: self.bound,
        }
    }

    pub closed spec fn wf(self) -> bool {
        &&& self.doc.wf()
        &&& self.next_offset <= self.doc.text().len()
        &&& self.limit <= self.doc.text().len()
        &&& self.finished ==> self.cursor().upcoming() is None
        &&& match self.buffered_range {
            Some(buffered) => {
                let base = buffered.base_offset as int;
                let end = max_int(self.limit as int, base);
                &&& base <= self.next_offset <= end <= self.doc.text().len()
                &&& buffered.bytes@ == self.doc.text().subrange(base, end)
            },
            None => true,
        }
    }

    /// A walk over the matches between two places; to the end of the text without the second.
    fn from_query(
        doc: &'a Document,
        query: Option<LiteralSearchQuery>,
        from: TextPosition,
        end: Option<TextPosition>,
    ) -> (iter: LiteralSearchIter<'a>)
        requires
            doc.wf(),
        ensures
            iter.wf(),
            iter.cursor() == doc.spec_cursor(
                match query {
                    Some(query) => encode_utf8(query.spec_needle()),
                    None => Seq::empty(),
                },
                from,
                end,
            ),
    {
        let (next_from, next_offset) = doc.search_place(from);
        let text_len: usize = doc.text_len();
        let (limit, bound): (usize, Option<TextPosition>) = match end {
            Some(end) => {
                let (clamped, found) = doc.locate(end);
                match found {
                    Some(at) => (at, None),
                    None => (text_len, Some(clamped)),
                }
            },
            None => (text_len, None),
        };
        let buffered_range = if query.is_some() {
            match doc.buffered_literal_range(next_offset, limit) {
                Some(bytes) => Some(BufferedLiteralSearchRange { base_offset: next_offset, bytes }),
                None => None,
            }
        } else {
            None
        };
        LiteralSearchIter {
            doc,
            query,
            next_from,
            next_offset,
            limit,
            bound,
            buffered_range,
            finished: false,
        }
    }

    /// Where the next match is, as far as bytes can tell.
    fn next_place(&self, needle: &[u8]) -> (found: Option<usize>)
        requires
            self.wf(),
            is_needle(needle@),
            self.cursor().needle == needle@,
        ensures
            self.cursor().candidate() == (match found {
                Some(at) => Some(at as int),
                None => None,
            }),
            found is Some ==> self.next_offset <= found->Some_0 && found->Some_0 + needle@.len()
                <= self.limit,
    {
        let ghost text = self.doc.text();
        proof {
            lemma_first_at_is(text, needle@, self.next_offset as int);
        }
        match &self.buffered_range {
            Some(buffered) => {
                let rel: usize = self.next_offset - buffered.base_offset;
                if rel >= buffered.bytes.len() {
                    return None;
                }
                let rest = vstd::slice::slice_subrange(
                    buffered.bytes.as_slice(),
                    rel,
                    buffered.bytes.len(),
                );
                let hit = memchr::memmem::find(rest, needle);
                proof {
                    assert(rest@ =~= text.subrange(self.next_offset as int, self.limit as int));
                    lemma_first_in_range(
                        text,
                        needle@,
                        self.next_offset as int,
                        self.limit as int,
                        hit,
                    );
                }
                match hit {
                    Some(at) => Some(self.next_offset + at),
                    None => None,
                }
            },
            None => {
                if self.next_offset >= self.limit {
                    return None;
                }
                match self.doc.first_match(needle, self.next_offset) {
                    Some(at) => if at <= self.limit && needle.len() <= self.limit - at {
                        Some(at)
                    } else {
                        None
                    },
                    None => None,
                }
            },
        }
    }

    /// The next match.
    pub fn next(&mut self) -> (found: Option<SearchMatch>)
        requires
            old(self).wf(),
        ensures
            final(self).wf(),
            match old(self).cursor().upcoming() {
                Some(at) => {
                    &&& found == Some(old(self).cursor().match_at(at))
                    &&& final(self).cursor() == old(self).cursor().behind(at)
                },
                None => found is None && final(self).cursor() == old(self).cursor(),
            },
    {
        if self.finished {
            return None;
        }
        let (hit, start_pos, end_pos, needle_len, needle_units) = match &self.query {
            None => return None,
            Some(query) => {
                let needle = query.bytes();
                match self.next_place(needle) {
                    None => (None, self.next_from, self.next_from, 0, 0),
                    Some(at) => {
                        let passed = self.doc.text_bytes(self.next_offset, at);
                        let start_pos = advance_position_by_bytes(
                            self.next_from,
                            passed.as_slice(),
                        );
                        let end_pos = advance_position_by_bytes(start_pos, needle);
                        let inside = match self.bound {
                            Some(bound) => end_pos.le(bound),
                            None => true,
                        };
                        let hit = if inside {
                            Some(at)
                        } else {
                            None
                        };
                        (hit, start_pos, end_pos, needle.len(), query.len_chars())
                    },
                }
            },
        };
        match hit {
            None => {
                self.finished = true;
                None
            },
            Some(at) => {
                self.next_offset = at + needle_len;
                self.next_from = end_pos;
                Some(SearchMatch::new(TextRange::new(start_pos, needle_units), end_pos))
            },
        }
    }

    /// All matches that are still to come.
    pub fn collect(self) -> (found: Vec<SearchMatch>)
        requires
            self.wf(),
        ensures
            found@ == self.cursor().matches(),
    {
        let mut iter = self;
        let mut found: Vec<SearchMatch> = Vec::new();
        let ghost all = iter.cursor().matches();
        assert(found@ + all =~= all);
        loop
            invariant
                iter.wf(),
                found@ + iter.cursor().matches() == all,
            ensures
                found@ == all,
            decreases iter.cursor().limit - iter.cursor().offset,
        {
            let ghost before = iter.cursor();
            match iter.next() {
                Some(next) => {
                    proof {
                        let at = before.upcoming()->Some_0;
                        assert(before.matches() == seq![next] + before.behind(at).matches());
                        assert(found@ + (seq![next] + before.behind(at).matches()) =~= found@.push(
                            next,
                        ) + before.behind(at).matches());
                    }
                    found.push(next);
                },
                None => {
                    assert(before.matches() =~= Seq::empty());
                    assert(found@ + before.matches() =~= found@);
                    break;
                },
            }
        }
        found
    }
}

proof fn lemma_first_in_range(
    text: Seq<u8>,
    needle: Seq<u8>,
    from: int,
    limit: int,
    hit: Option<usize>,
)
    requires
        0 <= from <= limit <= text.len(),
        limit <= usize::MAX,
        needle.len() > 0,
        is_first(text.subrange(from, limit), needle, 0, hit),
    ensures
        match hit {
            Some(rel) => first_at(text, needle, from) == Some(from + rel) && from + rel
                + needle.len() <= limit,
            None => match first_at(text, needle, from) {
                Some(at) => at + needle.len() > limit,
                None => true,
            },
        },
{
    let part = text.subrange(from, limit);
    lemma_first_at_is(text, needle, from);
    match hit {
        Some(rel) => {
            lemma_occurs_part(text, needle, from, limit, rel as int);
            assert forall|i: int| from <= i < from + rel implies !occurs(text, needle, i) by {
                lemma_occurs_part(text, needle, from, limit, i - from);
                assert(!occurs(part, needle, i - from));
            }
            lemma_first_at(text, needle, from, Some((from + rel) as usize));
        },
        None => {
            match first_at(text, needle, from) {
                Some(at) => {
                    lemma_occurs_part(text, needle, from, limit, at - from);
                    assert(!occurs(part, needle, at - from));
                },
                None => {},
            }
        },
    }
}

impl Document {
    /// A walk over the matches of `needle` between two positions.
    pub open spec fn spec_cursor(
        self,
        needle: Seq<u8>,
        from: TextPosition,
        end: Option<TextPosition>,
    ) -> SearchCursor {
        SearchCursor {
            text: self.text(),
            needle,
            position: self.spec_clamp(from),
            offset: self.spec_search_offset(from),
            limit: match end {
                Some(end) => self.spec_search_offset(end),
                None => self.text().len() as int,
            },
            bound: match end {
                Some(end) => if self.spec_offset(self.spec_clamp(end)) is None {
                    Some(self.spec_clamp(end))
                } else {
                    None
                },
                None => None,
            },
        }
    }

    /// The bytes to search at once, where they are few enough and not held in a rope.
    fn buffered_literal_range(&self, start_offset: usize, end_offset: usize) -> (bytes: Option<
        Vec<u8>,
    >)
        requires
            self.wf(),
            start_offset <= self.text().len(),
            end_offset <= self.text().len(),
        ensures
            bytes is Some == (start_offset >= end_offset || (end_offset - start_offset
                <= BUFFERED_LITERAL_RANGE_MAX_BYTES && self.rope is None)),
            bytes is Some ==> bytes->Some_0@ == self.text().subrange(
                start_offset as int,
                max_int(end_offset as int, start_offset as int),
            ),
    {
        if start_offset >= end_offset {
            let none: Vec<u8> = Vec::new();
            assert(none@ =~= self.text().subrange(start_offset as int, start_offset as int));
            return Some(none);
        }
        if end_offset - start_offset > BUFFERED_LITERAL_RANGE_MAX_BYTES || self.rope.is_some() {
            return None;
        }
        Some(self.text_bytes(start_offset, end_offset))
    }

    /// All matches.
    pub fn find_all(&self, needle: &str) -> (iter: LiteralSearchIter<'_>)
        requires
            self.wf(),
        ensures
            iter.wf(),
            iter.cursor() == self.spec_cursor(
                encode_utf8(needle@),
                TextPosition { line0: 0, col0: 0 },
                None,
            ),
    {
        self.find_all_from(needle, TextPosition::new(0, 0))
    }

    /// All matches at `from` and behind it.
    pub fn find_all_from(&self, needle: &str, from: TextPosition) -> (iter: LiteralSearchIter<'_>)
        requires
            self.wf(),
        ensures
            iter.wf(),
            iter.cursor() == self.spec_cursor(encode_utf8(needle@), from, None),
    {
        proof {
            lemma_needle(needle@);
            assert(needle@.len() == 0 ==> encode_utf8(needle@) =~= Seq::empty());
        }
        LiteralSearchIter::from_query(self, LiteralSearchQuery::new(needle), from, None)
    }

    /// All matches at `from` and behind it.
    pub fn find_all_query_from(&self, query: &LiteralSearchQuery, from: TextPosition) -> (iter:
        LiteralSearchIter<'_>)
        requires
            self.wf(),
        ensures
            iter.wf(),
            iter.cursor() == self.spec_cursor(encode_utf8(query.spec_needle()), from, None),
    {
        LiteralSearchIter::from_query(self, Some(query.clone()), from, None)
    }

    /// All matches.
    pub fn find_all_query(&self, query: &LiteralSearchQuery) -> (iter: LiteralSearchIter<'_>)
        requires
            self.wf(),
        ensures
            iter.wf(),
            iter.cursor() == self.spec_cursor(
                encode_utf8(query.spec_needle()),
                TextPosition { line0: 0, col0: 0 },
                None,
            ),
    {
        self.find_all_query_from(query, TextPosition::new(0, 0))
    }

    /// A walk over the matches between two places, in either order.
    pub open spec fn spec_cursor_between(
        self,
        needle: Seq<u8>,
        bounds: (TextPosition, TextPosition),
    ) -> SearchCursor {
        let (start, end) = self.spec_ordered(bounds.0, bounds.1);
        self.spec_cursor(needle, start, Some(end))
    }

    fn find_all_between_internal(
        &self,
        query: Option<LiteralSearchQuery>,
        start: TextPosition,
        end: TextPosition,
    ) -> (iter: LiteralSearchIter<'_>)
        requires
            self.wf(),
        ensures
            iter.wf(),
            iter.cursor() == self.spec_cursor_between(
                match query {
                    Some(query) => encode_utf8(query.spec_needle()),
                    None => Seq::empty(),
                },
                (start, end),
            ),
    {
        let (first, second) = self.ordered_positions(start, end);
        LiteralSearchIter::from_query(self, query, first, Some(second))
    }

    /// All matches in a range.
    pub fn find_all_in_range(&self, needle: &str, range: TextRange) -> (iter: LiteralSearchIter<'_>)
        requires
            self.wf(),
        ensures
            iter.wf(),
            iter.cursor() == self.spec_cursor_between(
                encode_utf8(needle@),
                self.spec_range_bounds(range),
            ),
    {
        proof {
            lemma_needle(needle@);
            assert(needle@.len() == 0 ==> encode_utf8(needle@) =~= Seq::empty());
        }
        let (start, end) = self.search_range_bounds(range);
        self.find_all_between_internal(LiteralSearchQuery::new(needle), start, end)
    }

    /// All matches between two positions.
    pub fn find_all_between(&self, needle: &str, start: TextPosition, end: TextPosition) -> (iter:
        LiteralSearchIter<'_>)
        requires
            self.wf(),
        ensures
            iter.wf(),
            iter.cursor() == self.spec_cursor_between(encode_utf8(needle@), (start, end)),
    {
        proof {
            lemma_needle(needle@);
            assert(needle@.len() == 0 ==> encode_utf8(needle@) =~= Seq::empty());
        }
        self.find_all_between_internal(LiteralSearchQuery::new(needle), start, end)
    }

    /// All matches in a range.
    pub fn find_all_query_in_range(&self, query: &LiteralSearchQuery, range: TextRange) -> (iter:
        LiteralSearchIter<'_>)
        requires
            self.wf(),
        ensures
            iter.wf(),
            iter.cursor() == self.spec_cursor_between(
                encode_utf8(query.spec_needle()),
                self.spec_range_bounds(range),
            ),
    {
        let (start, end) = self.search_range_bounds(range);
        self.find_all_query_between(query, start, end)
    }

    /// All matches between two positions.
    pub fn find_all_query_between(
        &self,
        query: &LiteralSearchQuery,
        start: TextPosition,
        end: TextPosition,
    ) -> (iter: LiteralSearchIter<'_>)
        requires
            self.wf(),
        ensures
            iter.wf(),
            iter.cursor() == self.spec_cursor_between(
                encode_utf8(query.spec_needle()),
                (start, end),
            ),
    {
        self.find_all_between_internal(Some(query.clone()), start, end)
    }
}

} // verus!
