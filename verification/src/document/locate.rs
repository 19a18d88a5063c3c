//! The positions of a document, whatever holds its text.

use crate::document::encode::{lossy_text, shows};
use crate::document::navigate::{chars_end, rope_place, rope_position, rope_position_of_byte};
use crate::document::places::lemma_indexed_offset;
use crate::document::positions::{
    clamp_in, cols_of_line, last_line, law_clamp_idempotent, law_position_round_trip,
    lemma_line_start_at, offset_in,
};
use crate::document::rope::{char_offset, chunk_at, lemma_char_offsets, rope_bytes, rope_text};
use crate::document::state::Document;
use crate::document::text::{
    char_width, lead_width, lemma_char_step, lemma_col_valid, lemma_units_valid, line_start,
    position_at, text_units, text_units_in_bytes, unit_end, units_end, utf8_step,
};
use crate::document::types::{TextPosition, TextRange, TextSelection, TextSlice};
use crate::editlog::push_bytes;
use crate::scan::{ends_line, line_ends};
use crate::tree_model::min_int;
use vstd::prelude::*;
use vstd::string::*;
use vstd::utf8::{encode_utf8, valid_utf8};

verus! {

impl Document {
    /// The place that `position` means in the document.
    pub open spec fn spec_clamp(self, position: TextPosition) -> TextPosition {
        match self.piece_table {
            Some(table) if self.rope is None => table.spec_clamp(position),
            _ => clamp_in(self.text(), position),
        }
    }

    /// The byte that a position stands for, where that can be told.
    pub open spec fn spec_offset(self, position: TextPosition) -> Option<int> {
        match self.piece_table {
            Some(table) if self.rope is None => table.spec_scanned_offset(position),
            _ => Some(offset_in(self.text(), position)),
        }
    }

    /// The byte that a forward search from `position` starts at: the end of the text where
    /// the position cannot be found.
    pub open spec fn spec_search_offset(self, position: TextPosition) -> int {
        match self.spec_offset(self.spec_clamp(position)) {
            Some(at) => at,
            None => self.text().len() as int,
        }
    }

    /// The byte up to which text in front of `position` is known: the end of the indexed part
    /// where the position cannot be found.
    pub open spec fn spec_safe_offset(self, position: TextPosition) -> int {
        match self.spec_offset(self.spec_clamp(position)) {
            Some(at) => at,
            None => match self.piece_table {
                Some(table) => table.known_byte_len as int,
                None => 0,
            },
        }
    }

    /// The place that `position` means, and its byte, where that can be told.
    pub fn locate(&self, position: TextPosition) -> (place: (TextPosition, Option<usize>))
        requires
            self.wf(),
        ensures
            place.0 == self.spec_clamp(position),
            match self.spec_offset(place.0) {
                Some(at) => place.1 is Some && place.1->Some_0 == at,
                None => place.1 is None,
            },
            place.1 is Some ==> place.1->Some_0 <= self.text().len(),
            place.1 is Some ==> position_at(self.text(), place.1->Some_0 as int) == place.0,
    {
        if let Some(rope) = &self.rope {
            let (clamped, index) = rope_place(rope, position);
            let at: usize = rope.char_to_byte(index);
            let len: usize = rope.len_bytes();
            proof {
                lemma_char_offsets(rope_text(*rope), index as int, rope_text(*rope).len() as int);
                law_clamp_idempotent(self.text(), position);
                law_position_round_trip(self.text(), clamped);
            }
            return (clamped, Some(at));
        }
        if let Some(table) = &self.piece_table {
            proof {
                table.lemma_len();
            }
            return table.place(position);
        }
        let (clamped, at) = self.mmap_place(position);
        let len: usize = self.file_bytes().len();
        proof {
            law_clamp_idempotent(self.text(), position);
            law_position_round_trip(self.text(), clamped);
        }
        (clamped, Some(at))
    }

    /// The place that `position` means in the document.
    pub fn clamp_position(&self, position: TextPosition) -> (clamped: TextPosition)
        requires
            self.wf(),
        ensures
            clamped == self.spec_clamp(position),
    {
        self.locate(position).0
    }

    pub open spec fn spec_ordered(self, first: TextPosition, second: TextPosition) -> (
        TextPosition,
        TextPosition,
    ) {
        let a = self.spec_clamp(first);
        let b = self.spec_clamp(second);
        if a.spec_le(b) {
            (a, b)
        } else {
            (b, a)
        }
    }

    /// The places that two positions mean, in order.
    pub fn ordered_positions(&self, first: TextPosition, second: TextPosition) -> (pair: (
        TextPosition,
        TextPosition,
    ))
        requires
            self.wf(),
        ensures
            pair == self.spec_ordered(first, second),
            pair.0.spec_le(pair.1),
    {
        let a = self.clamp_position(first);
        let b = self.clamp_position(second);
        if a.le(b) {
            (a, b)
        } else {
            (b, a)
        }
    }

    /// The selection that `selection` means in the document.
    pub fn clamp_selection(&self, selection: TextSelection) -> (clamped: TextSelection)
        requires
            self.wf(),
        ensures
            clamped == (TextSelection {
                anchor: self.spec_clamp(selection.anchor),
                head: self.spec_clamp(selection.head),
            }),
    {
        TextSelection::new(
            self.clamp_position(selection.anchor()),
            self.clamp_position(selection.head()),
        )
    }

    /// How many columns a line has, without its line end.
    pub open spec fn spec_line_len(self, line0: usize) -> nat {
        match self.piece_table {
            Some(table) if self.rope is None => table.spec_line_cols(line0),
            _ => if line0 <= last_line(self.text()) {
                cols_of_line(self.text(), line0 as nat)
            } else {
                0
            },
        }
    }

    /// How many columns a line has, without its line end.
    pub fn line_len_chars(&self, line0: usize) -> (cols: usize)
        requires
            self.wf(),
        ensures
            cols == self.spec_line_len(line0),
    {
        if self.rope.is_none() {
            if let Some(table) = &self.piece_table {
                return table.visible_line_cols(line0);
            }
        }
        let text_len: usize = self.text_len();
        let end = self.clamp_position(TextPosition::new(line0, usize::MAX));
        proof {
            crate::scan::lemma_line_ends_monotone(self.text(), 0, text_len as int);
            let line = min_int(line0 as int, last_line(self.text()) as int);
            crate::document::positions::lemma_line_start_at(self.text(), 0, line as nat);
            crate::document::positions::lemma_cols_bound(
                self.text(),
                crate::document::text::line_start(self.text(), line as nat),
            );
        }
        if end.line0 == line0 {
            end.col0
        } else {
            0
        }
    }

    /// The bytes `start..end` of the text.
    pub fn text_bytes(&self, start: usize, end: usize) -> (bytes: Vec<u8>)
        requires
            self.wf(),
            start <= end <= self.text().len(),
        ensures
            bytes@ == self.text().subrange(start as int, end as int),
    {
        let mut out: Vec<u8> = Vec::new();
        if let Some(rope) = &self.rope {
            let mut pos: usize = start;
            assert(out@ =~= self.text().subrange(start as int, start as int));
            while pos < end
                invariant
                    self.text() == rope_bytes(*rope),
                    start <= pos <= end <= self.text().len(),
                    out@ == self.text().subrange(start as int, pos as int),
                decreases end - pos,
            {
                let (chunk, chunk_start) = chunk_at(rope, pos);
                let chunk_end: usize = if end - chunk_start <= chunk.len() {
                    end - chunk_start
                } else {
                    chunk.len()
                };
                let segment = vstd::slice::slice_subrange(chunk, pos - chunk_start, chunk_end);
                push_bytes(&mut out, segment);
                assert(segment@ =~= self.text().subrange(pos as int, chunk_start + chunk_end));
                pos = chunk_start + chunk_end;
                assert(out@ =~= self.text().subrange(start as int, pos as int));
            }
            return out;
        }
        if let Some(table) = &self.piece_table {
            proof {
                table.lemma_len();
            }
            return table.read_range(start, end);
        }
        push_bytes(&mut out, vstd::slice::slice_subrange(self.file_bytes(), start, end));
        assert(out@ =~= self.text().subrange(start as int, end as int));
        out
    }

    /// The place of a byte that starts a character, or of the end of the text.
    pub(crate) fn position_of_byte(&self, byte: usize) -> (position: TextPosition)
        requires
            self.wf(),
            byte <= self.text().len(),
            self.rope is Some ==> exists|c: int|
                0 <= c <= rope_text(self.rope->Some_0).len() && #[trigger] char_offset(
                    rope_text(self.rope->Some_0),
                    c,
                ) == byte,
        ensures
            position == position_at(self.text(), byte as int),
    {
        if let Some(rope) = &self.rope {
            return rope_position_of_byte(rope, byte);
        }
        if let Some(table) = &self.piece_table {
            proof {
                table.lemma_len();
            }
            return table.position_for_byte_offset(byte);
        }
        self.mmap_position_for_byte_offset(byte)
    }

    /// The place in front of the character with this index.
    pub open spec fn spec_position_of_index(self, char_index: usize) -> TextPosition {
        position_at(self.text(), chars_end(self.text(), 0, char_index as nat))
    }

    /// How many text units stand in front of a position, as far as they are known.
    pub open spec fn spec_index_of_position(self, position: TextPosition) -> nat {
        text_units(self.text(), 0, self.spec_safe_offset(position))
    }

    /// The place in front of the character with this index.
    pub fn position_for_char_index(&self, char_index: usize) -> (position: TextPosition)
        requires
            self.wf(),
        ensures
            position == self.spec_position_of_index(char_index),
    {
        if let Some(rope) = &self.rope {
            let len: usize = rope.len_chars();
            let index: usize = if char_index <= len {
                char_index
            } else {
                len
            };
            proof {
                lemma_char_offsets(rope_text(*rope), 0, rope_text(*rope).len() as int);
                crate::document::navigate::lemma_rope_chars_end(
                    rope_text(*rope),
                    0,
                    char_index as nat,
                );
            }
            return rope_position(rope, index);
        }
        let len: usize = self.text_len();
        let bytes = self.text_bytes(0, len);
        assert(bytes@ =~= self.text());
        let mut at: usize = 0;
        let mut left: usize = char_index;
        while left > 0 && at < len
            invariant
                bytes@ == self.text(),
                at <= len == bytes@.len(),
                chars_end(bytes@, at as int, left as nat) == chars_end(
                    bytes@,
                    0,
                    char_index as nat,
                ),
            decreases left,
        {
            at = at + utf8_step(bytes.as_slice(), at, len);
            left = left - 1;
        }
        self.position_of_byte(at)
    }

    /// How many text units stand in front of a position, as far as they are known.
    pub fn char_index_for_position(&self, position: TextPosition) -> (index: usize)
        requires
            self.wf(),
        ensures
            index == self.spec_index_of_position(position),
    {
        let end: usize = self.safe_offset(position);
        let bytes = self.text_bytes(0, end);
        proof {
            lemma_units_part(self.text(), 0, 0, end as int);
        }
        text_units_in_bytes(bytes.as_slice())
    }

    fn safe_offset(&self, position: TextPosition) -> (at: usize)
        requires
            self.wf(),
        ensures
            at == self.spec_safe_offset(position),
            at <= self.text().len(),
    {
        let (_, found) = self.locate(position);
        match found {
            Some(at) => at,
            None => match &self.piece_table {
                Some(table) => {
                    proof {
                        table.lemma_len();
                    }
                    table.known_byte_len
                },
                None => 0,
            },
        }
    }

    /// How many text units lie between two places, the first of which comes first.
    pub open spec fn spec_units_between(self, start: TextPosition, end: TextPosition) -> nat {
        let (first, second) = self.spec_ordered(start, end);
        text_units(self.text(), self.spec_safe_offset(first), self.spec_safe_offset(second))
    }

    /// How many text units lie between two positions, in either order.
    pub fn text_units_between(&self, start: TextPosition, end: TextPosition) -> (units: usize)
        requires
            self.wf(),
        ensures
            units == self.spec_units_between(start, end),
    {
        let (first, second) = self.ordered_positions(start, end);
        let from: usize = self.safe_offset(first);
        let to: usize = self.safe_offset(second);
        if from >= to {
            return 0;
        }
        let bytes = self.text_bytes(from, to);
        proof {
            lemma_units_part(self.text(), from as int, from as int, to as int);
        }
        text_units_in_bytes(bytes.as_slice())
    }

    /// The range between two positions, in either order.
    pub fn text_range_between(&self, start: TextPosition, end: TextPosition) -> (range: TextRange)
        requires
            self.wf(),
        ensures
            range == self.spec_selection_range(TextSelection { anchor: start, head: end }),
    {
        let (first, _) = self.ordered_positions(start, end);
        TextRange::new(first, self.text_units_between(start, end))
    }

    /// The range that a selection covers.
    pub fn text_range_for_selection(&self, selection: TextSelection) -> (range: TextRange)
        requires
            self.wf(),
        ensures
            range == self.spec_selection_range(selection),
    {
        self.text_range_between(selection.anchor(), selection.head())
    }

    /// The bytes that a range covers, if its start can be found.
    pub open spec fn spec_range_bytes(self, range: TextRange) -> Option<(int, int)> {
        match self.spec_offset(self.spec_clamp(range.start)) {
            Some(start) => Some(
                (
                    start,
                    units_end(
                        self.text(),
                        start,
                        self.text().len() as int,
                        range.len_chars as nat,
                    ),
                ),
            ),
            None => None,
        }
    }

    /// `text` is what is shown of the bytes `start..end`. The characters of a rope are shown as
    /// they are.
    pub open spec fn shows_bytes(self, text: Seq<char>, start: int, end: int) -> bool {
        &&& shows(text, self.text().subrange(start, end))
        &&& self.rope is Some ==> encode_utf8(text) == self.text().subrange(start, end)
    }

    /// `slice` holds the text of a range. It is exact where the start of the range can be found,
    /// and else empty.
    pub open spec fn is_range_text(self, range: TextRange, slice: TextSlice) -> bool {
        match self.spec_range_bytes(range) {
            Some((start, end)) => slice.exact && self.shows_bytes(slice.text@, start, end),
            None => !slice.exact && slice.text@.len() == 0,
        }
    }

    /// The text of a range. Nothing is read, and the result is not exact, where the start of
    /// the range cannot be found.
    pub fn read_text(&self, range: TextRange) -> (slice: TextSlice)
        requires
            self.wf(),
            self.text().len() <= isize::MAX / 3,
        ensures
            self.is_range_text(range, slice),
    {
        let (_, found) = self.locate(range.start());
        match found {
            Some(start) => {
                let end: usize = self.advance_offset(start, range.len_chars());
                let bytes = self.text_bytes(start, end);
                proof {
                    if self.rope is Some {
                        vstd::utf8::encode_utf8_valid_utf8(rope_text(self.rope->Some_0));
                        law_range_of_characters(*self, range);
                    }
                }
                TextSlice::new(lossy_text(bytes.as_slice()), true)
            },
            None => TextSlice::new(String::new(), false),
        }
    }

    /// Where `text_units` text units from `start` on end.
    pub(crate) fn advance_offset(&self, start: usize, text_units: usize) -> (end: usize)
        requires
            self.wf(),
            start <= self.text().len(),
        ensures
            end == units_end(
                self.text(),
                start as int,
                self.text().len() as int,
                text_units as nat,
            ),
            start <= end <= self.text().len(),
    {
        proof {
            lemma_units_end_bounds(
                self.text(),
                start as int,
                self.text().len() as int,
                text_units as nat,
            );
        }
        if self.rope.is_none() {
            if let Some(table) = &self.piece_table {
                proof {
                    table.lemma_len();
                }
                return table.advance_offset_by_text_units(start, text_units);
            }
            return self.mmap_advance_offset_by_text_units(start, text_units);
        }
        let len: usize = self.text_len();
        let bytes = self.text_bytes(0, len);
        assert(bytes@ =~= self.text());
        crate::document::text::advance_by_text_units(bytes.as_slice(), start, text_units)
    }

    /// The range that a selection covers.
    pub open spec fn spec_selection_range(self, selection: TextSelection) -> TextRange {
        TextRange {
            start: self.spec_ordered(selection.anchor, selection.head).0,
            len_chars: self.spec_units_between(selection.anchor, selection.head) as usize,
        }
    }

    /// `slice` holds the text of a selection, as far as it is known. It is exact where both
    /// ends of the selection can be found.
    pub open spec fn is_selection_text(self, selection: TextSelection, slice: TextSlice) -> bool {
        let (first, second) = self.spec_ordered(selection.anchor, selection.head);
        &&& slice.exact == (self.spec_offset(self.spec_clamp(first)) is Some && self.spec_offset(
            self.spec_clamp(second),
        ) is Some)
        &&& match self.spec_range_bytes(self.spec_selection_range(selection)) {
            Some((start, end)) => self.shows_bytes(slice.text@, start, end),
            None => slice.text@.len() == 0,
        }
    }

    /// The text of a selection.
    pub fn read_selection(&self, selection: TextSelection) -> (slice: TextSlice)
        requires
            self.wf(),
            self.text().len() <= isize::MAX / 3,
        ensures
            self.is_selection_text(selection, slice),
    {
        let (_, second) = self.ordered_positions(selection.anchor(), selection.head());
        let (_, end) = self.locate(second);
        let slice = self.read_text(self.text_range_for_selection(selection));
        let exact = slice.is_exact() && end.is_some();
        TextSlice::new(slice.into_text(), exact)
    }
}

/// Of a text in UTF-8, a range covers whole characters. A range that starts in a line that is
/// not indexed is left out.
pub proof fn law_range_of_characters(doc: Document, range: TextRange)
    requires
        doc.wf(),
        doc.text().len() <= usize::MAX,
        valid_utf8(doc.text()),
        doc.rope is None && doc.piece_table is Some ==> doc.piece_table->Some_0.full_index
            || range.start.line0 < doc.piece_table->Some_0.known_line_count,
    ensures
        ({
            let (start, end) = doc.spec_range_bytes(range)->Some_0;
            &&& doc.spec_range_bytes(range) is Some
            &&& 0 <= start <= end <= doc.text().len()
            &&& valid_utf8(doc.text().subrange(start, end))
        }),
{
    let text = doc.text();
    let position = clamp_in(text, range.start);
    if doc.rope is None && doc.piece_table is Some {
        lemma_indexed_offset(doc.piece_table->Some_0, range.start);
    }
    crate::scan::lemma_line_ends_monotone(text, 0, text.len() as int);
    assert(line_ends(text, 0) == 0);
    let line0 = position.line0 as nat;
    lemma_line_valid(text, line0);
    let from = line_start(text, line0);
    lemma_col_valid(text, from, position.col0 as nat);
    let start = offset_in(text, position);
    lemma_units_valid(text, start, range.len_chars as nat);
}

/// Every line of a text in UTF-8 starts with a character.
proof fn lemma_line_valid(text: Seq<u8>, line0: nat)
    requires
        valid_utf8(text),
        line0 <= last_line(text),
    ensures
        0 <= line_start(text, line0) <= text.len(),
        valid_utf8(text.skip(line_start(text, line0))),
{
    assert(line_ends(text, 0) == 0);
    lemma_line_start_at(text, 0, line0);
    let start = line_start(text, line0);
    if line0 > 0 {
        assert(ends_line(text, start - 1));
        vstd::utf8::is_char_boundary_iff_not_is_continuation_byte(text, start - 1);
        vstd::utf8::valid_utf8_split(text, start - 1);
        assert(text.subrange(start - 1, text.len() as int) =~= text.skip(start - 1));
        lemma_char_step(text, start - 1);
    } else {
        assert(text.skip(0) =~= text);
    }
}

/// Text units depend on the bytes of the range alone.
pub proof fn lemma_units_part(bytes: Seq<u8>, a: int, i: int, end: int)
    requires
        0 <= a <= i <= end <= bytes.len(),
    ensures
        text_units(bytes, i, end) == text_units(bytes.subrange(a, end), i - a, end - a),
    decreases end - i,
{
    let part = bytes.subrange(a, end);
    if i < end {
        assert(part[i - a] == bytes[i]);
        let width = lead_width(bytes[i]);
        assert(char_width(part, i - a, end - a) == char_width(bytes, i, end)) by {
            if i + width <= end {
                if width > 1 {
                    assert(part[i + 1 - a] == bytes[i + 1]);
                }
                if width > 2 {
                    assert(part[i + 2 - a] == bytes[i + 2]);
                }
                if width > 3 {
                    assert(part[i + 3 - a] == bytes[i + 3]);
                }
            }
        }
        if i + 1 < end {
            assert(part[i + 1 - a] == bytes[i + 1]);
        }
        lemma_units_part(bytes, a, unit_end(bytes, i, end), end);
    }
}

pub proof fn lemma_units_end_bounds(bytes: Seq<u8>, i: int, end: int, n: nat)
    requires
        0 <= i <= end <= bytes.len(),
    ensures
        i <= units_end(bytes, i, end, n) <= end,
    decreases n,
{
    if n > 0 && i < end {
        lemma_units_end_bounds(bytes, unit_end(bytes, i, end), end, (n - 1) as nat);
    }
}

} // verus!
