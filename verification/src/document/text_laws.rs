//! What lines, columns and text units are, in terms of the characters of a text.

use crate::document::encode::{
    lemma_replaced_concat, lemma_replaced_none, lemma_split, replaced, with_line_endings,
};
use crate::document::locate::lemma_units_part;
use crate::document::open_laws::law_detected_line_ending;
use crate::document::positions::{
    clamp_in, last_line, law_clamp_idempotent, law_position_round_trip, lemma_cols_bound,
    lemma_cr_before, lemma_line_start_at, lemma_scan_col_bound, lemma_scan_forward, offset_in,
    zero_state,
};
use crate::document::range_laws::lemma_offset_of_position;
use crate::document::rope::{
    char_offset, lemma_char_at, lemma_char_offsets, lemma_encode_concat, plain_breaks,
};
use crate::document::search::lemma_rope_boundary;
use crate::document::search_laws::lemma_known;
use crate::document::state::{spec_detect_line_ending, Document};
use crate::document::text::{
    char_width, col_offset, is_continuation, lemma_scan_boundary, line_cols, line_start,
    position_at, scan_to, step_state, text_units, unit_end,
};
use crate::document::types::{LineEnding, TextPosition};
use crate::scan::{breaks, lemma_breaks_concat, line_ends, CR, LF};
use crate::tree_model::min_int;
use vstd::prelude::*;
use vstd::utf8::encode_utf8;

verus! {

/// A line ends with a line feed, with a carriage return, or with both together; no other byte
/// ends one. The line ends of two texts are those of the text that they make, but for a
/// carriage return and a line feed that come together.
pub proof fn law_line_ends(a: Seq<u8>, b: Seq<u8>, byte: u8)
    ensures
        breaks(Seq::empty()) == 0,
        breaks(seq![byte]) == (if byte == 10 || byte == 13 {
            1nat
        } else {
            0
        }),
        breaks(a + b) + (if a.len() > 0 && b.len() > 0 && a.last() == 13 && b[0] == 10 {
            1nat
        } else {
            0
        }) == breaks(a) + breaks(b),
        last_line(a) == breaks(a),
{
    lemma_breaks_concat(a, b);
    let one = seq![byte];
    assert(one.len() == 1 && one[0] == byte);
    reveal_with_fuel(line_ends, 2);
}

/// A character is one text unit, and a carriage return with its line feed is one, too.
pub proof fn law_text_units(chars: Seq<char>)
    ensures
        chars.len() == 0 ==> text_units(encode_utf8(chars), 0, encode_utf8(chars).len() as int)
            == 0,
        chars.len() > 0 ==> {
            let taken: int = if chars[0] as u32 == 13 && chars.len() > 1 && chars[1] as u32 == 10 {
                2
            } else {
                1
            };
            let rest = encode_utf8(chars.skip(taken));
            text_units(encode_utf8(chars), 0, encode_utf8(chars).len() as int) == 1 + text_units(
                rest,
                0,
                rest.len() as int,
            )
        },
{
    if chars.len() > 0 {
        let taken: int = if chars[0] as u32 == 13 && chars.len() > 1 && chars[1] as u32 == 10 {
            2
        } else {
            1
        };
        let bytes = encode_utf8(chars);
        let len = bytes.len() as int;
        lemma_char_offsets(chars, 0, chars.len() as int);
        lemma_char_at(chars, 0);
        if chars.len() > 1 {
            lemma_char_at(chars, 1);
        } else {
            lemma_char_offsets(chars, 1, 1);
        }
        let at = char_offset(chars, taken);
        assert(unit_end(bytes, 0, len) == at);
        lemma_split(chars, taken);
        lemma_units_part(bytes, at, at, len);
    }
}

/// The place of a character follows from the place of the one in front of it: a line end leads
/// to the start of the next line, and every other character to the next column.
pub proof fn law_positions_step(chars: Seq<char>, c: int)
    requires
        0 <= c < chars.len(),
        encode_utf8(chars).len() < usize::MAX,
    ensures
        ({
            let text = encode_utf8(chars);
            let here = position_at(text, char_offset(chars, c));
            let next = position_at(text, char_offset(chars, c + 1));
            let ch = chars[c] as u32;
            &&& position_at(text, 0) == TextPosition { line0: 0, col0: 0 }
            &&& ch != 10 && ch != 13 ==> next.line0 == here.line0 && next.col0 == here.col0 + 1
            &&& ch == 13 ==> next.line0 == here.line0 + 1 && next.col0 == 0
            &&& ch == 10 && !(c > 0 && chars[c - 1] as u32 == 13) ==> next.line0 == here.line0 + 1
                && next.col0 == 0
            &&& ch == 10 && c > 0 && chars[c - 1] as u32 == 13 ==> next == here && here.col0 == 0
        }),
{
    let text = encode_utf8(chars);
    let a = char_offset(chars, c);
    let b = char_offset(chars, c + 1);
    lemma_char_offsets(chars, 0, c);
    lemma_char_at(chars, c);
    lemma_char_offsets(chars, c + 1, chars.len() as int);
    assert(char_width(text, a, b) == b - a);
    lemma_scan_boundary(text, 0, a, b, zero_state());
    let there = scan_to(text, 0, a, zero_state());
    lemma_scan_forward(text, 0, a, zero_state());
    lemma_scan_col_bound(text, 0, a, zero_state());
    assert(scan_to(text, b, b, step_state(text, a, there)) == step_state(text, a, there));
    assert(scan_to(text, a, b, there) == step_state(text, a, there));
    if c > 0 {
        let p = char_offset(chars, c - 1);
        lemma_char_at(chars, c - 1);
        lemma_char_offsets(chars, 0, c - 1);
        if chars[c - 1] as u32 == 13 {
            assert(p + 1 == a);
            lemma_scan_boundary(text, 0, p, a, zero_state());
            let before = scan_to(text, 0, p, zero_state());
            assert(char_width(text, p, a) == 1);
            assert(scan_to(text, a, a, step_state(text, p, before)) == step_state(text, p, before));
            assert(scan_to(text, p, a, before) == step_state(text, p, before));
            assert(there.prev_was_cr);
        } else if there.prev_was_cr {
            lemma_cr_before(text, 0, a, zero_state());
            if p + 1 < a {
                lemma_inner_bytes(chars, c - 1, a - 1);
            }
        }
    }
}

/// The bytes of a character behind its first one are none that start a character.
proof fn lemma_inner_bytes(chars: Seq<char>, c: int, i: int)
    requires
        0 <= c < chars.len(),
        char_offset(chars, c) < i < char_offset(chars, c + 1),
    ensures
        is_continuation(encode_utf8(chars)[i]),
{
    lemma_char_offsets(chars, c + 1, chars.len() as int);
    lemma_char_offsets(chars, 0, c);
    if !is_continuation(encode_utf8(chars)[i]) {
        lemma_rope_boundary(chars, i, c);
        let d = choose|d: int| 0 <= d <= chars.len() && #[trigger] char_offset(chars, d) == i;
        if d <= c {
            lemma_char_offsets(chars, d, c);
        } else {
            lemma_char_offsets(chars, c + 1, d);
        }
    }
}

/// Characters that end no line have no byte that ends one.
proof fn lemma_no_break_bytes(chars: Seq<char>, i: int)
    requires
        forall|c: int|
            0 <= c < chars.len() ==> (#[trigger] chars[c]) as u32 != 10 && chars[c] as u32 != 13,
        0 <= i < encode_utf8(chars).len(),
    ensures
        encode_utf8(chars)[i] != LF,
        encode_utf8(chars)[i] != CR,
{
    let bytes = encode_utf8(chars);
    if bytes[i] == LF || bytes[i] == CR {
        lemma_char_offsets(chars, 0, chars.len() as int);
        lemma_rope_boundary(chars, i, 0);
        let d = choose|d: int| 0 <= d <= chars.len() && #[trigger] char_offset(chars, d) == i;
        assert(d < chars.len());
        lemma_char_at(chars, d);
    }
}

/// A save writes the line ending of the file in place of each line feed, and everything else as
/// it is.
pub proof fn law_saved_line_endings(line: Seq<char>, rest: Seq<char>, ending: LineEnding)
    requires
        forall|i: int| 0 <= i < line.len() ==> (#[trigger] line[i]) as u32 != 10,
    ensures
        with_line_endings(line, ending) == line,
        with_line_endings(line + seq!['\n'] + rest, ending) == line + ending.spec_as_str()@
            + with_line_endings(rest, ending),
{
    let to = ending.spec_as_str()@;
    let feed = seq!['\n'];
    reveal_strlit("\n");
    assert("\n"@ =~= feed);
    assert forall|i: int| 0 <= i < line.len() implies #[trigger] line[i] != '\n' by {
        assert(line[i] as u32 != 10);
    }
    lemma_replaced_none(line, '\n', to);
    lemma_replaced_concat(line + feed, rest, '\n', to);
    lemma_replaced_concat(line, feed, '\n', to);
    reveal_with_fuel(replaced, 2);
    assert(feed.drop_last() =~= Seq::empty());
    assert(feed.last() == '\n');
    assert(replaced(feed, '\n', to) =~= to);
}

/// What a save writes has the line ending of the file: opening it again finds the same one.
pub proof fn law_line_ending_kept(line: Seq<char>, rest: Seq<char>, ending: LineEnding)
    requires
        forall|i: int|
            0 <= i < line.len() ==> (#[trigger] line[i]) as u32 != 10 && line[i] as u32 != 13,
    ensures
        spec_detect_line_ending(
            encode_utf8(with_line_endings(line + seq!['\n'] + rest, ending)),
        ) == ending,
{
    law_saved_line_endings(line, rest, ending);
    reveal_strlit("\n");
    reveal_strlit("\r\n");
    reveal_strlit("\r");
    let own = ending.spec_as_str()@;
    let tail = with_line_endings(rest, ending);
    let text = with_line_endings(line + seq!['\n'] + rest, ending);
    let bytes = encode_utf8(text);
    let at = encode_utf8(line).len() as int;
    lemma_encode_concat(line + own, tail);
    lemma_encode_concat(line, own);
    lemma_char_at(own, 0);
    lemma_char_offsets(own, 0, own.len() as int);
    if ending is Crlf {
        lemma_char_at(own, 1);
    } else {
        assert(own.take(1) =~= own);
    }
    assert forall|i: int| 0 <= i < at implies #[trigger] bytes[i] != 10 && bytes[i] != 13 by {
        lemma_no_break_bytes(line, i);
        assert(bytes[i] == encode_utf8(line)[i]);
    }
    assert(bytes[at] == encode_utf8(own)[0]);
    if ending is Crlf {
        assert(bytes[at + 1] == encode_utf8(own)[1]);
    }
    if ending is Cr && at + 1 < bytes.len() {
        assert(bytes[at + 1] == encode_utf8(tail)[0]);
        if rest.len() > 0 {
            lemma_first_rendered(rest, ending);
        }
    }
    law_detected_line_ending(bytes, at);
}

/// With carriage returns for line ends, nothing that is written starts with a line feed.
proof fn lemma_first_rendered(rest: Seq<char>, ending: LineEnding)
    requires
        ending is Cr,
        rest.len() > 0,
    ensures
        encode_utf8(with_line_endings(rest, ending)).len() > 0,
        encode_utf8(with_line_endings(rest, ending))[0] != LF,
{
    let to = ending.spec_as_str()@;
    let one = seq![rest[0]];
    let more = rest.skip(1);
    assert(rest =~= one + more);
    lemma_replaced_concat(one, more, '\n', to);
    let text = with_line_endings(rest, ending);
    reveal_strlit("\r");
    reveal_with_fuel(replaced, 2);
    assert(one.drop_last() =~= Seq::empty());
    assert(one.last() == rest[0]);
    if rest[0] == '\n' {
        assert(replaced(one, '\n', to) =~= to);
        assert(text[0] == '\r');
    } else {
        assert(replaced(one, '\n', to) =~= one);
        assert(text[0] == rest[0]);
        if rest[0] as u32 == 10 {
            vstd::utf8::char_u32_cast(rest[0], 10);
        }
    }
    lemma_char_at(text, 0);
    lemma_char_offsets(text, 0, 0);
}

/// A position that lies in the text means itself. A column behind the end of a line means the
/// end of the line, and a line behind the last one means the last one.
pub proof fn law_clamp(text: Seq<u8>, position: TextPosition)
    requires
        text.len() < usize::MAX,
    ensures
        ({
            let there = clamp_in(text, position);
            let at = offset_in(text, there);
            &&& position.line0 <= last_line(text) ==> there.line0 == position.line0
            &&& position.line0 > last_line(text) ==> there.line0 == last_line(text)
            &&& there.col0 <= position.col0
            &&& 0 <= at <= text.len()
            &&& position_at(text, at) == there
            &&& there.col0 < position.col0 ==> at == text.len() || text[at] == 10 || text[at] == 13
        }),
{
    let there = clamp_in(text, position);
    law_clamp_idempotent(text, position);
    law_position_round_trip(text, there);
    crate::scan::lemma_line_ends_monotone(text, 0, text.len() as int);
    assert(line_ends(text, 0) == 0);
    let start = line_start(text, there.line0 as nat);
    lemma_line_start_at(text, 0, there.line0 as nat);
    lemma_cols_bound(text, start);
    if there.col0 < position.col0 {
        lemma_line_end_reached(text, start, there.col0 as nat);
    }
}

/// Behind all columns of a line there is a line end, or the end of the text.
proof fn lemma_line_end_reached(text: Seq<u8>, i: int, col: nat)
    requires
        0 <= i <= text.len(),
        col >= line_cols(text, i, text.len() as int),
    ensures
        ({
            let at = col_offset(text, i, text.len() as int, col);
            i <= at <= text.len() && (at == text.len() || text[at] == 10 || text[at] == 13)
        }),
    decreases text.len() - i,
{
    if i < text.len() && text[i] != 10 && text[i] != 13 {
        lemma_line_end_reached(
            text,
            i + char_width(text, i, text.len() as int),
            (col - 1) as nat,
        );
    }
}

/// Without carriage returns, there are as many text units as characters.
proof fn lemma_units_of_chars(chars: Seq<char>)
    requires
        plain_breaks(chars),
    ensures
        text_units(encode_utf8(chars), 0, encode_utf8(chars).len() as int) == chars.len(),
    decreases chars.len(),
{
    law_text_units(chars);
    if chars.len() > 0 {
        assert(chars[0] as u32 != 13);
        let rest = chars.skip(1);
        assert forall|i: int| 0 <= i < rest.len() implies (#[trigger] rest[i]) as u32 != 13 by {
            assert(rest[i] == chars[i + 1]);
        }
        lemma_units_of_chars(rest);
    }
}

/// The place of a character leads back to its index: as many characters stand in front of it.
/// Texts with carriage returns are left out, in which a line end can take two characters.
pub proof fn law_char_index_round_trip(doc: Document, chars: Seq<char>, index: usize)
    requires
        doc.wf(),
        doc.text() == encode_utf8(chars),
        doc.text().len() <= usize::MAX,
        plain_breaks(chars),
        doc.is_known(doc.spec_position_of_index(index)),
    ensures
        ({
            let n = min_int(index as int, chars.len() as int);
            let place = doc.spec_position_of_index(index);
            &&& doc.spec_index_of_position(place) == n
            &&& doc.spec_safe_offset(place) == encode_utf8(chars.take(n)).len()
            &&& place == position_at(doc.text(), encode_utf8(chars.take(n)).len() as int)
        }),
{
    let text = doc.text();
    let n = min_int(index as int, chars.len() as int);
    lemma_char_offsets(chars, 0, n);
    crate::document::navigate::lemma_rope_chars_end(chars, 0, index as nat);
    let at = char_offset(chars, n);
    let place = position_at(text, at);
    if n < chars.len() {
        lemma_char_at(chars, n);
    } else {
        lemma_char_offsets(chars, n, n);
    }
    if 0 < at < text.len() && text[at - 1] == CR && text[at] == LF {
        lemma_rope_boundary(chars, at - 1, 0);
        let d = choose|d: int| 0 <= d <= chars.len() && #[trigger] char_offset(chars, d) == at - 1;
        lemma_char_offsets(chars, d, chars.len() as int);
        lemma_char_at(chars, d);
        assert(chars[d] as u32 != 13);
    }
    lemma_offset_of_position(text, at);
    lemma_known(doc, place);
    lemma_units_part(text, 0, 0, at);
    lemma_split(chars, n);
    let front = chars.take(n);
    assert forall|i: int| 0 <= i < front.len() implies (#[trigger] front[i]) as u32 != 13 by {
        assert(front[i] == chars[i]);
    }
    lemma_units_of_chars(front);
}

/// A line is as long as the last column that a position in it can have; a line that does not
/// exist has no columns.
pub proof fn law_line_len(doc: Document, line0: usize)
    requires
        doc.wf(),
        doc.text().len() < usize::MAX,
        doc.is_known(TextPosition { line0, col0: usize::MAX }),
    ensures
        ({
            let end = doc.spec_clamp(TextPosition { line0, col0: usize::MAX });
            &&& line0 <= last_line(doc.text()) ==> end.line0 == line0 && doc.spec_line_len(line0)
                == end.col0
            &&& line0 > last_line(doc.text()) ==> doc.spec_line_len(line0) == 0
        }),
{
    let text = doc.text();
    let position = TextPosition { line0, col0: usize::MAX };
    lemma_known(doc, position);
    crate::scan::lemma_line_ends_monotone(text, 0, text.len() as int);
    assert(line_ends(text, 0) == 0);
    if line0 <= last_line(text) {
        lemma_line_start_at(text, 0, line0 as nat);
        lemma_cols_bound(text, line_start(text, line0 as nat));
    }
    if doc.rope is None && doc.piece_table is Some {
        let table = doc.piece_table->Some_0;
        table.lemma_len();
        crate::scan::lemma_line_ends_monotone(
            text,
            table.known_byte_len as int,
            text.len() as int,
        );
    }
}

} // verus!
