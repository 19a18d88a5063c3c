//! Text in a rope, seen as the bytes that it stores.

use crate::document::text::{
    char_width, col_offset, is_continuation, lemma_encoded_width, lemma_scan_boundary, line_cols,
    line_start, position_at, scan_to, step_state, PositionScanState,
};
use crate::document::types::TextPosition;
use crate::scan::{ends_line, is_either, line_ends, CR, LF};
use vstd::prelude::*;
use vstd::string::*;
use vstd::utf8::{encode_scalar, encode_utf8};

verus! {

/// `ropey::Rope`, a tree of text chunks.
#[verifier::external_type_specification]
#[verifier::external_body]
pub struct ExRope(ropey::Rope);

/// The characters that a rope holds.
pub uninterp spec fn rope_text(rope: ropey::Rope) -> Seq<char>;

/// The bytes that a rope holds.
pub open spec fn rope_bytes(rope: ropey::Rope) -> Seq<u8> {
    encode_utf8(rope_text(rope))
}

/// How many line feeds `chars` hold.
pub open spec fn count_lf(chars: Seq<char>) -> nat
    decreases chars.len(),
{
    if chars.len() == 0 {
        0
    } else {
        count_lf(chars.drop_last()) + (if chars.last() as u32 == 10 {
            1nat
        } else {
            0
        })
    }
}

/// `ropey::Rope::len_bytes`: the number of bytes.
pub assume_specification[ ropey::Rope::len_bytes ](rope: &ropey::Rope) -> (len: usize)
    ensures
        len == rope_bytes(*rope).len(),
;

/// `ropey::Rope::len_chars`: the number of characters.
pub assume_specification[ ropey::Rope::len_chars ](rope: &ropey::Rope) -> (len: usize)
    ensures
        len == rope_text(*rope).len(),
;

/// `ropey::Rope::len_lines`, as built without the features for other line breaks: one more
/// than there are line feeds.
pub assume_specification[ ropey::Rope::len_lines ](rope: &ropey::Rope) -> (lines: usize)
    ensures
        lines == count_lf(rope_text(*rope)) + 1,
;

/// `ropey::Rope::char_to_byte`: where a character starts. It panics behind the end.
pub assume_specification[ ropey::Rope::char_to_byte ](rope: &ropey::Rope, char_idx: usize) -> (byte:
    usize)
    requires
        char_idx <= rope_text(*rope).len(),
    ensures
        byte == encode_utf8(rope_text(*rope).take(char_idx as int)).len(),
;

/// `ropey::Rope::byte_to_char`: the character that a byte belongs to. It panics behind the
/// end.
pub assume_specification[ ropey::Rope::byte_to_char ](rope: &ropey::Rope, byte_idx: usize) -> (index:
    usize)
    requires
        byte_idx <= rope_bytes(*rope).len(),
    ensures
        index <= rope_text(*rope).len(),
        encode_utf8(rope_text(*rope).take(index as int)).len() <= byte_idx,
        index < rope_text(*rope).len() ==> byte_idx < encode_utf8(
            rope_text(*rope).take(index + 1),
        ).len(),
;

/// `ropey::Rope::char_to_line`: how many line feeds stand in front of a character. It panics
/// behind the end.
pub assume_specification[ ropey::Rope::char_to_line ](rope: &ropey::Rope, char_idx: usize) -> (line:
    usize)
    requires
        char_idx <= rope_text(*rope).len(),
    ensures
        line == count_lf(rope_text(*rope).take(char_idx as int)),
;

/// `ropey::Rope::line_to_char`: where a line starts; the end for one line too many. It panics
/// for any line behind that.
pub assume_specification[ ropey::Rope::line_to_char ](rope: &ropey::Rope, line_idx: usize) -> (index:
    usize)
    requires
        line_idx <= count_lf(rope_text(*rope)) + 1,
    ensures
        index <= rope_text(*rope).len(),
        line_idx == count_lf(rope_text(*rope)) + 1 ==> index == rope_text(*rope).len(),
        line_idx <= count_lf(rope_text(*rope)) ==> count_lf(rope_text(*rope).take(index as int))
            == line_idx && (index == 0 || rope_text(*rope)[index - 1] as u32 == 10),
;

/// `ropey::Rope::chunk_at_byte`: the stored chunk that holds a byte, and where it starts. It
/// panics behind the end.
#[verifier::external_body]
pub(crate) fn chunk_at<'a>(rope: &'a ropey::Rope, byte_idx: usize) -> (found: (&'a [u8], usize))
    requires
        byte_idx < rope_bytes(*rope).len(),
    ensures
        found.1 <= byte_idx < found.1 + found.0@.len() <= rope_bytes(*rope).len(),
        found.0@ == rope_bytes(*rope).subrange(found.1 as int, found.1 + found.0@.len()),
{
    let (chunk, start, _, _) = rope.chunk_at_byte(byte_idx);
    (chunk.as_bytes(), start)
}

/// `ropey::Rope` as a `String`, through its `Display`: the characters in order.
#[verifier::external_body]
pub(crate) fn rope_to_string(rope: &ropey::Rope) -> (text: String)
    ensures
        text@ == rope_text(*rope),
{
    rope.to_string()
}

/// `true` where only line feeds end lines.
pub open spec fn plain_breaks(chars: Seq<char>) -> bool {
    forall|i: int| 0 <= i < chars.len() ==> (#[trigger] chars[i]) as u32 != 13
}

/// Where character `c` starts in the encoded text.
pub open spec fn char_offset(chars: Seq<char>, c: int) -> int {
    encode_utf8(chars.take(c)).len() as int
}

pub proof fn lemma_encode_concat(a: Seq<char>, b: Seq<char>)
    ensures
        encode_utf8(a + b) == encode_utf8(a) + encode_utf8(b),
    decreases a.len(),
{
    if a.len() == 0 {
        assert(a + b =~= b);
        assert(encode_utf8(a) + encode_utf8(b) =~= encode_utf8(b));
    } else {
        assert((a + b)[0] == a[0]);
        assert((a + b).drop_first() =~= a.drop_first() + b);
        lemma_encode_concat(a.drop_first(), b);
        let own = encode_scalar(a[0] as u32);
        assert(own + (encode_utf8(a.drop_first()) + encode_utf8(b)) =~= own + encode_utf8(
            a.drop_first(),
        ) + encode_utf8(b));
    }
}

/// The encoded text around character `c`.
pub proof fn lemma_char_at(chars: Seq<char>, c: int)
    requires
        0 <= c < chars.len(),
    ensures
        ({
            let bytes = encode_utf8(chars);
            let at = char_offset(chars, c);
            let own = encode_scalar(chars[c] as u32);
            &&& 0 <= at < char_offset(chars, c + 1) <= bytes.len()
            &&& char_offset(chars, c + 1) == at + own.len()
            &&& bytes.subrange(at, at + own.len()) == own
            &&& char_width(bytes, at, bytes.len() as int) == own.len()
            &&& crate::document::text::lead_width(bytes[at]) == own.len()
            &&& !is_continuation(bytes[at])
            &&& (bytes[at] == LF) == (chars[c] as u32 == 10)
            &&& (bytes[at] == CR) == (chars[c] as u32 == 13)
            &&& own.len() >= 1
            &&& is_either(bytes[at], LF, CR) ==> own.len() == 1
        }),
{
    let bytes = encode_utf8(chars);
    let head = chars.take(c);
    let tail = chars.skip(c);
    let rest = tail.drop_first();
    let own = encode_scalar(chars[c] as u32);
    let at = char_offset(chars, c);
    assert(head + tail =~= chars);
    lemma_encode_concat(head, tail);
    assert(tail[0] == chars[c]);
    let tail_bytes = encode_utf8(tail);
    assert(tail_bytes == own + encode_utf8(rest));
    lemma_encoded_width(chars[c], encode_utf8(rest));
    assert(chars.take(c + 1) =~= head + seq![chars[c]]);
    lemma_encode_concat(head, seq![chars[c]]);
    assert(seq![chars[c]].drop_first() =~= Seq::empty());
    reveal_with_fuel(encode_utf8, 2);
    assert(encode_utf8(seq![chars[c]]) =~= own);
    assert(bytes.subrange(at, at + own.len()) =~= own);
    assert(bytes[at] == tail_bytes[0]);
    let end = bytes.len() as int;
    let width = crate::document::text::lead_width(bytes[at]);
    assert(char_width(bytes, at, end) == char_width(tail_bytes, 0, tail_bytes.len() as int)) by {
        if at + width <= end {
            if width > 1 {
                assert(bytes[at + 1] == tail_bytes[1]);
            }
            if width > 2 {
                assert(bytes[at + 2] == tail_bytes[2]);
            }
            if width > 3 {
                assert(bytes[at + 3] == tail_bytes[3]);
            }
        }
    }
}

pub proof fn lemma_char_offsets(chars: Seq<char>, a: int, b: int)
    requires
        0 <= a <= b <= chars.len(),
    ensures
        0 <= char_offset(chars, a) <= char_offset(chars, b) <= encode_utf8(chars).len(),
        a < b ==> char_offset(chars, a) < char_offset(chars, b),
        b == chars.len() ==> char_offset(chars, b) == encode_utf8(chars).len(),
        char_offset(chars, 0) == 0,
    decreases b - a,
{
    assert(chars.take(0) =~= Seq::empty());
    if b == chars.len() {
        assert(chars.take(b) =~= chars);
    }
    if a < b {
        lemma_char_at(chars, b - 1);
        lemma_char_offsets(chars, a, b - 1);
    } else if a < chars.len() {
        lemma_char_at(chars, a);
    }
}

/// Where the line of character `c` starts: behind the last line feed in front of it.
pub open spec fn line_begin(chars: Seq<char>, c: int) -> int
    decreases c,
{
    if c <= 0 || chars[c - 1] as u32 == 10 {
        c
    } else {
        line_begin(chars, c - 1)
    }
}

pub proof fn lemma_line_begin(chars: Seq<char>, c: int)
    requires
        0 <= c <= chars.len(),
    ensures
        0 <= line_begin(chars, c) <= c,
        line_begin(chars, c) == 0 || chars[line_begin(chars, c) - 1] as u32 == 10,
        count_lf(chars.take(line_begin(chars, c))) == count_lf(chars.take(c)),
    decreases c,
{
    if c > 0 && chars[c - 1] as u32 != 10 {
        lemma_line_begin(chars, c - 1);
        assert(chars.take(c).drop_last() =~= chars.take(c - 1));
    }
}

/// A line start is determined by how many line feeds stand in front of it.
pub proof fn lemma_line_begin_unique(chars: Seq<char>, a: int, b: int)
    requires
        0 <= a <= b <= chars.len(),
        count_lf(chars.take(a)) == count_lf(chars.take(b)),
        b == 0 || chars[b - 1] as u32 == 10,
    ensures
        a == b,
{
    if a < b {
        assert(chars.take(b).drop_last() =~= chars.take(b - 1));
        lemma_count_monotone(chars, a, b - 1);
    }
}

pub proof fn lemma_count_monotone(chars: Seq<char>, a: int, b: int)
    requires
        0 <= a <= b <= chars.len(),
    ensures
        count_lf(chars.take(a)) <= count_lf(chars.take(b)) <= count_lf(chars.take(a)) + (b - a),
    decreases b - a,
{
    if a < b {
        assert(chars.take(b).drop_last() =~= chars.take(b - 1));
        lemma_count_monotone(chars, a, b - 1);
    }
}

/// Line feeds of the text and line ends of its bytes are the same.
pub proof fn lemma_line_ends(chars: Seq<char>, c: int)
    requires
        plain_breaks(chars),
        0 <= c <= chars.len(),
    ensures
        line_ends(encode_utf8(chars), char_offset(chars, c)) == count_lf(chars.take(c)),
    decreases c,
{
    let bytes = encode_utf8(chars);
    lemma_char_offsets(chars, 0, c);
    if c == 0 {
        assert(chars.take(0) =~= Seq::empty());
    } else {
        lemma_line_ends(chars, c - 1);
        lemma_char_at(chars, c - 1);
        assert(chars.take(c).drop_last() =~= chars.take(c - 1));
        lemma_one_char(chars, c - 1);
    }
}

/// The bytes of one character end a line where it is a line feed, and else do not.
proof fn lemma_one_char(chars: Seq<char>, c: int)
    requires
        plain_breaks(chars),
        0 <= c < chars.len(),
    ensures
        ({
            let bytes = encode_utf8(chars);
            let at = char_offset(chars, c);
            let next = char_offset(chars, c + 1);
            &&& line_ends(bytes, next) == line_ends(bytes, at) + (if chars[c] as u32 == 10 {
                1nat
            } else {
                0
            })
            &&& chars[c] as u32 == 10 ==> next == at + 1 && ends_line(bytes, at)
            &&& chars[c] as u32 != 10 ==> forall|k: int|
                at <= k < next ==> !is_either(#[trigger] bytes[k], LF, CR)
        }),
{
    let bytes = encode_utf8(chars);
    let at = char_offset(chars, c);
    let next = char_offset(chars, c + 1);
    lemma_char_at(chars, c);
    assert(chars[c] as u32 != 13);
    if chars[c] as u32 == 10 {
        assert(ends_line(bytes, at));
    } else {
        assert forall|k: int| at <= k < next implies !is_either(#[trigger] bytes[k], LF, CR) by {
            if k == at + 1 {
                assert(crate::document::text::second_fits(bytes[at], bytes[at + 1]));
            }
        }
        crate::scan::lemma_no_line_end(bytes, at, next);
    }
}

/// The place of a character: its line, and its distance from the start of the line.
pub proof fn lemma_rope_position(chars: Seq<char>, c: int)
    requires
        plain_breaks(chars),
        0 <= c <= chars.len() <= usize::MAX,
    ensures
        position_at(encode_utf8(chars), char_offset(chars, c)) == (TextPosition {
            line0: count_lf(chars.take(c)) as usize,
            col0: (c - line_begin(chars, c)) as usize,
        }),
        !scan_to(
            encode_utf8(chars),
            0,
            char_offset(chars, c),
            PositionScanState { line0: 0, col0: 0, prev_was_cr: false },
        ).prev_was_cr,
    decreases c,
{
    let bytes = encode_utf8(chars);
    let zero = PositionScanState { line0: 0, col0: 0, prev_was_cr: false };
    lemma_char_offsets(chars, 0, c);
    lemma_line_begin(chars, c);
    lemma_count_monotone(chars, 0, c);
    assert(chars.take(0) =~= Seq::empty());
    if c > 0 {
        let at = char_offset(chars, c - 1);
        let next = char_offset(chars, c);
        lemma_rope_position(chars, c - 1);
        lemma_char_at(chars, c - 1);
        lemma_line_begin(chars, c - 1);
        lemma_count_monotone(chars, 0, c - 1);
        assert(chars.take(c).drop_last() =~= chars.take(c - 1));
        lemma_scan_boundary(bytes, 0, at, next, zero);
        let there = scan_to(bytes, 0, at, zero);
        crate::document::text::lemma_width_cut(bytes, at, next);
        assert(char_width(bytes, at, next) == next - at);
        reveal_with_fuel(scan_to, 2);
        assert(scan_to(bytes, at, next, there) == step_state(bytes, at, there));
        assert(chars[c - 1] as u32 != 13);
    }
}

/// The columns of a line of a rope.
pub proof fn lemma_rope_cols(chars: Seq<char>, c: int, col: nat)
    requires
        plain_breaks(chars),
        0 <= c <= chars.len(),
    ensures
        ({
            let bytes = encode_utf8(chars);
            let len = line_tail(chars, c);
            &&& line_cols(bytes, char_offset(chars, c), bytes.len() as int) == len
            &&& c + len <= chars.len()
            &&& col_offset(bytes, char_offset(chars, c), bytes.len() as int, col) == char_offset(
                chars,
                c + (if col <= len {
                    col
                } else {
                    len
                }),
            )
        }),
    decreases chars.len() - c,
{
    let bytes = encode_utf8(chars);
    let at = char_offset(chars, c);
    lemma_char_offsets(chars, c, chars.len() as int);
    if c < chars.len() {
        lemma_char_at(chars, c);
        assert(chars[c] as u32 != 13);
        if chars[c] as u32 != 10 {
            if col > 0 {
                lemma_rope_cols(chars, c + 1, (col - 1) as nat);
            } else {
                lemma_rope_cols(chars, c + 1, 0);
            }
        }
    }
}

/// How many characters follow in the line of character `c`.
pub open spec fn line_tail(chars: Seq<char>, c: int) -> nat
    decreases chars.len() - c,
{
    if c >= chars.len() || chars[c] as u32 == 10 {
        0
    } else {
        1 + line_tail(chars, c + 1)
    }
}

/// The line behind a line start.
pub proof fn lemma_line_tail(chars: Seq<char>, c: int, next: int)
    requires
        0 <= c <= next <= chars.len(),
        next == chars.len() || chars[next] as u32 == 10,
        forall|k: int| c <= k < next ==> (#[trigger] chars[k]) as u32 != 10,
    ensures
        line_tail(chars, c) == next - c,
    decreases next - c,
{
    if c < next {
        assert(chars[c] as u32 != 10);
        lemma_line_tail(chars, c + 1, next);
    }
}

/// A line of a rope starts where it starts in the bytes.
pub proof fn lemma_rope_line_start(chars: Seq<char>, c: int)
    requires
        plain_breaks(chars),
        0 <= c <= chars.len(),
        c == 0 || chars[c - 1] as u32 == 10,
    ensures
        line_start(encode_utf8(chars), count_lf(chars.take(c))) == char_offset(chars, c),
{
    let bytes = encode_utf8(chars);
    lemma_char_offsets(chars, 0, c);
    lemma_line_ends(chars, c);
    assert(chars.take(0) =~= Seq::empty());
    if c > 0 {
        lemma_char_at(chars, c - 1);
        lemma_one_char(chars, c - 1);
        crate::document::text::lemma_line_start_is(bytes, 0, char_offset(chars, c));
    }
}

} // verus!
