//! What a save writes: line endings, lossy text, and bytes in an encoding.

use crate::document::rope::{
    char_offset, count_lf, lemma_char_at, lemma_char_offsets, lemma_encode_concat, rope_bytes,
    rope_text, rope_to_string,
};
use crate::document::search::lemma_rope_boundary;
use crate::document::status::DocumentEncodingErrorKind;
use crate::document::types::{same_text, DocumentEncoding, LineEnding};
use crate::editlog::push_bytes;
use crate::scan::LF;
use crate::tree_model::sat_add;
use vstd::prelude::*;
use vstd::string::*;
use vstd::utf8::{encode_scalar, encode_utf8, valid_utf8};

verus! {

/// What the encoding called `name` makes of a text: the bytes, the name of the encoding they
/// are in, the name of that encoding's output encoding, and whether a character had to be
/// replaced. `None` where no encoding has this name.
pub uninterp spec fn encoded(text: Seq<char>, name: Seq<char>) -> Option<
    (Seq<u8>, (Seq<char>, Seq<char>), bool),
>;

/// `encoding_rs::Encoding::encode`, for the encoding that `name` is a label of. The result
/// depends on the text and the name alone. The bound keeps the buffer sizes that the encoder
/// computes, and panics on, in range.
#[verifier::external_body]
fn encode_as(text: &str, name: &str) -> (out: Option<(Vec<u8>, DocumentEncoding, bool)>)
    requires
        text.spec_bytes().len() <= usize::MAX / 64,
    ensures
        match out {
            Some((bytes, actual, replaced)) => encoded(text@, name@) == Some(
                (bytes@, actual@, replaced),
            ),
            None => encoded(text@, name@) is None,
        },
{
    let encoding = encoding_rs::Encoding::for_label(name.as_bytes())?;
    let (bytes, actual, replaced) = encoding.encode(text);
    let output_name = actual.output_encoding().name();
    Some((bytes.into_owned(), DocumentEncoding { name: actual.name(), output_name }, replaced))
}

/// What is shown of bytes that need not be UTF-8.
pub uninterp spec fn lossy(bytes: Seq<u8>) -> Seq<char>;

/// `text` is what is shown of `bytes`. Valid UTF-8 is shown as it is.
pub open spec fn shows(text: Seq<char>, bytes: Seq<u8>) -> bool {
    &&& text == lossy(bytes)
    &&& valid_utf8(bytes) ==> encode_utf8(text) == bytes
}

/// `String::from_utf8_lossy`: valid UTF-8 as it is, and U+FFFD in place of each invalid
/// sequence, which takes three bytes where the sequence had one at least. Longer input could
/// take more than a `String` holds.
#[verifier::external_body]
pub(crate) fn lossy_text(bytes: &[u8]) -> (text: String)
    requires
        bytes@.len() <= isize::MAX / 3,
    ensures
        text@ == lossy(bytes@),
        valid_utf8(bytes@) ==> encode_utf8(text@) == bytes@,
        encode_utf8(text@).len() <= 3 * bytes@.len(),
{
    String::from_utf8_lossy(bytes).into_owned()
}

/// `chars` with `to` in place of each `from`.
pub open spec fn replaced(chars: Seq<char>, from: char, to: Seq<char>) -> Seq<char>
    decreases chars.len(),
{
    if chars.len() == 0 {
        Seq::empty()
    } else {
        replaced(chars.drop_last(), from, to) + (if chars.last() == from {
            to
        } else {
            seq![chars.last()]
        })
    }
}

/// Parts are replaced one by one.
pub proof fn lemma_replaced_concat(a: Seq<char>, b: Seq<char>, from: char, to: Seq<char>)
    ensures
        replaced(a + b, from, to) == replaced(a, from, to) + replaced(b, from, to),
    decreases b.len(),
{
    if b.len() == 0 {
        assert(a + b =~= a);
        assert(replaced(a, from, to) + replaced(b, from, to) =~= replaced(a, from, to));
    } else {
        assert((a + b).drop_last() =~= a + b.drop_last());
        lemma_replaced_concat(a, b.drop_last(), from, to);
        assert(replaced(a + b, from, to) =~= replaced(a, from, to) + replaced(b, from, to));
    }
}

/// Where there is nothing to replace, nothing changes.
pub proof fn lemma_replaced_none(chars: Seq<char>, from: char, to: Seq<char>)
    requires
        forall|i: int| 0 <= i < chars.len() ==> #[trigger] chars[i] != from,
    ensures
        replaced(chars, from, to) == chars,
    decreases chars.len(),
{
    if chars.len() > 0 {
        assert(chars[chars.len() - 1] != from);
        lemma_replaced_none(chars.drop_last(), from, to);
        assert(replaced(chars, from, to) =~= chars);
    } else {
        assert(chars =~= Seq::empty());
    }
}

/// The same bytes are the same text.
pub proof fn lemma_same_bytes(a: Seq<char>, b: Seq<char>)
    requires
        encode_utf8(a) == encode_utf8(b),
    ensures
        a == b,
{
    vstd::utf8::encode_utf8_decode_utf8(a);
    vstd::utf8::encode_utf8_decode_utf8(b);
}

/// The first line feed.
fn first_line_feed(bytes: &[u8]) -> (found: Option<usize>)
    ensures
        match found {
            Some(at) => at < bytes@.len() && bytes@[at as int] == LF && forall|i: int|
                0 <= i < at ==> #[trigger] bytes@[i] != LF,
            None => forall|i: int| 0 <= i < bytes@.len() ==> #[trigger] bytes@[i] != LF,
        },
{
    let mut i: usize = 0;
    while i < bytes.len()
        invariant
            i <= bytes@.len(),
            forall|k: int| 0 <= k < i ==> #[trigger] bytes@[k] != LF,
        decreases bytes@.len() - i,
    {
        if bytes[i] == LF {
            return Some(i);
        }
        i = i + 1;
    }
    None
}

/// In front of the first line feed of the bytes there is none in the text.
proof fn lemma_no_line_feed(chars: Seq<char>, c: int)
    requires
        0 <= c <= chars.len(),
        forall|i: int|
            0 <= i < char_offset(chars, c) ==> #[trigger] encode_utf8(chars)[i] != LF,
    ensures
        forall|i: int| 0 <= i < c ==> #[trigger] chars[i] != '\n',
{
    assert forall|i: int| 0 <= i < c implies #[trigger] chars[i] != '\n' by {
        lemma_char_at(chars, i);
        lemma_char_offsets(chars, i + 1, c);
        assert(encode_utf8(chars)[char_offset(chars, i)] != LF);
    }
}

/// Which character the line feed at byte `at` is.
spec fn line_feed_index(chars: Seq<char>, at: int) -> int {
    choose|c: int| 0 <= c < chars.len() && #[trigger] char_offset(chars, c) == at
}

/// A line feed among the bytes is a character of its own.
proof fn lemma_line_feed(chars: Seq<char>, at: int)
    requires
        0 <= at < encode_utf8(chars).len(),
        encode_utf8(chars)[at] == LF,
    ensures
        ({
            let c = line_feed_index(chars, at);
            &&& 0 <= c < chars.len()
            &&& char_offset(chars, c) == at
            &&& chars[c] == '\n'
        }),
{
    lemma_char_offsets(chars, 0, chars.len() as int);
    lemma_rope_boundary(chars, at, 0);
    let d = choose|d: int| 0 <= d <= chars.len() && #[trigger] char_offset(chars, d) == at;
    assert(0 <= d < chars.len());
    let c = line_feed_index(chars, at);
    lemma_char_at(chars, c);
    vstd::utf8::char_u32_cast(chars[c], 10);
}

/// A text can be split in front of each character.
pub proof fn lemma_split(chars: Seq<char>, c: int)
    requires
        0 <= c <= chars.len(),
    ensures
        ({
            let bytes = encode_utf8(chars);
            let at = char_offset(chars, c);
            &&& vstd::utf8::is_char_boundary(bytes, at)
            &&& bytes.subrange(0, at) == encode_utf8(chars.take(c))
            &&& bytes.subrange(at, bytes.len() as int) == encode_utf8(chars.skip(c))
        }),
{
    let bytes = encode_utf8(chars);
    let at = char_offset(chars, c);
    assert(chars.take(c) + chars.skip(c) =~= chars);
    lemma_encode_concat(chars.take(c), chars.skip(c));
    assert(bytes.subrange(0, at) =~= encode_utf8(chars.take(c)));
    assert(bytes.subrange(at, bytes.len() as int) =~= encode_utf8(chars.skip(c)));
    vstd::utf8::encode_utf8_valid_utf8(chars);
    lemma_char_offsets(chars, 0, c);
    vstd::utf8::is_char_boundary_start_end_of_seq(bytes);
    if c < chars.len() {
        lemma_char_at(chars, c);
        vstd::utf8::is_char_boundary_iff_not_is_continuation_byte(bytes, at);
    } else {
        lemma_char_offsets(chars, c, c);
    }
}

/// A text with `to` in place of each line feed.
fn replace_line_feeds(text: &str, to: &str) -> (out: String)
    ensures
        out@ == replaced(text@, '\n', to@),
{
    let mut out = String::new();
    let mut rest: &str = text;
    assert(out@ + replaced(rest@, '\n', to@) =~= replaced(text@, '\n', to@));
    loop
        invariant_except_break
            out@ + replaced(rest@, '\n', to@) == replaced(text@, '\n', to@),
        ensures
            out@ == replaced(text@, '\n', to@),
        decreases rest@.len(),
    {
        let ghost chars = rest@;
        let bytes = rest.as_bytes();
        match first_line_feed(bytes) {
            None => {
                proof {
                    lemma_char_offsets(chars, 0, chars.len() as int);
                    lemma_no_line_feed(chars, chars.len() as int);
                    lemma_replaced_none(chars, '\n', to@);
                }
                out.append(rest);
                break;
            },
            Some(at) => {
                let ghost c = line_feed_index(chars, at as int);
                proof {
                    lemma_line_feed(chars, at as int);
                    lemma_split(chars, c);
                    lemma_no_line_feed(chars, c);
                }
                let (head, tail) = rest.split_at(at);
                proof {
                    lemma_same_bytes(head@, chars.take(c));
                    lemma_same_bytes(tail@, chars.skip(c));
                    lemma_split(tail@, 1);
                    lemma_char_at(tail@, 0);
                    lemma_char_offsets(tail@, 0, 1);
                }
                let (feed, after) = tail.split_at(1);
                proof {
                    lemma_same_bytes(after@, tail@.skip(1));
                    lemma_same_bytes(feed@, tail@.take(1));
                    lemma_replaced_none(head@, '\n', to@);
                    lemma_replaced_concat(head@, tail@, '\n', to@);
                    lemma_replaced_concat(feed@, after@, '\n', to@);
                    assert(feed@ =~= seq!['\n']);
                    assert(replaced(feed@, '\n', to@) == to@) by {
                        reveal_with_fuel(replaced, 2);
                        assert(feed@.drop_last() =~= Seq::empty());
                        assert(feed@.last() == '\n');
                        assert(Seq::<char>::empty() + to@ =~= to@);
                    }
                    assert(head@ + tail@ =~= chars);
                    assert(feed@ + after@ =~= tail@);
                    assert(out@ + (head@ + (to@ + replaced(after@, '\n', to@))) =~= out@ + head@
                        + to@ + replaced(after@, '\n', to@));
                }
                out.append(head);
                out.append(to);
                rest = after;
            },
        }
    }
    out
}

/// A text with the line ending of its file.
pub open spec fn with_line_endings(chars: Seq<char>, line_ending: LineEnding) -> Seq<char> {
    match line_ending {
        LineEnding::Lf => chars,
        _ => replaced(chars, '\n', line_ending.spec_as_str()@),
    }
}

/// How many bytes a file takes more than its text, which has `line_feeds` line feeds.
pub open spec fn ending_bytes(line_ending: LineEnding, line_feeds: nat) -> nat {
    match line_ending {
        LineEnding::Crlf => line_feeds,
        _ => 0,
    }
}

proof fn lemma_encode_one(c: char)
    ensures
        encode_utf8(seq![c]) == encode_scalar(c as u32),
{
    reveal_with_fuel(encode_utf8, 2);
    assert(seq![c].drop_first() =~= Seq::empty());
    assert(encode_utf8(seq![c]) =~= encode_scalar(c as u32));
}

proof fn lemma_ending_bytes(line_ending: LineEnding)
    ensures
        encode_utf8(line_ending.spec_as_str()@).len() == 1 + ending_bytes(line_ending, 1),
{
    reveal_strlit("\n");
    reveal_strlit("\r\n");
    reveal_strlit("\r");
    lemma_encode_one('\n');
    lemma_encode_one('\r');
    match line_ending {
        LineEnding::Lf => {
            assert("\n"@ =~= seq!['\n']);
        },
        LineEnding::Cr => {
            assert("\r"@ =~= seq!['\r']);
        },
        LineEnding::Crlf => {
            assert("\r\n"@ =~= seq!['\r'] + seq!['\n']);
            lemma_encode_concat(seq!['\r'], seq!['\n']);
        },
    }
}

/// The length of a text in its file: each line feed takes as much as the line ending.
pub proof fn law_saved_length(chars: Seq<char>, line_ending: LineEnding)
    ensures
        encode_utf8(with_line_endings(chars, line_ending)).len() == encode_utf8(chars).len()
            + ending_bytes(line_ending, count_lf(chars)),
    decreases chars.len(),
{
    lemma_ending_bytes(line_ending);
    if chars.len() > 0 {
        let front = chars.drop_last();
        law_saved_length(front, line_ending);
        assert(chars =~= front + seq![chars.last()]);
        lemma_encode_concat(front, seq![chars.last()]);
        lemma_encode_one(chars.last());
        let ending = line_ending.spec_as_str()@;
        if !(line_ending is Lf) {
            lemma_encode_concat(
                replaced(front, '\n', ending),
                if chars.last() == '\n' {
                    ending
                } else {
                    seq![chars.last()]
                },
            );
        }
        if chars.last() as u32 == 10 {
            vstd::utf8::char_u32_cast(chars.last(), 10);
        }
    }
}

/// At most every byte is a line feed.
proof fn lemma_count_bound(chars: Seq<char>)
    ensures
        count_lf(chars) <= encode_utf8(chars).len(),
    decreases chars.len(),
{
    if chars.len() > 0 {
        let front = chars.drop_last();
        lemma_count_bound(front);
        assert(chars =~= front + seq![chars.last()]);
        lemma_encode_concat(front, seq![chars.last()]);
        lemma_encode_one(chars.last());
    }
}

/// How many bytes the text of a rope takes in its file.
pub fn rope_save_len_bytes(rope: &ropey::Rope, line_ending: LineEnding) -> (len: usize)
    ensures
        len == sat_add(
            0,
            encode_utf8(with_line_endings(rope_text(*rope), line_ending)).len() as int,
        ),
{
    proof {
        law_saved_length(rope_text(*rope), line_ending);
    }
    let bytes: usize = rope.len_bytes();
    match line_ending {
        LineEnding::Crlf => bytes.saturating_add(rope.len_lines() - 1),
        _ => bytes,
    }
}

/// The text of a rope as its file has it.
pub fn rope_text_with_line_endings(rope: &ropey::Rope, line_ending: LineEnding) -> (text: String)
    requires
        rope_bytes(*rope).len() <= isize::MAX / 2,
    ensures
        text@ == with_line_endings(rope_text(*rope), line_ending),
        encode_utf8(text@).len() <= 2 * rope_bytes(*rope).len(),
{
    proof {
        law_saved_length(rope_text(*rope), line_ending);
        lemma_count_bound(rope_text(*rope));
    }
    let text = rope_to_string(rope);
    match line_ending {
        LineEnding::Lf => text,
        _ => replace_line_feeds(text.as_str(), line_ending.as_str()),
    }
}

/// What the bytes of a text in an encoding are, given what the encoder made of it. UTF-8
/// takes every text as it is; other encodings are saved only where they are their own output
/// encoding and hold every character.
pub open spec fn encode_outcome(
    text: Seq<char>,
    encoding: (Seq<char>, Seq<char>),
    made: Option<(Seq<u8>, (Seq<char>, Seq<char>), bool)>,
) -> Result<Seq<u8>, EncodeFailure> {
    if encoding.0 == "UTF-8"@ {
        Ok(encode_utf8(text))
    } else if encoding.0 != encoding.1 {
        Err(EncodeFailure::Unsupported)
    } else {
        match made {
            None => Err(EncodeFailure::Unsupported),
            Some((bytes, actual, was_replaced)) => if actual.0 != encoding.0 {
                Err(EncodeFailure::Redirected(actual))
            } else if was_replaced {
                Err(EncodeFailure::Unrepresentable)
            } else {
                Ok(bytes)
            },
        }
    }
}

/// Why a text cannot be saved in an encoding.
pub ghost enum EncodeFailure {
    Unsupported,
    Redirected((Seq<char>, Seq<char>)),
    Unrepresentable,
}

/// `kind` reports `failure`.
pub open spec fn reports(kind: DocumentEncodingErrorKind, failure: EncodeFailure) -> bool {
    match failure {
        EncodeFailure::Unsupported => kind is UnsupportedSaveTarget,
        EncodeFailure::Redirected(actual) => kind is RedirectedSaveTarget
            && kind->RedirectedSaveTarget_actual@ == actual,
        EncodeFailure::Unrepresentable => kind is UnrepresentableText,
    }
}

/// Decides what to do with what the encoder made of a text.
pub fn accept_encoded(
    text: &str,
    encoding: DocumentEncoding,
    made: Option<(Vec<u8>, DocumentEncoding, bool)>,
) -> (result: Result<Vec<u8>, DocumentEncodingErrorKind>)
    ensures
        match encode_outcome(
            text@,
            encoding@,
            match made {
                Some((bytes, actual, was_replaced)) => Some((bytes@, actual@, was_replaced)),
                None => None,
            },
        ) {
            Ok(bytes) => result is Ok && result->Ok_0@ == bytes,
            Err(failure) => result is Err && reports(result->Err_0, failure),
        },
{
    if encoding.is_utf8() {
        let mut bytes: Vec<u8> = Vec::new();
        push_bytes(&mut bytes, text.as_bytes());
        assert(bytes@ =~= encode_utf8(text@));
        return Ok(bytes);
    }
    if !encoding.can_roundtrip_save() {
        return Err(DocumentEncodingErrorKind::UnsupportedSaveTarget);
    }
    match made {
        None => Err(DocumentEncodingErrorKind::UnsupportedSaveTarget),
        Some((bytes, actual, was_replaced)) => if !same_text(actual.name(), encoding.name()) {
            Err(DocumentEncodingErrorKind::RedirectedSaveTarget { actual })
        } else if was_replaced {
            Err(DocumentEncodingErrorKind::UnrepresentableText)
        } else {
            Ok(bytes)
        },
    }
}

/// What the bytes of a text in an encoding are.
pub open spec fn encode_result(text: Seq<char>, encoding: (Seq<char>, Seq<char>)) -> Result<
    Seq<u8>,
    EncodeFailure,
> {
    encode_outcome(text, encoding, encoded(text, encoding.0))
}

/// The bytes of a text in an encoding, or why it cannot be saved in it.
pub fn encode_text_with_encoding(text: &str, encoding: DocumentEncoding) -> (result: Result<
    Vec<u8>,
    DocumentEncodingErrorKind,
>)
    requires
        encoding.spec_is_utf8() || text.spec_bytes().len() <= usize::MAX / 64,
    ensures
        match encode_result(text@, encoding@) {
            Ok(bytes) => result is Ok && result->Ok_0@ == bytes,
            Err(failure) => result is Err && reports(result->Err_0, failure),
        },
{
    if encoding.is_utf8() {
        return accept_encoded(text, encoding, None);
    }
    accept_encoded(text, encoding, encode_as(text, encoding.name()))
}

} // verus!
