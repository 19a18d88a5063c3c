//! Byte searches.

use vstd::prelude::*;

verus! {

pub open spec fn is_either(byte: u8, a: u8, b: u8) -> bool {
    byte == a || byte == b
}

/// `memchr::memchr2`: the index of the first byte that is one of the two needles.
pub assume_specification[ memchr::memchr2 ](needle1: u8, needle2: u8, haystack: &[u8]) -> (found:
    Option<usize>)
    ensures
        match found {
            Some(at) => {
                &&& at < haystack@.len()
                &&& is_either(haystack@[at as int], needle1, needle2)
                &&& forall|i: int|
                    0 <= i < at ==> !is_either(#[trigger] haystack@[i], needle1, needle2)
            },
            None => forall|i: int|
                0 <= i < haystack@.len() ==> !is_either(#[trigger] haystack@[i], needle1, needle2),
        },
;

/// The byte that ends a line, or the first byte of a two-byte line end.
pub const LF: u8 = 0x0a;

pub const CR: u8 = 0x0d;

/// `true` where a line ends with byte `at`. A carriage return in front of a line feed is
/// part of the line end that the line feed completes.
pub open spec fn ends_line(bytes: Seq<u8>, at: int) -> bool {
    &&& 0 <= at < bytes.len()
    &&& bytes[at] == LF || (bytes[at] == CR && !(at + 1 < bytes.len() && bytes[at + 1] == LF))
}

/// How many lines end in the first `n` bytes.
pub open spec fn line_ends(bytes: Seq<u8>, n: int) -> nat
    decreases n,
{
    if n <= 0 {
        0
    } else {
        line_ends(bytes, n - 1) + (if ends_line(bytes, n - 1) {
            1nat
        } else {
            0
        })
    }
}

/// The line breaks of two places in order.
pub proof fn lemma_line_ends_monotone(bytes: Seq<u8>, a: int, b: int)
    requires
        0 <= a <= b,
    ensures
        line_ends(bytes, a) <= line_ends(bytes, b) <= line_ends(bytes, a) + (b - a),
    decreases b,
{
    if a < b {
        lemma_line_ends_monotone(bytes, a, b - 1);
    }
}

/// How many lines end in `bytes`.
pub open spec fn breaks(bytes: Seq<u8>) -> nat {
    line_ends(bytes, bytes.len() as int)
}

/// `true` where the last byte of `a` and the first one of `b` make one line end.
pub open spec fn joins(a: Seq<u8>, b: Seq<u8>) -> bool {
    a.len() > 0 && b.len() > 0 && a.last() == CR && b[0] == LF
}

/// The line ends of two texts are those of the one that they make, but for a carriage return
/// and a line feed that come together.
pub proof fn lemma_breaks_concat(a: Seq<u8>, b: Seq<u8>)
    ensures
        breaks(a + b) + (if joins(a, b) {
            1nat
        } else {
            0
        }) == breaks(a) + breaks(b),
{
    let n = a.len() as int;
    if n > 0 {
        lemma_breaks_front(a, b, n - 1);
    }
    lemma_breaks_back(a, b, b.len() as int);
}

proof fn lemma_breaks_front(a: Seq<u8>, b: Seq<u8>, n: int)
    requires
        0 <= n < a.len(),
    ensures
        line_ends(a + b, n) == line_ends(a, n),
    decreases n,
{
    if n > 0 {
        lemma_breaks_front(a, b, n - 1);
        assert((a + b)[n - 1] == a[n - 1] && (a + b)[n] == a[n]);
    }
}

proof fn lemma_breaks_back(a: Seq<u8>, b: Seq<u8>, n: int)
    requires
        0 <= n <= b.len(),
    ensures
        line_ends(a + b, a.len() + n) == line_ends(a + b, a.len() as int) + line_ends(b, n),
    decreases n,
{
    if n > 0 {
        lemma_breaks_back(a, b, n - 1);
        assert((a + b)[a.len() + n - 1] == b[n - 1]);
        if n < b.len() {
            assert((a + b)[a.len() + n] == b[n]);
        }
    }
}

/// Counts the line ends.
pub fn count_breaks(bytes: &[u8]) -> (count: usize)
    ensures
        count == breaks(bytes@),
{
    let mut count: usize = 0;
    let mut i: usize = 0;
    while i < bytes.len()
        invariant
            i <= bytes@.len(),
            count == line_ends(bytes@, i as int),
            count <= i,
        decreases bytes@.len() - i,
    {
        let byte: u8 = bytes[i];
        if byte == LF || (byte == CR && !(i + 1 < bytes.len() && bytes[i + 1] == LF)) {
            count = count + 1;
        }
        i = i + 1;
    }
    count
}

/// No line ends where there is neither a line feed nor a carriage return.
pub proof fn lemma_no_line_end(bytes: Seq<u8>, a: int, b: int)
    requires
        0 <= a <= b <= bytes.len(),
        forall|i: int| a <= i < b ==> !is_either(#[trigger] bytes[i], LF, CR),
    ensures
        line_ends(bytes, b) == line_ends(bytes, a),
    decreases b,
{
    if a < b {
        assert(!is_either(bytes[b - 1], LF, CR));
        lemma_no_line_end(bytes, a, b - 1);
    }
}

/// `needle` stands in `haystack` at `at`.
pub open spec fn occurs(haystack: Seq<u8>, needle: Seq<u8>, at: int) -> bool {
    0 <= at && at + needle.len() <= haystack.len() && haystack.subrange(at, at + needle.len())
        == needle
}

/// `found` is the first place from `from` on where `needle` stands in `haystack`.
pub open spec fn is_first(
    haystack: Seq<u8>,
    needle: Seq<u8>,
    from: int,
    found: Option<usize>,
) -> bool {
    match found {
        Some(at) => from <= at && occurs(haystack, needle, at as int) && (forall|i: int|
            from <= i < at ==> !occurs(haystack, needle, i)),
        None => forall|i: int| from <= i ==> !occurs(haystack, needle, i),
    }
}

/// `found` is the last place where `needle` stands in the first `end` bytes of `haystack`.
pub open spec fn is_last(
    haystack: Seq<u8>,
    needle: Seq<u8>,
    end: int,
    found: Option<usize>,
) -> bool {
    match found {
        Some(at) => at + needle.len() <= end && occurs(haystack, needle, at as int) && (forall|
            i: int,
        |
            at < i && i + needle.len() <= end ==> !occurs(haystack, needle, i)),
        None => forall|i: int| i + needle.len() <= end ==> !occurs(haystack, needle, i),
    }
}

/// `memchr::memmem::find`: the index of the first occurrence of the needle.
pub assume_specification[ memchr::memmem::find ](haystack: &[u8], needle: &[u8]) -> (found: Option<
    usize,
>)
    requires
        needle@.len() > 0,
    ensures
        is_first(haystack@, needle@, 0, found),
;

/// `memchr::memmem::rfind`: the index of the last occurrence of the needle.
pub assume_specification[ memchr::memmem::rfind ](haystack: &[u8], needle: &[u8]) -> (found: Option<
    usize,
>)
    requires
        needle@.len() > 0,
    ensures
        is_last(haystack@, needle@, haystack@.len() as int, found),
;

/// An occurrence in a part is one in the whole, and the other way round.
pub proof fn lemma_occurs_part(
    whole: Seq<u8>,
    needle: Seq<u8>,
    from: int,
    to: int,
    at: int,
)
    requires
        0 <= from <= to <= whole.len(),
    ensures
        occurs(whole.subrange(from, to), needle, at) == (0 <= at && from + at + needle.len() <= to
            && occurs(whole, needle, from + at)),
{
    if 0 <= at && from + at + needle.len() <= to {
        assert(whole.subrange(from, to).subrange(at, at + needle.len()) =~= whole.subrange(
            from + at,
            from + at + needle.len(),
        ));
    }
}

/// The first place from `from` on where `needle` stands in `haystack`.
pub open spec fn first_at(haystack: Seq<u8>, needle: Seq<u8>, from: int) -> Option<int>
    decreases haystack.len() - from,
{
    if needle.len() == 0 || from + needle.len() > haystack.len() {
        None
    } else if occurs(haystack, needle, from) {
        Some(from)
    } else {
        first_at(haystack, needle, from + 1)
    }
}

/// The last place where `needle` stands in the first `end` bytes of `haystack`.
pub open spec fn last_at(haystack: Seq<u8>, needle: Seq<u8>, end: int) -> Option<int>
    decreases end,
{
    if end < needle.len() || end <= 0 {
        None
    } else if occurs(haystack, needle, end - needle.len()) {
        Some(end - needle.len())
    } else {
        last_at(haystack, needle, end - 1)
    }
}

pub proof fn lemma_first_at(haystack: Seq<u8>, needle: Seq<u8>, from: int, found: Option<usize>)
    requires
        0 <= from,
        needle.len() > 0,
        is_first(haystack, needle, from, found),
    ensures
        first_at(haystack, needle, from) == (match found {
            Some(at) => Some(at as int),
            None => None,
        }),
    decreases haystack.len() - from,
{
    if from + needle.len() <= haystack.len() && !occurs(haystack, needle, from) {
        lemma_first_at(haystack, needle, from + 1, found);
    }
}

/// What the first place is.
pub proof fn lemma_first_at_is(haystack: Seq<u8>, needle: Seq<u8>, from: int)
    requires
        0 <= from,
        needle.len() > 0,
    ensures
        match first_at(haystack, needle, from) {
            Some(at) => {
                &&& from <= at
                &&& occurs(haystack, needle, at)
                &&& forall|i: int| from <= i < at ==> !occurs(haystack, needle, i)
            },
            None => forall|i: int| from <= i ==> !occurs(haystack, needle, i),
        },
    decreases haystack.len() - from,
{
    if from + needle.len() <= haystack.len() && !occurs(haystack, needle, from) {
        lemma_first_at_is(haystack, needle, from + 1);
    }
}

pub proof fn lemma_last_at(haystack: Seq<u8>, needle: Seq<u8>, end: int, found: Option<usize>)
    requires
        needle.len() > 0,
        is_last(haystack, needle, end, found),
    ensures
        last_at(haystack, needle, end) == (match found {
            Some(at) => Some(at as int),
            None => None,
        }),
    decreases end,
{
    if end >= needle.len() && !occurs(haystack, needle, end - needle.len()) {
        lemma_last_at(haystack, needle, end - 1, found);
    }
}

/// What the last place is.
pub proof fn lemma_last_at_is(haystack: Seq<u8>, needle: Seq<u8>, end: int)
    requires
        needle.len() > 0,
    ensures
        match last_at(haystack, needle, end) {
            Some(at) => {
                &&& at + needle.len() <= end
                &&& occurs(haystack, needle, at)
                &&& forall|i: int|
                    at < i && i + needle.len() <= end ==> !occurs(haystack, needle, i)
            },
            None => forall|i: int| i + needle.len() <= end ==> !occurs(haystack, needle, i),
        },
    decreases end,
{
    if end >= needle.len() && !occurs(haystack, needle, end - needle.len()) {
        lemma_last_at_is(haystack, needle, end - 1);
    }
}

} // verus!
