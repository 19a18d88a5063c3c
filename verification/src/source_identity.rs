//! Sampled content fingerprints that tie sidecar files to their source.

use crate::bytes::{le_digits, push_le};
use vstd::prelude::*;

verus! {

pub const FNV64_OFFSET_BASIS: u64 = 0xcbf29ce484222325;

pub const FNV64_PRIME: u64 = 0x100000001b3;

/// Sources up to this size are hashed whole.
pub const FULL_FINGERPRINT_MAX_BYTES: usize = 32_768;

/// Larger sources are hashed through windows of this size.
pub const FINGERPRINT_WINDOW_BYTES: usize = 8_192;

/// One FNV-1a round: fold `byte` into `state`, then multiply modulo 2^64.
pub open spec fn fnv_step(state: u64, byte: u8) -> u64 {
    ((state ^ (byte as u64)) as int * FNV64_PRIME as int % 0x1_0000_0000_0000_0000) as u64
}

/// The FNV-1a state after `bytes`.
pub open spec fn fnv_fold(state: u64, bytes: Seq<u8>) -> u64
    decreases bytes.len(),
{
    if bytes.len() == 0 {
        state
    } else {
        fnv_step(fnv_fold(state, bytes.drop_last()), bytes.last())
    }
}

/// The bytes that one sample contributes: where it starts, how long it is, what it holds.
pub open spec fn sample_stream(start: nat, sample: Seq<u8>) -> Seq<u8> {
    le_digits(start, 8) + le_digits(sample.len(), 8) + sample
}

/// Where the five windows of a large source start, before neighbours that coincide are merged.
pub open spec fn window_anchors(len: nat) -> Seq<nat> {
    let last = (len - FINGERPRINT_WINDOW_BYTES) as nat;
    let half = (FINGERPRINT_WINDOW_BYTES / 2) as nat;
    seq![
        0nat,
        centered(len / 4, half, last),
        centered(len / 2, half, last),
        centered((len / 4) * 3, half, last),
        last,
    ]
}

/// A window of twice `half` bytes around `anchor`, moved inside `0..=last`.
pub open spec fn centered(anchor: nat, half: nat, last: nat) -> nat {
    let shifted = if anchor >= half {
        (anchor - half) as nat
    } else {
        0
    };
    if shifted <= last {
        shifted
    } else {
        last
    }
}

/// `s` without the elements that repeat their predecessor.
pub open spec fn merge_repeats(s: Seq<nat>) -> Seq<nat>
    decreases s.len(),
{
    if s.len() == 0 {
        s
    } else {
        let rest = merge_repeats(s.drop_last());
        if rest.len() > 0 && rest.last() == s.last() {
            rest
        } else {
            rest.push(s.last())
        }
    }
}

/// The start of every window that is hashed of a source of `len` bytes.
pub open spec fn window_starts(len: nat) -> Seq<nat> {
    merge_repeats(window_anchors(len))
}

/// The FNV-1a state after the windows at `starts` of `bytes`.
pub open spec fn fold_windows(state: u64, bytes: Seq<u8>, starts: Seq<nat>) -> u64
    decreases starts.len(),
{
    if starts.len() == 0 {
        state
    } else {
        let start = starts.last();
        fnv_fold(
            fold_windows(state, bytes, starts.drop_last()),
            sample_stream(
                start,
                bytes.subrange(start as int, start + FINGERPRINT_WINDOW_BYTES),
            ),
        )
    }
}

/// The fingerprint of a source that holds `bytes`.
pub open spec fn content_fingerprint(bytes: Seq<u8>) -> u64 {
    let state = fnv_fold(FNV64_OFFSET_BASIS, le_digits(bytes.len(), 8));
    if bytes.len() <= FULL_FINGERPRINT_MAX_BYTES {
        fnv_fold(state, sample_stream(0, bytes))
    } else {
        fold_windows(state, bytes, window_starts(bytes.len()))
    }
}

/// Folding a concatenation is folding its parts in turn.
pub proof fn lemma_fnv_fold_concat(state: u64, a: Seq<u8>, b: Seq<u8>)
    ensures
        fnv_fold(state, a + b) == fnv_fold(fnv_fold(state, a), b),
    decreases b.len(),
{
    if b.len() == 0 {
        assert(a + b =~= a);
    } else {
        lemma_fnv_fold_concat(state, a, b.drop_last());
        assert((a + b).drop_last() =~= a + b.drop_last());
    }
}

/// The inverse of the prime modulo 2^64.
const FNV64_INVERSE: u64 = 0xce965057aff6957b;

/// A round can be taken back.
proof fn lemma_fnv_step_back(state: u64, byte: u8)
    ensures
        (fnv_step(state, byte) as int * FNV64_INVERSE as int % 0x1_0000_0000_0000_0000) == state ^ (
        byte as u64),
{
    let m: int = 0x1_0000_0000_0000_0000;
    let x = (state ^ (byte as u64)) as int;
    let p = FNV64_PRIME as int;
    let q = FNV64_INVERSE as int;
    vstd::arithmetic::div_mod::lemma_mul_mod_noop_left(x * p, q, m);
    vstd::arithmetic::mul::lemma_mul_is_associative(x, p, q);
    assert(p * q == 1 + 887285111055 * m) by (nonlinear_arith)
        requires
            p == 0x100000001b3,
            q == 0xce965057aff6957b,
            m == 0x1_0000_0000_0000_0000,
    ;
    assert(x * (1 + 887285111055 * m) == x + (x * 887285111055) * m) by (nonlinear_arith);
    vstd::arithmetic::div_mod::lemma_mod_multiples_vanish(x * 887285111055, x, m);
    vstd::arithmetic::mul::lemma_mul_is_commutative(m, x * 887285111055);
    vstd::arithmetic::div_mod::lemma_small_mod(x as nat, m as nat);
}

/// Different states stay different, and different bytes make the same state different.
proof fn lemma_fnv_step_differs(a: u64, b: u64, x: u8, y: u8)
    ensures
        a != b ==> fnv_step(a, x) != fnv_step(b, x),
        x != y ==> fnv_step(a, x) != fnv_step(a, y),
{
    lemma_fnv_step_back(a, x);
    lemma_fnv_step_back(b, x);
    lemma_fnv_step_back(a, y);
    let c = x as u64;
    let d = y as u64;
    assert(a != b ==> a ^ c != b ^ c) by (bit_vector);
    assert(c != d ==> a ^ c != a ^ d) by (bit_vector);
}

proof fn lemma_fnv_fold_differs(a: u64, b: u64, bytes: Seq<u8>)
    requires
        a != b,
    ensures
        fnv_fold(a, bytes) != fnv_fold(b, bytes),
    decreases bytes.len(),
{
    if bytes.len() > 0 {
        lemma_fnv_fold_differs(a, b, bytes.drop_last());
        lemma_fnv_step_differs(
            fnv_fold(a, bytes.drop_last()),
            fnv_fold(b, bytes.drop_last()),
            bytes.last(),
            bytes.last(),
        );
    }
}

/// A source that is hashed whole gets another fingerprint when any one of its bytes changes.
pub proof fn law_fingerprint_sees_a_change(bytes: Seq<u8>, at: int, byte: u8)
    requires
        0 <= at < bytes.len() <= 32_768,
        byte != bytes[at],
    ensures
        content_fingerprint(bytes.update(at, byte)) != content_fingerprint(bytes),
{
    let other = bytes.update(at, byte);
    let head = le_digits(0, 8) + le_digits(bytes.len(), 8) + bytes.take(at);
    let tail = bytes.skip(at + 1);
    let state = fnv_fold(FNV64_OFFSET_BASIS, le_digits(bytes.len(), 8));
    assert(sample_stream(0, bytes) =~= head + seq![bytes[at]] + tail);
    assert(sample_stream(0, other) =~= head + seq![byte] + tail);
    lemma_fnv_fold_concat(state, head + seq![bytes[at]], tail);
    lemma_fnv_fold_concat(state, head + seq![byte], tail);
    lemma_fnv_fold_concat(state, head, seq![bytes[at]]);
    lemma_fnv_fold_concat(state, head, seq![byte]);
    let mid = fnv_fold(state, head);
    reveal_with_fuel(fnv_fold, 2);
    assert(seq![byte].drop_last() =~= Seq::empty());
    assert(seq![bytes[at]].drop_last() =~= Seq::empty());
    lemma_fnv_step_differs(mid, mid, bytes[at], byte);
    lemma_fnv_fold_differs(fnv_step(mid, bytes[at]), fnv_step(mid, byte), tail);
}

/// Of a large source the first and the last bytes are always hashed, and so is what lies a
/// quarter, a half and three quarters in, in windows that lie inside the source, from the front
/// to the back.
pub proof fn law_fingerprint_windows(len: nat)
    requires
        len > 32_768,
    ensures
        ({
            let starts = window_starts(len);
            &&& 2 <= starts.len() <= 5
            &&& starts[0] == 0
            &&& starts.last() + 8_192 == len
            &&& forall|i: int, j: int| 0 <= i < j < starts.len() ==> starts[i] < starts[j]
            &&& forall|i: int|
                0 <= i < starts.len() ==> (#[trigger] starts[i]) + 8_192 <= len
            &&& len >= 65_536 ==> {
                &&& starts.len() == 5
                &&& starts[1] <= len / 4 < starts[1] + 8_192
                &&& starts[2] <= len / 2 < starts[2] + 8_192
                &&& starts[3] <= (len / 4) * 3 < starts[3] + 8_192
            }
        }),
{
    lemma_window_starts(len);
    if len >= 65_536 {
        reveal_with_fuel(merge_repeats, 6);
        assert(merge_repeats(window_anchors(len)) =~= window_anchors(len));
    }
    let anchors = window_anchors(len);
    assert(anchors.len() == 5);
    assert forall|i: int, j: int| 0 <= i < j < anchors.len() implies anchors[i] <= anchors[j] by {}
    lemma_merge_ascending(anchors);
    assert(merge_repeats(anchors)[0] == 0);
    assert(merge_repeats(anchors).last() == anchors.last());
}

proof fn lemma_merge_ascending(s: Seq<nat>)
    requires
        forall|i: int, j: int| 0 <= i < j < s.len() ==> s[i] <= s[j],
    ensures
        ({
            let merged = merge_repeats(s);
            &&& s.len() > 0 ==> merged.len() > 0 && merged[0] == s[0] && merged.last() == s.last()
            &&& forall|i: int, j: int| 0 <= i < j < merged.len() ==> merged[i] < merged[j]
        }),
    decreases s.len(),
{
    if s.len() > 0 {
        let front = s.drop_last();
        lemma_merge_ascending(front);
        let rest = merge_repeats(front);
        if rest.len() > 0 {
            assert(rest.last() == s[s.len() - 2]);
            assert(rest.last() <= s.last());
        }
    }
}

/// Every window of a large source lies inside it, and there are at most five of them.
pub proof fn lemma_window_starts(len: nat)
    requires
        len > FULL_FINGERPRINT_MAX_BYTES,
    ensures
        1 <= window_starts(len).len() <= 5,
        forall|i: int|
            0 <= i < window_starts(len).len() ==> (#[trigger] window_starts(len)[i])
                + FINGERPRINT_WINDOW_BYTES <= len,
{
    let anchors = window_anchors(len);
    lemma_merge_repeats(anchors, (len - FINGERPRINT_WINDOW_BYTES) as nat);
}

proof fn lemma_merge_repeats(s: Seq<nat>, bound: nat)
    requires
        forall|i: int| 0 <= i < s.len() ==> #[trigger] s[i] <= bound,
    ensures
        merge_repeats(s).len() <= s.len(),
        s.len() > 0 ==> merge_repeats(s).len() > 0,
        forall|i: int|
            0 <= i < merge_repeats(s).len() ==> #[trigger] merge_repeats(s)[i] <= bound,
    decreases s.len(),
{
    if s.len() > 0 {
        lemma_merge_repeats(s.drop_last(), bound);
    }
}

/// How many bytes of a source of `len` bytes are read for its fingerprint.
pub fn sampled_content_fingerprint_budget(len: usize) -> (budget: usize)
    ensures
        len <= FULL_FINGERPRINT_MAX_BYTES ==> budget == len,
        len > FULL_FINGERPRINT_MAX_BYTES ==> budget == window_starts(len as nat).len()
            * FINGERPRINT_WINDOW_BYTES,
{
    if len <= FULL_FINGERPRINT_MAX_BYTES {
        return len;
    }
    let starts = sample_starts(len);
    proof {
        lemma_window_starts(len as nat);
    }
    let mut budget: usize = 0;
    let mut i: usize = 0;
    while i < starts.len()
        invariant
            i <= starts@.len(),
            starts@.len() <= 5,
            forall|k: int|
                0 <= k < starts@.len() ==> (#[trigger] starts@[k]) + FINGERPRINT_WINDOW_BYTES
                    <= len,
            budget == i * FINGERPRINT_WINDOW_BYTES,
        decreases starts@.len() - i,
    {
        let start: usize = starts[i];
        assert(starts@[i as int] + FINGERPRINT_WINDOW_BYTES <= len);
        let rest: usize = len.saturating_sub(start);
        let sampled: usize = if FINGERPRINT_WINDOW_BYTES < rest {
            FINGERPRINT_WINDOW_BYTES
        } else {
            rest
        };
        budget = budget + sampled;
        i = i + 1;
    }
    budget
}

/// The fingerprint of in-memory content.
pub fn sampled_content_fingerprint(bytes: &[u8]) -> (fingerprint: u64)
    ensures
        fingerprint == content_fingerprint(bytes@),
{
    let mut state: u64 = fingerprint_seed(bytes.len());
    if bytes.len() <= FULL_FINGERPRINT_MAX_BYTES {
        hash_sample(&mut state, 0, bytes);
        return state;
    }
    let starts = sample_starts(bytes.len());
    proof {
        lemma_window_starts(bytes@.len());
    }
    let ghost seed = state;
    let ghost marks = window_starts(bytes@.len());
    assert(marks.take(0) =~= Seq::empty());
    let mut i: usize = 0;
    while i < starts.len()
        invariant
            i <= starts@.len() == marks.len(),
            bytes@.len() <= usize::MAX,
            forall|k: int|
                0 <= k < starts@.len() ==> (#[trigger] starts@[k]) == marks[k] && starts@[k]
                    + FINGERPRINT_WINDOW_BYTES <= bytes@.len(),
            state == fold_windows(seed, bytes@, marks.take(i as int)),
        decreases starts@.len() - i,
    {
        let start: usize = starts[i];
        assert(starts@[i as int] + FINGERPRINT_WINDOW_BYTES <= bytes@.len());
        let end: usize = start + FINGERPRINT_WINDOW_BYTES;
        hash_sample(&mut state, start, vstd::slice::slice_subrange(bytes, start, end));
        proof {
            assert(marks.take(i + 1).drop_last() =~= marks.take(i as int));
        }
        i = i + 1;
    }
    assert(marks.take(i as int) =~= marks);
    state
}

/// The hash state of a source of `len` bytes before any sample is folded in.
pub fn fingerprint_seed(len: usize) -> (state: u64)
    ensures
        state == fnv_fold(FNV64_OFFSET_BASIS, le_digits(len as nat, 8)),
{
    let mut state: u64 = FNV64_OFFSET_BASIS;
    hash_u64(&mut state, len as u64);
    state
}

/// Where the sampled windows of a source of `len` bytes start, in order, without repeats.
pub fn sample_starts(len: usize) -> (starts: Vec<usize>)
    requires
        len > FULL_FINGERPRINT_MAX_BYTES,
    ensures
        starts@.len() == window_starts(len as nat).len(),
        forall|i: int|
            0 <= i < starts@.len() ==> (#[trigger] starts@[i]) == window_starts(len as nat)[i],
{
    let last_start: usize = len - FINGERPRINT_WINDOW_BYTES;
    let half: usize = FINGERPRINT_WINDOW_BYTES / 2;
    let anchors: [usize; 5] = [
        0,
        centered_start(len / 4, half, last_start),
        centered_start(len / 2, half, last_start),
        centered_start((len / 4) * 3, half, last_start),
        last_start,
    ];
    let ghost marks = window_anchors(len as nat);
    let mut starts: Vec<usize> = Vec::new();
    let mut i: usize = 0;
    assert(marks.take(0) =~= Seq::empty());
    while i < 5
        invariant
            i <= 5 == marks.len(),
            forall|k: int| 0 <= k < 5 ==> (#[trigger] anchors@[k]) == marks[k],
            starts@.len() == merge_repeats(marks.take(i as int)).len(),
            forall|k: int|
                0 <= k < starts@.len() ==> (#[trigger] starts@[k]) == merge_repeats(
                    marks.take(i as int),
                )[k],
        decreases 5 - i,
    {
        let start: usize = anchors[i];
        proof {
            assert(marks.take(i + 1).drop_last() =~= marks.take(i as int));
            assert(anchors@[i as int] == marks[i as int]);
        }
        if starts.len() == 0 || starts[starts.len() - 1] != start {
            starts.push(start);
        }
        i = i + 1;
    }
    assert(marks.take(5) =~= marks);
    starts
}

fn centered_start(anchor: usize, half: usize, last: usize) -> (start: usize)
    ensures
        start == centered(anchor as nat, half as nat, last as nat),
{
    let shifted: usize = anchor.saturating_sub(half);
    if shifted <= last {
        shifted
    } else {
        last
    }
}

/// Folds one sample, with its place and length, into `state`.
pub fn hash_sample(state: &mut u64, start: usize, bytes: &[u8])
    ensures
        *final(state) == fnv_fold(*old(state), sample_stream(start as nat, bytes@)),
{
    hash_u64(state, start as u64);
    hash_u64(state, bytes.len() as u64);
    hash_bytes(state, bytes);
    proof {
        let head = le_digits(start as nat, 8);
        let size = le_digits(bytes@.len(), 8);
        lemma_fnv_fold_concat(*old(state), head, size);
        lemma_fnv_fold_concat(*old(state), head + size, bytes@);
    }
}

fn hash_u64(state: &mut u64, value: u64)
    ensures
        *final(state) == fnv_fold(*old(state), le_digits(value as nat, 8)),
{
    let mut digits: Vec<u8> = Vec::new();
    push_le(&mut digits, value, 8);
    assert(digits@ =~= le_digits(value as nat, 8));
    hash_bytes(state, digits.as_slice());
}

fn hash_bytes(state: &mut u64, bytes: &[u8])
    ensures
        *final(state) == fnv_fold(*old(state), bytes@),
{
    let mut i: usize = 0;
    assert(bytes@.take(0) =~= Seq::empty());
    while i < bytes.len()
        invariant
            i <= bytes@.len(),
            *state == fnv_fold(*old(state), bytes@.take(i as int)),
        decreases bytes@.len() - i,
    {
        proof {
            assert(bytes@.take(i + 1).drop_last() =~= bytes@.take(i as int));
        }
        *state = (*state ^ (bytes[i] as u64)).wrapping_mul(FNV64_PRIME);
        i = i + 1;
    }
    assert(bytes@.take(i as int) =~= bytes@);
}

} // verus!
