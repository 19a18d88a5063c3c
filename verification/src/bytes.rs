//! Little-endian fields of the binary sidecar formats.

use vstd::prelude::*;

verus! {

/// The number whose little-endian digits in base 256 are `s`.
pub open spec fn le_value(s: Seq<u8>) -> nat
    decreases s.len(),
{
    if s.len() == 0 {
        0
    } else {
        s[0] as nat + 256 * le_value(s.skip(1))
    }
}

/// The `n` lowest base 256 digits of `value`, lowest digit first.
pub open spec fn le_digits(value: nat, n: nat) -> Seq<u8>
    decreases n,
{
    if n == 0 {
        Seq::empty()
    } else {
        seq![(value % 256) as u8] + le_digits(value / 256, (n - 1) as nat)
    }
}

/// `base` raised to `exp`, for the digit weights.
pub open spec fn weight(exp: nat) -> nat
    decreases exp,
{
    if exp == 0 {
        1
    } else {
        256 * weight((exp - 1) as nat)
    }
}

/// Reading back `n` digits of a value that fits in them gives the value.
pub proof fn lemma_le_round_trip(value: nat, n: nat)
    requires
        value < weight(n),
    ensures
        le_digits(value, n).len() == n,
        le_value(le_digits(value, n)) == value,
    decreases n,
{
    if n > 0 {
        assert(value / 256 < weight((n - 1) as nat)) by (nonlinear_arith)
            requires
                value < 256 * weight((n - 1) as nat),
        ;
        lemma_le_round_trip(value / 256, (n - 1) as nat);
        let tail = le_digits(value / 256, (n - 1) as nat);
        assert(le_digits(value, n).skip(1) =~= tail);
    }
}

/// `n` digits always take `n` bytes.
pub proof fn lemma_le_digits_len(value: nat, n: nat)
    ensures
        le_digits(value, n).len() == n,
    decreases n,
{
    if n > 0 {
        lemma_le_digits_len(value / 256, (n - 1) as nat);
    }
}

/// A digit sequence denotes less than the next weight, and its digits are itself.
pub proof fn lemma_le_value_bound(s: Seq<u8>)
    ensures
        le_value(s) < weight(s.len()),
        le_digits(le_value(s), s.len()) == s,
    decreases s.len(),
{
    if s.len() > 0 {
        lemma_le_value_bound(s.skip(1));
        let v = le_value(s.skip(1));
        assert(le_value(s) == s[0] as nat + 256 * v);
        assert((s[0] as nat + 256 * v) % 256 == s[0] as nat);
        assert((s[0] as nat + 256 * v) / 256 == v);
        assert(le_digits(le_value(s), s.len()) =~= seq![s[0]] + s.skip(1));
        assert(seq![s[0]] + s.skip(1) =~= s);
    } else {
        assert(le_digits(le_value(s), s.len()) =~= s);
    }
}

/// Eight digits hold every `u64`, four every `u32`.
pub proof fn lemma_weights()
    ensures
        weight(1) == 0x100,
        weight(4) == 0x1_0000_0000,
        weight(8) == 0x1_0000_0000_0000_0000,
{
    reveal_with_fuel(weight, 9);
}

/// A digit sequence splits at any place into its low and high part.
proof fn lemma_le_digits_step(value: nat, n: nat, done: Seq<u8>)
    requires
        n > 0,
    ensures
        done + le_digits(value, n) == done.push((value % 256) as u8) + le_digits(
            value / 256,
            (n - 1) as nat,
        ),
{
    assert(done + le_digits(value, n) =~= done.push((value % 256) as u8) + le_digits(
        value / 256,
        (n - 1) as nat,
    ));
}

/// Weights grow with the exponent.
proof fn lemma_weight_monotone(a: nat, b: nat)
    requires
        a <= b,
    ensures
        1 <= weight(a) <= weight(b),
    decreases b,
{
    if a < b {
        lemma_weight_monotone(a, (b - 1) as nat);
    } else if a > 0 {
        lemma_weight_monotone((a - 1) as nat, (b - 1) as nat);
    }
}

/// Appends the `n` lowest little-endian bytes of `value`.
pub fn push_le(buf: &mut Vec<u8>, value: u64, n: usize)
    ensures
        final(buf)@ == old(buf)@ + le_digits(value as nat, n as nat),
{
    let mut rest: u64 = value;
    let mut left: usize = n;
    assert(buf@ + le_digits(value as nat, n as nat) == old(buf)@ + le_digits(
        value as nat,
        n as nat,
    ));
    while left > 0
        invariant
            left <= n,
            buf@ + le_digits(rest as nat, left as nat) == old(buf)@ + le_digits(
                value as nat,
                n as nat,
            ),
        decreases left,
    {
        proof {
            lemma_le_digits_step(rest as nat, left as nat, buf@);
        }
        buf.push((rest % 256) as u8);
        rest = rest / 256;
        left = left - 1;
    }
    assert(buf@ + le_digits(rest as nat, 0) =~= buf@);
}

/// Reads the `n` bytes at `at` as a little-endian number.
pub fn read_le(buf: &[u8], at: usize, n: usize) -> (value: u64)
    requires
        n <= 8,
        at + n <= buf@.len(),
    ensures
        value == le_value(buf@.subrange(at as int, at + n)),
{
    let mut value: u64 = 0;
    let mut i: usize = n;
    assert(buf.len() <= usize::MAX);
    assert(buf@.subrange(at + n, at + n) =~= Seq::<u8>::empty());
    while i > 0
        invariant
            i <= n <= 8,
            at + n <= buf@.len() <= usize::MAX,
            value == le_value(buf@.subrange(at + i, at + n)),
        decreases i,
    {
        i = i - 1;
        proof {
            let whole = buf@.subrange(at + i, at + n);
            let high = buf@.subrange(at + i + 1, at + n);
            assert(whole.skip(1) =~= high);
            assert(whole[0] == buf@[at + i]);
            lemma_le_value_bound(whole);
            lemma_weight_monotone(whole.len(), 8);
            lemma_weights();
        }
        value = buf[at + i] as u64 + 256 * value;
    }
    value
}

} // verus!
