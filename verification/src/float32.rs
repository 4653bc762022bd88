//! IEEE-754 single-precision numbers held as their 32-bit patterns.
//!
//! Every array the engine sorts travels through the library as the bit patterns of its
//! elements (`f32::to_bits`). This module says which number a pattern stands for, orders
//! patterns by that number, and gives the monotonic map onto unsigned keys that the radix
//! sort runs on.
use core::cmp::Ordering;
use vstd::arithmetic::power2::{lemma_pow2_pos, lemma_pow2_strictly_increases, lemma_pow2_unfold, pow2};
use vstd::prelude::*;

verus! {

/// The bit pattern of positive infinity.
pub const INFINITY_BITS: u32 = 0x7f80_0000;

/// The number of patterns on each side of the sign bit.
pub const SIGN_SPAN: u32 = 0x8000_0000;

/// The number of patterns that share one sign and one exponent.
pub const MANTISSA_SPAN: u32 = 0x0080_0000;

/// The pattern without its sign bit.
pub open spec fn unsigned_part(bits: u32) -> int {
    bits as int % SIGN_SPAN as int
}

/// Whether the pattern is one of the not-a-number patterns.
pub open spec fn is_nan(bits: u32) -> bool {
    unsigned_part(bits) > INFINITY_BITS
}

/// Whether no element of `s` is a not-a-number pattern.
pub open spec fn no_nan(s: Seq<u32>) -> bool {
    forall|i: int| 0 <= i < s.len() ==> !is_nan(#[trigger] s[i])
}

/// The absolute value of the number, in units of the smallest positive number (two to the
/// power -149). The infinities count as the number that follows the largest finite one.
pub open spec fn magnitude_of(unsigned: int) -> nat {
    let exponent = unsigned / MANTISSA_SPAN as int;
    let mantissa = unsigned % MANTISSA_SPAN as int;
    if exponent == 0 {
        mantissa as nat
    } else {
        ((MANTISSA_SPAN + mantissa) * pow2((exponent - 1) as nat)) as nat
    }
}

/// The number that a pattern stands for, in units of the smallest positive number. Both
/// zeros have the value zero.
pub open spec fn value(bits: u32) -> int {
    let magnitude = magnitude_of(unsigned_part(bits)) as int;
    if bits < SIGN_SPAN {
        magnitude
    } else {
        -magnitude
    }
}

/// The numbers that the patterns of `s` stand for.
pub open spec fn values(s: Seq<u32>) -> Seq<int> {
    s.map_values(|bits: u32| value(bits))
}

/// Whether the numbers of `s` ascend.
pub open spec fn sorted_by_value(s: Seq<u32>) -> bool {
    forall|i: int, j: int| 0 <= i <= j < s.len() ==> value(#[trigger] s[i]) <= value(#[trigger] s[j])
}

/// The unsigned key of a pattern: patterns of negative numbers are mirrored into the lower
/// half, the others shifted into the upper half.
pub open spec fn key(bits: u32) -> u32 {
    if bits < SIGN_SPAN {
        (bits + SIGN_SPAN) as u32
    } else {
        (u32::MAX - bits) as u32
    }
}

/// The pattern whose key is `k`.
pub open spec fn pattern(k: u32) -> u32 {
    if k >= SIGN_SPAN {
        (k - SIGN_SPAN) as u32
    } else {
        (u32::MAX - k) as u32
    }
}

/// Whether the keys of `s` ascend.
pub open spec fn sorted_by_key(s: Seq<u32>) -> bool {
    forall|i: int, j: int| 0 <= i <= j < s.len() ==> key(#[trigger] s[i]) <= key(#[trigger] s[j])
}

/// Maps a bit pattern onto its unsigned key.
pub fn to_key(bits: u32) -> (k: u32)
    ensures
        k == key(bits),
{
    proof {
        assert((bits & 0x8000_0000 != 0) == (bits >= 0x8000_0000)) by (bit_vector);
        assert(bits < 0x8000_0000 ==> bits | 0x8000_0000 == bits + 0x8000_0000) by (bit_vector);
        assert(!bits == u32::MAX - bits) by (bit_vector);
    }
    if bits & 0x8000_0000 != 0 {
        !bits
    } else {
        bits | 0x8000_0000
    }
}

/// Maps an unsigned key back onto its bit pattern.
pub fn from_key(k: u32) -> (bits: u32)
    ensures
        bits == pattern(k),
{
    proof {
        assert((k & 0x8000_0000 != 0) == (k >= 0x8000_0000)) by (bit_vector);
        assert(k >= 0x8000_0000 ==> k & 0x7fff_ffff == k - 0x8000_0000) by (bit_vector);
        assert(!k == u32::MAX - k) by (bit_vector);
    }
    if k & 0x8000_0000 != 0 {
        k & 0x7fff_ffff
    } else {
        !k
    }
}

/// The magnitude grows strictly with the unsigned part of the pattern.
proof fn lemma_magnitude_increases(u: int, v: int)
    requires
        0 <= u < v < SIGN_SPAN,
    ensures
        magnitude_of(u) < magnitude_of(v),
{
    let span = MANTISSA_SPAN as int;
    let (eu, mu) = (u / span, u % span);
    let (ev, mv) = (v / span, v % span);
    assert(eu <= ev);
    if eu == ev {
        assert(mu < mv);
        if eu > 0 {
            let p = pow2((eu - 1) as nat) as int;
            lemma_pow2_pos((eu - 1) as nat);
            assert((span + mu) * p < (span + mv) * p) by (nonlinear_arith)
                requires
                    mu < mv,
                    p > 0,
            ;
        }
    } else {
        let q = pow2((ev - 1) as nat) as int;
        lemma_pow2_pos((ev - 1) as nat);
        assert(span * q <= (span + mv) * q) by (nonlinear_arith)
            requires
                0 <= mv,
                q > 0,
        ;
        if eu == 0 {
            assert(span <= span * q) by (nonlinear_arith)
                requires
                    span > 0,
                    q >= 1,
            ;
        } else {
            let p = pow2((eu - 1) as nat) as int;
            lemma_pow2_pos((eu - 1) as nat);
            lemma_pow2_unfold(eu as nat);
            if eu < ev - 1 {
                lemma_pow2_strictly_increases(eu as nat, (ev - 1) as nat);
            }
            assert(2 * p <= q);
            assert((span + mu) * p < span * q) by (nonlinear_arith)
                requires
                    0 <= mu < span,
                    p > 0,
                    2 * p <= q,
            ;
        }
    }
}

/// Two patterns compare by number as their keys compare, except that the two zeros, whose
/// keys differ, are the same number.
pub proof fn law_key_order(a: u32, b: u32)
    ensures
        value(a) < value(b) ==> key(a) < key(b),
        key(a) <= key(b) ==> value(a) <= value(b),
        value(a) == value(b) ==> a == b || (unsigned_part(a) == 0 && unsigned_part(b) == 0),
{
    let (u, v) = (unsigned_part(a), unsigned_part(b));
    if u < v {
        lemma_magnitude_increases(u, v);
    }
    if v < u {
        lemma_magnitude_increases(v, u);
    }
    if u > 0 {
        lemma_magnitude_increases(0, u);
    }
    if v > 0 {
        lemma_magnitude_increases(0, v);
    }
}

/// The patterns of the numbers without a sign count upwards from zero, and each number is one
/// spacing above the one before it: one unit up to the second exponent, and twice as much with
/// every further exponent.
pub proof fn law_numbers_are_spaced(bits: u32)
    requires
        bits < 0x7f80_0000,
    ensures
        value(0) == 0,
        value((bits + 1) as u32) - value(bits) == pow2(
            if bits < 0x0100_0000 {
                0
            } else {
                (bits as int / 0x0080_0000 - 1) as nat
            },
        ),
{
    let span = MANTISSA_SPAN as int;
    let (e, m) = (bits as int / span, bits as int % span);
    vstd::arithmetic::power2::lemma2_to64();
    if e == 0 {
        if m == span - 1 {
            assert((span + 0) * 1 == span);
        }
    } else {
        let p = pow2((e - 1) as nat) as int;
        if m == span - 1 {
            lemma_pow2_unfold(e as nat);
            assert((span + 0) * (2 * p) - (span + m) * p == p) by (nonlinear_arith)
                requires
                    m == span - 1,
            ;
        } else {
            assert((span + (m + 1)) * p - (span + m) * p == p) by (nonlinear_arith);
        }
    }
}

/// The sign bit turns a number into its opposite, and says nothing of whether it is one.
pub proof fn law_sign_is_the_opposite(bits: u32)
    requires
        bits < 0x8000_0000,
    ensures
        value((bits + 0x8000_0000) as u32) == -value(bits),
        is_nan((bits + 0x8000_0000) as u32) == is_nan(bits),
        is_nan(bits) <==> bits > 0x7f80_0000,
{
}

/// Keys and patterns stand for each other one to one.
pub proof fn law_key_round_trip(x: u32)
    ensures
        pattern(key(x)) == x,
        key(pattern(x)) == x,
{
}

/// An array whose keys ascend holds ascending numbers.
pub proof fn law_key_sorted_is_value_sorted(s: Seq<u32>)
    requires
        sorted_by_key(s),
    ensures
        sorted_by_value(s),
{
    assert forall|i: int, j: int| 0 <= i <= j < s.len() implies value(#[trigger] s[i]) <= value(
        #[trigger] s[j],
    ) by {
        law_key_order(s[i], s[j]);
    }
}

/// Whether the number of `a` is at most the number of `b`.
pub fn at_most(a: u32, b: u32) -> (yes: bool)
    requires
        !is_nan(a),
        !is_nan(b),
    ensures
        yes == (value(a) <= value(b)),
{
    proof {
        law_key_order(a, b);
        law_key_order(b, a);
        assert((a & 0x7fff_ffff) == a % 0x8000_0000) by (bit_vector);
        assert((b & 0x7fff_ffff) == b % 0x8000_0000) by (bit_vector);
    }
    (a & 0x7fff_ffff == 0 && b & 0x7fff_ffff == 0) || to_key(a) <= to_key(b)
}

/// Compares two patterns by the numbers they stand for.
pub fn compare(a: u32, b: u32) -> (order: Ordering)
    requires
        !is_nan(a),
        !is_nan(b),
    ensures
        order == Ordering::Less <==> value(a) < value(b),
        order == Ordering::Equal <==> value(a) == value(b),
        order == Ordering::Greater <==> value(a) > value(b),
{
    if !at_most(b, a) {
        Ordering::Less
    } else if !at_most(a, b) {
        Ordering::Greater
    } else {
        Ordering::Equal
    }
}

/// Calls `slice::sort_unstable_by` with [`compare`] as its comparison. The claim is what its
/// documentation promises of a comparison that is a total order: the slice afterwards holds
/// the elements it held before, and no element compares greater than a later one. The order
/// of elements that compare equal is left open.
#[verifier::external_body]
pub(crate) fn sort_unstable(data: &mut [u32])
    requires
        no_nan(old(data)@),
    ensures
        final(data)@.to_multiset() == old(data)@.to_multiset(),
        sorted_by_value(final(data)@),
{
    data.sort_unstable_by(|a, b| compare(*a, *b))
}

} // verus!
