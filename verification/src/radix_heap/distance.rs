//! The radix distance between two natural numbers, and the facts about it
//! that the heap's bucket discipline rests on.

use vstd::prelude::*;
use vstd::arithmetic::power2::{pow2, lemma_pow2_unfold, lemma_pow2_pos};

verus! {

/// One more than the position of the most significant binary digit in which
/// `a` and `b` differ, and zero when they are equal.
pub open spec fn radix_distance(a: nat, b: nat) -> nat
    decreases a + b,
{
    if a == b {
        0
    } else {
        1 + radix_distance(a / 2, b / 2)
    }
}

/// The number of binary digits of `x`, without leading zeros.
pub open spec fn bit_length(x: nat) -> nat
    decreases x,
{
    if x == 0 {
        0
    } else {
        1 + bit_length(x / 2)
    }
}

/// The distance is zero between equal numbers and between no others.
pub proof fn lemma_distance_zero(a: nat, b: nat)
    ensures
        radix_distance(a, b) == 0 <==> a == b,
{
}

/// The distance does not depend on the order of its arguments.
pub proof fn lemma_distance_symmetric(a: nat, b: nat)
    ensures
        radix_distance(a, b) == radix_distance(b, a),
    decreases a + b,
{
    if a != b {
        lemma_distance_symmetric(a / 2, b / 2);
    }
}

/// Numbers below `2^k` are at distance at most `k`.
pub proof fn lemma_distance_bound(a: nat, b: nat, k: nat)
    requires
        a < pow2(k),
        b < pow2(k),
    ensures
        radix_distance(a, b) <= k,
    decreases k,
{
    if a != b {
        if k == 0 {
            assert(pow2(0) == 1) by {
                vstd::arithmetic::power2::lemma2_to64();
            }
        } else {
            lemma_pow2_unfold(k);
            lemma_distance_bound(a / 2, b / 2, (k - 1) as nat);
        }
    }
}

/// If `b` is closer to `a` than `c` is, then `b` and `c` are exactly as far
/// apart as `a` and `c`.
pub proof fn lemma_distance_ultrametric(a: nat, b: nat, c: nat)
    requires
        radix_distance(a, b) < radix_distance(a, c),
    ensures
        radix_distance(b, c) == radix_distance(a, c),
    decreases a + c,
{
    if a != b {
        lemma_distance_ultrametric(a / 2, b / 2, c / 2);
    }
}

/// Below a common upper bound `a`, the number closer to `a` is the larger one.
pub proof fn lemma_distance_order(a: nat, b: nat, c: nat)
    requires
        b <= a,
        c <= a,
        radix_distance(a, b) < radix_distance(a, c),
    ensures
        c < b,
    decreases a,
{
    if a != b {
        lemma_distance_order(a / 2, b / 2, c / 2);
    }
}

/// Two numbers that lie at the same positive distance below `a` are closer
/// to each other than to `a`. This is why a key that leaves its bucket when
/// the floor moves into that bucket goes to a lower one.
pub proof fn lemma_distance_shrinks(a: nat, b: nat, c: nat)
    requires
        b <= a,
        c <= a,
        radix_distance(a, b) == radix_distance(a, c),
        radix_distance(a, b) > 0,
    ensures
        radix_distance(b, c) < radix_distance(a, b),
    decreases a,
{
    if a / 2 == b / 2 {
        assert(radix_distance(a / 2, b / 2) == 0);
        assert(radix_distance(a / 2, c / 2) == 0);
        assert(b / 2 == c / 2);
        if b != c {
            assert(radix_distance(b / 2, c / 2) == 0);
        }
    } else {
        lemma_distance_shrinks(a / 2, b / 2, c / 2);
    }
}

/// Mirroring both numbers inside `0 .. 2^k` leaves their distance unchanged.
pub proof fn lemma_distance_mirror(a: nat, b: nat, k: nat)
    requires
        a < pow2(k),
        b < pow2(k),
    ensures
        radix_distance((pow2(k) - 1 - a) as nat, (pow2(k) - 1 - b) as nat) == radix_distance(a, b),
    decreases k,
{
    if a != b {
        if k == 0 {
            assert(pow2(0) == 1) by {
                vstd::arithmetic::power2::lemma2_to64();
            }
        } else {
            lemma_pow2_unfold(k);
            let h = pow2((k - 1) as nat);
            lemma_distance_mirror(a / 2, b / 2, (k - 1) as nat);
            assert((2 * h - 1 - a) / 2 == h - 1 - a / 2);
            assert((2 * h - 1 - b) / 2 == h - 1 - b / 2);
        }
    }
}

/// The digits of `x` are its low `k` digits and those of `x / 2^k`.
pub proof fn lemma_length_split(x: nat, k: nat)
    requires
        x / pow2(k) > 0,
    ensures
        bit_length(x) == k + bit_length(x / pow2(k)),
    decreases k,
{
    if k == 0 {
        assert(pow2(0) == 1) by {
            vstd::arithmetic::power2::lemma2_to64();
        }
    } else {
        lemma_pow2_unfold(k);
        lemma_pow2_pos((k - 1) as nat);
        let h = pow2((k - 1) as nat);
        assert(x / (2 * h) == (x / 2) / h) by {
            vstd::arithmetic::div_mod::lemma_div_denominator(x as int, 2, h as int);
        }
        assert(x != 0);
        lemma_length_split(x / 2, (k - 1) as nat);
    }
}

/// `leading_zeros` counts the digits that `bit_length` leaves out.
pub proof fn lemma_leading_zeros_length(x: u64)
    ensures
        64 - vstd::std_specs::bits::u64_leading_zeros(x) == bit_length(x as nat),
    decreases x,
{
    reveal(vstd::std_specs::bits::u64_leading_zeros);
    if x != 0 {
        lemma_leading_zeros_length(x / 2);
    }
}

/// The distance of two 64-bit numbers is the length of their exclusive or.
pub proof fn lemma_distance_xor(a: u64, b: u64)
    ensures
        radix_distance(a as nat, b as nat) == bit_length((a ^ b) as nat),
    decreases a + b,
{
    assert((a ^ b) == 0 <==> a == b) by (bit_vector);
    if a != b {
        assert((a ^ b) / 2 == (a / 2) ^ (b / 2)) by (bit_vector);
        lemma_distance_xor(a / 2, b / 2);
    }
}

/// The distance of two 128-bit numbers is the length of their exclusive or.
pub proof fn lemma_distance_xor_wide(a: u128, b: u128)
    ensures
        radix_distance(a as nat, b as nat) == bit_length((a ^ b) as nat),
    decreases a + b,
{
    assert((a ^ b) == 0 <==> a == b) by (bit_vector);
    if a != b {
        assert((a ^ b) / 2 == (a / 2) ^ (b / 2)) by (bit_vector);
        lemma_distance_xor_wide(a / 2, b / 2);
    }
}

} // verus!
