//! `Radix` for the primitive integers.
//!
//! An unsigned integer has itself as its rank; a signed one its offset from
//! the least value of its type. Either way the distance of two keys is the
//! length of the exclusive or of their bit patterns.

use vstd::prelude::*;
use vstd::arithmetic::power2::{pow2, lemma2_to64, lemma_pow2_adds};
use vstd::std_specs::bits::axiom_u64_leading_zeros;
use super::Radix;
use super::distance::{
    bit_length, lemma_distance_xor, lemma_distance_xor_wide, lemma_leading_zeros_length,
    lemma_length_split,
};

verus! {

/// The number of binary digits of `x`.
fn length(x: u64) -> (n: u32)
    ensures
        n == bit_length(x as nat),
        n <= 64,
{
    proof {
        lemma_leading_zeros_length(x);
        axiom_u64_leading_zeros(x);
    }
    u64::BITS - x.leading_zeros()
}

/// The number of binary digits of `x`.
fn length_wide(x: u128) -> (n: u32)
    ensures
        n == bit_length(x as nat),
        n <= 128,
{
    let high: u64 = (x >> 64) as u64;
    let low: u64 = #[verifier::truncate] (x as u64);
    proof {
        lemma2_to64();
        assert(high == x / 0x1_0000_0000_0000_0000) by (bit_vector)
            requires
                high == (x >> 64) as u64,
        ;
        assert(high == 0 ==> low == x) by (bit_vector)
            requires
                high == (x >> 64) as u64,
                low == x as u64,
        ;
        if high != 0 {
            lemma_length_split(x as nat, 64);
        }
    }
    if high != 0 {
        64 + length(high)
    } else {
        length(low)
    }
}

proof fn lemma_pow2_128()
    ensures
        pow2(128) == 0x1_0000_0000_0000_0000_0000_0000_0000_0000,
{
    lemma2_to64();
    lemma_pow2_adds(64, 64);
}

proof fn lemma_pow2_word()
    ensures
        pow2(usize::BITS as nat) == usize::MAX + 1,
{
    lemma2_to64();
}

impl Radix for u8 {
    const BITS: u32 = u8::BITS;

    open spec fn rank(self) -> nat {
        self as nat
    }

    open spec fn spec_max_value() -> Self {
        u8::MAX
    }

    proof fn lemma_rank_bound(self) {
        lemma2_to64();
    }

    proof fn lemma_max_rank(self) {
    }

    proof fn lemma_width() {
    }

    fn max_value() -> (m: Self) {
        u8::MAX
    }

    fn dist(&self, r: &Self) -> (d: u32) {
        let a: u8 = *self;
        let b: u8 = *r;
        let x: u64 = (a ^ b) as u64;
        proof {
            assert(x == (a as u64) ^ (b as u64)) by (bit_vector)
                requires
                    x == (a ^ b) as u64,
            ;
            lemma_distance_xor(a as u64, b as u64);
        }
        length(x)
    }

    fn exceeds(&self, r: &Self) -> (b: bool) {
        *self > *r
    }
}

impl Radix for u16 {
    const BITS: u32 = u16::BITS;

    open spec fn rank(self) -> nat {
        self as nat
    }

    open spec fn spec_max_value() -> Self {
        u16::MAX
    }

    proof fn lemma_rank_bound(self) {
        lemma2_to64();
    }

    proof fn lemma_max_rank(self) {
    }

    proof fn lemma_width() {
    }

    fn max_value() -> (m: Self) {
        u16::MAX
    }

    fn dist(&self, r: &Self) -> (d: u32) {
        let a: u16 = *self;
        let b: u16 = *r;
        let x: u64 = (a ^ b) as u64;
        proof {
            assert(x == (a as u64) ^ (b as u64)) by (bit_vector)
                requires
                    x == (a ^ b) as u64,
            ;
            lemma_distance_xor(a as u64, b as u64);
        }
        length(x)
    }

    fn exceeds(&self, r: &Self) -> (b: bool) {
        *self > *r
    }
}

impl Radix for u32 {
    const BITS: u32 = u32::BITS;

    open spec fn rank(self) -> nat {
        self as nat
    }

    open spec fn spec_max_value() -> Self {
        u32::MAX
    }

    proof fn lemma_rank_bound(self) {
        lemma2_to64();
    }

    proof fn lemma_max_rank(self) {
    }

    proof fn lemma_width() {
    }

    fn max_value() -> (m: Self) {
        u32::MAX
    }

    fn dist(&self, r: &Self) -> (d: u32) {
        let a: u32 = *self;
        let b: u32 = *r;
        let x: u64 = (a ^ b) as u64;
        proof {
            assert(x == (a as u64) ^ (b as u64)) by (bit_vector)
                requires
                    x == (a ^ b) as u64,
            ;
            lemma_distance_xor(a as u64, b as u64);
        }
        length(x)
    }

    fn exceeds(&self, r: &Self) -> (b: bool) {
        *self > *r
    }
}

impl Radix for u64 {
    const BITS: u32 = u64::BITS;

    open spec fn rank(self) -> nat {
        self as nat
    }

    open spec fn spec_max_value() -> Self {
        u64::MAX
    }

    proof fn lemma_rank_bound(self) {
        lemma2_to64();
    }

    proof fn lemma_max_rank(self) {
    }

    proof fn lemma_width() {
    }

    fn max_value() -> (m: Self) {
        u64::MAX
    }

    fn dist(&self, r: &Self) -> (d: u32) {
        proof {
            lemma_distance_xor(*self, *r);
        }
        length(*self ^ *r)
    }

    fn exceeds(&self, r: &Self) -> (b: bool) {
        *self > *r
    }
}

impl Radix for u128 {
    const BITS: u32 = u128::BITS;

    open spec fn rank(self) -> nat {
        self as nat
    }

    open spec fn spec_max_value() -> Self {
        u128::MAX
    }

    proof fn lemma_rank_bound(self) {
        lemma_pow2_128();
    }

    proof fn lemma_max_rank(self) {
    }

    proof fn lemma_width() {
    }

    fn max_value() -> (m: Self) {
        u128::MAX
    }

    fn dist(&self, r: &Self) -> (d: u32) {
        proof {
            lemma_distance_xor_wide(*self, *r);
        }
        length_wide(*self ^ *r)
    }

    fn exceeds(&self, r: &Self) -> (b: bool) {
        *self > *r
    }
}

impl Radix for usize {
    const BITS: u32 = usize::BITS;

    open spec fn rank(self) -> nat {
        self as nat
    }

    open spec fn spec_max_value() -> Self {
        usize::MAX
    }

    proof fn lemma_rank_bound(self) {
        lemma_pow2_word();
    }

    proof fn lemma_max_rank(self) {
    }

    proof fn lemma_width() {
    }

    fn max_value() -> (m: Self) {
        usize::MAX
    }

    fn dist(&self, r: &Self) -> (d: u32) {
        let a: usize = *self;
        let b: usize = *r;
        let x: u64 = (a ^ b) as u64;
        proof {
            assert(x == (a as u64) ^ (b as u64)) by (bit_vector)
                requires
                    x == (a ^ b) as u64,
            ;
            lemma_distance_xor(a as u64, b as u64);
        }
        length(x)
    }

    fn exceeds(&self, r: &Self) -> (b: bool) {
        *self > *r
    }
}

impl Radix for i8 {
    const BITS: u32 = i8::BITS;

    open spec fn rank(self) -> nat {
        (self - i8::MIN) as nat
    }

    open spec fn spec_max_value() -> Self {
        i8::MAX
    }

    proof fn lemma_rank_bound(self) {
        lemma2_to64();
    }

    proof fn lemma_max_rank(self) {
    }

    proof fn lemma_width() {
    }

    fn max_value() -> (m: Self) {
        i8::MAX
    }

    fn dist(&self, r: &Self) -> (d: u32) {
        let a: i8 = *self;
        let b: i8 = *r;
        let x: u64 = (#[verifier::truncate] ((a ^ b) as u8)) as u64;
        proof {
            let ra: u64 = (a - i8::MIN) as u64;
            let rb: u64 = (b - i8::MIN) as u64;
            assert(ra ^ rb == x) by (bit_vector)
                requires
                    ra == (a - i8::MIN) as u64,
                    rb == (b - i8::MIN) as u64,
                    x == ((a ^ b) as u8) as u64,
            ;
            lemma_distance_xor(ra, rb);
        }
        length(x)
    }

    fn exceeds(&self, r: &Self) -> (b: bool) {
        *self > *r
    }
}

impl Radix for i16 {
    const BITS: u32 = i16::BITS;

    open spec fn rank(self) -> nat {
        (self - i16::MIN) as nat
    }

    open spec fn spec_max_value() -> Self {
        i16::MAX
    }

    proof fn lemma_rank_bound(self) {
        lemma2_to64();
    }

    proof fn lemma_max_rank(self) {
    }

    proof fn lemma_width() {
    }

    fn max_value() -> (m: Self) {
        i16::MAX
    }

    fn dist(&self, r: &Self) -> (d: u32) {
        let a: i16 = *self;
        let b: i16 = *r;
        let x: u64 = (#[verifier::truncate] ((a ^ b) as u16)) as u64;
        proof {
            let ra: u64 = (a - i16::MIN) as u64;
            let rb: u64 = (b - i16::MIN) as u64;
            assert(ra ^ rb == x) by (bit_vector)
                requires
                    ra == (a - i16::MIN) as u64,
                    rb == (b - i16::MIN) as u64,
                    x == ((a ^ b) as u16) as u64,
            ;
            lemma_distance_xor(ra, rb);
        }
        length(x)
    }

    fn exceeds(&self, r: &Self) -> (b: bool) {
        *self > *r
    }
}

impl Radix for i32 {
    const BITS: u32 = i32::BITS;

    open spec fn rank(self) -> nat {
        (self - i32::MIN) as nat
    }

    open spec fn spec_max_value() -> Self {
        i32::MAX
    }

    proof fn lemma_rank_bound(self) {
        lemma2_to64();
    }

    proof fn lemma_max_rank(self) {
    }

    proof fn lemma_width() {
    }

    fn max_value() -> (m: Self) {
        i32::MAX
    }

    fn dist(&self, r: &Self) -> (d: u32) {
        let a: i32 = *self;
        let b: i32 = *r;
        let x: u64 = (#[verifier::truncate] ((a ^ b) as u32)) as u64;
        proof {
            let ra: u64 = (a - i32::MIN) as u64;
            let rb: u64 = (b - i32::MIN) as u64;
            assert(ra ^ rb == x) by (bit_vector)
                requires
                    ra == (a - i32::MIN) as u64,
                    rb == (b - i32::MIN) as u64,
                    x == ((a ^ b) as u32) as u64,
            ;
            lemma_distance_xor(ra, rb);
        }
        length(x)
    }

    fn exceeds(&self, r: &Self) -> (b: bool) {
        *self > *r
    }
}

impl Radix for i64 {
    const BITS: u32 = i64::BITS;

    open spec fn rank(self) -> nat {
        (self - i64::MIN) as nat
    }

    open spec fn spec_max_value() -> Self {
        i64::MAX
    }

    proof fn lemma_rank_bound(self) {
        lemma2_to64();
    }

    proof fn lemma_max_rank(self) {
    }

    proof fn lemma_width() {
    }

    fn max_value() -> (m: Self) {
        i64::MAX
    }

    fn dist(&self, r: &Self) -> (d: u32) {
        let a: i64 = *self;
        let b: i64 = *r;
        let x: u64 = #[verifier::truncate] ((a ^ b) as u64);
        proof {
            let ra: u64 = (a - i64::MIN) as u64;
            let rb: u64 = (b - i64::MIN) as u64;
            assert(ra ^ rb == x) by (bit_vector)
                requires
                    ra == (a - i64::MIN) as u64,
                    rb == (b - i64::MIN) as u64,
                    x == (a ^ b) as u64,
            ;
            lemma_distance_xor(ra, rb);
        }
        length(x)
    }

    fn exceeds(&self, r: &Self) -> (b: bool) {
        *self > *r
    }
}

impl Radix for i128 {
    const BITS: u32 = i128::BITS;

    open spec fn rank(self) -> nat {
        (self - i128::MIN) as nat
    }

    open spec fn spec_max_value() -> Self {
        i128::MAX
    }

    proof fn lemma_rank_bound(self) {
        lemma_pow2_128();
    }

    proof fn lemma_max_rank(self) {
    }

    proof fn lemma_width() {
    }

    fn max_value() -> (m: Self) {
        i128::MAX
    }

    fn dist(&self, r: &Self) -> (d: u32) {
        let a: i128 = *self;
        let b: i128 = *r;
        let x: u128 = #[verifier::truncate] ((a ^ b) as u128);
        proof {
            let ra: u128 = (a - i128::MIN) as u128;
            let rb: u128 = (b - i128::MIN) as u128;
            assert(ra ^ rb == x) by (bit_vector)
                requires
                    ra == (a - i128::MIN) as u128,
                    rb == (b - i128::MIN) as u128,
                    x == (a ^ b) as u128,
            ;
            lemma_distance_xor_wide(ra, rb);
        }
        length_wide(x)
    }

    fn exceeds(&self, r: &Self) -> (b: bool) {
        *self > *r
    }
}

impl Radix for isize {
    const BITS: u32 = isize::BITS;

    open spec fn rank(self) -> nat {
        (self - isize::MIN) as nat
    }

    open spec fn spec_max_value() -> Self {
        isize::MAX
    }

    proof fn lemma_rank_bound(self) {
        lemma_pow2_word();
    }

    proof fn lemma_max_rank(self) {
    }

    proof fn lemma_width() {
    }

    fn max_value() -> (m: Self) {
        isize::MAX
    }

    fn dist(&self, r: &Self) -> (d: u32) {
        let a: i64 = *self as i64;
        let b: i64 = *r as i64;
        let x: u64 = #[verifier::truncate] ((a ^ b) as u64);
        if isize::BITS == 32 {
            let low: u64 = x & 0xffff_ffff;
            proof {
                let ra: u64 = (a + 0x8000_0000) as u64;
                let rb: u64 = (b + 0x8000_0000) as u64;
                assert(ra ^ rb == low) by (bit_vector)
                    requires
                        -0x8000_0000 <= a < 0x8000_0000,
                        -0x8000_0000 <= b < 0x8000_0000,
                        ra == (a + 0x8000_0000) as u64,
                        rb == (b + 0x8000_0000) as u64,
                        x == (a ^ b) as u64,
                        low == x & 0xffff_ffff,
                ;
                lemma_distance_xor(ra, rb);
            }
            length(low)
        } else {
            proof {
                let ra: u64 = (a - i64::MIN) as u64;
                let rb: u64 = (b - i64::MIN) as u64;
                assert(ra ^ rb == x) by (bit_vector)
                    requires
                        ra == (a - i64::MIN) as u64,
                        rb == (b - i64::MIN) as u64,
                        x == (a ^ b) as u64,
                ;
                lemma_distance_xor(ra, rb);
            }
            length(x)
        }
    }

    fn exceeds(&self, r: &Self) -> (b: bool) {
        *self > *r
    }
}

} // verus!
