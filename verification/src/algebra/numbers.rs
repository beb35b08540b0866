//! `Additive` for the primitive integers: addition that wraps around.

use vstd::prelude::*;
use super::add::Additive;

verus! {

impl Additive for u8 {
    open spec fn spec_sum(self, r: Self) -> Self {
        self.wrapping_add(r)
    }

    open spec fn spec_zero() -> Self {
        0
    }

    open spec fn spec_negation(self) -> Self {
        (0 as u8).wrapping_sub(self)
    }

    open spec fn spec_difference(self, r: Self) -> Self {
        self.wrapping_sub(r)
    }

    fn sum(&self, r: &Self) -> (s: Self) {
        self.wrapping_add(*r)
    }

    fn zero() -> (z: Self) {
        0
    }

    fn negation(&self) -> (n: Self) {
        (0 as u8).wrapping_sub(*self)
    }

    fn difference(&self, r: &Self) -> (d: Self) {
        self.wrapping_sub(*r)
    }

    proof fn lemma_sum_associative(a: Self, b: Self, c: Self) {
    }

    proof fn lemma_sum_commutative(a: Self, b: Self) {
    }

    proof fn lemma_sum_zero(a: Self) {
    }

    proof fn lemma_sum_negation(a: Self) {
    }

    proof fn lemma_sum_difference(a: Self, b: Self) {
    }
}

impl Additive for u16 {
    open spec fn spec_sum(self, r: Self) -> Self {
        self.wrapping_add(r)
    }

    open spec fn spec_zero() -> Self {
        0
    }

    open spec fn spec_negation(self) -> Self {
        (0 as u16).wrapping_sub(self)
    }

    open spec fn spec_difference(self, r: Self) -> Self {
        self.wrapping_sub(r)
    }

    fn sum(&self, r: &Self) -> (s: Self) {
        self.wrapping_add(*r)
    }

    fn zero() -> (z: Self) {
        0
    }

    fn negation(&self) -> (n: Self) {
        (0 as u16).wrapping_sub(*self)
    }

    fn difference(&self, r: &Self) -> (d: Self) {
        self.wrapping_sub(*r)
    }

    proof fn lemma_sum_associative(a: Self, b: Self, c: Self) {
    }

    proof fn lemma_sum_commutative(a: Self, b: Self) {
    }

    proof fn lemma_sum_zero(a: Self) {
    }

    proof fn lemma_sum_negation(a: Self) {
    }

    proof fn lemma_sum_difference(a: Self, b: Self) {
    }
}

impl Additive for u32 {
    open spec fn spec_sum(self, r: Self) -> Self {
        self.wrapping_add(r)
    }

    open spec fn spec_zero() -> Self {
        0
    }

    open spec fn spec_negation(self) -> Self {
        (0 as u32).wrapping_sub(self)
    }

    open spec fn spec_difference(self, r: Self) -> Self {
        self.wrapping_sub(r)
    }

    fn sum(&self, r: &Self) -> (s: Self) {
        self.wrapping_add(*r)
    }

    fn zero() -> (z: Self) {
        0
    }

    fn negation(&self) -> (n: Self) {
        (0 as u32).wrapping_sub(*self)
    }

    fn difference(&self, r: &Self) -> (d: Self) {
        self.wrapping_sub(*r)
    }

    proof fn lemma_sum_associative(a: Self, b: Self, c: Self) {
    }

    proof fn lemma_sum_commutative(a: Self, b: Self) {
    }

    proof fn lemma_sum_zero(a: Self) {
    }

    proof fn lemma_sum_negation(a: Self) {
    }

    proof fn lemma_sum_difference(a: Self, b: Self) {
    }
}

impl Additive for u64 {
    open spec fn spec_sum(self, r: Self) -> Self {
        self.wrapping_add(r)
    }

    open spec fn spec_zero() -> Self {
        0
    }

    open spec fn spec_negation(self) -> Self {
        (0 as u64).wrapping_sub(self)
    }

    open spec fn spec_difference(self, r: Self) -> Self {
        self.wrapping_sub(r)
    }

    fn sum(&self, r: &Self) -> (s: Self) {
        self.wrapping_add(*r)
    }

    fn zero() -> (z: Self) {
        0
    }

    fn negation(&self) -> (n: Self) {
        (0 as u64).wrapping_sub(*self)
    }

    fn difference(&self, r: &Self) -> (d: Self) {
        self.wrapping_sub(*r)
    }

    proof fn lemma_sum_associative(a: Self, b: Self, c: Self) {
    }

    proof fn lemma_sum_commutative(a: Self, b: Self) {
    }

    proof fn lemma_sum_zero(a: Self) {
    }

    proof fn lemma_sum_negation(a: Self) {
    }

    proof fn lemma_sum_difference(a: Self, b: Self) {
    }
}

impl Additive for u128 {
    open spec fn spec_sum(self, r: Self) -> Self {
        self.wrapping_add(r)
    }

    open spec fn spec_zero() -> Self {
        0
    }

    open spec fn spec_negation(self) -> Self {
        (0 as u128).wrapping_sub(self)
    }

    open spec fn spec_difference(self, r: Self) -> Self {
        self.wrapping_sub(r)
    }

    fn sum(&self, r: &Self) -> (s: Self) {
        self.wrapping_add(*r)
    }

    fn zero() -> (z: Self) {
        0
    }

    fn negation(&self) -> (n: Self) {
        (0 as u128).wrapping_sub(*self)
    }

    fn difference(&self, r: &Self) -> (d: Self) {
        self.wrapping_sub(*r)
    }

    proof fn lemma_sum_associative(a: Self, b: Self, c: Self) {
    }

    proof fn lemma_sum_commutative(a: Self, b: Self) {
    }

    proof fn lemma_sum_zero(a: Self) {
    }

    proof fn lemma_sum_negation(a: Self) {
    }

    proof fn lemma_sum_difference(a: Self, b: Self) {
    }
}

impl Additive for usize {
    open spec fn spec_sum(self, r: Self) -> Self {
        self.wrapping_add(r)
    }

    open spec fn spec_zero() -> Self {
        0
    }

    open spec fn spec_negation(self) -> Self {
        (0 as usize).wrapping_sub(self)
    }

    open spec fn spec_difference(self, r: Self) -> Self {
        self.wrapping_sub(r)
    }

    fn sum(&self, r: &Self) -> (s: Self) {
        self.wrapping_add(*r)
    }

    fn zero() -> (z: Self) {
        0
    }

    fn negation(&self) -> (n: Self) {
        (0 as usize).wrapping_sub(*self)
    }

    fn difference(&self, r: &Self) -> (d: Self) {
        self.wrapping_sub(*r)
    }

    proof fn lemma_sum_associative(a: Self, b: Self, c: Self) {
    }

    proof fn lemma_sum_commutative(a: Self, b: Self) {
    }

    proof fn lemma_sum_zero(a: Self) {
    }

    proof fn lemma_sum_negation(a: Self) {
    }

    proof fn lemma_sum_difference(a: Self, b: Self) {
    }
}

impl Additive for i8 {
    open spec fn spec_sum(self, r: Self) -> Self {
        self.wrapping_add(r)
    }

    open spec fn spec_zero() -> Self {
        0
    }

    open spec fn spec_negation(self) -> Self {
        (0 as i8).wrapping_sub(self)
    }

    open spec fn spec_difference(self, r: Self) -> Self {
        self.wrapping_sub(r)
    }

    fn sum(&self, r: &Self) -> (s: Self) {
        self.wrapping_add(*r)
    }

    fn zero() -> (z: Self) {
        0
    }

    fn negation(&self) -> (n: Self) {
        (0 as i8).wrapping_sub(*self)
    }

    fn difference(&self, r: &Self) -> (d: Self) {
        self.wrapping_sub(*r)
    }

    proof fn lemma_sum_associative(a: Self, b: Self, c: Self) {
    }

    proof fn lemma_sum_commutative(a: Self, b: Self) {
    }

    proof fn lemma_sum_zero(a: Self) {
    }

    proof fn lemma_sum_negation(a: Self) {
    }

    proof fn lemma_sum_difference(a: Self, b: Self) {
    }
}

impl Additive for i16 {
    open spec fn spec_sum(self, r: Self) -> Self {
        self.wrapping_add(r)
    }

    open spec fn spec_zero() -> Self {
        0
    }

    open spec fn spec_negation(self) -> Self {
        (0 as i16).wrapping_sub(self)
    }

    open spec fn spec_difference(self, r: Self) -> Self {
        self.wrapping_sub(r)
    }

    fn sum(&self, r: &Self) -> (s: Self) {
        self.wrapping_add(*r)
    }

    fn zero() -> (z: Self) {
        0
    }

    fn negation(&self) -> (n: Self) {
        (0 as i16).wrapping_sub(*self)
    }

    fn difference(&self, r: &Self) -> (d: Self) {
        self.wrapping_sub(*r)
    }

    proof fn lemma_sum_associative(a: Self, b: Self, c: Self) {
    }

    proof fn lemma_sum_commutative(a: Self, b: Self) {
    }

    proof fn lemma_sum_zero(a: Self) {
    }

    proof fn lemma_sum_negation(a: Self) {
    }

    proof fn lemma_sum_difference(a: Self, b: Self) {
    }
}

impl Additive for i32 {
    open spec fn spec_sum(self, r: Self) -> Self {
        self.wrapping_add(r)
    }

    open spec fn spec_zero() -> Self {
        0
    }

    open spec fn spec_negation(self) -> Self {
        (0 as i32).wrapping_sub(self)
    }

    open spec fn spec_difference(self, r: Self) -> Self {
        self.wrapping_sub(r)
    }

    fn sum(&self, r: &Self) -> (s: Self) {
        self.wrapping_add(*r)
    }

    fn zero() -> (z: Self) {
        0
    }

    fn negation(&self) -> (n: Self) {
        (0 as i32).wrapping_sub(*self)
    }

    fn difference(&self, r: &Self) -> (d: Self) {
        self.wrapping_sub(*r)
    }

    proof fn lemma_sum_associative(a: Self, b: Self, c: Self) {
    }

    proof fn lemma_sum_commutative(a: Self, b: Self) {
    }

    proof fn lemma_sum_zero(a: Self) {
    }

    proof fn lemma_sum_negation(a: Self) {
    }

    proof fn lemma_sum_difference(a: Self, b: Self) {
    }
}

impl Additive for i64 {
    open spec fn spec_sum(self, r: Self) -> Self {
        self.wrapping_add(r)
    }

    open spec fn spec_zero() -> Self {
        0
    }

    open spec fn spec_negation(self) -> Self {
        (0 as i64).wrapping_sub(self)
    }

    open spec fn spec_difference(self, r: Self) -> Self {
        self.wrapping_sub(r)
    }

    fn sum(&self, r: &Self) -> (s: Self) {
        self.wrapping_add(*r)
    }

    fn zero() -> (z: Self) {
        0
    }

    fn negation(&self) -> (n: Self) {
        (0 as i64).wrapping_sub(*self)
    }

    fn difference(&self, r: &Self) -> (d: Self) {
        self.wrapping_sub(*r)
    }

    proof fn lemma_sum_associative(a: Self, b: Self, c: Self) {
    }

    proof fn lemma_sum_commutative(a: Self, b: Self) {
    }

    proof fn lemma_sum_zero(a: Self) {
    }

    proof fn lemma_sum_negation(a: Self) {
    }

    proof fn lemma_sum_difference(a: Self, b: Self) {
    }
}

impl Additive for i128 {
    open spec fn spec_sum(self, r: Self) -> Self {
        self.wrapping_add(r)
    }

    open spec fn spec_zero() -> Self {
        0
    }

    open spec fn spec_negation(self) -> Self {
        (0 as i128).wrapping_sub(self)
    }

    open spec fn spec_difference(self, r: Self) -> Self {
        self.wrapping_sub(r)
    }

    fn sum(&self, r: &Self) -> (s: Self) {
        self.wrapping_add(*r)
    }

    fn zero() -> (z: Self) {
        0
    }

    fn negation(&self) -> (n: Self) {
        (0 as i128).wrapping_sub(*self)
    }

    fn difference(&self, r: &Self) -> (d: Self) {
        self.wrapping_sub(*r)
    }

    proof fn lemma_sum_associative(a: Self, b: Self, c: Self) {
    }

    proof fn lemma_sum_commutative(a: Self, b: Self) {
    }

    proof fn lemma_sum_zero(a: Self) {
    }

    proof fn lemma_sum_negation(a: Self) {
    }

    proof fn lemma_sum_difference(a: Self, b: Self) {
    }
}

impl Additive for isize {
    open spec fn spec_sum(self, r: Self) -> Self {
        self.wrapping_add(r)
    }

    open spec fn spec_zero() -> Self {
        0
    }

    open spec fn spec_negation(self) -> Self {
        (0 as isize).wrapping_sub(self)
    }

    open spec fn spec_difference(self, r: Self) -> Self {
        self.wrapping_sub(r)
    }

    fn sum(&self, r: &Self) -> (s: Self) {
        self.wrapping_add(*r)
    }

    fn zero() -> (z: Self) {
        0
    }

    fn negation(&self) -> (n: Self) {
        (0 as isize).wrapping_sub(*self)
    }

    fn difference(&self, r: &Self) -> (d: Self) {
        self.wrapping_sub(*r)
    }

    proof fn lemma_sum_associative(a: Self, b: Self, c: Self) {
    }

    proof fn lemma_sum_commutative(a: Self, b: Self) {
    }

    proof fn lemma_sum_zero(a: Self) {
    }

    proof fn lemma_sum_negation(a: Self) {
    }

    proof fn lemma_sum_difference(a: Self, b: Self) {
    }
}

} // verus!
