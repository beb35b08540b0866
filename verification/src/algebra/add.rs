//! Addition as an operation.

use vstd::prelude::*;
use super::{Associative, Commutative, Divisibility, Identity, Inverse, Magma};

verus! {

/// A number with an addition that forms a commutative group: in the
/// primitive integers, the addition that wraps around.
pub trait Additive: Sized {
    spec fn spec_sum(self, r: Self) -> Self;

    spec fn spec_zero() -> Self;

    spec fn spec_negation(self) -> Self;

    spec fn spec_difference(self, r: Self) -> Self;

    fn sum(&self, r: &Self) -> (s: Self)
        ensures
            s == self.spec_sum(*r),
    ;

    fn zero() -> (z: Self)
        ensures
            z == Self::spec_zero(),
    ;

    fn negation(&self) -> (n: Self)
        ensures
            n == self.spec_negation(),
    ;

    fn difference(&self, r: &Self) -> (d: Self)
        ensures
            d == self.spec_difference(*r),
    ;

    proof fn lemma_sum_associative(a: Self, b: Self, c: Self)
        ensures
            a.spec_sum(b).spec_sum(c) == a.spec_sum(b.spec_sum(c)),
    ;

    proof fn lemma_sum_commutative(a: Self, b: Self)
        ensures
            a.spec_sum(b) == b.spec_sum(a),
    ;

    proof fn lemma_sum_zero(a: Self)
        ensures
            a.spec_sum(Self::spec_zero()) == a,
    ;

    proof fn lemma_sum_negation(a: Self)
        ensures
            a.spec_sum(a.spec_negation()) == Self::spec_zero(),
    ;

    proof fn lemma_sum_difference(a: Self, b: Self)
        ensures
            b.spec_sum(a.spec_difference(b)) == a,
    ;
}

/// The numbers of `T` under addition.
pub struct Add<T> {
    _p: core::marker::PhantomData<T>,
}

impl<T: Additive> Magma for Add<T> {
    type T = T;

    open spec fn spec_op(a: T, b: T) -> T {
        a.spec_sum(b)
    }

    fn op(a: &T, b: &T) -> (r: T) {
        a.sum(b)
    }
}

impl<T: Additive> Associative for Add<T> {
    proof fn lemma_associative(a: T, b: T, c: T) {
        T::lemma_sum_associative(a, b, c);
    }
}

impl<T: Additive> Commutative for Add<T> {
    proof fn lemma_commutative(a: T, b: T) {
        T::lemma_sum_commutative(a, b);
    }
}

impl<T: Additive> Identity for Add<T> {
    open spec fn spec_e() -> T {
        T::spec_zero()
    }

    fn e() -> (r: T) {
        T::zero()
    }

    proof fn lemma_identity(a: T) {
        T::lemma_sum_zero(a);
        T::lemma_sum_commutative(a, T::spec_zero());
    }
}

impl<T: Additive> Inverse for Add<T> {
    open spec fn spec_rev(a: T) -> T {
        a.spec_negation()
    }

    fn rev(a: &T) -> (r: T) {
        a.negation()
    }

    proof fn lemma_inverse(a: T) {
        T::lemma_sum_negation(a);
    }
}

impl<T: Additive> Divisibility for Add<T> {
    open spec fn spec_div(a: T, b: T) -> T {
        a.spec_difference(b)
    }

    fn div(a: &T, b: &T) -> (r: T) {
        a.difference(b)
    }

    proof fn lemma_divisibility(a: T, b: T) {
        T::lemma_sum_difference(a, b);
    }
}

} // verus!
