//! The lesser of two as an operation.

use vstd::prelude::*;
use super::{Associative, Commutative, Idempotent, Identity, Magma};
use crate::graph::Weight;

verus! {

/// The values of `T` under "the lesser of the two".
pub struct Min<T> {
    _p: core::marker::PhantomData<T>,
}

impl<T: Weight> Magma for Min<T> {
    type T = T;

    open spec fn spec_op(a: T, b: T) -> T {
        if a.rank() > b.rank() {
            b
        } else {
            a
        }
    }

    fn op(a: &T, b: &T) -> (r: T) {
        if a.exceeds(b) {
            *b
        } else {
            *a
        }
    }
}

impl<T: Weight> Associative for Min<T> {
    proof fn lemma_associative(a: T, b: T, c: T) {
    }
}

impl<T: Weight> Commutative for Min<T> {
    proof fn lemma_commutative(a: T, b: T) {
        T::lemma_value_order(a, b);
        T::lemma_value_order(b, a);
    }
}

impl<T: Weight> Idempotent for Min<T> {
    proof fn lemma_idempotent(a: T) {
    }
}

impl<T: Weight> Identity for Min<T> {
    open spec fn spec_e() -> T {
        T::spec_max_value()
    }

    fn e() -> (r: T) {
        T::max_value()
    }

    proof fn lemma_identity(a: T) {
        a.lemma_max_rank();
        T::lemma_value_order(a, T::spec_max_value());
        T::lemma_value_order(T::spec_max_value(), a);
    }
}

} // verus!
