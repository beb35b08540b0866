//! The greater of two as an operation.

use vstd::prelude::*;
use super::{Associative, Commutative, Idempotent, Identity, Magma};
use crate::graph::Weight;

verus! {

/// The values of `T` under "the greater of the two".
pub struct Max<T> {
    _p: core::marker::PhantomData<T>,
}

impl<T: Weight> Magma for Max<T> {
    type T = T;

    open spec fn spec_op(a: T, b: T) -> T {
        if a.rank() > b.rank() {
            a
        } else {
            b
        }
    }

    fn op(a: &T, b: &T) -> (r: T) {
        if a.exceeds(b) {
            *a
        } else {
            *b
        }
    }
}

impl<T: Weight> Associative for Max<T> {
    proof fn lemma_associative(a: T, b: T, c: T) {
    }
}

impl<T: Weight> Commutative for Max<T> {
    proof fn lemma_commutative(a: T, b: T) {
        T::lemma_value_order(a, b);
        T::lemma_value_order(b, a);
    }
}

impl<T: Weight> Idempotent for Max<T> {
    proof fn lemma_idempotent(a: T) {
    }
}

impl<T: Weight> Identity for Max<T> {
    open spec fn spec_e() -> T {
        T::spec_min_value()
    }

    fn e() -> (r: T) {
        T::min_value()
    }

    proof fn lemma_identity(a: T) {
        a.lemma_min_rank();
        T::lemma_value_order(a, T::spec_min_value());
        T::lemma_value_order(T::spec_min_value(), a);
    }
}

} // verus!
