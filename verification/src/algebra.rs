//! Sets with one operation, and the laws that the operation may meet.

use vstd::prelude::*;

pub mod add;
pub mod max;
pub mod min;
mod numbers;

pub use max::Max;
pub use min::Min;

verus! {

/// A set `T` with an operation that takes two of its elements to a third.
pub trait Magma {
    type T;

    /// What `op` computes.
    spec fn spec_op(a: Self::T, b: Self::T) -> Self::T;

    /// The operation.
    fn op(a: &Self::T, b: &Self::T) -> (r: Self::T)
        ensures
            r == Self::spec_op(*a, *b),
    ;
}

/// `op(op(a, b), c) == op(a, op(b, c))`.
pub trait Associative: Magma {
    proof fn lemma_associative(a: Self::T, b: Self::T, c: Self::T)
        ensures
            Self::spec_op(Self::spec_op(a, b), c) == Self::spec_op(a, Self::spec_op(b, c)),
    ;
}

/// `op(a, b) == op(b, a)`.
pub trait Commutative: Magma {
    proof fn lemma_commutative(a: Self::T, b: Self::T)
        ensures
            Self::spec_op(a, b) == Self::spec_op(b, a),
    ;
}

/// `op(a, a) == a`.
pub trait Idempotent: Magma {
    proof fn lemma_idempotent(a: Self::T)
        ensures
            Self::spec_op(a, a) == a,
    ;
}

/// There is an element `e` with `op(a, e) == op(e, a) == a`.
pub trait Identity: Magma {
    /// What `e` returns.
    spec fn spec_e() -> Self::T;

    /// The identity.
    fn e() -> (r: Self::T)
        ensures
            r == Self::spec_e(),
    ;

    proof fn lemma_identity(a: Self::T)
        ensures
            Self::spec_op(a, Self::spec_e()) == a,
            Self::spec_op(Self::spec_e(), a) == a,
    ;
}

/// Every `a` has an element `rev(a)` with `op(a, rev(a)) == e`.
pub trait Inverse: Identity {
    /// What `rev` computes.
    spec fn spec_rev(a: Self::T) -> Self::T;

    /// The inverse of `a`.
    fn rev(a: &Self::T) -> (r: Self::T)
        ensures
            r == Self::spec_rev(*a),
    ;

    proof fn lemma_inverse(a: Self::T)
        ensures
            Self::spec_op(a, Self::spec_rev(a)) == Self::spec_e(),
    ;
}

/// For all `a` and `b` there is an element `div(a, b)` with
/// `op(b, div(a, b)) == a`.
pub trait Divisibility: Magma {
    /// What `div` computes.
    spec fn spec_div(a: Self::T, b: Self::T) -> Self::T;

    /// What `b` has to be put together with to give `a`.
    fn div(a: &Self::T, b: &Self::T) -> (r: Self::T)
        ensures
            r == Self::spec_div(*a, *b),
    ;

    proof fn lemma_divisibility(a: Self::T, b: Self::T)
        ensures
            Self::spec_op(b, Self::spec_div(a, b)) == a,
    ;
}

} // verus!
