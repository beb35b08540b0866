//! Shortest paths on directed graphs with weighted edges.

use vstd::prelude::*;
use crate::radix_heap::Radix;

pub mod dijkstra;
pub mod floyd_warshall;
mod weights;

pub use dijkstra::Dijkstra;
pub use floyd_warshall::FloydWarshall;

verus! {

/// An edge weight: a radix key that stands for a number, with a zero and
/// an addition that reports when the sum leaves the type.
pub trait Weight: Radix {
    /// The number that the weight stands for.
    spec fn value(self) -> int;

    /// The weight that no other weight is below.
    spec fn spec_min_value() -> Self;

    /// Weights are ordered as their numbers are, and two weights with the
    /// same number are the same weight.
    proof fn lemma_value_order(a: Self, b: Self)
        ensures
            (a.value() <= b.value()) == (a.rank() <= b.rank()),
            a.value() == b.value() ==> a == b,
    ;

    /// No weight is below the least one.
    proof fn lemma_min_rank(self)
        ensures
            Self::spec_min_value().rank() <= self.rank(),
    ;

    /// Zero lies strictly below the greatest weight.
    proof fn lemma_zero_below_max()
        ensures
            0 < Self::spec_max_value().value(),
    ;

    fn zero() -> (z: Self)
        ensures
            z.value() == 0,
    ;

    fn min_value() -> (m: Self)
        ensures
            m == Self::spec_min_value(),
    ;

    /// The sum of two weights, or `None` where it does not fit.
    fn checked_sum(&self, r: &Self) -> (s: Option<Self>)
        ensures
            match s {
                Some(t) => t.value() == self.value() + r.value(),
                None => self.value() + r.value() > Self::spec_max_value().value()
                    || self.value() + r.value() < Self::spec_min_value().value(),
            },
    ;
}

} // verus!
