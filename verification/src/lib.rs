//! Verified building blocks for algorithmic work.
//!
//! The centre is a monotone radix heap ([`radix_heap`]) and the search for
//! shortest paths that runs on it ([`graph`]). Around them stand a few
//! structures of the same kind: disjoint sets, a segment tree over the
//! operations of [`algebra`], a persistent array, residues modulo a
//! constant, rolling hashes, longest chains, the Z array, and the order of
//! Mo's algorithm along the Hilbert curve.
//!
//! Every function states what it returns, and the statement is proved, but
//! for two calls into the standard library whose effect is taken on trust
//! where they stand.

pub mod algebra;
pub mod graph;
pub mod hilbertmo;
pub mod lis;
pub mod modint;
pub mod persistent_array;
pub mod radix_heap;
pub mod rolling_hash;
pub mod segment_tree;
pub mod union_find;
pub mod z_algorithm;
