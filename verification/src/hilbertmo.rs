//! The Hilbert curve, and the order in which Mo's algorithm visits its
//! queries.

use vstd::prelude::*;
use vstd::arithmetic::power2::{pow2, lemma2_to64, lemma_pow2_adds, lemma_pow2_strictly_increases};
use vstd::bits::lemma_u64_shl_is_mul;
use vstd::std_specs::hash::{obeys_key_model, spec_hash_map_len};
use std::collections::HashMap;
use std::hash::Hash;

verus! {

/// Which quarter of a square a point lies in, as the curve numbers the
/// quarters: `x` and `y` tell whether the point is in the upper half of
/// either coordinate.
pub open spec fn quarter(x: bool, y: bool) -> nat {
    if x {
        if y {
            2
        } else {
            3
        }
    } else {
        if y {
            1
        } else {
            0
        }
    }
}

/// The place of the point `(x, y)` on the Hilbert curve through the square
/// of side `2^level`, the coordinates taken by their lowest `level` bits.
pub open spec fn hilbert_index(x: u32, y: u32, level: nat) -> nat
    decreases level,
{
    if level == 0 {
        0
    } else {
        let v = (level - 1) as nat;
        let bx = (x >> (v as u32)) & 1 == 1;
        let by = (y >> (v as u32)) & 1 == 1;
        quarter(bx, by) * pow2(2 * v) + if by {
            hilbert_index(x, y, v)
        } else if bx {
            hilbert_index(!y, !x, v)
        } else {
            hilbert_index(y, x, v)
        }
    }
}

/// The place of a point on the Hilbert curve through the square of all
/// pairs of `u32`.
pub fn hilbert_ord(a: (u32, u32)) -> (d: u64)
    ensures
        d == hilbert_index(a.0, a.1, 32),
{
    let mut a = a;
    let ghost start = a;
    let mut v: u32 = u32::BITS;
    let mut d: u64 = 0;
    proof {
        lemma2_to64();
    }
    while v != 0
        invariant
            v <= 32,
            d + pow2((2 * v) as nat) <= pow2(64),
            d + hilbert_index(a.0, a.1, v as nat) == hilbert_index(start.0, start.1, 32),
        decreases v,
    {
        v -= 1;
        let x = (a.0 >> v) & 1 == 1;
        let y = (a.1 >> v) & 1 == 1;
        let digit: u64 = if x {
            if y {
                2
            } else {
                3
            }
        } else {
            if y {
                1
            } else {
                0
            }
        };
        proof {
            lemma2_to64();
            let shift = (2 * v) as nat;
            lemma_pow2_adds(shift, 2);
            if shift < 62 {
                lemma_pow2_strictly_increases(shift, 62);
            }
            vstd::arithmetic::power2::lemma2_to64_rest();
            assert(digit * pow2(shift) <= 3 * pow2(shift)) by (nonlinear_arith)
                requires
                    digit <= 3,
            ;
            lemma_u64_shl_is_mul(digit, (v * 2) as u64);
        }
        d += digit << (v * 2);
        if !y {
            if x {
                a = (!a.1, !a.0);
            } else {
                a = (a.1, a.0);
            }
        }
    }
    d
}

/// Something that can answer a query for a range `l .. r` of positions
/// from a state that it moves from range to range, one position at a time.
pub trait Moable: Sized {
    /// The state.
    type T;

    /// The answer.
    type U;

    /// Whether this is fit for use.
    spec fn wf(&self) -> bool;

    /// The number of positions.
    spec fn spec_len(&self) -> nat;

    /// Whether `v` is the state of the range `l .. r`.
    spec fn represents(&self, v: Self::T, l: int, r: int) -> bool;

    /// The answer that a state gives.
    spec fn spec_convert(v: Self::T) -> Self::U;

    /// The state of the empty range at the start.
    fn origin() -> (v: Self::T)
        ensures
            forall|m: Self| m.wf() ==> #[trigger] m.represents(v, 0, 0),
    ;

    /// The answer that a state gives.
    fn convert(v: &Self::T) -> (u: Self::U)
        ensures
            u == Self::spec_convert(*v),
    ;

    /// From `r.0 .. r.1` to `r.0 + 1 .. r.1`.
    fn inc_l(&self, r: (u32, u32), v: &mut Self::T)
        requires
            self.wf(),
            r.0 < r.1 <= self.spec_len(),
            self.represents(*old(v), r.0 as int, r.1 as int),
        ensures
            self.represents(*final(v), r.0 + 1, r.1 as int),
    ;

    /// From `r.0 .. r.1` to `r.0 .. r.1 + 1`.
    fn inc_r(&self, r: (u32, u32), v: &mut Self::T)
        requires
            self.wf(),
            r.0 <= r.1 < self.spec_len(),
            self.represents(*old(v), r.0 as int, r.1 as int),
        ensures
            self.represents(*final(v), r.0 as int, r.1 + 1),
    ;

    /// From `r.0 .. r.1` to `r.0 - 1 .. r.1`.
    fn dec_l(&self, r: (u32, u32), v: &mut Self::T)
        requires
            self.wf(),
            0 < r.0 <= r.1 <= self.spec_len(),
            self.represents(*old(v), r.0 as int, r.1 as int),
        ensures
            self.represents(*final(v), r.0 - 1, r.1 as int),
    ;

    /// From `r.0 .. r.1` to `r.0 .. r.1 - 1`.
    fn dec_r(&self, r: (u32, u32), v: &mut Self::T)
        requires
            self.wf(),
            r.0 < r.1 <= self.spec_len(),
            self.represents(*old(v), r.0 as int, r.1 as int),
        ensures
            self.represents(*final(v), r.0 as int, r.1 - 1),
    ;
}

/// Counts the different values in a range of a sequence.
pub struct Pid<'a, T: Copy + Eq + Hash> {
    v: &'a [T],
}

impl<'a, T: Copy + Eq + Hash> View for Pid<'a, T> {
    type V = Seq<T>;

    /// The sequence.
    closed spec fn view(&self) -> Seq<T> {
        self.v@
    }
}

impl<'a, T: Copy + Eq + Hash> Pid<'a, T> {
    /// The counter for the sequence `v`.
    pub fn new(v: &'a [T]) -> (p: Self)
        ensures
            p@ == v@,
    {
        Pid { v }
    }

    /// How often `k` occurs in the range `l .. r`.
    pub open spec fn occurrences(&self, k: T, l: int, r: int) -> nat {
        self@.subrange(l, r).to_multiset().count(k)
    }
}

/// A range grown or shrunk by one position at either end.
proof fn lemma_range_step<T>(s: Seq<T>, l: int, r: int, k: T)
    requires
        0 <= l <= r <= s.len(),
    ensures
        s.subrange(l, r).to_multiset().count(k) <= r - l,
        r < s.len() ==> s.subrange(l, r + 1).to_multiset().count(k) == s.subrange(
            l,
            r,
        ).to_multiset().count(k) + (if s[r] == k {
            1nat
        } else {
            0nat
        }),
        l > 0 ==> s.subrange(l - 1, r).to_multiset().count(k) == s.subrange(
            l,
            r,
        ).to_multiset().count(k) + (if s[l - 1] == k {
            1nat
        } else {
            0nat
        }),
{
    broadcast use vstd::multiset::group_multiset_axioms;

    let here = s.subrange(l, r);
    vstd::seq_lib::to_multiset_len(here);
    vstd::multiset::axiom_count_le_len(here.to_multiset(), k);
    if r < s.len() {
        assert(s.subrange(l, r + 1) =~= here.push(s[r]));
        vstd::seq_lib::to_multiset_build(here, s[r]);
    }
    if l > 0 {
        assert(s.subrange(l - 1, r) =~= here.insert(0, s[l - 1]));
        vstd::seq_lib::to_multiset_insert(here, 0, s[l - 1]);
    }
}

impl<'a, T: Copy + Eq + Hash> Pid<'a, T> {
    /// Counts one more occurrence of `k`.
    fn count_up(v: &mut HashMap<T, usize>, k: T, Ghost(bound): Ghost<nat>)
        requires
            obeys_key_model::<T>(),
            bound < usize::MAX,
            old(v)@.contains_key(k) ==> old(v)@[k] <= bound,
        ensures
            final(v)@ == old(v)@.insert(
                k,
                if old(v)@.contains_key(k) {
                    (old(v)@[k] + 1) as usize
                } else {
                    1
                },
            ),
    {
        broadcast use vstd::std_specs::hash::group_hash_axioms;

        let c = match v.get(&k) {
            Some(e) => *e + 1,
            None => 1,
        };
        v.insert(k, c);
    }

    /// Counts one occurrence of `k` less, and forgets `k` at zero.
    fn count_down(v: &mut HashMap<T, usize>, k: T)
        requires
            obeys_key_model::<T>(),
            old(v)@.contains_key(k) ==> old(v)@[k] >= 1,
        ensures
            final(v)@ == (if !old(v)@.contains_key(k) {
                old(v)@
            } else if old(v)@[k] == 1 {
                old(v)@.remove(k)
            } else {
                old(v)@.insert(k, (old(v)@[k] - 1) as usize)
            }),
    {
        broadcast use vstd::std_specs::hash::group_hash_axioms;

        let c = match v.get(&k) {
            Some(e) => Some(*e - 1),
            None => None,
        };
        match c {
            Some(c) => {
                if c == 0 {
                    v.remove(&k);
                } else {
                    v.insert(k, c);
                }
            },
            None => {},
        }
    }
}

impl<'a, T: Copy + Eq + Hash> Moable for Pid<'a, T> {
    type T = HashMap<T, usize>;

    type U = usize;

    open spec fn wf(&self) -> bool {
        obeys_key_model::<T>()
    }

    open spec fn spec_len(&self) -> nat {
        self@.len()
    }

    /// The state maps each value in the range to the number of its
    /// occurrences there.
    open spec fn represents(&self, v: HashMap<T, usize>, l: int, r: int) -> bool {
        &&& 0 <= l <= r <= self@.len()
        &&& forall|k: T| #[trigger] v@.contains_key(k) <==> self.occurrences(k, l, r) > 0
        &&& forall|k: T| #[trigger] v@.contains_key(k) ==> v@[k] == self.occurrences(k, l, r)
    }

    /// The number of different values.
    open spec fn spec_convert(v: HashMap<T, usize>) -> usize {
        spec_hash_map_len(&v)
    }

    fn origin() -> (v: HashMap<T, usize>) {
        broadcast use vstd::multiset::group_multiset_axioms;

        let v = HashMap::new();
        proof {
            assert forall|m: Self| m.wf() implies #[trigger] m.represents(v, 0, 0) by {
                assert(m@.subrange(0, 0) =~= Seq::<T>::empty());
                vstd::seq_lib::to_multiset_len(Seq::<T>::empty());
                assert forall|k: T| m.occurrences(k, 0, 0) == 0 by {
                    vstd::multiset::axiom_count_le_len(Seq::<T>::empty().to_multiset(), k);
                }
            }
        }
        v
    }

    fn convert(v: &HashMap<T, usize>) -> (u: usize) {
        v.len()
    }

    fn inc_l(&self, r: (u32, u32), v: &mut HashMap<T, usize>) {
        let k = self.v[r.0 as usize];
        proof {
            assert forall|x: T| true implies self.occurrences(x, r.0 as int, r.1 as int)
                == #[trigger] self.occurrences(x, r.0 + 1, r.1 as int) + (if self@[r.0 as int] == x {
                1nat
            } else {
                0nat
            }) by {
                lemma_range_step(self@, r.0 + 1, r.1 as int, x);
            }
        }
        Self::count_down(v, k);
    }

    fn inc_r(&self, r: (u32, u32), v: &mut HashMap<T, usize>) {
        let k = self.v[r.1 as usize];
        proof {
            assert forall|x: T| true implies #[trigger] self.occurrences(x, r.0 as int, r.1 + 1)
                == self.occurrences(x, r.0 as int, r.1 as int) + (if self@[r.1 as int] == x {
                1nat
            } else {
                0nat
            }) && self.occurrences(x, r.0 as int, r.1 as int) <= r.1 - r.0 by {
                lemma_range_step(self@, r.0 as int, r.1 as int, x);
            }
            assert(self.occurrences(k, r.0 as int, r.1 + 1) >= 0);
        }
        Self::count_up(v, k, Ghost((r.1 - r.0) as nat));
    }

    fn dec_l(&self, r: (u32, u32), v: &mut HashMap<T, usize>) {
        let k = self.v[r.0 as usize - 1];
        proof {
            assert forall|x: T| true implies #[trigger] self.occurrences(x, r.0 - 1, r.1 as int)
                == self.occurrences(x, r.0 as int, r.1 as int) + (if self@[r.0 - 1] == x {
                1nat
            } else {
                0nat
            }) && self.occurrences(x, r.0 as int, r.1 as int) <= r.1 - r.0 by {
                lemma_range_step(self@, r.0 as int, r.1 as int, x);
            }
            assert(self.occurrences(k, r.0 - 1, r.1 as int) >= 0);
        }
        Self::count_up(v, k, Ghost((r.1 - r.0) as nat));
    }

    fn dec_r(&self, r: (u32, u32), v: &mut HashMap<T, usize>) {
        let k = self.v[r.1 as usize - 1];
        proof {
            assert forall|x: T| true implies self.occurrences(x, r.0 as int, r.1 as int)
                == #[trigger] self.occurrences(x, r.0 as int, r.1 - 1) + (if self@[r.1 - 1] == x {
                1nat
            } else {
                0nat
            }) by {
                lemma_range_step(self@, r.0 as int, r.1 - 1, x);
            }
        }
        Self::count_down(v, k);
    }
}

/// The place of a query on the Hilbert curve.
pub open spec fn place(q: (u32, u32)) -> nat {
    hilbert_index(q.0, q.1, 32)
}

/// Sorts the numbers of queries by the place of each query on the Hilbert
/// curve.
///
/// Trusted: `sort_by_cached_key` of the standard library reorders the
/// slice, losing and adding nothing, so that the keys ascend, and leaves
/// elements with equal keys in the order they had; the key of a number is
/// computed by `hilbert_ord`. So where the numbers ascended before, those
/// with equal keys still do.
#[verifier::external_body]
fn sort_by_place(x: &mut Vec<usize>, rs: &[(u32, u32)])
    requires
        forall|k: int| 0 <= k < old(x)@.len() ==> (#[trigger] old(x)@[k]) < rs@.len(),
    ensures
        final(x)@.to_multiset() == old(x)@.to_multiset(),
        forall|a: int, b: int|
            0 <= a <= b < final(x)@.len() ==> place(rs@[(#[trigger] final(x)@[a]) as int]) <= place(
                rs@[(#[trigger] final(x)@[b]) as int],
            ),
        (forall|a: int, b: int| 0 <= a < b < old(x)@.len() ==> old(x)@[a] < old(x)@[b]) ==> (forall|
            a: int,
            b: int,
        |
            0 <= a < b < final(x)@.len() && place(rs@[(#[trigger] final(x)@[a]) as int]) == place(
                rs@[(#[trigger] final(x)@[b]) as int],
            ) ==> final(x)@[a] < final(x)@[b]),
{
    x.sort_by_cached_key(|v| hilbert_ord(rs[*v]));
}

/// The order in which `mo` answers the queries `rs`: their numbers, sorted
/// by the places of the queries on the Hilbert curve.
pub fn visiting_order(rs: &[(u32, u32)]) -> (x: Vec<usize>)
    ensures
        x@.len() == rs@.len(),
        forall|k: int| 0 <= k < x@.len() ==> (#[trigger] x@[k]) < rs@.len(),
        forall|j: usize| j < rs@.len() ==> #[trigger] x@.contains(j),
        forall|a: int, b: int|
            0 <= a <= b < x@.len() ==> place(rs@[(#[trigger] x@[a]) as int]) <= place(
                rs@[(#[trigger] x@[b]) as int],
            ),
        forall|a: int, b: int|
            0 <= a < b < x@.len() && place(rs@[(#[trigger] x@[a]) as int]) == place(
                rs@[(#[trigger] x@[b]) as int],
            ) ==> x@[a] < x@[b],
{
    broadcast use vstd::multiset::group_multiset_axioms;
    broadcast use vstd::seq_lib::group_to_multiset_ensures;

    let n = rs.len();
    let mut x: Vec<usize> = Vec::new();
    let mut i: usize = 0;
    while i < n
        invariant
            i <= n,
            x@.len() == i,
            forall|k: int| 0 <= k < i ==> x@[k] == k,
        decreases n - i,
    {
        x.push(i);
        i += 1;
    }
    let ghost plain = x@;
    sort_by_place(&mut x, rs);
    proof {
        vstd::seq_lib::to_multiset_len(plain);
        vstd::seq_lib::to_multiset_len(x@);
        assert forall|k: int| 0 <= k < n implies (#[trigger] x@[k]) < n by {
            assert(x@.contains(x@[k]));
            assert(plain.to_multiset().count(x@[k]) > 0);
            assert(plain.contains(x@[k]));
        }
        assert forall|j: usize| j < n implies #[trigger] x@.contains(j) by {
            assert(plain[j as int] == j);
            assert(plain.contains(j));
            assert(plain.to_multiset().count(j) > 0);
        }
    }
    x
}

/// Whether `u` answers the query `q`.
pub open spec fn answers<M: Moable>(m: M, q: (u32, u32), u: M::U) -> bool {
    exists|v: M::T| #[trigger] m.represents(v, q.0 as int, q.1 as int) && u == M::spec_convert(v)
}

/// The answers to the queries `rs`, each a range `l .. r` given as
/// `(l, r)`. The queries are answered in the order of their places on the
/// Hilbert curve, which keeps the ways short that the state has to go.
pub fn mo<M: Moable>(m: M, rs: &[(u32, u32)]) -> (out: Vec<M::U>)
    requires
        m.wf(),
        forall|i: int| 0 <= i < rs@.len() ==> (#[trigger] rs@[i]).0 <= rs@[i].1 <= m.spec_len(),
    ensures
        out@.len() == rs@.len(),
        forall|i: int| 0 <= i < rs@.len() ==> answers(m, rs@[i], #[trigger] out@[i]),
{
    broadcast use vstd::multiset::group_multiset_axioms;
    broadcast use vstd::seq_lib::group_to_multiset_ensures;

    let n = rs.len();
    let x = visiting_order(rs);
    let mut cells: Vec<Option<M::U>> = Vec::new();
    let mut i: usize = 0;
    while i < n
        invariant
            i <= n,
            cells@.len() == i,
            forall|k: int| 0 <= k < i ==> (#[trigger] cells@[k]) is None,
        decreases n - i,
    {
        cells.push(None);
        i += 1;
    }
    let ghost sorted = x@;
    let mut g = M::origin();
    let mut t: (u32, u32) = (0, 0);
    let mut at: usize = 0;
    while at < n
        invariant
            at <= n,
            n == rs@.len(),
            x@.len() == n,
            x@ == sorted,
            cells@.len() == n,
            m.wf(),
            forall|i: int| 0 <= i < rs@.len() ==> (#[trigger] rs@[i]).0 <= rs@[i].1 <= m.spec_len(),
            forall|k: int| 0 <= k < n ==> (#[trigger] x@[k]) < n,
            t.0 <= t.1 <= m.spec_len(),
            m.represents(g, t.0 as int, t.1 as int),
            forall|k: int|
                0 <= k < at ==> (#[trigger] cells@[x@[k] as int]) is Some && answers(
                    m,
                    rs@[x@[k] as int],
                    cells@[x@[k] as int]->Some_0,
                ),
        decreases n - at,
    {
        let i = x[at];
        let p = rs[i];
        while t.1 < p.1
            invariant
                m.wf(),
                t.0 <= t.1 <= m.spec_len(),
                p.1 <= m.spec_len(),
                m.represents(g, t.0 as int, t.1 as int),
            decreases p.1 - t.1,
        {
            m.inc_r(t, &mut g);
            t.1 += 1;
        }
        while t.0 > p.0
            invariant
                m.wf(),
                t.0 <= t.1 <= m.spec_len(),
                p.1 <= t.1,
                p.0 <= p.1,
                m.represents(g, t.0 as int, t.1 as int),
            decreases t.0,
        {
            m.dec_l(t, &mut g);
            t.0 -= 1;
        }
        while t.1 > p.1
            invariant
                m.wf(),
                t.0 <= p.0 <= p.1 <= t.1 <= m.spec_len(),
                m.represents(g, t.0 as int, t.1 as int),
            decreases t.1,
        {
            m.dec_r(t, &mut g);
            t.1 -= 1;
        }
        while t.0 < p.0
            invariant
                m.wf(),
                t.0 <= p.0 <= p.1 <= m.spec_len(),
                t.1 == p.1,
                m.represents(g, t.0 as int, t.1 as int),
            decreases p.0 - t.0,
        {
            m.inc_l(t, &mut g);
            t.0 += 1;
        }
        let ghost before = cells@;
        let u = M::convert(&g);
        cells[i] = Some(u);
        proof {
            assert(answers(m, rs@[i as int], u));
            assert forall|k: int| 0 <= k < at + 1 implies (#[trigger] cells@[x@[k] as int]) is Some
                && answers(m, rs@[x@[k] as int], cells@[x@[k] as int]->Some_0) by {
                if x@[k] != i {
                    assert(cells@[x@[k] as int] == before[x@[k] as int]);
                }
            }
        }
        at += 1;
    }
    proof {
        assert forall|j: int| 0 <= j < n implies (#[trigger] cells@[j]) is Some && answers(
            m,
            rs@[j],
            cells@[j]->Some_0,
        ) by {
            assert(sorted.contains(j as usize));
            let k = choose|k: int| 0 <= k < sorted.len() && sorted[k] == j as usize;
            assert(cells@[x@[k] as int] is Some);
        }
    }
    let mut out: Vec<M::U> = Vec::new();
    let mut j: usize = 0;
    while j < n
        invariant
            j <= n,
            n == rs@.len(),
            cells@.len() == n,
            out@.len() == j,
            forall|k: int|
                j <= k < n ==> (#[trigger] cells@[k]) is Some && answers(m, rs@[k], cells@[k]->Some_0),
            forall|k: int| 0 <= k < j ==> answers(m, rs@[k], #[trigger] out@[k]),
        decreases n - j,
    {
        let ghost (cells0, out0) = (cells@, out@);
        let mut u: Option<M::U> = None;
        std::mem::swap(&mut u, &mut cells[j]);
        out.push(u.unwrap());
        proof {
            assert forall|k: int| j + 1 <= k < n implies (#[trigger] cells@[k]) is Some && answers(
                m,
                rs@[k],
                cells@[k]->Some_0,
            ) by {
                assert(cells@[k] == cells0[k]);
            }
            assert forall|k: int| 0 <= k < j + 1 implies answers(m, rs@[k], #[trigger] out@[k]) by {
                if k < j {
                    assert(out@[k] == out0[k]);
                }
            }
        }
        j += 1;
    }
    out
}

} // verus!
