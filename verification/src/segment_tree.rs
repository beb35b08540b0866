//! A segment tree: products of ranges of a sequence under an associative
//! operation, with updates of single elements.

use vstd::prelude::*;
use vstd::arithmetic::power2::is_pow2;
use crate::algebra::{Associative, Identity};

verus! {

/// The product of `v[lo]`, `v[lo + 1]`, up to `v[hi - 1]`, in this order;
/// of no elements, the identity.
pub open spec fn product<M: Associative + Identity>(v: Seq<M::T>, lo: int, hi: int) -> M::T
    decreases hi - lo,
{
    if lo >= hi {
        M::spec_e()
    } else {
        M::spec_op(product::<M>(v, lo, hi - 1), v[hi - 1])
    }
}

/// A product depends on the elements of its range alone.
proof fn lemma_product_same<M: Associative + Identity>(v: Seq<M::T>, w: Seq<M::T>, lo: int, hi: int)
    requires
        0 <= lo,
        hi <= v.len(),
        hi <= w.len(),
        forall|i: int| lo <= i < hi ==> v[i] == w[i],
    ensures
        product::<M>(v, lo, hi) == product::<M>(w, lo, hi),
    decreases hi - lo,
{
    if lo < hi {
        lemma_product_same::<M>(v, w, lo, hi - 1);
    }
}

/// A product is its first element times the product of the rest.
proof fn lemma_product_first<M: Associative + Identity>(v: Seq<M::T>, lo: int, hi: int)
    requires
        lo < hi,
    ensures
        product::<M>(v, lo, hi) == M::spec_op(v[lo], product::<M>(v, lo + 1, hi)),
    decreases hi - lo,
{
    if lo + 1 == hi {
        M::lemma_identity(v[lo]);
        assert(product::<M>(v, lo, lo) == M::spec_e());
        assert(product::<M>(v, lo + 1, hi) == M::spec_e());
    } else {
        lemma_product_first::<M>(v, lo, hi - 1);
        M::lemma_associative(v[lo], product::<M>(v, lo + 1, hi - 1), v[hi - 1]);
    }
}

/// A product of identities is the identity.
proof fn lemma_product_identity<M: Associative + Identity>(v: Seq<M::T>, lo: int, hi: int)
    requires
        forall|i: int| lo <= i < hi ==> v[i] == M::spec_e(),
    ensures
        product::<M>(v, lo, hi) == M::spec_e(),
    decreases hi - lo,
{
    if lo < hi {
        lemma_product_identity::<M>(v, lo, hi - 1);
        M::lemma_identity(M::spec_e());
    }
}

/// A product splits at any point of its range.
proof fn lemma_product_split<M: Associative + Identity>(v: Seq<M::T>, lo: int, mid: int, hi: int)
    requires
        lo <= mid <= hi,
    ensures
        product::<M>(v, lo, hi) == M::spec_op(product::<M>(v, lo, mid), product::<M>(v, mid, hi)),
    decreases hi - mid,
{
    if mid == hi {
        M::lemma_identity(product::<M>(v, lo, hi));
    } else {
        lemma_product_split::<M>(v, lo, mid, hi - 1);
        M::lemma_associative(product::<M>(v, lo, mid), product::<M>(v, mid, hi - 1), v[hi - 1]);
    }
}

/// Every node above the leaves is the product of its two children, but
/// for the node numbered `skip`.
spec fn nodes_wf<M: Associative + Identity>(d: Seq<M::T>, half: int, skip: int) -> bool {
    forall|i: int|
        0 <= i < half - 1 && i != skip ==> #[trigger] d[half + i] == M::spec_op(d[2 * i], d[2 * i + 1])
}

/// The product of a range of nodes, taken in pairs, is the product of
/// their parents.
proof fn lemma_product_parents<M: Associative + Identity>(d: Seq<M::T>, half: int, lo: int, hi: int)
    requires
        d.len() == 2 * half - 1,
        nodes_wf::<M>(d, half, -1),
        0 <= lo <= hi <= 2 * half - 2,
        lo % 2 == 0,
        hi % 2 == 0,
    ensures
        product::<M>(d, lo, hi) == product::<M>(d, half + lo / 2, half + hi / 2),
    decreases hi - lo,
{
    if lo < hi {
        lemma_product_parents::<M>(d, half, lo, hi - 2);
        let i = (hi - 2) / 2;
        assert(d[half + i] == M::spec_op(d[2 * i], d[2 * i + 1]));
        let rest = product::<M>(d, lo, hi - 2);
        assert(product::<M>(d, lo, hi - 1) == M::spec_op(rest, d[hi - 2]));
        M::lemma_associative(rest, d[hi - 2], d[hi - 1]);
        assert(half + hi / 2 - 1 == half + i);
    } else {
        assert(product::<M>(d, lo, hi) == M::spec_e());
        assert(product::<M>(d, half + lo / 2, half + hi / 2) == M::spec_e());
    }
}

/// The topmost node is the product of any whole row of nodes below it.
proof fn lemma_product_row<M: Associative + Identity>(d: Seq<M::T>, half: int, width: int)
    requires
        d.len() == 2 * half - 1,
        nodes_wf::<M>(d, half, -1),
        is_pow2(width),
        1 <= width <= half,
    ensures
        product::<M>(d, 2 * half - 2 * width, 2 * half - width) == d[2 * half - 2],
    decreases width,
{
    reveal(is_pow2);
    if width == 1 {
        M::lemma_identity(d[2 * half - 2]);
        assert(product::<M>(d, 2 * half - 2, 2 * half - 2) == M::spec_e());
    } else {
        lemma_product_parents::<M>(d, half, 2 * half - 2 * width, 2 * half - width);
        lemma_product_row::<M>(d, half, width / 2);
    }
}

/// A sequence with the products of its ranges at hand.
#[derive(Clone)]
pub struct SegmentTree<M: Associative + Identity> {
    /// The elements, filled up with identities to a power of two, and
    /// behind them the products of pairs, of pairs of pairs, and so on.
    d: Vec<M::T>,
    /// The number of elements.
    l: usize,
}

impl<M: Associative + Identity> View for SegmentTree<M> {
    type V = Seq<M::T>;

    /// The elements.
    closed spec fn view(&self) -> Seq<M::T> {
        self.d@.subrange(0, self.l as int)
    }
}

/// What is a power of two in the one sense is one in the other.
proof fn lemma_pow2_bits(s: usize)
    requires
        is_pow2(s as int),
        s <= usize::MAX / 2,
    ensures
        (2 * s) as usize & ((2 * s) as usize - 1) as usize == 0,
        is_pow2(2 * s),
    decreases s,
{
    reveal(is_pow2);
    if s > 1 {
        lemma_pow2_bits(s / 2);
        let h = s / 2;
        let t = (2 * h) as usize;
        let u = (2 * s) as usize;
        assert(u & (u - 1) as usize == 0) by (bit_vector)
            requires
                t & (t - 1) as usize == 0,
                u == 2 * t,
                1 <= t,
        ;
    } else {
        assert(2usize & 1usize == 0) by (bit_vector);
    }
}

impl<M: Associative + Identity> SegmentTree<M> {
    /// Half the number of nodes, rounded up: the number of leaves.
    spec fn half(&self) -> int {
        ((self.d@.len() + 1) / 2) as int
    }

    /// The invariant of the tree.
    pub closed spec fn wf(&self) -> bool {
        &&& self.l == 0 ==> self.d@.len() == 0
        &&& self.l > 0 ==> {
            &&& self.d@.len() == 2 * self.half() - 1
            &&& self.l <= self.half()
            &&& is_pow2(self.half())
            &&& self.d@.len() < usize::MAX / 2
            &&& (self.d@.len() + 1) as usize & self.d@.len() as usize == 0
            &&& forall|i: int| self.l <= i < self.half() ==> self.d@[i] == M::spec_e()
            &&& nodes_wf::<M>(self.d@, self.half(), -1)
        }
    }

    /// A tree over the elements of `value`.
    pub fn from(value: Vec<M::T>) -> (t: Self)
        requires
            value@.len() <= usize::MAX / 8,
        ensures
            t.wf(),
            t@ == value@,
    {
        let mut d = value;
        let l = d.len();
        if l == 0 {
            return SegmentTree { d, l: 0 };
        }
        let mut s: usize = 1;
        proof {
            reveal(is_pow2);
            assert(is_pow2(1));
        }
        while s < l
            invariant
                1 <= s < 2 * l,
                l <= usize::MAX / 8,
                is_pow2(s as int),
            decreases 2 * l - s,
        {
            proof {
                lemma_pow2_bits(s);
            }
            s = s * 2;
        }
        let mut i: usize = l;
        while i < s
            invariant
                l <= i <= s,
                d@.len() == i,
                d@.subrange(0, l as int) == value@,
                forall|k: int| l <= k < i ==> d@[k] == M::spec_e(),
            decreases s - i,
        {
            d.push(M::e());
            assert(d@.subrange(0, l as int) =~= value@);
            i += 1;
        }
        i = 0;
        while i < s - 1
            invariant
                i <= s - 1,
                l <= s < 2 * l,
                l <= usize::MAX / 8,
                d@.len() == s + i,
                d@.subrange(0, l as int) == value@,
                forall|k: int| l <= k < s ==> d@[k] == M::spec_e(),
                forall|k: int|
                    0 <= k < i ==> #[trigger] d@[s + k] == M::spec_op(d@[2 * k], d@[2 * k + 1]),
            decreases s - i,
        {
            let x = M::op(&d[2 * i], &d[2 * i + 1]);
            let ghost before = d@;
            d.push(x);
            assert(d@.subrange(0, l as int) =~= value@);
            assert forall|k: int| 0 <= k < i + 1 implies #[trigger] d@[s + k] == M::spec_op(
                d@[2 * k],
                d@[2 * k + 1],
            ) by {
                if k < i {
                    assert(d@[s + k] == before[s + k]);
                }
            }
            i += 1;
        }
        proof {
            lemma_pow2_bits(s);
            assert((2 * s) as usize - 1 == d@.len());
        }
        SegmentTree { d, l }
    }

    /// The number of elements.
    pub fn len(&self) -> (n: usize)
        requires
            self.wf(),
        ensures
            n == self@.len(),
    {
        self.l
    }

    /// Whether there are no elements.
    pub fn is_empty(&self) -> (b: bool)
        requires
            self.wf(),
        ensures
            b == (self@.len() == 0),
    {
        self.l == 0
    }

    /// Puts `value` in the place of the element at `index`.
    pub fn set(&mut self, index: usize, value: M::T)
        requires
            old(self).wf(),
            index < old(self)@.len(),
        ensures
            final(self).wf(),
            final(self)@ == old(self)@.update(index as int, value),
    {
        let ghost half = self.half();
        let ghost leaves = self@.update(index as int, value);
        let mut index = index;
        self.d[index] = value;
        let s = self.d.len();
        let l = s + 1;
        assert(self.d@.subrange(0, self.l as int) =~= leaves);
        loop
            invariant_except_break
                index < s,
                nodes_wf::<M>(self.d@, half, index as int / 2),
            invariant
                self.l == old(self).l,
                self.l > 0,
                self.d@.len() == s,
                s == 2 * half - 1,
                l == s + 1,
                s < usize::MAX / 2,
                l & s == 0,
                self.l <= half,
                is_pow2(half),
                self.d@.subrange(0, self.l as int) == leaves,
                forall|i: int| self.l <= i < half ==> self.d@[i] == M::spec_e(),
            ensures
                nodes_wf::<M>(self.d@, half, -1),
            decreases s - index,
        {
            let ghost child = index;
            let ghost twice = (2 * l) as usize;
            index = (index | l) >> 1;
            proof {
                assert(index == (l >> 1) + (child >> 1) && (l >> 1) == l / 2 && (child >> 1) == child
                    / 2) by (bit_vector)
                    requires
                        index == (child | l) >> 1,
                        l & s == 0,
                        s == l - 1,
                        child < l,
                        l >= 2,
                ;
            }
            if index == s {
                break ;
            }
            let base = (index << 1) & s;
            proof {
                assert(base == 2 * (index - (l >> 1)) && (l >> 1) == l / 2 && (base | 1) == base + 1)
                    by (bit_vector)
                    requires
                        base == (index << 1) & s,
                        l & s == 0,
                        s == l - 1,
                        l >> 1 <= index,
                        index < l,
                        l >= 2,
                        twice == l + l,
                ;
            }
            let x = M::op(&self.d[base], &self.d[base | 1]);
            let ghost before = self.d@;
            self.d[index] = x;
            proof {
                assert(self.d@.subrange(0, self.l as int) =~= leaves);
                let fixed = index - half;
                assert forall|i: int| 0 <= i < half - 1 && i != index as int / 2 implies #[trigger] self.d@[half
                    + i] == M::spec_op(self.d@[2 * i], self.d@[2 * i + 1]) by {
                    assert(self.d@[2 * i] == before[2 * i]);
                    assert(self.d@[2 * i + 1] == before[2 * i + 1]);
                    if i != fixed {
                        assert(before[half + i] == M::spec_op(before[2 * i], before[2 * i + 1]));
                        assert(self.d@[half + i] == before[half + i]);
                    }
                }
            }
        }
    }

    /// The element at `index`.
    pub fn get(&self, index: usize) -> (r: &M::T)
        requires
            self.wf(),
            index < self@.len(),
        ensures
            *r == self@[index as int],
    {
        &self.d[index]
    }

    /// The product of the elements from `start` up to and without `end`.
    pub fn prod(&self, start: usize, end: usize) -> (r: M::T)
        requires
            self.wf(),
            start <= end <= self@.len(),
        ensures
            r == product::<M>(self@, start as int, end as int),
    {
        let ghost half = self.half();
        let ghost d = self.d@;
        let mut s = start;
        let mut e = end;
        let mut l = M::e();
        let mut r = M::e();
        let v = self.d.len() + 1;
        proof {
            lemma_product_same::<M>(self@, d, start as int, end as int);
            M::lemma_identity(product::<M>(d, s as int, e as int));
        }
        while s != e
            invariant
                d == self.d@,
                s <= e <= d.len(),
                v == d.len() + 1,
                self.wf(),
                half == self.half(),
                M::spec_op(M::spec_op(l, product::<M>(d, s as int, e as int)), r) == product::<M>(
                    d,
                    start as int,
                    end as int,
                ),
            decreases e - s,
        {
            let ghost mid = product::<M>(d, s as int, e as int);
            let ghost odd = s & 1 == 1;
            if s & 1 == 1 {
                proof {
                    lemma_product_first::<M>(d, s as int, e as int);
                    M::lemma_associative(l, d[s as int], product::<M>(d, s + 1, e as int));
                }
                l = M::op(&l, &self.d[s]);
                s += 1;
            }
            proof {
                if odd {
                    let (p, q) = (s, (s - 1) as usize);
                    assert(p & 1 != 1) by (bit_vector)
                        requires
                            q & 1 == 1,
                            p == q + 1,
                    ;
                }
            }
            let ghost high = e & 1 == 1;
            if e & 1 == 1 {
                proof {
                    let (p, q) = (s, e);
                    assert(p != q) by (bit_vector)
                        requires
                            p & 1 != 1,
                            q & 1 == 1,
                    ;
                    let rest = product::<M>(d, s as int, e - 1);
                    M::lemma_associative(M::spec_op(l, rest), d[e - 1], r);
                    M::lemma_associative(l, rest, d[e - 1]);
                }
                e -= 1;
                r = M::op(&self.d[e], &r);
            }
            proof {
                if high {
                    let (p, q) = (e, (e + 1) as usize);
                    assert(p & 1 != 1) by (bit_vector)
                        requires
                            q & 1 == 1,
                            q == p + 1,
                    ;
                }
                let (p, q) = (s, e);
                assert(p % 2 == 0 && q % 2 == 0) by (bit_vector)
                    requires
                        p & 1 != 1,
                        q & 1 != 1,
                ;
                lemma_product_parents::<M>(d, half, s as int, e as int);
            }
            let ghost (s0, e0) = (s, e);
            let ghost mask = (v - 1) as usize;
            s = (s | v) >> 1;
            e = (e | v) >> 1;
            proof {
                assert(s == (v >> 1) + (s0 >> 1) && e == (v >> 1) + (e0 >> 1) && (v >> 1) == v / 2 && (
                s0 >> 1) == s0 / 2 && (e0 >> 1) == e0 / 2) by (bit_vector)
                    requires
                        s == (s0 | v) >> 1,
                        e == (e0 | v) >> 1,
                        v & mask == 0,
                        mask == v - 1,
                        s0 < v,
                        e0 < v,
                        v >= 2,
                ;
            }
        }
        proof {
            assert(product::<M>(d, s as int, e as int) == M::spec_e());
            M::lemma_identity(l);
        }
        M::op(&l, &r)
    }

    /// The product of all elements, or `None` where there are none.
    pub fn all_prod(&self) -> (r: Option<&M::T>)
        requires
            self.wf(),
        ensures
            match r {
                Some(x) => self@.len() > 0 && *x == product::<M>(self@, 0, self@.len() as int),
                None => self@.len() == 0,
            },
    {
        let n = self.d.len();
        if n == 0 {
            None
        } else {
            proof {
                let d = self.d@;
                let half = self.half();
                lemma_product_row::<M>(d, half, half);
                lemma_product_same::<M>(self@, d, 0, self.l as int);
                lemma_product_split::<M>(d, 0, self.l as int, half);
                lemma_product_identity::<M>(d, self.l as int, half);
                M::lemma_identity(product::<M>(d, 0, self.l as int));
            }
            Some(&self.d[n - 1])
        }
    }
}

} // verus!
