//! A monotone priority queue over keys with a radix distance.
//!
//! The heap yields its greatest key first, and takes only keys that do not
//! exceed the key it yielded last. A queue that is to yield the least key
//! first holds keys whose rank falls as their value rises, as the entries
//! of the shortest-path search do.

use vstd::prelude::*;
use vstd::arithmetic::power2::pow2;
use vstd::multiset::Multiset;

pub mod distance;
mod keys;
pub mod laws;

use distance::{radix_distance, lemma_distance_bound, lemma_distance_order, lemma_distance_ultrametric};

verus! {

/// A key that a [`RadixHeap`] can hold: totally ordered by its `rank`, of a
/// fixed width, with a greatest value and a radix distance.
pub trait Radix: Copy + Sized {
    /// The number of binary digits that a rank may have.
    const BITS: u32;

    /// The position of the key in its total order.
    spec fn rank(self) -> nat;

    /// The key that no other key exceeds.
    spec fn spec_max_value() -> Self;

    /// Ranks fit in the key's width.
    proof fn lemma_rank_bound(self)
        ensures
            self.rank() < pow2(Self::BITS as nat),
    ;

    /// No key exceeds the greatest one.
    proof fn lemma_max_rank(self)
        ensures
            self.rank() <= Self::spec_max_value().rank(),
    ;

    /// There is room for one bucket more than ranks have digits.
    proof fn lemma_width()
        ensures
            Self::BITS < u32::MAX,
    ;

    /// The key that no other key exceeds.
    fn max_value() -> (m: Self)
        ensures
            m == Self::spec_max_value(),
    ;

    /// The radix distance between two keys.
    fn dist(&self, r: &Self) -> (d: u32)
        ensures
            d == radix_distance(self.rank(), r.rank()),
    ;

    /// Whether `self` comes strictly after `r` in the order.
    fn exceeds(&self, r: &Self) -> (b: bool)
        ensures
            b == (self.rank() > r.rank()),
    ;
}

/// The items of the first `n` buckets, as one multiset.
pub open spec fn bucket_items<T>(buckets: Seq<Seq<T>>, n: nat) -> Multiset<T>
    decreases n,
{
    if n == 0 {
        Multiset::empty()
    } else {
        bucket_items(buckets, (n - 1) as nat).add(buckets[n - 1].to_multiset())
    }
}

/// What `take_greatest` makes of a bucket whose last key is `max` and
/// whose other keys are `r`, after it looked at the first `i` of them: a
/// key that exceeds the greatest one so far takes its place, and leaves it
/// in its own.
pub open spec fn sift<T: Radix>(r: Seq<T>, max: T, i: nat) -> (Seq<T>, T)
    decreases i,
{
    if i == 0 {
        (r, max)
    } else {
        let (s, m) = sift(r, max, (i - 1) as nat);
        if s[i - 1].rank() > m.rank() {
            (s.update(i - 1, m), s[i - 1])
        } else {
            (s, m)
        }
    }
}

/// The lowest bucket from `from` on that holds anything, or the number of
/// buckets where none does.
pub open spec fn lowest_filled<T>(buckets: Seq<Seq<T>>, from: int) -> int
    decreases buckets.len() - from,
{
    if from >= buckets.len() {
        buckets.len() as int
    } else if buckets[from].len() > 0 {
        from
    } else {
        lowest_filled(buckets, from + 1)
    }
}

/// The buckets and the top key once the first `k` of the keys `waiting`
/// are put back: of each key and the top key so far, the greater is the
/// top key from then on, and the other goes to the end of the bucket of
/// its distance from the floor.
pub open spec fn put_back<T: Radix>(
    buckets: Seq<Seq<T>>,
    floor: T,
    top: T,
    waiting: Seq<T>,
    k: nat,
) -> (Seq<Seq<T>>, T)
    decreases k,
{
    if k == 0 {
        (buckets, top)
    } else {
        let (b, t) = put_back(buckets, floor, top, waiting, (k - 1) as nat);
        let (next, x) = if waiting[k - 1].rank() > t.rank() {
            (waiting[k - 1], t)
        } else {
            (t, waiting[k - 1])
        };
        let i = radix_distance(floor.rank(), x.rank()) as int;
        (b.update(i, b[i].push(x)), next)
    }
}

/// The buckets and the top key after a pop that leaves keys behind. The
/// old top key is the floor then. Where its bucket holds keys, they are
/// taken out, the last of them as the top key for now, and the others are
/// put back in their order. Where it holds none, the top key comes from
/// the lowest bucket above that holds any.
pub open spec fn after_pop<T: Radix>(buckets: Seq<Seq<T>>, floor: T, top: T) -> (Seq<Seq<T>>, T) {
    let v = radix_distance(floor.rank(), top.rank()) as int;
    if buckets[v].len() == 0 {
        let g = lowest_filled(buckets, v + 1);
        let found = sift(buckets[g].drop_last(), buckets[g].last(), (buckets[g].len() - 1) as nat);
        (buckets.update(g, found.0), found.1)
    } else {
        put_back(
            buckets.update(v, Seq::empty()),
            top,
            buckets[v].last(),
            buckets[v].drop_last(),
            (buckets[v].len() - 1) as nat,
        )
    }
}

/// `sift` keeps the number of keys, and leaves alone what it has not
/// looked at.
proof fn lemma_sift<T: Radix>(r: Seq<T>, max: T, i: nat)
    requires
        i <= r.len(),
    ensures
        sift(r, max, i).0.len() == r.len(),
        forall|j: int| i <= j < r.len() ==> sift(r, max, i).0[j] == r[j],
    decreases i,
{
    if i > 0 {
        lemma_sift(r, max, (i - 1) as nat);
    }
}

/// Every item of bucket `i` lies at distance `i` from `floor`, and none
/// exceeds `top`.
pub open spec fn bucket_rule<T: Radix>(buckets: Seq<Seq<T>>, floor: T, top: T) -> bool {
    forall|i: int, j: int|
        0 <= i < buckets.len() && 0 <= j < buckets[i].len() ==> {
            &&& radix_distance(floor.rank(), (#[trigger] buckets[i][j]).rank()) == i
            &&& buckets[i][j].rank() <= top.rank()
        }
}

proof fn lemma_items_beyond<T>(buckets: Seq<Seq<T>>, i: int, s: Seq<T>, n: nat)
    requires
        n <= i < buckets.len(),
    ensures
        bucket_items(buckets.update(i, s), n) == bucket_items(buckets, n),
    decreases n,
{
    if n > 0 {
        lemma_items_beyond(buckets, i, s, (n - 1) as nat);
    }
}

/// Replacing bucket `i` by `s` exchanges that bucket's items for those of `s`.
proof fn lemma_items_replace<T>(buckets: Seq<Seq<T>>, i: int, s: Seq<T>, n: nat)
    requires
        0 <= i < n <= buckets.len(),
    ensures
        forall|v: T|
            #[trigger] bucket_items(buckets.update(i, s), n).count(v) + buckets[i].to_multiset().count(v)
                == bucket_items(buckets, n).count(v) + s.to_multiset().count(v),
    decreases n,
{
    broadcast use vstd::multiset::group_multiset_axioms;

    let b2 = buckets.update(i, s);
    let m = (n - 1) as nat;
    assert(b2.len() == buckets.len());
    assert(bucket_items(b2, n) == bucket_items(b2, m).add(b2[m as int].to_multiset()));
    assert(bucket_items(buckets, n) == bucket_items(buckets, m).add(
        buckets[m as int].to_multiset(),
    ));
    if i == m {
        lemma_items_beyond(buckets, i, s, m);
        assert(b2[m as int] == s);
    } else {
        lemma_items_replace(buckets, i, s, m);
        assert(b2[m as int] == buckets[m as int]);
    }
}

/// An item of the first `n` buckets sits in one of them.
proof fn lemma_items_member<T>(buckets: Seq<Seq<T>>, n: nat, x: T) -> (at: (int, int))
    requires
        n <= buckets.len(),
        bucket_items(buckets, n).contains(x),
    ensures
        0 <= at.0 < n,
        0 <= at.1 < buckets[at.0].len(),
        buckets[at.0][at.1] == x,
    decreases n,
{
    broadcast use vstd::multiset::group_multiset_axioms;
    broadcast use vstd::seq_lib::group_to_multiset_ensures;

    if n == 0 {
        (0, 0)
    } else if buckets[n - 1].to_multiset().count(x) > 0 {
        let last = buckets[n - 1];
        assert(last.contains(x));
        let j = choose|j: int| 0 <= j < last.len() && last[j] == x;
        (n - 1, j)
    } else {
        lemma_items_member(buckets, (n - 1) as nat, x)
    }
}

/// What sits in one of the first `n` buckets is among their items.
proof fn lemma_member_items<T>(buckets: Seq<Seq<T>>, n: nat, i: int, j: int)
    requires
        0 <= i < n <= buckets.len(),
        0 <= j < buckets[i].len(),
    ensures
        bucket_items(buckets, n).contains(buckets[i][j]),
    decreases n,
{
    broadcast use vstd::multiset::group_multiset_axioms;
    broadcast use vstd::seq_lib::group_to_multiset_ensures;

    if i == n - 1 {
        assert(buckets[i].contains(buckets[i][j]));
    } else {
        lemma_member_items(buckets, (n - 1) as nat, i, j);
    }
}

/// Empty buckets hold no items.
proof fn lemma_items_none<T>(buckets: Seq<Seq<T>>, n: nat)
    requires
        n <= buckets.len(),
        forall|i: int| 0 <= i < n ==> (#[trigger] buckets[i]).len() == 0,
    ensures
        bucket_items(buckets, n) == Multiset::<T>::empty(),
    decreases n,
{
    broadcast use vstd::multiset::group_multiset_axioms;
    broadcast use vstd::seq_lib::group_to_multiset_ensures;

    if n > 0 {
        lemma_items_none(buckets, (n - 1) as nat);
        assert(buckets[n - 1].to_multiset().len() == 0);
        assert(bucket_items(buckets, n) =~= Multiset::<T>::empty());
    }
}

/// Buckets without items meet the bucket rule, whatever the floor and the top.
proof fn lemma_no_items_rule<T: Radix>(buckets: Seq<Seq<T>>, floor: T, top: T)
    requires
        bucket_items(buckets, buckets.len()) == Multiset::<T>::empty(),
    ensures
        bucket_rule(buckets, floor, top),
        forall|i: int| 0 <= i < buckets.len() ==> (#[trigger] buckets[i]).len() == 0,
{
    broadcast use vstd::multiset::group_multiset_axioms;

    assert forall|i: int| 0 <= i < buckets.len() implies (#[trigger] buckets[i]).len() == 0 by {
        if buckets[i].len() > 0 {
            lemma_member_items(buckets, buckets.len(), i, 0);
        }
    }
}

/// When the top key becomes the floor, nothing lies in the buckets below
/// the bucket of its distance `v` from the old floor, and what lies above
/// is as far from the new floor as from the old one.
proof fn lemma_floor_moves<T: Radix>(buckets: Seq<Seq<T>>, floor: T, top: T)
    requires
        buckets.len() == T::BITS as nat + 1,
        bucket_rule(buckets, floor, top),
        top.rank() <= floor.rank(),
    ensures
        radix_distance(floor.rank(), top.rank()) <= T::BITS as nat,
        forall|i: int|
            0 <= i < radix_distance(floor.rank(), top.rank()) ==> (#[trigger] buckets[i]).len() == 0,
        forall|i: int, j: int|
            radix_distance(floor.rank(), top.rank()) < i < buckets.len() && 0 <= j < buckets[i].len()
                ==> radix_distance(top.rank(), (#[trigger] buckets[i][j]).rank()) == i,
{
    let v = radix_distance(floor.rank(), top.rank());
    floor.lemma_rank_bound();
    top.lemma_rank_bound();
    lemma_distance_bound(floor.rank(), top.rank(), T::BITS as nat);
    assert forall|i: int| 0 <= i < v implies (#[trigger] buckets[i]).len() == 0 by {
        if buckets[i].len() > 0 {
            let e = buckets[i][0];
            lemma_distance_order(floor.rank(), e.rank(), top.rank());
        }
    }
    assert forall|i: int, j: int|
        v < i < buckets.len() && 0 <= j < buckets[i].len() implies radix_distance(
        top.rank(),
        (#[trigger] buckets[i][j]).rank(),
    ) == i by {
        lemma_distance_ultrametric(floor.rank(), top.rank(), buckets[i][j].rank());
    }
}

/// The heap after a pop that found the bucket of the top key empty: a
/// greatest key `max` of the lowest bucket `g` that holds anything is the
/// top key, and `kept` is what stays in that bucket.
proof fn lemma_top_from_above<T: Radix>(
    buckets: Seq<Seq<T>>,
    floor: T,
    top: T,
    g: int,
    kept: Seq<T>,
    max: T,
)
    requires
        buckets.len() == T::BITS as nat + 1,
        bucket_rule(buckets, floor, top),
        top.rank() <= floor.rank(),
        radix_distance(floor.rank(), top.rank()) < g < buckets.len(),
        forall|i: int| 0 <= i < g ==> (#[trigger] buckets[i]).len() == 0,
        kept.to_multiset().insert(max) == buckets[g].to_multiset(),
        buckets[g].contains(max),
        forall|j: int| 0 <= j < kept.len() ==> buckets[g].contains(#[trigger] kept[j]),
        forall|j: int| 0 <= j < kept.len() ==> (#[trigger] kept[j]).rank() <= max.rank(),
    ensures
        bucket_rule(buckets.update(g, kept), top, max),
        max.rank() <= top.rank(),
        bucket_items(buckets.update(g, kept), buckets.len()).insert(max) == bucket_items(
            buckets,
            buckets.len(),
        ),
{
    broadcast use vstd::multiset::group_multiset_axioms;

    let after = buckets.update(g, kept);
    lemma_floor_moves(buckets, floor, top);
    lemma_items_replace(buckets, g, kept, buckets.len());
    let at = choose|j: int| 0 <= j < buckets[g].len() && buckets[g][j] == max;
    assert(buckets[g][at] == max);
    assert forall|i: int, j: int| 0 <= i < after.len() && 0 <= j < after[i].len() implies {
        &&& radix_distance(top.rank(), (#[trigger] after[i][j]).rank()) == i
        &&& after[i][j].rank() <= max.rank()
    } by {
        let e = after[i][j];
        if i == g {
            assert(buckets[i].contains(e));
            let w = choose|w: int| 0 <= w < buckets[i].len() && buckets[i][w] == e;
            assert(buckets[i][w] == e);
        } else {
            assert(buckets[i][j] == e);
            lemma_distance_order(floor.rank(), max.rank(), e.rank());
        }
    }
    assert(bucket_items(after, after.len()).insert(max) =~= bucket_items(buckets, buckets.len()));
}

/// The heap after a pop that found keys in the bucket `v` of the top key,
/// once they are taken out: the last of them is the top key for now, and
/// the others wait to be put back.
proof fn lemma_bucket_emptied<T: Radix>(buckets: Seq<Seq<T>>, floor: T, top: T, v: int)
    requires
        buckets.len() == T::BITS as nat + 1,
        bucket_rule(buckets, floor, top),
        top.rank() <= floor.rank(),
        v == radix_distance(floor.rank(), top.rank()),
        buckets[v].len() > 0,
    ensures
        bucket_rule(buckets.update(v, Seq::empty()), top, buckets[v].last()),
        buckets[v].last().rank() <= top.rank(),
        forall|j: int| 0 <= j < buckets[v].len() ==> (#[trigger] buckets[v][j]).rank() <= top.rank(),
        bucket_items(buckets.update(v, Seq::empty()), buckets.len()).add(
            buckets[v].drop_last().to_multiset(),
        ).insert(buckets[v].last()) == bucket_items(buckets, buckets.len()),
{
    broadcast use vstd::multiset::group_multiset_axioms;

    let after = buckets.update(v, Seq::empty());
    let last = buckets[v].last();
    let others = buckets[v].drop_last();
    lemma_floor_moves(buckets, floor, top);
    lemma_items_replace(buckets, v, Seq::empty(), buckets.len());
    assert(buckets[v] =~= others.push(last));
    vstd::seq_lib::to_multiset_build(others, last);
    vstd::seq_lib::to_multiset_len(Seq::<T>::empty());
    assert(buckets[v][buckets[v].len() - 1] == last);
    assert forall|i: int, j: int| 0 <= i < after.len() && 0 <= j < after[i].len() implies {
        &&& radix_distance(top.rank(), (#[trigger] after[i][j]).rank()) == i
        &&& after[i][j].rank() <= last.rank()
    } by {
        let e = after[i][j];
        assert(buckets[i][j] == e);
        lemma_distance_order(floor.rank(), last.rank(), e.rank());
    }
    assert(bucket_items(after, after.len()).add(others.to_multiset()).insert(last) =~= bucket_items(
        buckets,
        buckets.len(),
    ));
}

/// One key put back: of the key `waiting[k]` and the top key for now, the
/// greater is the top key from now on, and the other goes to the bucket of
/// its distance from the floor.
proof fn lemma_put_back<T: Radix>(
    buckets: Seq<Seq<T>>,
    floor: T,
    top: T,
    waiting: Seq<T>,
    k: int,
)
    requires
        buckets.len() == T::BITS as nat + 1,
        bucket_rule(buckets, floor, top),
        top.rank() <= floor.rank(),
        0 <= k < waiting.len(),
        waiting[k].rank() <= floor.rank(),
    ensures
        ({
            let (next, x) = if waiting[k].rank() > top.rank() {
                (waiting[k], top)
            } else {
                (top, waiting[k])
            };
            let i = radix_distance(floor.rank(), x.rank()) as int;
            let after = buckets.update(i, buckets[i].push(x));
            &&& i <= T::BITS as nat
            &&& bucket_rule(after, floor, next)
            &&& next.rank() <= floor.rank()
            &&& bucket_items(after, after.len()).add(
                waiting.subrange(k + 1, waiting.len() as int).to_multiset(),
            ).insert(next) == bucket_items(buckets, buckets.len()).add(
                waiting.subrange(k, waiting.len() as int).to_multiset(),
            ).insert(top)
        }),
{
    broadcast use vstd::multiset::group_multiset_axioms;

    let (next, x) = if waiting[k].rank() > top.rank() {
        (waiting[k], top)
    } else {
        (top, waiting[k])
    };
    let i = radix_distance(floor.rank(), x.rank()) as int;
    let after = buckets.update(i, buckets[i].push(x));
    x.lemma_rank_bound();
    floor.lemma_rank_bound();
    lemma_distance_bound(floor.rank(), x.rank(), T::BITS as nat);
    lemma_items_replace(buckets, i, buckets[i].push(x), buckets.len());
    vstd::seq_lib::to_multiset_build(buckets[i], x);
    let rest = waiting.subrange(k, waiting.len() as int);
    let rest2 = waiting.subrange(k + 1, waiting.len() as int);
    assert(rest.remove(0) =~= rest2);
    vstd::seq_lib::to_multiset_remove(rest, 0);
    vstd::seq_lib::to_multiset_contains(rest, rest[0]);
    assert(rest.contains(rest[0]));
    assert(rest[0] == waiting[k]);
    assert(bucket_items(after, after.len()).add(rest2.to_multiset()).insert(next) =~= bucket_items(
        buckets,
        buckets.len(),
    ).add(rest.to_multiset()).insert(top));
    assert forall|a: int, j: int| 0 <= a < after.len() && 0 <= j < after[a].len() implies {
        &&& radix_distance(floor.rank(), (#[trigger] after[a][j]).rank()) == a
        &&& after[a][j].rank() <= next.rank()
    } by {
        if a == i && j == buckets[a].len() {
        } else {
            assert(after[a][j] == buckets[a][j]);
        }
    }
}

/// A monotone priority queue: it yields its greatest key first, and accepts
/// only keys that do not exceed its floor, the key it yielded last.
pub struct RadixHeap<T> {
    s: usize,
    m: T,
    l: T,
    d: Vec<Vec<T>>,
}

impl<T: Radix> View for RadixHeap<T> {
    type V = Multiset<T>;

    /// The keys that the heap holds.
    open spec fn view(&self) -> Multiset<T> {
        if self.spec_len() == 0 {
            Multiset::empty()
        } else {
            bucket_items(self.buckets(), self.buckets().len()).insert(self.top())
        }
    }
}

impl<T: Radix> RadixHeap<T> {
    /// The key yielded last, or the greatest key of all while the heap has
    /// been empty since.
    pub closed spec fn floor(&self) -> T {
        self.l
    }

    /// The key that `peek` shows and `pop` yields next.
    pub closed spec fn top(&self) -> T {
        self.m
    }

    /// The buckets that hold every key but the top one.
    pub closed spec fn buckets(&self) -> Seq<Seq<T>> {
        Seq::new(self.d@.len(), |i: int| self.d@[i]@)
    }

    /// The number of keys.
    pub closed spec fn spec_len(&self) -> nat {
        self.s as nat
    }

    /// The invariant of the heap.
    pub open spec fn wf(&self) -> bool {
        &&& self.buckets().len() == T::BITS as nat + 1
        &&& bucket_rule(self.buckets(), self.floor(), self.top())
        &&& self.top().rank() <= self.floor().rank()
        &&& self@.len() == self.spec_len()
        &&& self.spec_len() == 0 ==> {
            &&& self.floor() == T::spec_max_value()
            &&& self.top() == T::spec_max_value()
            &&& bucket_items(self.buckets(), self.buckets().len()) == Multiset::<T>::empty()
        }
    }

    /// Whether `after` is this heap with `v` pushed: the greater of `v` and
    /// the top key is the top key then, and the other went to the end of
    /// the bucket of its distance from the floor. Into an empty heap `v`
    /// goes as the top key.
    pub open spec fn pushed(&self, v: T, after: Self) -> bool {
        &&& self.wf()
        &&& after.wf()
        &&& v.rank() <= self.floor().rank()
        &&& after@ == self@.insert(v)
        &&& after@.len() == self@.len() + 1
        &&& after.floor() == self.floor()
        &&& if self@.len() == 0 {
            after.top() == v && after.buckets() == self.buckets()
        } else {
            let (top, rest) = if v.rank() > self.top().rank() {
                (v, self.top())
            } else {
                (self.top(), v)
            };
            let at = radix_distance(self.floor().rank(), rest.rank()) as int;
            after.top() == top && after.buckets() == self.buckets().update(
                at,
                self.buckets()[at].push(rest),
            )
        }
    }

    /// Whether `after` is this heap with its top key `v` popped: `v` is
    /// the floor then, and the buckets and the top key are as `after_pop`
    /// says. The heap that gave its last key is as a new one.
    pub open spec fn popped(&self, v: T, after: Self) -> bool {
        &&& self.wf()
        &&& after.wf()
        &&& self@.len() > 0
        &&& v == self.top()
        &&& after@ == self@.remove(v)
        &&& after@.len() == self@.len() - 1
        &&& after.floor() == if after@.len() == 0 {
            T::spec_max_value()
        } else {
            v
        }
        &&& if after@.len() == 0 {
            after.top() == T::spec_max_value() && after.buckets() == self.buckets()
        } else {
            (after.buckets(), after.top()) == after_pop(self.buckets(), self.floor(), self.top())
        }
    }

    /// The top key is in the heap and none in it exceeds it.
    pub proof fn lemma_top_is_greatest(&self)
        requires
            self.wf(),
            self@.len() > 0,
        ensures
            self@.contains(self.top()),
            forall|x: T| self@.contains(x) ==> x.rank() <= self.top().rank(),
            self.top().rank() <= self.floor().rank(),
    {
        broadcast use vstd::multiset::group_multiset_axioms;

        assert forall|x: T| self@.contains(x) implies x.rank() <= self.top().rank() by {
            if x != self.top() {
                let at = lemma_items_member(self.buckets(), self.buckets().len(), x);
                assert(self.buckets()[at.0][at.1] == x);
            }
        }
    }

    /// The number of keys.
    pub fn len(&self) -> (n: usize)
        requires
            self.wf(),
        ensures
            n == self@.len(),
    {
        self.s
    }

    /// Whether the heap holds no key.
    pub fn is_empty(&self) -> (b: bool)
        requires
            self.wf(),
        ensures
            b == (self@.len() == 0),
    {
        self.s == 0
    }

    /// Shows the greatest key without taking it out.
    pub fn peek(&self) -> (r: Option<&T>)
        requires
            self.wf(),
        ensures
            self@.len() == 0 ==> r.is_none(),
            self@.len() > 0 ==> r == Some(&self.top()),
    {
        if self.s == 0 {
            None
        } else {
            Some(&self.m)
        }
    }

    /// The greatest key of a heap that is known to hold one.
    pub fn peek_unchecked(&self) -> (r: &T)
        requires
            self.wf(),
            self@.len() > 0,
        ensures
            *r == self.top(),
    {
        &self.m
    }

    /// An empty heap whose floor is the greatest key.
    pub fn new() -> (h: Self)
        ensures
            h.wf(),
            h@ == Multiset::<T>::empty(),
            h.floor() == T::spec_max_value(),
            forall|i: int| 0 <= i < h.buckets().len() ==> (#[trigger] h.buckets()[i]).len() == 0,
    {
        proof {
            T::lemma_width();
        }
        let n: u32 = T::BITS;
        let mut d: Vec<Vec<T>> = Vec::new();
        let mut i: u32 = 0;
        while i <= n
            invariant
                i <= n + 1,
                n < u32::MAX,
                d@.len() == i,
                forall|k: int| 0 <= k < i ==> (#[trigger] d@[k])@.len() == 0,
            decreases n + 1 - i,
        {
            d.push(Vec::new());
            i += 1;
        }
        let h = RadixHeap { s: 0, m: T::max_value(), l: T::max_value(), d };
        proof {
            lemma_items_none(h.buckets(), h.buckets().len());
        }
        h
    }

    /// Puts `v` into the heap. The caller sees to it that `v` does not
    /// exceed the floor; `try_push` tests that itself.
    pub fn push(&mut self, v: T)
        requires
            old(self).wf(),
            v.rank() <= old(self).floor().rank(),
            old(self)@.len() < usize::MAX,
        ensures
            old(self).pushed(v, *final(self)),
    {
        broadcast use vstd::multiset::group_multiset_axioms;

        if self.s == 0 {
            self.m = v;
            self.s = 1;
            proof {
                let b = self.buckets();
                assert(b =~= old(self).buckets());
                lemma_no_items_rule(b, self.l, self.m);
                assert(self@ =~= old(self)@.insert(v));
            }
            return ;
        }
        self.s += 1;
        let mut w = v;
        if w.exceeds(&self.m) {
            w = self.m;
            self.m = v;
        }
        let i = self.l.dist(&w) as usize;
        proof {
            w.lemma_rank_bound();
            self.l.lemma_rank_bound();
            lemma_distance_bound(self.l.rank(), w.rank(), T::BITS as nat);
        }
        self.d[i].push(w);
        proof {
            let b0 = old(self).buckets();
            let b1 = self.buckets();
            assert(b1 =~= b0.update(i as int, b0[i as int].push(w)));
            lemma_items_replace(b0, i as int, b0[i as int].push(w), b0.len());
            vstd::seq_lib::to_multiset_build(b0[i as int], w);
            assert(bucket_items(b1, b1.len()) =~= bucket_items(b0, b0.len()).insert(w));
            assert(self@ =~= old(self)@.insert(v));
            assert forall|k: int, j: int| 0 <= k < b1.len() && 0 <= j < b1[k].len() implies {
                &&& radix_distance(self.floor().rank(), (#[trigger] b1[k][j]).rank()) == k
                &&& b1[k][j].rank() <= self.top().rank()
            } by {
                if k == i && j == b0[k].len() {
                } else {
                    assert(b1[k][j] == b0[k][j]);
                }
            }
        }
    }

    /// Puts `v` into the heap unless it exceeds the floor, and tells whether
    /// it did.
    pub fn try_push(&mut self, v: T) -> (pushed: bool)
        requires
            old(self).wf(),
            old(self)@.len() < usize::MAX,
        ensures
            pushed == (v.rank() <= old(self).floor().rank()),
            pushed ==> old(self).pushed(v, *final(self)),
            !pushed ==> *final(self) == *old(self),
    {
        if !v.exceeds(&self.l) {
            self.push(v);
            true
        } else {
            false
        }
    }

    /// Takes a greatest key out of a bucket; the others stay, in any order.
    fn take_greatest(r: &mut Vec<T>) -> (max: T)
        requires
            old(r)@.len() > 0,
        ensures
            final(r)@.len() == old(r)@.len() - 1,
            final(r)@.to_multiset().insert(max) == old(r)@.to_multiset(),
            old(r)@.contains(max),
            forall|j: int| 0 <= j < final(r)@.len() ==> old(r)@.contains(#[trigger] final(r)@[j]),
            forall|j: int| 0 <= j < final(r)@.len() ==> (#[trigger] final(r)@[j]).rank() <= max.rank(),
            (final(r)@, max) == sift(
                old(r)@.drop_last(),
                old(r)@.last(),
                (old(r)@.len() - 1) as nat,
            ),
    {
        broadcast use vstd::multiset::group_multiset_axioms;
        broadcast use vstd::seq_lib::group_to_multiset_ensures;

        let mut max = r.pop().unwrap();
        proof {
            assert(old(r)@ =~= r@.push(max));
            assert(old(r)@[old(r)@.len() - 1] == max);
            assert forall|j: int| 0 <= j < r@.len() implies old(r)@.contains(#[trigger] r@[j]) by {
                assert(old(r)@[j] == r@[j]);
            }
        }
        let n = r.len();
        let ghost first = r@;
        let ghost last = max;
        assert(first =~= old(r)@.drop_last());
        let mut k: usize = 0;
        while k < n
            invariant
                k <= n,
                n == r@.len(),
                n == old(r)@.len() - 1,
                first.len() == n,
                (r@, max) == sift(first, last, k as nat),
                r@.to_multiset().insert(max) == old(r)@.to_multiset(),
                old(r)@.contains(max),
                forall|j: int| 0 <= j < n ==> old(r)@.contains(#[trigger] r@[j]),
                forall|j: int| 0 <= j < k ==> (#[trigger] r@[j]).rank() <= max.rank(),
            decreases n - k,
        {
            proof {
                lemma_sift(first, last, k as nat);
            }
            let x = r[k];
            if x.exceeds(&max) {
                let ghost before = r@;
                r[k] = max;
                proof {
                    assert(r@ =~= before.update(k as int, max));
                    vstd::seq_lib::to_multiset_update(before, k as int, max);
                    assert(before.contains(x)) by {
                        assert(before[k as int] == x);
                    }
                    vstd::seq_lib::to_multiset_contains(before, x);
                    assert(r@.to_multiset().insert(x) =~= before.to_multiset().insert(max));
                    assert forall|j: int| 0 <= j < n implies old(r)@.contains(#[trigger] r@[j]) by {
                        if j != k {
                            assert(r@[j] == before[j]);
                        }
                    }
                    assert forall|j: int| 0 <= j < k + 1 implies (#[trigger] r@[j]).rank()
                        <= x.rank() by {
                        if j != k {
                            assert(r@[j] == before[j]);
                        }
                    }
                    assert(old(r)@.contains(before[k as int]));
                }
                max = x;
            }
            k += 1;
        }
        max
    }

    /// Takes the greatest key out of the heap, or tells that there is none.
    /// What it yields becomes the floor, unless it was the last key: then
    /// the floor is the greatest key of all again.
    pub fn pop(&mut self) -> (r: Option<T>)
        requires
            old(self).wf(),
        ensures
            final(self).wf(),
            old(self)@.len() == 0 ==> r.is_none() && *final(self) == *old(self),
            old(self)@.len() > 0 ==> {
                &&& r == Some(old(self).top())
                &&& old(self).popped(old(self).top(), *final(self))
                &&& old(self)@.contains(old(self).top())
                &&& forall|x: T| old(self)@.contains(x) ==> x.rank() <= old(self).top().rank()
                &&& old(self).top().rank() <= old(self).floor().rank()
                &&& bucket_rule(final(self).buckets(), final(self).floor(), final(self).top())
            },
    {
        broadcast use vstd::multiset::group_multiset_axioms;

        if self.s == 0 {
            return None;
        }
        proof {
            self.lemma_top_is_greatest();
        }
        let ghost b0 = self.buckets();
        let ghost l0 = self.l;
        let ghost m0 = self.m;
        let ghost items0 = bucket_items(b0, b0.len());
        self.s -= 1;
        if self.s == 0 {
            let v = self.m;
            self.l = T::max_value();
            self.m = T::max_value();
            proof {
                assert(items0.len() == 0);
                assert(items0 =~= Multiset::<T>::empty());
                lemma_no_items_rule(b0, self.l, self.m);
                assert(self.buckets() =~= b0);
                assert(self@ =~= old(self)@.remove(m0));
            }
            return Some(v);
        }
        let v = self.l.dist(&self.m) as usize;
        proof {
            lemma_floor_moves(b0, l0, m0);
        }
        self.l = self.m;
        assert(self.buckets() =~= b0);
        let width = self.d.len();
        let max: T;
        if self.d[v].len() == 0 {
            let mut g: usize = v + 1;
            proof {
                if g == b0.len() {
                    lemma_items_none(b0, b0.len());
                }
            }
            while self.d[g].len() == 0
                invariant
                    self.buckets() == b0,
                    v < g < b0.len(),
                    b0.len() == width,
                    items0 == bucket_items(b0, b0.len()),
                    items0.len() > 0,
                    forall|i: int| 0 <= i < g ==> (#[trigger] b0[i]).len() == 0,
                    lowest_filled(b0, v + 1) == lowest_filled(b0, g as int),
                decreases b0.len() - g,
            {
                g += 1;
                proof {
                    if g == b0.len() {
                        lemma_items_none(b0, b0.len());
                    }
                }
            }
            assert(lowest_filled(b0, v + 1) == g);
            max = Self::take_greatest(&mut self.d[g]);
            proof {
                let kept = self.buckets()[g as int];
                assert(self.buckets() =~= b0.update(g as int, kept));
                lemma_top_from_above(b0, l0, m0, g as int, kept, max);
            }
        } else {
            let mut r: Vec<T> = Vec::new();
            std::mem::swap(&mut r, &mut self.d[v]);
            let mut top = r.pop().unwrap();
            let n = r.len();
            let ghost waiting = r@;
            proof {
                assert(self.buckets() =~= b0.update(v as int, Seq::empty()));
                assert(waiting =~= b0[v as int].drop_last());
                assert(waiting.subrange(0, n as int) =~= waiting);
                lemma_bucket_emptied(b0, l0, m0, v as int);
                assert forall|j: int| 0 <= j < n implies (#[trigger] waiting[j]).rank()
                    <= m0.rank() by {
                    assert(waiting[j] == b0[v as int][j]);
                }
            }
            let mut k: usize = 0;
            let ghost count = self.s;
            let ghost emptied = self.buckets();
            let ghost last = top;
            while k < n
                invariant
                    k <= n,
                    n == r@.len(),
                    r@ == waiting,
                    self.l == m0,
                    self.s == count,
                    self.buckets().len() == T::BITS as nat + 1,
                    bucket_rule(self.buckets(), m0, top),
                    top.rank() <= m0.rank(),
                    forall|j: int| 0 <= j < n ==> (#[trigger] waiting[j]).rank() <= m0.rank(),
                    bucket_items(self.buckets(), self.buckets().len()).add(
                        waiting.subrange(k as int, n as int).to_multiset(),
                    ).insert(top) == items0,
                    (self.buckets(), top) == put_back(emptied, m0, last, waiting, k as nat),
                decreases n - k,
            {
                proof {
                    lemma_put_back(self.buckets(), m0, top, waiting, k as int);
                }
                let ghost before = self.buckets();
                let mut x = r[k];
                if x.exceeds(&top) {
                    x = top;
                    top = r[k];
                }
                let i = self.l.dist(&x) as usize;
                self.d[i].push(x);
                assert(self.buckets() =~= before.update(i as int, before[i as int].push(x)));
                k += 1;
            }
            proof {
                assert(waiting.subrange(n as int, n as int) =~= Seq::<T>::empty());
                vstd::seq_lib::to_multiset_len(Seq::<T>::empty());
                assert(bucket_items(self.buckets(), self.buckets().len()).insert(top) =~= items0);
            }
            max = top;
        }
        let ghost b1 = self.buckets();
        assert((b1, max) == after_pop(b0, l0, m0));
        self.m = max;
        proof {
            assert(self.buckets() =~= b1);
            assert(self@ =~= old(self)@.remove(m0));
        }
        Some(self.l)
    }
}

} // verus!
