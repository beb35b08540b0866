//! Dijkstra's algorithm on a radix heap.

use vstd::prelude::*;
use vstd::multiset::Multiset;
use vstd::arithmetic::power2::pow2;
use super::Weight;
use crate::radix_heap::{Radix, RadixHeap};
use crate::radix_heap::distance::lemma_distance_mirror;

verus! {

/// Whether `p` is a walk from `from` to `to`: a sequence of steps, each the
/// node it leaves and the number of the edge it takes there.
pub open spec fn is_walk<T>(g: Seq<Seq<(usize, T)>>, from: int, to: int, p: Seq<(int, int)>) -> bool
    decreases p.len(),
{
    if p.len() == 0 {
        from == to
    } else {
        let e = p.last();
        &&& 0 <= e.0 < g.len()
        &&& 0 <= e.1 < g[e.0].len()
        &&& g[e.0][e.1].0 == to
        &&& is_walk(g, from, e.0, p.drop_last())
    }
}

/// The sum of the weights along `p`.
pub open spec fn walk_len<T: Weight>(g: Seq<Seq<(usize, T)>>, p: Seq<(int, int)>) -> int
    decreases p.len(),
{
    if p.len() == 0 {
        0
    } else {
        let e = p.last();
        walk_len(g, p.drop_last()) + g[e.0][e.1].1.value()
    }
}

/// No walk from `from` to `to` is shorter than `d`.
pub open spec fn is_lower_bound<T: Weight>(g: Seq<Seq<(usize, T)>>, from: int, to: int, d: int) -> bool {
    forall|p: Seq<(int, int)>| #[trigger] is_walk(g, from, to, p) ==> walk_len(g, p) >= d
}

/// Some walk from `from` to `to` has length `d`.
pub open spec fn is_reached<T: Weight>(g: Seq<Seq<(usize, T)>>, from: int, to: int, d: int) -> bool {
    exists|p: Seq<(int, int)>| #[trigger] is_walk(g, from, to, p) && walk_len(g, p) == d
}

/// `d` is the length of a shortest walk from `from` to `to`.
pub open spec fn is_shortest<T: Weight>(g: Seq<Seq<(usize, T)>>, from: int, to: int, d: int) -> bool {
    is_reached(g, from, to, d) && is_lower_bound(g, from, to, d)
}

/// Where no weight is below zero, no walk has a length below zero.
pub proof fn lemma_walk_nonnegative<T: Weight>(
    g: Seq<Seq<(usize, T)>>,
    from: int,
    to: int,
    p: Seq<(int, int)>,
)
    requires
        graph_nonnegative(g),
        is_walk(g, from, to, p),
    ensures
        walk_len(g, p) >= 0,
    decreases p.len(),
{
    if p.len() > 0 {
        let e = p.last();
        lemma_walk_nonnegative(g, from, e.0, p.drop_last());
        assert(g[e.0][e.1].1.value() >= 0);
    }
}

/// The number of edges that leave the first `n` nodes outside `settled`.
pub open spec fn remaining<T>(g: Seq<Seq<(usize, T)>>, settled: Set<int>, n: nat) -> nat
    decreases n,
{
    if n == 0 {
        0
    } else {
        remaining(g, settled, (n - 1) as nat) + if settled.contains(n - 1) {
            0
        } else {
            g[n - 1].len()
        }
    }
}

/// One more edge at the node `u`.
proof fn lemma_remaining_push<T>(g: Seq<Seq<(usize, T)>>, u: int, e: (usize, T), n: nat)
    requires
        0 <= u < g.len(),
        n <= g.len(),
    ensures
        remaining(g.update(u, g[u].push(e)), Set::empty(), n) == remaining(g, Set::empty(), n) + (if u
            < n {
            1nat
        } else {
            0nat
        }),
    decreases n,
{
    if n > 0 {
        lemma_remaining_push(g, u, e, (n - 1) as nat);
    }
}

/// A graph without edges.
proof fn lemma_remaining_none<T>(g: Seq<Seq<(usize, T)>>, n: nat)
    requires
        n <= g.len(),
        forall|u: int| 0 <= u < g.len() ==> (#[trigger] g[u]).len() == 0,
    ensures
        remaining(g, Set::empty(), n) == 0,
    decreases n,
{
    if n > 0 {
        lemma_remaining_none(g, (n - 1) as nat);
    }
}

proof fn lemma_remaining_insert<T>(g: Seq<Seq<(usize, T)>>, settled: Set<int>, u: int, n: nat)
    requires
        0 <= u,
        n <= g.len(),
        !settled.contains(u),
    ensures
        remaining(g, settled.insert(u), n) + (if u < n {
            g[u].len()
        } else {
            0
        }) == remaining(g, settled, n),
    decreases n,
{
    if n > 0 {
        lemma_remaining_insert(g, settled, u, (n - 1) as nat);
    }
}

/// An entry of the queue: a node and the length of a walk to it. Entries are
/// ordered by length alone, the shorter one being the greater key.
pub struct Pair<T>(pub usize, pub T);

impl<T: Copy> Clone for Pair<T> {
    fn clone(&self) -> (c: Self)
        ensures
            c == *self,
    {
        *self
    }
}

impl<T: Copy> Copy for Pair<T> {

}

impl<T: Weight> Radix for Pair<T> {
    const BITS: u32 = T::BITS;

    open spec fn rank(self) -> nat {
        (pow2(T::BITS as nat) - 1 - self.1.rank()) as nat
    }

    open spec fn spec_max_value() -> Self {
        Pair(usize::MAX, T::spec_min_value())
    }

    proof fn lemma_rank_bound(self) {
        self.1.lemma_rank_bound();
    }

    proof fn lemma_max_rank(self) {
        self.1.lemma_rank_bound();
        self.1.lemma_min_rank();
        T::spec_min_value().lemma_rank_bound();
    }

    proof fn lemma_width() {
        T::lemma_width();
    }

    fn max_value() -> (m: Self) {
        Pair(usize::MAX, T::min_value())
    }

    fn dist(&self, r: &Self) -> (d: u32) {
        proof {
            self.1.lemma_rank_bound();
            r.1.lemma_rank_bound();
            lemma_distance_mirror(self.1.rank(), r.1.rank(), T::BITS as nat);
        }
        self.1.dist(&r.1)
    }

    fn exceeds(&self, r: &Self) -> (b: bool) {
        proof {
            self.1.lemma_rank_bound();
            r.1.lemma_rank_bound();
        }
        r.1.exceeds(&self.1)
    }
}

/// Every edge leads to a node of the graph.
pub open spec fn graph_wf<T>(g: Seq<Seq<(usize, T)>>) -> bool {
    forall|u: int, k: int| 0 <= u < g.len() && 0 <= k < g[u].len() ==> (#[trigger] g[u][k]).0 < g.len()
}

/// No edge has a weight below zero.
pub open spec fn graph_nonnegative<T: Weight>(g: Seq<Seq<(usize, T)>>) -> bool {
    forall|u: int, k: int|
        0 <= u < g.len() && 0 <= k < g[u].len() ==> (#[trigger] g[u][k]).1.value() >= 0
}

/// The number that stands for "not reached yet".
spec fn infinity<T: Weight>() -> int {
    T::spec_max_value().value()
}

/// What holds of the tentative lengths: the source is at zero, and every
/// length that is recorded is the length of a walk.
spec fn lengths_inv<T: Weight>(g: Seq<Seq<(usize, T)>>, from: int, dist: Seq<T>) -> bool {
    &&& dist.len() == g.len()
    &&& 0 <= from < g.len()
    &&& dist[from].value() == 0
    &&& forall|v: int|
        0 <= v < dist.len() ==> {
            &&& 0 <= (#[trigger] dist[v]).value() <= infinity::<T>()
            &&& dist[v].value() < infinity::<T>() ==> is_reached(g, from, v, dist[v].value())
        }
}

/// The first `upto` edges that leave `v` cannot shorten anything.
spec fn relaxed<T: Weight>(g: Seq<Seq<(usize, T)>>, dist: Seq<T>, v: int, upto: int) -> bool {
    forall|k: int|
        0 <= k < upto ==> {
            let e = #[trigger] g[v][k];
            dist[v].value() + e.1.value() < infinity::<T>() ==> dist[e.0 as int].value()
                <= dist[v].value() + e.1.value()
        }
}

/// A settled node has its final length, and all its edges are relaxed.
spec fn settled_inv<T: Weight>(
    g: Seq<Seq<(usize, T)>>,
    from: int,
    dist: Seq<T>,
    settled: Set<int>,
) -> bool {
    forall|v: int| #[trigger]
        settled.contains(v) ==> {
            &&& 0 <= v < g.len()
            &&& dist[v].value() < infinity::<T>()
            &&& is_lower_bound(g, from, v, dist[v].value())
            &&& relaxed(g, dist, v, g[v].len() as int)
        }
}

/// The queue holds the current entry of every node that is reached and not
/// settled, each entry once, and none that is better than what is recorded.
spec fn queue_inv<T: Weight>(dist: Seq<T>, settled: Set<int>, h: Multiset<Pair<T>>) -> bool {
    &&& forall|v: int|
        0 <= v < dist.len() && !settled.contains(v) && (#[trigger] dist[v]).value() < infinity::<T>()
            ==> h.count(Pair(v as usize, dist[v])) > 0
    &&& forall|x: Pair<T>| #[trigger]
        h.count(x) > 0 ==> {
            &&& x.0 < dist.len()
            &&& dist[x.0 as int].value() <= x.1.value() < infinity::<T>()
            &&& settled.contains(x.0 as int) ==> dist[x.0 as int].value() < x.1.value()
            &&& h.count(x) <= 1
            &&& forall|v: int| #[trigger] settled.contains(v) ==> dist[v].value() <= x.1.value()
        }
}

/// Some shortest walk from `from` to `to` is no longer than `limit`.
pub open spec fn is_within<T: Weight>(g: Seq<Seq<(usize, T)>>, from: int, to: int, limit: int) -> bool {
    exists|d: int| d <= limit && #[trigger] is_shortest(g, from, to, d)
}

/// Whether a search for `to` may have followed `count` edges: those that
/// leave the nodes of `expanded`, each edge once. The target is not among
/// these nodes, and none of them is farther from the source than `limit`.
pub open spec fn is_expansion<T: Weight>(
    g: Seq<Seq<(usize, T)>>,
    from: int,
    to: int,
    limit: int,
    expanded: Set<int>,
    count: nat,
) -> bool {
    &&& !expanded.contains(to)
    &&& forall|u: int| #[trigger] expanded.contains(u) ==> 0 <= u < g.len() && is_within(g, from, u, limit)
    &&& remaining(g, expanded, g.len()) + count == remaining(g, Set::empty(), g.len())
}

/// One more edge is relaxed.
proof fn lemma_relaxed_step<T: Weight>(g: Seq<Seq<(usize, T)>>, dist: Seq<T>, v: int, k: int)
    requires
        relaxed(g, dist, v, k),
        dist[v].value() + g[v][k].1.value() < infinity::<T>() ==> dist[g[v][k].0 as int].value()
            <= dist[v].value() + g[v][k].1.value(),
    ensures
        relaxed(g, dist, v, k + 1),
{
}

/// A walk extended by one edge.
proof fn lemma_walk_extend<T: Weight>(
    g: Seq<Seq<(usize, T)>>,
    from: int,
    u: int,
    p: Seq<(int, int)>,
    k: int,
)
    requires
        is_walk(g, from, u, p),
        0 <= u < g.len(),
        0 <= k < g[u].len(),
    ensures
        is_walk(g, from, g[u][k].0 as int, p.push((u, k))),
        walk_len(g, p.push((u, k))) == walk_len(g, p) + g[u][k].1.value(),
{
    let q = p.push((u, k));
    assert(q.drop_last() =~= p);
    assert(q.last() == (u, k));
}

/// On every walk from the source that is shorter than "not reached" lies a
/// node whose recorded length is no more than the walk's: the walk's end if
/// that is settled, a node that is not settled otherwise.
proof fn lemma_frontier<T: Weight>(
    g: Seq<Seq<(usize, T)>>,
    from: int,
    dist: Seq<T>,
    settled: Set<int>,
    v: int,
    p: Seq<(int, int)>,
) -> (y: int)
    requires
        graph_wf(g),
        graph_nonnegative(g),
        lengths_inv(g, from, dist),
        settled_inv(g, from, dist, settled),
        is_walk(g, from, v, p),
        walk_len(g, p) < infinity::<T>(),
    ensures
        0 <= v < g.len(),
        0 <= y < g.len(),
        0 <= dist[y].value() <= walk_len(g, p),
        settled.contains(y) ==> y == v,
    decreases p.len(),
{
    if p.len() == 0 {
        from
    } else {
        let e = p.last();
        let w = g[e.0][e.1];
        assert(w.0 < g.len());
        assert(w.1.value() >= 0);
        let y0 = lemma_frontier(g, from, dist, settled, e.0, p.drop_last());
        if settled.contains(y0) {
            assert(relaxed(g, dist, e.0, g[e.0].len() as int));
            assert(dist[w.0 as int].value() <= dist[e.0].value() + w.1.value());
            v
        } else {
            y0
        }
    }
}

/// While the queue's least length is `least`, no walk to a node that is not
/// settled is shorter than that.
proof fn lemma_unsettled_bound<T: Weight>(
    g: Seq<Seq<(usize, T)>>,
    from: int,
    dist: Seq<T>,
    settled: Set<int>,
    h: Multiset<Pair<T>>,
    least: int,
    v: int,
    p: Seq<(int, int)>,
)
    requires
        graph_wf(g),
        graph_nonnegative(g),
        lengths_inv(g, from, dist),
        settled_inv(g, from, dist, settled),
        queue_inv(dist, settled, h),
        forall|x: Pair<T>| h.count(x) > 0 ==> least <= x.1.value(),
        least <= infinity::<T>(),
        is_walk(g, from, v, p),
        !settled.contains(v),
    ensures
        walk_len(g, p) >= least,
{
    if walk_len(g, p) < infinity::<T>() {
        let y = lemma_frontier(g, from, dist, settled, v, p);
        assert(h.count(Pair(y as usize, dist[y])) > 0);
    }
}

/// A directed graph with weighted edges, as adjacency lists.
#[derive(Clone)]
pub struct Dijkstra<T> {
    d: Vec<Vec<(usize, T)>>,
}

impl<T> View for Dijkstra<T> {
    type V = Seq<Seq<(usize, T)>>;

    /// For each node, the edges that leave it, each as its head and its
    /// weight, in the order in which they were added.
    closed spec fn view(&self) -> Seq<Seq<(usize, T)>> {
        Seq::new(self.d@.len(), |u: int| self.d@[u]@)
    }
}

impl<T> Dijkstra<T> {
    /// Every edge leads to a node of the graph.
    pub open spec fn wf(&self) -> bool {
        forall|u: int, k: int|
            0 <= u < self@.len() && 0 <= k < self@[u].len() ==> (#[trigger] self@[u][k]).0
                < self@.len()
    }

    /// The number of edges.
    pub open spec fn edge_count(&self) -> nat {
        remaining(self@, Set::empty(), self@.len())
    }

    /// A graph of `n` nodes without edges.
    pub fn new(n: usize) -> (g: Dijkstra<T>)
        ensures
            g.wf(),
            g@.len() == n,
            forall|u: int| 0 <= u < n ==> (#[trigger] g@[u]).len() == 0,
            g.edge_count() == 0,
    {
        let mut d: Vec<Vec<(usize, T)>> = Vec::new();
        let mut i: usize = 0;
        while i < n
            invariant
                i <= n,
                d@.len() == i,
                forall|u: int| 0 <= u < i ==> (#[trigger] d@[u])@.len() == 0,
            decreases n - i,
        {
            d.push(Vec::new());
            i += 1;
        }
        let g = Dijkstra { d };
        proof {
            lemma_remaining_none(g@, g@.len());
        }
        g
    }

    /// Adds an edge from `from` to `to`.
    pub fn add_edge(&mut self, from: usize, to: usize, weight: T)
        requires
            old(self).wf(),
            from < old(self)@.len(),
            to < old(self)@.len(),
        ensures
            final(self).wf(),
            final(self)@ == old(self)@.update(from as int, old(self)@[from as int].push((to, weight))),
            final(self).edge_count() == old(self).edge_count() + 1,
    {
        self.d[from].push((to, weight));
        proof {
            lemma_remaining_push(old(self)@, from as int, (to, weight), old(self)@.len());
            let g0 = old(self)@;
            let g1 = self@;
            assert(g1 =~= g0.update(from as int, g0[from as int].push((to, weight))));
            assert forall|u: int, k: int| 0 <= u < g1.len() && 0 <= k < g1[u].len() implies (
            #[trigger] g1[u][k]).0 < g1.len() by {
                if u == from && k == g0[u].len() {
                } else {
                    assert(g1[u][k] == g0[u][k]);
                }
            }
        }
    }
}

/// The settled nodes are an expansion.
proof fn lemma_expansion<T: Weight>(
    g: Seq<Seq<(usize, T)>>,
    from: int,
    to: int,
    dist: Seq<T>,
    settled: Set<int>,
    limit: int,
    count: nat,
)
    requires
        lengths_inv(g, from, dist),
        settled_inv(g, from, dist, settled),
        !settled.contains(to),
        forall|v: int| #[trigger] settled.contains(v) ==> dist[v].value() <= limit,
        remaining(g, settled, g.len()) + count == remaining(g, Set::empty(), g.len()),
    ensures
        exists|expanded: Set<int>| #[trigger] is_expansion(g, from, to, limit, expanded, count),
{
    assert forall|u: int| #[trigger] settled.contains(u) implies 0 <= u < g.len() && is_within(
        g,
        from,
        u,
        limit,
    ) by {
        assert(is_shortest(g, from, u, dist[u].value()));
    }
    assert(is_expansion(g, from, to, limit, settled, count));
}

/// What holds while the edges of the node `u` are followed, `k` of them so
/// far: the lengths are as they have to be, the nodes settled before are
/// settled still, and `u` has its final length and its first `k` edges
/// relaxed.
spec fn relaxing<T: Weight>(
    g: Seq<Seq<(usize, T)>>,
    from: int,
    dist: Seq<T>,
    settled: Set<int>,
    u: int,
    k: int,
) -> bool {
    &&& lengths_inv(g, from, dist)
    &&& settled_inv(g, from, dist, settled)
    &&& 0 <= u < g.len()
    &&& !settled.contains(u)
    &&& dist[u].value() < infinity::<T>()
    &&& is_lower_bound(g, from, u, dist[u].value())
    &&& forall|v: int| #[trigger] settled.contains(v) ==> dist[v].value() <= dist[u].value()
    &&& relaxed(g, dist, u, k)
}

/// The entry that the queue yields has the least length in it.
proof fn lemma_least<T: Weight>(h: Multiset<Pair<T>>, entry: Pair<T>)
    requires
        forall|x: Pair<T>| h.contains(x) ==> x.rank() <= entry.rank(),
    ensures
        forall|x: Pair<T>| h.count(x) > 0 ==> entry.1.value() <= x.1.value(),
{
    assert forall|x: Pair<T>| h.count(x) > 0 implies entry.1.value() <= x.1.value() by {
        assert(h.contains(x));
        x.1.lemma_rank_bound();
        entry.1.lemma_rank_bound();
        T::lemma_value_order(entry.1, x.1);
    }
}

/// Once the queue is empty, no walk to a node that is not settled is
/// shorter than "not reached".
proof fn lemma_not_reached<T: Weight>(
    g: Seq<Seq<(usize, T)>>,
    from: int,
    to: int,
    dist: Seq<T>,
    settled: Set<int>,
    h: Multiset<Pair<T>>,
)
    requires
        graph_wf(g),
        graph_nonnegative(g),
        lengths_inv(g, from, dist),
        settled_inv(g, from, dist, settled),
        queue_inv(dist, settled, h),
        h.len() == 0,
        !settled.contains(to),
    ensures
        is_lower_bound(g, from, to, infinity::<T>()),
        forall|v: int| #[trigger] settled.contains(v) ==> dist[v].value() <= infinity::<T>() - 1,
{
    broadcast use vstd::multiset::group_multiset_axioms;

    assert forall|p: Seq<(int, int)>| #[trigger] is_walk(g, from, to, p) implies walk_len(g, p)
        >= infinity::<T>() by {
        if walk_len(g, p) < infinity::<T>() {
            let y = lemma_frontier(g, from, dist, settled, to, p);
            assert(h.count(Pair(y as usize, dist[y])) > 0);
        }
    }
}

/// The length with which the target comes out of the queue is the length
/// of a shortest walk to it.
proof fn lemma_found<T: Weight>(
    g: Seq<Seq<(usize, T)>>,
    from: int,
    to: int,
    dist: Seq<T>,
    settled: Set<int>,
    h: Multiset<Pair<T>>,
    entry: Pair<T>,
)
    requires
        graph_wf(g),
        graph_nonnegative(g),
        lengths_inv(g, from, dist),
        settled_inv(g, from, dist, settled),
        queue_inv(dist, settled, h),
        h.count(entry) > 0,
        forall|x: Pair<T>| h.count(x) > 0 ==> entry.1.value() <= x.1.value(),
        entry.0 == to,
        !settled.contains(to),
    ensures
        is_shortest(g, from, to, entry.1.value()),
        entry.1.value() < infinity::<T>(),
        forall|v: int| #[trigger] settled.contains(v) ==> dist[v].value() <= entry.1.value(),
{
    let d = entry.1.value();
    assert forall|p: Seq<(int, int)>| #[trigger] is_walk(g, from, to, p) implies walk_len(g, p)
        >= d by {
        lemma_unsettled_bound(g, from, dist, settled, h, d, to, p);
    }
    let p0 = choose|p: Seq<(int, int)>| #[trigger]
        is_walk(g, from, to, p) && walk_len(g, p) == dist[to].value();
    assert(walk_len(g, p0) >= d);
}

/// An entry that is not the current one of its node leaves the queue, and
/// nothing else changes.
proof fn lemma_pass_over<T: Weight>(
    dist: Seq<T>,
    settled: Set<int>,
    h: Multiset<Pair<T>>,
    entry: Pair<T>,
)
    requires
        dist.len() <= usize::MAX,
        queue_inv(dist, settled, h),
        h.count(entry) > 0,
        entry.1 != dist[entry.0 as int],
    ensures
        queue_inv(dist, settled, h.remove(entry)),
{
    broadcast use vstd::multiset::group_multiset_axioms;

    let h1 = h.remove(entry);
    assert forall|v: int|
        0 <= v < dist.len() && !settled.contains(v) && (#[trigger] dist[v]).value() < infinity::<T>()
        implies h1.count(Pair(v as usize, dist[v])) > 0 by {
        assert(h.count(Pair(v as usize, dist[v])) > 0);
    }
    assert forall|x: Pair<T>| #[trigger] h1.count(x) > 0 implies {
        &&& x.0 < dist.len()
        &&& dist[x.0 as int].value() <= x.1.value() < infinity::<T>()
        &&& settled.contains(x.0 as int) ==> dist[x.0 as int].value() < x.1.value()
        &&& h1.count(x) <= 1
        &&& forall|v: int| #[trigger] settled.contains(v) ==> dist[v].value() <= x.1.value()
    } by {
        assert(h.count(x) > 0);
    }
}

/// The node whose current entry leaves the queue is settled: it was not
/// settled before, it has its final length, and no node settled before is
/// farther than it.
proof fn lemma_settle<T: Weight>(
    g: Seq<Seq<(usize, T)>>,
    from: int,
    dist: Seq<T>,
    settled: Set<int>,
    h: Multiset<Pair<T>>,
    entry: Pair<T>,
)
    requires
        g.len() <= usize::MAX,
        graph_wf(g),
        graph_nonnegative(g),
        lengths_inv(g, from, dist),
        settled_inv(g, from, dist, settled),
        queue_inv(dist, settled, h),
        h.count(entry) > 0,
        forall|x: Pair<T>| h.count(x) > 0 ==> entry.1.value() <= x.1.value(),
        entry.1 == dist[entry.0 as int],
    ensures
        relaxing(g, from, dist, settled, entry.0 as int, 0),
        queue_inv(dist, settled.insert(entry.0 as int), h.remove(entry)),
{
    broadcast use vstd::multiset::group_multiset_axioms;

    let u = entry.0 as int;
    let d = entry.1.value();
    let h1 = h.remove(entry);
    let settled1 = settled.insert(u);
    assert(!settled.contains(u));
    assert forall|p: Seq<(int, int)>| #[trigger] is_walk(g, from, u, p) implies walk_len(g, p)
        >= d by {
        lemma_unsettled_bound(g, from, dist, settled, h, d, u, p);
    }
    assert forall|v: int|
        0 <= v < dist.len() && !settled1.contains(v) && (#[trigger] dist[v]).value() < infinity::<T>()
        implies h1.count(Pair(v as usize, dist[v])) > 0 by {
        assert(h.count(Pair(v as usize, dist[v])) > 0);
    }
    assert forall|x: Pair<T>| #[trigger] h1.count(x) > 0 implies {
        &&& x.0 < dist.len()
        &&& dist[x.0 as int].value() <= x.1.value() < infinity::<T>()
        &&& settled1.contains(x.0 as int) ==> dist[x.0 as int].value() < x.1.value()
        &&& h1.count(x) <= 1
        &&& forall|v: int| #[trigger] settled1.contains(v) ==> dist[v].value() <= x.1.value()
    } by {
        assert(h.count(x) > 0);
        if x.0 == u {
            T::lemma_value_order(x.1, entry.1);
        }
    }
}

/// An edge that shortens the way to its head: the head gets the shorter
/// length and a new entry in the queue.
proof fn lemma_shorten<T: Weight>(
    g: Seq<Seq<(usize, T)>>,
    from: int,
    dist: Seq<T>,
    settled: Set<int>,
    h: Multiset<Pair<T>>,
    u: int,
    k: int,
    y: T,
)
    requires
        graph_wf(g),
        graph_nonnegative(g),
        relaxing(g, from, dist, settled, u, k),
        queue_inv(dist, settled.insert(u), h),
        0 <= k < g[u].len(),
        y.value() == g[u][k].1.value() + dist[u].value(),
        y.value() < dist[g[u][k].0 as int].value(),
    ensures
        relaxing(g, from, dist.update(g[u][k].0 as int, y), settled, u, k + 1),
        queue_inv(
            dist.update(g[u][k].0 as int, y),
            settled.insert(u),
            h.insert(Pair(g[u][k].0, y)),
        ),
        !settled.insert(u).contains(g[u][k].0 as int),
        dist.update(g[u][k].0 as int, y)[u] == dist[u],
{
    broadcast use vstd::multiset::group_multiset_axioms;

    let j = g[u][k].0;
    let settled1 = settled.insert(u);
    let dist1 = dist.update(j as int, y);
    let h2 = h.insert(Pair(j, y));
    assert(j < g.len());
    assert(g[u][k].1.value() >= 0);
    // a walk to `u`, extended by this edge
    let pu = choose|p: Seq<(int, int)>| #[trigger]
        is_walk(g, from, u, p) && walk_len(g, p) == dist[u].value();
    lemma_walk_extend(g, from, u, pu, k);
    let pj = pu.push((u, k));
    assert(is_walk(g, from, j as int, pj));
    assert(walk_len(g, pj) == y.value());
    assert(is_reached(g, from, j as int, y.value()));
    assert(!settled1.contains(j as int));
    assert(lengths_inv(g, from, dist1)) by {
        assert forall|v: int| 0 <= v < dist1.len() implies {
            &&& 0 <= (#[trigger] dist1[v]).value() <= infinity::<T>()
            &&& dist1[v].value() < infinity::<T>() ==> is_reached(g, from, v, dist1[v].value())
        } by {
            if v != j {
                assert(dist1[v] == dist[v]);
            }
        }
    }
    assert(settled_inv(g, from, dist1, settled)) by {
        assert forall|v: int| #[trigger] settled.contains(v) implies {
            &&& 0 <= v < g.len()
            &&& dist1[v].value() < infinity::<T>()
            &&& is_lower_bound(g, from, v, dist1[v].value())
            &&& relaxed(g, dist1, v, g[v].len() as int)
        } by {
            assert(dist1[v] == dist[v]);
            assert(relaxed(g, dist, v, g[v].len() as int));
            assert forall|a: int| 0 <= a < g[v].len() implies {
                let e = #[trigger] g[v][a];
                dist1[v].value() + e.1.value() < infinity::<T>() ==> dist1[e.0 as int].value()
                    <= dist1[v].value() + e.1.value()
            } by {
                let e = g[v][a];
                assert(e.0 < g.len());
                if e.0 != j {
                    assert(dist1[e.0 as int] == dist[e.0 as int]);
                }
            }
        }
    }
    assert(relaxed(g, dist1, u, k + 1)) by {
        assert forall|a: int| 0 <= a < k + 1 implies {
            let e = #[trigger] g[u][a];
            dist1[u].value() + e.1.value() < infinity::<T>() ==> dist1[e.0 as int].value()
                <= dist1[u].value() + e.1.value()
        } by {
            let e = g[u][a];
            assert(e.0 < g.len());
            if e.0 != j {
                assert(dist1[e.0 as int] == dist[e.0 as int]);
            }
        }
    }
    assert forall|v: int| #[trigger] settled.contains(v) implies dist1[v].value()
        <= dist1[u].value() by {
        assert(dist1[v] == dist[v]);
    }
    assert(queue_inv(dist1, settled1, h2)) by {
        assert forall|v: int|
            0 <= v < dist1.len() && !settled1.contains(v) && (#[trigger] dist1[v]).value()
                < infinity::<T>() implies h2.count(Pair(v as usize, dist1[v])) > 0 by {
            if v != j {
                assert(dist1[v] == dist[v]);
                assert(h.count(Pair(v as usize, dist[v])) > 0);
            }
        }
        assert forall|x: Pair<T>| #[trigger] h2.count(x) > 0 implies {
            &&& x.0 < dist1.len()
            &&& dist1[x.0 as int].value() <= x.1.value() < infinity::<T>()
            &&& settled1.contains(x.0 as int) ==> dist1[x.0 as int].value() < x.1.value()
            &&& h2.count(x) <= 1
            &&& forall|v: int| #[trigger] settled1.contains(v) ==> dist1[v].value() <= x.1.value()
        } by {
            assert forall|v: int| #[trigger] settled1.contains(v) implies dist1[v] == dist[v] by {}
            if x == Pair(j, y) {
                if h.count(x) > 0 {
                    assert(dist[j as int].value() <= x.1.value());
                }
            } else {
                assert(h.count(x) > 0);
                if x.0 != j {
                    assert(dist1[x.0 as int] == dist[x.0 as int]);
                }
            }
        }
    }
}

/// Whether two weights are different weights.
fn differs<T: Weight>(a: &T, b: &T) -> (r: bool)
    ensures
        r == (*a != *b),
{
    proof {
        T::lemma_value_order(*a, *b);
        T::lemma_value_order(*b, *a);
    }
    a.exceeds(b) || b.exceeds(a)
}

impl<T: Weight> Dijkstra<T> {
    /// No edge has a weight below zero.
    pub open spec fn nonnegative(&self) -> bool {
        graph_nonnegative(self@)
    }

    /// What `distance` returns for `from` and `to`.
    pub open spec fn is_distance(&self, from: int, to: int, r: Option<T>) -> bool {
        match r {
            Some(d) => {
                &&& is_shortest(self@, from, to, d.value())
                &&& d.value() < T::spec_max_value().value()
            },
            None => is_lower_bound(self@, from, to, T::spec_max_value().value()),
        }
    }

    /// How far from the source a search with the result `r` has looked: as
    /// far as the target lies, or as far as any weight can tell.
    pub open spec fn reach(r: Option<T>) -> int {
        match r {
            Some(d) => d.value(),
            None => T::spec_max_value().value() - 1,
        }
    }

    /// The length of a shortest walk from `from` to `to`, or `None` where no
    /// walk is shorter than the greatest weight, which stands for "not
    /// reached".
    pub fn distance(&self, from: usize, to: usize) -> (r: Option<T>)
        requires
            self.wf(),
            self.nonnegative(),
            self.edge_count() < usize::MAX,
            from < self@.len(),
            to < self@.len(),
        ensures
            self.is_distance(from as int, to as int, r),
    {
        self.search(from, to).0
    }

    /// As `distance`, and with it the number of edges that the search
    /// followed. It follows the edges that leave a node when it settles that
    /// node, so each edge at most once; it settles no node that is farther
    /// from the source than the target, and never the target itself.
    pub fn search(&self, from: usize, to: usize) -> (r: (Option<T>, usize))
        requires
            self.wf(),
            self.nonnegative(),
            self.edge_count() < usize::MAX,
            from < self@.len(),
            to < self@.len(),
        ensures
            self.is_distance(from as int, to as int, r.0),
            exists|expanded: Set<int>| #[trigger]
                is_expansion(
                    self@,
                    from as int,
                    to as int,
                    Self::reach(r.0),
                    expanded,
                    r.1 as nat,
                ),
    {
        broadcast use vstd::multiset::group_multiset_axioms;

        let ghost g = self@;
        let n = self.d.len();
        let mut heap: RadixHeap<Pair<T>> = RadixHeap::new();
        let mut dist: Vec<T> = Vec::new();
        let mut i: usize = 0;
        while i < n
            invariant
                i <= n,
                dist@.len() == i,
                forall|v: int| 0 <= v < i ==> (#[trigger] dist@[v]) == T::spec_max_value(),
            decreases n - i,
        {
            dist.push(T::max_value());
            i += 1;
        }
        let zero = T::zero();
        proof {
            Pair(from, zero).lemma_max_rank();
        }
        heap.push(Pair(from, zero));
        dist[from] = zero;
        let ghost mut settled: Set<int> = Set::empty();
        let mut followed: usize = 0;
        proof {
            T::lemma_zero_below_max();
            assert(is_walk(g, from as int, from as int, Seq::<(int, int)>::empty()));
            assert(walk_len(g, Seq::<(int, int)>::empty()) == 0);
            assert(is_reached(g, from as int, from as int, 0));
            assert(heap@ =~= Multiset::<Pair<T>>::empty().insert(Pair(from, zero)));
        }
        loop
            invariant
                g == self@,
                n == g.len(),
                from < n,
                to < n,
                graph_wf(g),
                graph_nonnegative(g),
                heap.wf(),
                lengths_inv(g, from as int, dist@),
                settled_inv(g, from as int, dist@, settled),
                queue_inv(dist@, settled, heap@),
                !settled.contains(to as int),
                heap@.len() + remaining(g, settled, n as nat) <= remaining(g, Set::empty(), n as nat)
                    + 1,
                remaining(g, Set::empty(), n as nat) < usize::MAX,
                remaining(g, settled, n as nat) + followed == remaining(g, Set::empty(), n as nat),
            decreases heap@.len() + remaining(g, settled, n as nat),
        {
            let ghost h0 = heap@;
            let ghost budget = heap@.len() + remaining(g, settled, n as nat);
            let top = heap.pop();
            match top {
                None => {
                    proof {
                        lemma_not_reached(g, from as int, to as int, dist@, settled, h0);
                        lemma_expansion(
                            g,
                            from as int,
                            to as int,
                            dist@,
                            settled,
                            Self::reach(None),
                            followed as nat,
                        );
                    }
                    let found: (Option<T>, usize) = (None, followed);
                    assert(found.0 == None::<T> && found.1 == followed);
                    return found;
                },
                Some(entry) => {
                    let u = entry.0;
                    let du = entry.1;
                    proof {
                        lemma_least(h0, entry);
                    }
                    if u == to {
                        proof {
                            lemma_found(g, from as int, to as int, dist@, settled, h0, entry);
                            lemma_expansion(
                                g,
                                from as int,
                                to as int,
                                dist@,
                                settled,
                                Self::reach(Some(du)),
                                followed as nat,
                            );
                        }
                        let found: (Option<T>, usize) = (Some(du), followed);
                        assert(found.0 == Some(du) && found.1 == followed);
                        return found;
                    }
                    if differs(&du, &dist[u]) {
                        proof {
                            lemma_pass_over(dist@, settled, h0, entry);
                        }
                    } else {
                        let ghost settled0 = settled;
                        proof {
                            lemma_settle(g, from as int, dist@, settled0, h0, entry);
                            lemma_remaining_insert(g, settled0, u as int, n as nat);
                            settled = settled0.insert(u as int);
                            du.lemma_min_rank();
                            T::lemma_value_order(T::spec_min_value(), du);
                        }
                        let m = self.d[u].len();
                        let mut k: usize = 0;
                        while k < m
                            invariant
                                g == self@,
                                n == g.len(),
                                from < n,
                                to < n,
                                u < n,
                                k <= m,
                                m == g[u as int].len(),
                                graph_wf(g),
                                graph_nonnegative(g),
                                heap.wf(),
                                settled == settled0.insert(u as int),
                                !settled.contains(to as int),
                                relaxing(g, from as int, dist@, settled0, u as int, k as int),
                                queue_inv(dist@, settled, heap@),
                                heap.floor().1.value() <= dist@[u as int].value(),
                                dist@[u as int] == du,
                                heap@.len() + (m - k) + remaining(g, settled, n as nat) < budget,
                                budget <= remaining(g, Set::empty(), n as nat) + 1,
                                remaining(g, Set::empty(), n as nat) < usize::MAX,
                                remaining(g, settled, n as nat) + (m - k) + followed == remaining(
                                    g,
                                    Set::empty(),
                                    n as nat,
                                ),
                            decreases m - k,
                        {
                            let edge = self.d[u][k];
                            let j = edge.0;
                            let c = edge.1;
                            let ghost dist0 = dist@;
                            let ghost h1 = heap@;
                            assert(g[u as int][k as int] == edge);
                            match c.checked_sum(&du) {
                                Some(y) => {
                                    proof {
                                        T::lemma_value_order(y, dist0[j as int]);
                                        T::lemma_value_order(dist0[j as int], y);
                                    }
                                    if dist[j].exceeds(&y) {
                                        proof {
                                            lemma_shorten(
                                                g,
                                                from as int,
                                                dist0,
                                                settled0,
                                                h1,
                                                u as int,
                                                k as int,
                                                y,
                                            );
                                            heap.floor().1.lemma_rank_bound();
                                            y.lemma_rank_bound();
                                            T::lemma_value_order(heap.floor().1, y);
                                        }
                                        dist[j] = y;
                                        heap.push(Pair(j, y));
                                    } else {
                                        proof {
                                            lemma_relaxed_step(g, dist@, u as int, k as int);
                                        }
                                    }
                                },
                                None => {
                                    proof {
                                        du.lemma_min_rank();
                                        T::lemma_value_order(T::spec_min_value(), du);
                                        lemma_relaxed_step(g, dist@, u as int, k as int);
                                    }
                                },
                            }
                            k += 1;
                            followed += 1;
                        }
                    }
                },
            }
        }
    }
}

} // verus!
