//! The Floyd-Warshall algorithm: the lengths of shortest walks between all
//! pairs of nodes.

use vstd::prelude::*;
use super::Weight;

verus! {

/// What one step of the algorithm makes of the table `m` of `n` rows: where
/// there are entries from `j` to `i` and from `i` to `k` whose sum lies
/// within `lo ..= hi`, and the entry from `j` to `k` is missing or greater
/// than that sum, the sum becomes that entry.
pub open spec fn relax(m: Seq<Option<int>>, n: int, i: int, j: int, k: int, lo: int, hi: int) -> Seq<
    Option<int>,
> {
    match (m[j * n + i], m[i * n + k]) {
        (Some(a), Some(b)) => if lo <= a + b <= hi && (m[j * n + k] is None || a + b < m[j * n
            + k]->Some_0) {
            m.update(j * n + k, Some(a + b))
        } else {
            m
        },
        _ => m,
    }
}

/// The table after the steps through `i` from `j` to each of the first `k`
/// nodes.
pub open spec fn relax_row(m: Seq<Option<int>>, n: int, i: int, j: int, k: nat, lo: int, hi: int) -> Seq<
    Option<int>,
>
    decreases k,
{
    if k == 0 {
        m
    } else {
        relax(relax_row(m, n, i, j, (k - 1) as nat, lo, hi), n, i, j, k - 1, lo, hi)
    }
}

/// The table after the steps through `i` from each of the first `j` nodes.
pub open spec fn relax_through(m: Seq<Option<int>>, n: int, i: int, j: nat, lo: int, hi: int) -> Seq<
    Option<int>,
>
    decreases j,
{
    if j == 0 {
        m
    } else {
        relax_row(relax_through(m, n, i, (j - 1) as nat, lo, hi), n, i, j - 1, n as nat, lo, hi)
    }
}

/// The table after the steps through each of the first `i` nodes.
pub open spec fn relax_all(m: Seq<Option<int>>, n: int, i: nat, lo: int, hi: int) -> Seq<Option<int>>
    decreases i,
{
    if i == 0 {
        m
    } else {
        relax_through(relax_all(m, n, (i - 1) as nat, lo, hi), n, i - 1, n as nat, lo, hi)
    }
}

/// Whether `p` lists the nodes of a walk of at least one step through the
/// table `m` of `n` rows: from each node listed to the next there is an
/// entry.
pub open spec fn is_route(m: Seq<Option<int>>, n: int, p: Seq<int>) -> bool {
    &&& p.len() >= 2
    &&& forall|t: int| 0 <= t < p.len() ==> 0 <= #[trigger] p[t] < n
    &&& forall|t: int| 0 <= t < p.len() - 1 ==> m[#[trigger] p[t] * n + p[t + 1]] is Some
}

/// The sum of the entries along `p`.
pub open spec fn route_len(m: Seq<Option<int>>, n: int, p: Seq<int>) -> int
    decreases p.len(),
{
    if p.len() < 2 {
        0
    } else {
        route_len(m, n, p.drop_last()) + m[p[p.len() - 2] * n + p.last()]->Some_0
    }
}

/// Whether every entry of the table `t` is the length of a walk through
/// the table `m` between the nodes of the entry.
pub open spec fn is_sound(m: Seq<Option<int>>, n: int, t: Seq<Option<int>>) -> bool {
    &&& t.len() == m.len()
    &&& forall|j: int, k: int|
        0 <= j < n && 0 <= k < n && (#[trigger] t[j * n + k]) is Some ==> exists|p: Seq<int>|
            #![trigger route_len(m, n, p)]
            is_route(m, n, p) && p[0] == j && p.last() == k && route_len(m, n, p) == t[j * n
                + k]->Some_0
}

/// A cell of the table belongs to one pair of nodes.
proof fn lemma_cell_unique(n: int, j: int, k: int, a: int, b: int)
    requires
        0 <= j < n,
        0 <= k < n,
        0 <= a < n,
        0 <= b < n,
        j * n + k == a * n + b,
    ensures
        j == a,
        k == b,
{
    assert(j == a) by (nonlinear_arith)
        requires
            0 <= k < n,
            0 <= b < n,
            j * n + k == a * n + b,
    ;
}

/// Two walks, the second from where the first ends, make one walk.
proof fn lemma_route_join(m: Seq<Option<int>>, n: int, p: Seq<int>, q: Seq<int>)
    requires
        is_route(m, n, p),
        is_route(m, n, q),
        p.last() == q[0],
    ensures
        is_route(m, n, p + q.drop_first()),
        (p + q.drop_first())[0] == p[0],
        (p + q.drop_first()).last() == q.last(),
        route_len(m, n, p + q.drop_first()) == route_len(m, n, p) + route_len(m, n, q),
    decreases q.len(),
{
    let r = p + q.drop_first();
    assert forall|t: int| 0 <= t < r.len() - 1 implies m[#[trigger] r[t] * n + r[t + 1]] is Some by {
        if t < p.len() - 1 {
            assert(r[t] == p[t] && r[t + 1] == p[t + 1]);
        } else {
            let u = t - p.len() + 1;
            assert(r[t] == q[u] && r[t + 1] == q[u + 1]);
        }
    }
    assert forall|t: int| 0 <= t < r.len() implies 0 <= #[trigger] r[t] < n by {
        if t < p.len() {
            assert(r[t] == p[t]);
        } else {
            assert(r[t] == q[t - p.len() + 1]);
        }
    }
    if q.len() == 2 {
        assert(r.drop_last() =~= p);
        assert(route_len(m, n, q.drop_last()) == 0);
        assert(r[r.len() - 2] == p.last());
    } else {
        let q2 = q.drop_last();
        assert(is_route(m, n, q2)) by {
            assert forall|t: int| 0 <= t < q2.len() - 1 implies m[#[trigger] q2[t] * n + q2[t
                + 1]] is Some by {
                assert(q2[t] == q[t] && q2[t + 1] == q[t + 1]);
            }
            assert forall|t: int| 0 <= t < q2.len() implies 0 <= #[trigger] q2[t] < n by {
                assert(q2[t] == q[t]);
            }
        }
        lemma_route_join(m, n, p, q2);
        assert(r.drop_last() =~= p + q2.drop_first());
        assert(r[r.len() - 2] == q[q.len() - 2]);
    }
}

/// The table itself is sound.
pub proof fn lemma_sound_start(m: Seq<Option<int>>, n: int)
    requires
        m.len() == n * n,
    ensures
        is_sound(m, n, m),
{
    assert forall|j: int, k: int|
        0 <= j < n && 0 <= k < n && (#[trigger] m[j * n + k]) is Some implies exists|p: Seq<int>|
        #![trigger route_len(m, n, p)]
        is_route(m, n, p) && p[0] == j && p.last() == k && route_len(m, n, p) == m[j * n
            + k]->Some_0 by {
        let p = seq![j, k];
        assert(p.drop_last() =~= seq![j]);
        assert(route_len(m, n, p.drop_last()) == 0);
        assert(route_len(m, n, p) == m[j * n + k]->Some_0);
    }
}

/// A step keeps the table sound.
proof fn lemma_sound_relax(
    m: Seq<Option<int>>,
    n: int,
    t: Seq<Option<int>>,
    i: int,
    j: int,
    k: int,
    lo: int,
    hi: int,
)
    requires
        m.len() == n * n,
        is_sound(m, n, t),
        0 <= i < n,
        0 <= j < n,
        0 <= k < n,
    ensures
        is_sound(m, n, relax(t, n, i, j, k, lo, hi)),
{
    let t2 = relax(t, n, i, j, k, lo, hi);
    lemma_cell(n, j, i);
    lemma_cell(n, i, k);
    lemma_cell(n, j, k);
    if t2 != t {
        let a = t[j * n + i]->Some_0;
        let b = t[i * n + k]->Some_0;
        let p = choose|p: Seq<int>|
            #![trigger route_len(m, n, p)]
            is_route(m, n, p) && p[0] == j && p.last() == i && route_len(m, n, p) == a;
        let q = choose|q: Seq<int>|
            #![trigger route_len(m, n, q)]
            is_route(m, n, q) && q[0] == i && q.last() == k && route_len(m, n, q) == b;
        lemma_route_join(m, n, p, q);
        let r = p + q.drop_first();
        assert forall|x: int, y: int|
            0 <= x < n && 0 <= y < n && (#[trigger] t2[x * n + y]) is Some implies exists|
            w: Seq<int>,
        |
            #![trigger route_len(m, n, w)]
            is_route(m, n, w) && w[0] == x && w.last() == y && route_len(m, n, w) == t2[x * n
                + y]->Some_0 by {
            lemma_cell(n, x, y);
            if x * n + y == j * n + k {
                lemma_cell_unique(n, x, y, j, k);
                assert(route_len(m, n, r) == t2[x * n + y]->Some_0);
            } else {
                assert(t2[x * n + y] == t[x * n + y]);
            }
        }
    }
}

proof fn lemma_sound_row(
    m: Seq<Option<int>>,
    n: int,
    t: Seq<Option<int>>,
    i: int,
    j: int,
    k: nat,
    lo: int,
    hi: int,
)
    requires
        m.len() == n * n,
        is_sound(m, n, t),
        0 <= i < n,
        0 <= j < n,
        k <= n,
    ensures
        is_sound(m, n, relax_row(t, n, i, j, k, lo, hi)),
    decreases k,
{
    if k > 0 {
        lemma_sound_row(m, n, t, i, j, (k - 1) as nat, lo, hi);
        lemma_sound_relax(m, n, relax_row(t, n, i, j, (k - 1) as nat, lo, hi), i, j, k - 1, lo, hi);
    }
}

proof fn lemma_sound_through(
    m: Seq<Option<int>>,
    n: int,
    t: Seq<Option<int>>,
    i: int,
    j: nat,
    lo: int,
    hi: int,
)
    requires
        m.len() == n * n,
        is_sound(m, n, t),
        0 <= i < n,
        j <= n,
    ensures
        is_sound(m, n, relax_through(t, n, i, j, lo, hi)),
    decreases j,
{
    if j > 0 {
        lemma_sound_through(m, n, t, i, (j - 1) as nat, lo, hi);
        lemma_sound_row(m, n, relax_through(t, n, i, (j - 1) as nat, lo, hi), i, j - 1, n as nat, lo, hi);
    }
}

/// Every entry of the completed table is the length of a walk between its
/// nodes through the table as it was.
pub proof fn lemma_sound_all(m: Seq<Option<int>>, n: int, i: nat, lo: int, hi: int)
    requires
        m.len() == n * n,
        i <= n,
    ensures
        is_sound(m, n, relax_all(m, n, i, lo, hi)),
    decreases i,
{
    if i == 0 {
        lemma_sound_start(m, n);
    } else {
        lemma_sound_all(m, n, (i - 1) as nat, lo, hi);
        lemma_sound_through(m, n, relax_all(m, n, (i - 1) as nat, lo, hi), i - 1, n as nat, lo, hi);
    }
}

/// The number that an entry stands for.
pub open spec fn entry_value<T: Weight>(e: Option<T>) -> Option<int> {
    match e {
        Some(w) => Some(w.value()),
        None => None,
    }
}

/// A table of the lengths of walks between the nodes of a graph: for each
/// pair of nodes the least length known, if any.
#[derive(Clone)]
pub struct FloydWarshall<T> {
    d: Vec<Option<T>>,
    n: usize,
}

proof fn lemma_cell(n: int, j: int, k: int)
    requires
        0 <= j < n,
        0 <= k < n,
    ensures
        0 <= j * n + k < n * n,
        0 <= j * n <= j * n + k,
        j * n == n * j,
        (j + 1) * n == j * n + n,
        (j + 1) * n <= n * n,
{
    assert(j * n == n * j && (j + 1) * n == j * n + n) by (nonlinear_arith);
    assert((j + 1) * n <= n * n) by (nonlinear_arith)
        requires
            0 <= j < n,
    ;
    assert(j * n + k < n * n) by (nonlinear_arith)
        requires
            0 <= j < n,
            0 <= k < n,
    ;
    assert(0 <= j * n) by (nonlinear_arith)
        requires
            0 <= j,
            0 <= n,
    ;
}

impl<T: Weight> FloydWarshall<T> {
    /// The number of nodes.
    pub closed spec fn spec_len(&self) -> nat {
        self.n as nat
    }

    /// The table, row by row; the entry from `j` to `k` is the `k`-th of
    /// the `j`-th row.
    pub closed spec fn matrix(&self) -> Seq<Option<int>> {
        Seq::new(self.d@.len(), |c: int| entry_value(self.d@[c]))
    }

    /// The invariant of the table.
    pub closed spec fn wf(&self) -> bool {
        self.d@.len() == self.n * self.n && self.n * self.n <= usize::MAX
    }

    /// The table has an entry for each pair of nodes.
    pub proof fn lemma_matrix_len(&self)
        requires
            self.wf(),
        ensures
            self.matrix().len() == self.spec_len() * self.spec_len(),
    {
    }

    /// The table of a graph of `n` nodes without edges: every node is at
    /// zero from itself, and nothing else is known.
    pub fn new(n: usize) -> (g: Self)
        requires
            n * n <= usize::MAX,
        ensures
            g.wf(),
            g.spec_len() == n,
            forall|j: int, k: int|
                0 <= j < n && 0 <= k < n ==> #[trigger] g.matrix()[j * n + k] == (if j == k {
                    Some(0int)
                } else {
                    None
                }),
    {
        let mut d: Vec<Option<T>> = Vec::new();
        let mut i: usize = 0;
        while i < n
            invariant
                i <= n,
                n * n <= usize::MAX,
                d@.len() == i * n,
                forall|j: int, k: int|
                    0 <= j < i && 0 <= k < n ==> entry_value(#[trigger] d@[j * n + k]) == (if j == k {
                        Some(0int)
                    } else {
                        None
                    }),
            decreases n - i,
        {
            let mut j: usize = 0;
            while j < n
                invariant
                    i < n,
                    j <= n,
                    n * n <= usize::MAX,
                    d@.len() == i * n + j,
                    forall|a: int, k: int|
                        0 <= a < i && 0 <= k < n ==> entry_value(#[trigger] d@[a * n + k]) == (if a
                            == k {
                            Some(0int)
                        } else {
                            None
                        }),
                    forall|k: int|
                        0 <= k < j ==> entry_value(#[trigger] d@[i * n + k]) == (if i == k {
                            Some(0int)
                        } else {
                            None
                        }),
                decreases n - j,
            {
                let ghost before = d@;
                d.push(
                    if i == j {
                        Some(T::zero())
                    } else {
                        None
                    },
                );
                proof {
                    assert forall|a: int, k: int| 0 <= a < i && 0 <= k < n implies entry_value(
                        #[trigger] d@[a * n + k],
                    ) == (if a == k {
                        Some(0int)
                    } else {
                        None
                    }) by {
                        lemma_cell(n as int, a, k);
                        assert(a * n + k < i * n) by (nonlinear_arith)
                            requires
                                0 <= a < i,
                                0 <= k < n,
                        ;
                        assert(d@[a * n + k] == before[a * n + k]);
                    }
                    assert forall|k: int| 0 <= k < j + 1 implies entry_value(
                        #[trigger] d@[i * n + k],
                    ) == (if i == k {
                        Some(0int)
                    } else {
                        None
                    }) by {
                        if k < j {
                            assert(d@[i * n + k] == before[i * n + k]);
                        }
                    }
                }
                j += 1;
            }
            proof {
                assert((i + 1) * n == i * n + n) by (nonlinear_arith);
            }
            i += 1;
        }
        let g = FloydWarshall { d, n };
        proof {
            assert forall|j: int, k: int| 0 <= j < n && 0 <= k < n implies #[trigger] g.matrix()[j * n
                + k] == (if j == k {
                Some(0int)
            } else {
                None
            }) by {
                lemma_cell(n as int, j, k);
                assert(entry_value(g.d@[j * n + k]) == (if j == k {
                    Some(0int)
                } else {
                    None
                }));
            }
        }
        g
    }

    /// Makes `weight` the entry from `from` to `to`, unless a lesser one is
    /// there.
    pub fn add_edge(&mut self, from: usize, to: usize, weight: T)
        requires
            old(self).wf(),
            from < old(self).spec_len(),
            to < old(self).spec_len(),
        ensures
            final(self).wf(),
            final(self).spec_len() == old(self).spec_len(),
            final(self).matrix() == (if old(self).matrix()[from * old(self).spec_len() + to] is None
                || weight.value() < old(self).matrix()[from * old(self).spec_len() + to]->Some_0 {
                old(self).matrix().update(from * old(self).spec_len() + to, Some(weight.value()))
            } else {
                old(self).matrix()
            }),
    {
        proof {
            lemma_cell(self.n as int, from as int, to as int);
        }
        let c = from * self.n + to;
        let replace = match self.d[c] {
            Some(y) => {
                proof {
                    T::lemma_value_order(weight, y);
                    T::lemma_value_order(y, weight);
                }
                y.exceeds(&weight)
            },
            None => true,
        };
        if replace {
            self.d[c] = Some(weight);
            assert(self.matrix() =~= old(self).matrix().update(c as int, Some(weight.value())));
        }
    }

    /// Completes the table: for each node `i` in turn, and each pair of
    /// nodes, it takes the way through `i` where that is shorter.
    pub fn apply(&mut self) -> (r: FloydWarshallResult<'_, T>)
        requires
            old(self).wf(),
        ensures
            final(self).wf(),
            final(self).spec_len() == old(self).spec_len(),
            final(self).matrix() == relax_all(
                old(self).matrix(),
                old(self).spec_len() as int,
                old(self).spec_len(),
                T::spec_min_value().value(),
                T::spec_max_value().value(),
            ),
            r.table() == *final(self),
    {
        let n = self.n;
        let ghost m0 = self.matrix();
        let ghost lo = T::spec_min_value().value();
        let ghost hi = T::spec_max_value().value();
        let mut i: usize = 0;
        while i < n
            invariant
                i <= n,
                self.n == n,
                self.wf(),
                self.matrix() == relax_all(m0, n as int, i as nat, lo, hi),
                lo == T::spec_min_value().value(),
                hi == T::spec_max_value().value(),
            decreases n - i,
        {
            let ghost m1 = self.matrix();
            let mut j: usize = 0;
            while j < n
                invariant
                    i < n,
                    j <= n,
                    self.n == n,
                    self.wf(),
                    self.matrix() == relax_through(m1, n as int, i as int, j as nat, lo, hi),
                    lo == T::spec_min_value().value(),
                    hi == T::spec_max_value().value(),
                decreases n - j,
            {
                let ghost m2 = self.matrix();
                let mut k: usize = 0;
                while k < n
                    invariant
                        i < n,
                        j < n,
                        k <= n,
                        self.n == n,
                        self.wf(),
                        self.matrix() == relax_row(m2, n as int, i as int, j as int, k as nat, lo, hi),
                        lo == T::spec_min_value().value(),
                        hi == T::spec_max_value().value(),
                    decreases n - k,
                {
                    proof {
                        lemma_cell(n as int, j as int, i as int);
                        lemma_cell(n as int, i as int, k as int);
                        lemma_cell(n as int, j as int, k as int);
                    }
                    let ghost m3 = self.matrix();
                    let a = self.d[j * n + i];
                    let b = self.d[i * n + k];
                    match (a, b) {
                        (Some(a), Some(b)) => {
                            match a.checked_sum(&b) {
                                Some(y) => {
                                    proof {
                                        y.lemma_min_rank();
                                        y.lemma_max_rank();
                                        T::lemma_value_order(T::spec_min_value(), y);
                                        T::lemma_value_order(y, T::spec_max_value());
                                    }
                                    let c = j * n + k;
                                    let replace = match self.d[c] {
                                        Some(e) => {
                                            proof {
                                                T::lemma_value_order(y, e);
                                                T::lemma_value_order(e, y);
                                            }
                                            e.exceeds(&y)
                                        },
                                        None => true,
                                    };
                                    if replace {
                                        self.d[c] = Some(y);
                                        assert(self.matrix() =~= m3.update(c as int, Some(y.value())));
                                    }
                                },
                                None => {},
                            }
                        },
                        _ => {},
                    }
                    assert(self.matrix() == relax(m3, n as int, i as int, j as int, k as int, lo, hi));
                    k += 1;
                }
                j += 1;
            }
            i += 1;
        }
        FloydWarshallResult { v: self }
    }
}

/// A completed table, to be read row by row.
pub struct FloydWarshallResult<'a, T> {
    v: &'a FloydWarshall<T>,
}

impl<'a, T: Weight> FloydWarshallResult<'a, T> {
    /// The table that this reads.
    pub closed spec fn table(&self) -> FloydWarshall<T> {
        *self.v
    }

    /// The entries of a row stand for the row's part of the table.
    pub proof fn lemma_row(&self, j: int, k: int)
        requires
            self.table().wf(),
            0 <= j < self.table().spec_len(),
            0 <= k < self.table().spec_len(),
        ensures
            0 <= j * self.table().spec_len() + k < self.table().matrix().len(),
            entry_value(self.spec_row(j)[k]) == self.table().matrix()[j * self.table().spec_len() + k],
    {
        lemma_cell(self.v.n as int, j, k);
        assert(self.spec_row(j)[k] == self.v.d@[j * self.v.n + k]);
    }

    /// The row of the node `j`.
    pub closed spec fn spec_row(&self, j: int) -> Seq<Option<T>> {
        self.v.d@.subrange(j * self.v.n, (j + 1) * self.v.n)
    }
}

impl<'a, T: Weight> std::ops::Index<usize> for FloydWarshallResult<'a, T> {
    type Output = [Option<T>];

    /// The row of the node `index`: for each node, the length of a
    /// shortest walk from `index` to it that the table knows.
    fn index(&self, index: usize) -> (row: &[Option<T>])
        ensures
            row@ == self.spec_row(index as int),
    {
        let n = self.v.n;
        proof {
            lemma_cell(n as int, index as int, 0);
            assert(n * (index + 1) == (index + 1) * n) by (nonlinear_arith);
        }
        &self.v.d.as_slice()[(n * index)..(n * (index + 1))]
    }
}

impl<'a, T: Weight> vstd::std_specs::core::IndexSpecImpl<usize> for FloydWarshallResult<'a, T> {
    open spec fn index_req(&self, index: &usize) -> bool {
        self.table().wf() && *index < self.table().spec_len()
    }
}

} // verus!
