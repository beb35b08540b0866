//! Disjoint sets with union by size and path compression.

use vstd::prelude::*;

verus! {

/// A partition of `0 .. n` into disjoint sets, each with one of its members
/// as its root.
#[derive(Clone)]
pub struct UnionFind {
    /// For a root, minus the size of its set; for any other node, its parent.
    d: Vec<isize>,
    /// The number of sets.
    c: usize,
    /// For each node, a bound on the number of steps from it to its root.
    depth: Ghost<Seq<nat>>,
}

/// Parents are nodes, and every step to a parent comes closer to a root.
spec fn links_wf(d: Seq<isize>, depth: Seq<nat>) -> bool {
    &&& d.len() <= isize::MAX
    &&& depth.len() == d.len()
    &&& forall|i: int|
        0 <= i < d.len() ==> {
            &&& -d.len() <= (#[trigger] d[i]) < d.len()
            &&& d[i] >= 0 ==> depth[d[i] as int] < depth[i]
        }
}

/// The node that the parents lead to from `i`.
spec fn root_of(d: Seq<isize>, depth: Seq<nat>, i: int) -> int
    decreases depth[i],
    when links_wf(d, depth) && 0 <= i < d.len()
{
    if d[i] < 0 {
        i
    } else {
        root_of(d, depth, d[i] as int)
    }
}

proof fn lemma_root_of(d: Seq<isize>, depth: Seq<nat>, i: int)
    requires
        links_wf(d, depth),
        0 <= i < d.len(),
    ensures
        0 <= root_of(d, depth, i) < d.len(),
        d[root_of(d, depth, i)] < 0,
        root_of(d, depth, root_of(d, depth, i)) == root_of(d, depth, i),
        depth[root_of(d, depth, i)] <= depth[i],
        d[i] >= 0 ==> root_of(d, depth, i) != i,
    decreases depth[i],
{
    if d[i] >= 0 {
        lemma_root_of(d, depth, d[i] as int);
    }
}

/// Hanging a node directly under its root changes no root.
proof fn lemma_compress(d: Seq<isize>, depth: Seq<nat>, f: int, x: int)
    requires
        links_wf(d, depth),
        0 <= f < d.len(),
        d[f] >= 0,
        0 <= x < d.len(),
    ensures
        links_wf(d.update(f, root_of(d, depth, f) as isize), depth),
        root_of(d.update(f, root_of(d, depth, f) as isize), depth, x) == root_of(d, depth, x),
    decreases depth[x],
{
    let r = root_of(d, depth, f);
    let d2 = d.update(f, r as isize);
    lemma_root_of(d, depth, f);
    lemma_root_of(d, depth, d[f] as int);
    assert(links_wf(d2, depth));
    if d[x] >= 0 {
        if x == f {
            assert(root_of(d2, depth, r) == r);
        } else {
            lemma_compress(d, depth, f, d[x] as int);
        }
    }
}

/// The depth bounds after the tree of `l` was hung under `w`.
spec fn merged_depth(d: Seq<isize>, depth: Seq<nat>, w: int, l: int) -> Seq<nat> {
    Seq::new(
        d.len(),
        |x: int|
            if root_of(d, depth, x) == l {
                depth[x] + depth[w] + 1
            } else {
                depth[x]
            },
    )
}

/// Hanging the root `l` under the root `w` moves the nodes of `l` to `w`
/// and changes no other root.
proof fn lemma_merge(d: Seq<isize>, depth: Seq<nat>, w: int, l: int, size: isize, x: int)
    requires
        links_wf(d, depth),
        0 <= w < d.len(),
        0 <= l < d.len(),
        w != l,
        d[w] < 0,
        d[l] < 0,
        -d.len() <= size < 0,
        0 <= x < d.len(),
    ensures
        links_wf(d.update(w, size).update(l, w as isize), merged_depth(d, depth, w, l)),
        root_of(d.update(w, size).update(l, w as isize), merged_depth(d, depth, w, l), x) == (if root_of(
            d,
            depth,
            x,
        ) == l {
            w
        } else {
            root_of(d, depth, x)
        }),
    decreases depth[x],
{
    let d2 = d.update(w, size).update(l, w as isize);
    let depth2 = merged_depth(d, depth, w, l);
    assert(links_wf(d2, depth2)) by {
        assert forall|i: int| 0 <= i < d2.len() implies {
            &&& -d2.len() <= (#[trigger] d2[i]) < d2.len()
            &&& d2[i] >= 0 ==> depth2[d2[i] as int] < depth2[i]
        } by {
            if i == l {
            } else if i == w {
            } else {
                assert(d2[i] == d[i]);
                if d[i] >= 0 {
                    lemma_root_of(d, depth, i);
                }
            }
        }
    }
    if x == l {
        assert(root_of(d2, depth2, w) == w);
    } else if x == w {
    } else if d[x] >= 0 {
        lemma_merge(d, depth, w, l, size, d[x] as int);
    }
}

impl Default for UnionFind {
    /// The partition of no nodes.
    fn default() -> (uf: UnionFind)
        ensures
            uf.wf(),
            uf.spec_len() == 0,
    {
        UnionFind::new(0)
    }
}

impl UnionFind {
    /// The invariant of the structure.
    pub closed spec fn wf(&self) -> bool {
        &&& links_wf(self.d@, self.depth@)
        &&& self.c == self.roots().len()
        &&& forall|r: int|
            0 <= r < self.d@.len() && self.d@[r] < 0 ==> -self.d@[r] == (#[trigger] self.members(
                r,
            )).len()
    }

    /// The number of nodes.
    pub closed spec fn spec_len(&self) -> nat {
        self.d@.len()
    }

    /// The root of the set that holds `i`.
    pub closed spec fn root(&self, i: int) -> int {
        root_of(self.d@, self.depth@, i)
    }

    /// The nodes of the set whose root is `r`.
    pub open spec fn members(&self, r: int) -> Set<int> {
        Set::new(|x: int| 0 <= x < self.spec_len() && self.root(x) == r)
    }

    /// The roots of all sets.
    pub open spec fn roots(&self) -> Set<int> {
        Set::new(|x: int| 0 <= x < self.spec_len() && self.root(x) == x)
    }

    /// The root of a node is a node, and its own root.
    pub proof fn lemma_root(&self, i: int)
        requires
            self.wf(),
            0 <= i < self.spec_len(),
        ensures
            0 <= self.root(i) < self.spec_len(),
            self.root(self.root(i)) == self.root(i),
    {
        lemma_root_of(self.d@, self.depth@, i);
    }

    /// `n` sets of one node each: `{0}`, `{1}`, and so on.
    pub fn new(n: usize) -> (uf: UnionFind)
        requires
            n <= isize::MAX,
        ensures
            uf.wf(),
            uf.spec_len() == n,
            forall|i: int| 0 <= i < n ==> uf.root(i) == i,
    {
        let mut d: Vec<isize> = Vec::new();
        let mut i: usize = 0;
        while i < n
            invariant
                i <= n,
                d@.len() == i,
                forall|k: int| 0 <= k < i ==> d@[k] == -1,
            decreases n - i,
        {
            d.push(-1);
            i += 1;
        }
        let uf = UnionFind { d, c: n, depth: Ghost(Seq::new(n as nat, |i: int| 0nat)) };
        proof {
            assert(links_wf(uf.d@, uf.depth@));
            assert forall|i: int| 0 <= i < n implies uf.root(i) == i by {}
            assert(uf.roots() =~= vstd::set_lib::set_int_range(0, n as int));
            vstd::set_lib::lemma_int_range(0, n as int);
            assert forall|r: int| 0 <= r < uf.d@.len() && uf.d@[r] < 0 implies -uf.d@[r] == (
            #[trigger] uf.members(r)).len() by {
                assert(uf.members(r) =~= set![r]);
            }
        }
        uf
    }

    /// The number of nodes.
    pub fn len(&self) -> (n: usize)
        ensures
            n == self.spec_len(),
    {
        self.d.len()
    }

    /// The number of sets.
    pub fn count(&self) -> (c: usize)
        requires
            self.wf(),
        ensures
            c == self.roots().len(),
    {
        self.c
    }

    /// The root of the set that holds `a`, found without changing anything.
    pub fn find_imu(&self, a: usize) -> (r: usize)
        requires
            self.wf(),
            a < self.spec_len(),
        ensures
            r == self.root(a as int),
    {
        let mut r = a;
        while self.d[r] >= 0
            invariant
                links_wf(self.d@, self.depth@),
                r < self.d@.len(),
                self.root(r as int) == self.root(a as int),
            decreases self.depth@[r as int],
        {
            r = self.d[r] as usize;
        }
        r
    }

    /// The root of the set that holds `a`. On the way it hangs every node
    /// between `a` and the root directly under the root; no set changes.
    pub fn find(&mut self, a: usize) -> (r: usize)
        requires
            old(self).wf(),
            a < old(self).spec_len(),
        ensures
            final(self).wf(),
            r == old(self).root(a as int),
            final(self).spec_len() == old(self).spec_len(),
            forall|x: int| 0 <= x < old(self).spec_len() ==> final(self).root(x) == old(self).root(x),
    {
        let r = self.find_imu(a);
        let k = r as isize;
        let mut f = a;
        proof {
            lemma_root_of(self.d@, self.depth@, a as int);
        }
        while self.d[f] >= 0
            invariant
                links_wf(self.d@, self.depth@),
                links_wf(old(self).d@, old(self).depth@),
                self.d@.len() == old(self).d@.len(),
                self.depth == old(self).depth,
                self.c == old(self).c,
                f < self.d@.len(),
                r < self.d@.len(),
                k == r,
                root_of(self.d@, self.depth@, f as int) == r,
                forall|x: int|
                    0 <= x < self.d@.len() ==> root_of(self.d@, self.depth@, x) == root_of(
                        old(self).d@,
                        old(self).depth@,
                        x,
                    ),
                forall|x: int|
                    0 <= x < self.d@.len() && old(self).d@[x] < 0 ==> self.d@[x] == old(self).d@[x],
            decreases self.depth@[f as int],
        {
            let t = self.d[f] as usize;
            let ghost before = self.d@;
            proof {
                assert forall|x: int| 0 <= x < before.len() implies root_of(
                    before.update(f as int, k),
                    self.depth@,
                    x,
                ) == root_of(before, self.depth@, x) by {
                    lemma_compress(before, self.depth@, f as int, x);
                }
                lemma_compress(before, self.depth@, f as int, f as int);
                lemma_root_of(old(self).d@, old(self).depth@, f as int);
            }
            assert(root_of(before, self.depth@, t as int) == r);
            assert(k == root_of(before, self.depth@, f as int) as isize);
            self.d[f] = k;
            assert(self.d@ =~= before.update(f as int, k));
            assert(root_of(self.d@, self.depth@, t as int) == r);
            f = t;
        }
        proof {
            assert forall|x: int| 0 <= x < old(self).spec_len() implies self.root(x) == old(
                self,
            ).root(x) by {}
            assert(self.roots() =~= old(self).roots());
            assert forall|q: int| 0 <= q < self.d@.len() && self.d@[q] < 0 implies -self.d@[q] == (
            #[trigger] self.members(q)).len() by {
                lemma_root_of(self.d@, self.depth@, q);
                lemma_root_of(old(self).d@, old(self).depth@, q);
                assert(self.members(q) =~= old(self).members(q));
            }
        }
        r
    }

    /// The root that the sets of `a` and `b` have once they are one set: the
    /// root of the larger one, and that of `b` where they are of one size.
    pub open spec fn union_root(&self, a: int, b: int) -> int {
        let ra = self.root(a);
        let rb = self.root(b);
        if ra == rb {
            ra
        } else if self.members(ra).len() > self.members(rb).len() {
            ra
        } else {
            rb
        }
    }

    /// The sets of nodes are finite.
    proof fn lemma_finite(&self, r: int)
        ensures
            self.members(r).finite(),
            self.members(r).len() <= self.spec_len(),
            self.roots().finite(),
    {
        let all = vstd::set_lib::set_int_range(0, self.spec_len() as int);
        vstd::set_lib::lemma_int_range(0, self.spec_len() as int);
        assert(self.members(r).subset_of(all));
        assert(self.roots().subset_of(all));
        vstd::set_lib::lemma_len_subset(self.members(r), all);
        vstd::set_lib::lemma_len_subset(self.roots(), all);
    }

    /// Makes one set of the sets that hold `a` and `b`, and returns its
    /// root. Where they are one set already, nothing changes.
    pub fn union(&mut self, a: usize, b: usize) -> (r: usize)
        requires
            old(self).wf(),
            a < old(self).spec_len(),
            b < old(self).spec_len(),
        ensures
            final(self).wf(),
            final(self).spec_len() == old(self).spec_len(),
            r == old(self).union_root(a as int, b as int),
            forall|x: int|
                0 <= x < old(self).spec_len() ==> final(self).root(x) == (if old(self).root(x) == old(
                    self,
                ).root(a as int) || old(self).root(x) == old(self).root(b as int) {
                    r as int
                } else {
                    old(self).root(x)
                }),
    {
        proof {
            lemma_root_of(old(self).d@, old(self).depth@, a as int);
            lemma_root_of(old(self).d@, old(self).depth@, b as int);
        }
        let ra = self.find(a);
        let rb = self.find(b);
        if ra == rb {
            return ra;
        }
        let ghost s1 = *self;
        proof {
            lemma_root_of(s1.d@, s1.depth@, ra as int);
            lemma_root_of(s1.d@, s1.depth@, rb as int);
            assert(s1.root(ra as int) == ra);
            assert(s1.root(rb as int) == rb);
            assert(s1.members(ra as int) =~= old(self).members(ra as int));
            assert(s1.members(rb as int) =~= old(self).members(rb as int));
            s1.lemma_finite(ra as int);
            s1.lemma_finite(rb as int);
            assert(s1.members(ra as int).disjoint(s1.members(rb as int)));
            vstd::set_lib::lemma_set_disjoint_lens(s1.members(ra as int), s1.members(rb as int));
            let both = s1.members(ra as int) + s1.members(rb as int);
            let all = vstd::set_lib::set_int_range(0, s1.spec_len() as int);
            vstd::set_lib::lemma_int_range(0, s1.spec_len() as int);
            assert(both.subset_of(all));
            vstd::set_lib::lemma_len_subset(both, all);
            assert(s1.roots().contains(rb as int));
            assert(s1.roots().contains(ra as int));
            vstd::set::axiom_set_remove_len(s1.roots(), ra as int);
            vstd::set::axiom_set_remove_len(s1.roots(), rb as int);
        }
        self.c -= 1;
        let total = self.d[ra] + self.d[rb];
        let (w, l) = if self.d[ra] < self.d[rb] {
            (ra, rb)
        } else {
            (rb, ra)
        };
        self.d[w] = total;
        self.d[l] = w as isize;
        proof {
            self.depth = Ghost(merged_depth(s1.d@, s1.depth@, w as int, l as int));
            assert(self.d@ =~= s1.d@.update(w as int, total).update(l as int, w as isize));
            lemma_merge(s1.d@, s1.depth@, w as int, l as int, total, 0);
            assert forall|x: int| 0 <= x < s1.spec_len() implies self.root(x) == (if s1.root(x)
                == l {
                w as int
            } else {
                s1.root(x)
            }) by {
                lemma_merge(s1.d@, s1.depth@, w as int, l as int, total, x);
            }
            assert(self.roots() =~= s1.roots().remove(l as int)) by {
                assert forall|x: int| self.roots().contains(x) == s1.roots().remove(
                    l as int,
                ).contains(x) by {
                    if 0 <= x < s1.spec_len() {
                        lemma_root_of(s1.d@, s1.depth@, x);
                    }
                }
            }
            assert forall|q: int| 0 <= q < self.d@.len() && self.d@[q] < 0 implies -self.d@[q] == (
            #[trigger] self.members(q)).len() by {
                lemma_root_of(s1.d@, s1.depth@, q);
                if q == w {
                    assert(self.members(q) =~= s1.members(w as int) + s1.members(l as int));
                    assert((s1.members(w as int) + s1.members(l as int)).len() == s1.members(
                        ra as int,
                    ).len() + s1.members(rb as int).len()) by {
                        assert(s1.members(w as int) + s1.members(l as int) =~= s1.members(ra as int)
                            + s1.members(rb as int));
                    }
                } else {
                    assert(s1.d@[q] < 0);
                    assert(self.members(q) =~= s1.members(q));
                }
            }
        }
        w
    }

    /// Whether `a` and `b` are in the same set.
    pub fn same(&mut self, a: usize, b: usize) -> (s: bool)
        requires
            old(self).wf(),
            a < old(self).spec_len(),
            b < old(self).spec_len(),
        ensures
            final(self).wf(),
            s == (old(self).root(a as int) == old(self).root(b as int)),
            final(self).spec_len() == old(self).spec_len(),
            forall|x: int| 0 <= x < old(self).spec_len() ==> final(self).root(x) == old(self).root(x),
    {
        let ra = self.find(a);
        let rb = self.find(b);
        ra == rb
    }

    /// Whether `a` and `b` are in the same set, found without changing
    /// anything.
    pub fn same_imu(&self, a: usize, b: usize) -> (s: bool)
        requires
            self.wf(),
            a < self.spec_len(),
            b < self.spec_len(),
        ensures
            s == (self.root(a as int) == self.root(b as int)),
    {
        self.find_imu(a) == self.find_imu(b)
    }

    /// The size of the set that holds `a`.
    pub fn size(&mut self, a: usize) -> (n: usize)
        requires
            old(self).wf(),
            a < old(self).spec_len(),
        ensures
            final(self).wf(),
            n == old(self).members(old(self).root(a as int)).len(),
            final(self).spec_len() == old(self).spec_len(),
            forall|x: int| 0 <= x < old(self).spec_len() ==> final(self).root(x) == old(self).root(x),
    {
        let r = self.find(a);
        proof {
            lemma_root_of(old(self).d@, old(self).depth@, a as int);
            lemma_root_of(self.d@, self.depth@, r as int);
            assert(self.root(r as int) == r);
            assert(self.members(r as int) =~= old(self).members(r as int));
        }
        (-self.d[r]) as usize
    }

    /// The size of the set that holds `a`, found without changing anything.
    pub fn size_imu(&self, a: usize) -> (n: usize)
        requires
            self.wf(),
            a < self.spec_len(),
        ensures
            n == self.members(self.root(a as int)).len(),
    {
        let r = self.find_imu(a);
        proof {
            lemma_root_of(self.d@, self.depth@, a as int);
        }
        (-self.d[r]) as usize
    }

    /// The nodes below `upto` that are in the set of the root `r`, without
    /// `r` itself, in ascending order.
    pub open spec fn followers(&self, r: int, upto: nat) -> Seq<usize>
        decreases upto,
    {
        if upto == 0 {
            Seq::empty()
        } else {
            let rest = self.followers(r, (upto - 1) as nat);
            if self.root(upto - 1) == r && upto - 1 != r {
                rest.push((upto - 1) as usize)
            } else {
                rest
            }
        }
    }

    /// The set of the root `r` as a list: `r` first, then the other nodes
    /// in ascending order.
    pub open spec fn group(&self, r: int) -> Seq<usize> {
        seq![r as usize] + self.followers(r, self.spec_len())
    }

    /// The groups of the roots below `upto`, the roots in ascending order.
    pub open spec fn spec_groups(&self, upto: nat) -> Seq<Seq<usize>>
        decreases upto,
    {
        if upto == 0 {
            Seq::empty()
        } else {
            let rest = self.spec_groups((upto - 1) as nat);
            if self.root(upto - 1) == upto - 1 {
                rest.push(self.group(upto - 1))
            } else {
                rest
            }
        }
    }

    /// There are as many groups as sets.
    pub proof fn lemma_groups_len(&self, upto: nat)
        requires
            self.wf(),
            upto <= self.spec_len(),
        ensures
            self.spec_groups(upto).len() == self.roots().filter(|x: int| x < upto).len(),
            upto == self.spec_len() ==> self.spec_groups(upto).len() == self.roots().len(),
        decreases upto,
    {
        self.lemma_finite(0);
        let below = self.roots().filter(|x: int| x < upto);
        if upto == 0 {
            assert(below =~= Set::empty());
        } else {
            self.lemma_groups_len((upto - 1) as nat);
            let before = self.roots().filter(|x: int| x < upto - 1);
            assert(before.subset_of(self.roots()));
            vstd::set_lib::lemma_set_subset_finite(self.roots(), before);
            if self.root(upto - 1) == upto - 1 {
                assert(below =~= before.insert(upto - 1));
            } else {
                assert(below =~= before);
            }
        }
        if upto == self.spec_len() {
            assert(below =~= self.roots());
        }
    }

    /// The sets, each as a list with its root first and the other nodes in
    /// ascending order, the lists in the ascending order of their roots.
    /// Nothing changes.
    pub fn groups_imu(&self) -> (g: Vec<Vec<usize>>)
        requires
            self.wf(),
        ensures
            g@.len() == self.spec_groups(self.spec_len()).len(),
            forall|k: int| 0 <= k < g@.len() ==> (#[trigger] g@[k])@ == self.spec_groups(self.spec_len())[k],
    {
        let n = self.d.len();
        let mut v: Vec<Vec<usize>> = Vec::new();
        let mut i: usize = 0;
        while i < n
            invariant
                i <= n,
                n == self.d@.len(),
                links_wf(self.d@, self.depth@),
                v@.len() == i,
                forall|r: int|
                    0 <= r < i ==> (#[trigger] v@[r])@ == (if self.root(r) == r {
                        seq![r as usize]
                    } else {
                        Seq::<usize>::empty()
                    }),
            decreases n - i,
        {
            proof {
                lemma_root_of(self.d@, self.depth@, i as int);
            }
            let mut e: Vec<usize> = Vec::new();
            if self.d[i] < 0 {
                e.push(i);
            }
            assert(e@ =~= (if self.root(i as int) == i {
                seq![i]
            } else {
                Seq::<usize>::empty()
            }));
            v.push(e);
            i += 1;
        }
        i = 0;
        while i < n
            invariant
                i <= n,
                n == self.d@.len(),
                self.wf(),
                v@.len() == n,
                forall|r: int|
                    0 <= r < n ==> (#[trigger] v@[r])@ == (if self.root(r) == r {
                        seq![r as usize] + self.followers(r, i as nat)
                    } else {
                        Seq::<usize>::empty()
                    }),
            decreases n - i,
        {
            proof {
                lemma_root_of(self.d@, self.depth@, i as int);
            }
            let ghost before = v@;
            if self.d[i] >= 0 {
                let r = self.find_imu(i);
                v[r].push(i);
                assert(v@[r as int]@ =~= seq![r] + self.followers(r as int, (i + 1) as nat));
            }
            assert forall|r: int| 0 <= r < n implies (#[trigger] v@[r])@ == (if self.root(r) == r {
                seq![r as usize] + self.followers(r, (i + 1) as nat)
            } else {
                Seq::<usize>::empty()
            }) by {
                if self.d@[i as int] >= 0 && r == self.root(i as int) {
                } else {
                    assert(v@[r] == before[r]);
                }
            }
            i += 1;
        }
        let mut g: Vec<Vec<usize>> = Vec::new();
        i = 0;
        while i < n
            invariant
                i <= n,
                n == self.d@.len(),
                self.wf(),
                v@.len() == n,
                forall|r: int|
                    i <= r < n ==> (#[trigger] v@[r])@ == (if self.root(r) == r {
                        self.group(r)
                    } else {
                        Seq::<usize>::empty()
                    }),
                g@.len() == self.spec_groups(i as nat).len(),
                forall|k: int| 0 <= k < g@.len() ==> (#[trigger] g@[k])@ == self.spec_groups(i as nat)[k],
            decreases n - i,
        {
            let mut e: Vec<usize> = Vec::new();
            let ghost before = v@;
            std::mem::swap(&mut e, &mut v[i]);
            assert forall|r: int| i + 1 <= r < n implies (#[trigger] v@[r]) == before[r] by {}
            if e.len() > 0 {
                let ghost taken = g@;
                g.push(e);
                assert forall|k: int| 0 <= k < g@.len() implies (#[trigger] g@[k])@
                    == self.spec_groups((i + 1) as nat)[k] by {
                    if k < taken.len() {
                        assert(g@[k] == taken[k]);
                    }
                }
            }
            i += 1;
        }
        g
    }

    /// As `groups_imu`; on the way it hangs every node directly under its
    /// root. No set changes.
    pub fn groups(&mut self) -> (g: Vec<Vec<usize>>)
        requires
            old(self).wf(),
        ensures
            final(self).wf(),
            final(self).spec_len() == old(self).spec_len(),
            forall|x: int| 0 <= x < old(self).spec_len() ==> final(self).root(x) == old(self).root(x),
            g@.len() == old(self).spec_groups(old(self).spec_len()).len(),
            forall|k: int|
                0 <= k < g@.len() ==> (#[trigger] g@[k])@ == old(self).spec_groups(
                    old(self).spec_len(),
                )[k],
    {
        let n = self.d.len();
        let mut i: usize = 0;
        while i < n
            invariant
                i <= n,
                n == self.d@.len(),
                self.wf(),
                self.spec_len() == old(self).spec_len(),
                forall|x: int| 0 <= x < old(self).spec_len() ==> self.root(x) == old(self).root(x),
            decreases n - i,
        {
            if self.d[i] >= 0 {
                let _ = self.find(i);
            }
            i += 1;
        }
        proof {
            self.lemma_same_groups(*old(self), n as nat);
        }
        self.groups_imu()
    }

    /// Two structures with the same roots have the same groups.
    proof fn lemma_same_groups(&self, other: Self, upto: nat)
        requires
            self.spec_len() == other.spec_len(),
            upto <= self.spec_len(),
            forall|x: int| 0 <= x < self.spec_len() ==> self.root(x) == other.root(x),
        ensures
            self.spec_groups(upto) == other.spec_groups(upto),
        decreases upto,
    {
        if upto > 0 {
            self.lemma_same_groups(other, (upto - 1) as nat);
            self.lemma_same_followers(other, upto - 1, self.spec_len());
        }
    }

    proof fn lemma_same_followers(&self, other: Self, r: int, upto: nat)
        requires
            self.spec_len() == other.spec_len(),
            upto <= self.spec_len(),
            forall|x: int| 0 <= x < self.spec_len() ==> self.root(x) == other.root(x),
        ensures
            self.followers(r, upto) == other.followers(r, upto),
        decreases upto,
    {
        if upto > 0 {
            self.lemma_same_followers(other, r, (upto - 1) as nat);
        }
    }
}

} // verus!
