//! Longest chains: the longest subsequence in which each element is
//! related to the next, as in a longest increasing subsequence.

use vstd::prelude::*;

verus! {

/// Whether `f` relates `a` to `b`.
pub open spec fn holds<T, F: Fn(&T, &T) -> bool>(f: F, a: T, b: T) -> bool {
    call_ensures(f, (&a, &b), true)
}

/// What the relation has to meet: it answers for every pair, always in
/// the same way; it is transitive; and what is related to `c` without
/// being related to `b` has `b` related to `c` too.
#[verifier::opaque]
pub open spec fn is_order<T, F: Fn(&T, &T) -> bool>(f: F) -> bool {
    &&& forall|a: T, b: T| #[trigger] call_requires(f, (&a, &b))
    &&& forall|a: T, b: T| !(#[trigger] call_ensures(f, (&a, &b), true) && call_ensures(f, (&a, &b), false))
    &&& forall|a: T, b: T, c: T|
        #![trigger holds(f, a, b), holds(f, b, c)]
        holds(f, a, b) && holds(f, b, c) ==> holds(f, a, c)
    &&& forall|a: T, b: T, c: T|
        #![trigger holds(f, a, b), holds(f, a, c)]
        !holds(f, a, b) && holds(f, a, c) ==> holds(f, b, c)
}

/// Whether `c` lists positions of `s` in ascending order, each element
/// related to the next one listed.
#[verifier::opaque]
pub open spec fn is_chain<T, F: Fn(&T, &T) -> bool>(s: Seq<T>, f: F, c: Seq<usize>) -> bool {
    &&& forall|k: int| 0 <= k < c.len() ==> (#[trigger] c[k]) < s.len()
    &&& forall|k: int|
        0 <= k < c.len() - 1 ==> (#[trigger] c[k]) < c[k + 1] && holds(f, s[c[k] as int], s[c[k + 1] as int])
}

/// Whatever can follow `s[a]` in a chain can follow `s[b]` too.
#[verifier::opaque]
spec fn dominates<T, F: Fn(&T, &T) -> bool>(s: Seq<T>, f: F, a: int, b: int) -> bool {
    forall|x: T| #[trigger] holds(f, s[a], x) ==> holds(f, s[b], x)
}

proof fn lemma_transitive<T, F: Fn(&T, &T) -> bool>(f: F, a: T, b: T, c: T)
    requires
        is_order(f),
        holds(f, a, b),
        holds(f, b, c),
    ensures
        holds(f, a, c),
{
    reveal(is_order);
}

proof fn lemma_beside<T, F: Fn(&T, &T) -> bool>(f: F, a: T, b: T, c: T)
    requires
        is_order(f),
        !holds(f, a, b),
        holds(f, a, c),
    ensures
        holds(f, b, c),
{
    reveal(is_order);
}

proof fn lemma_answer<T, F: Fn(&T, &T) -> bool>(f: F, a: T, b: T, r: bool)
    requires
        is_order(f),
        call_ensures(f, (&a, &b), r),
    ensures
        r == holds(f, a, b),
{
    reveal(is_order);
}

/// The elements of a chain are positions of the sequence.
proof fn lemma_chain_last<T, F: Fn(&T, &T) -> bool>(s: Seq<T>, f: F, c: Seq<usize>)
    requires
        is_chain(s, f, c),
        c.len() >= 1,
    ensures
        c.last() < s.len(),
{
    reveal(is_chain);
}

/// A chain with one more element behind its last.
proof fn lemma_chain_push<T, F: Fn(&T, &T) -> bool>(s: Seq<T>, f: F, c: Seq<usize>, i: usize)
    requires
        c.len() > 0 ==> is_chain(s, f, c),
        i < s.len(),
        c.len() > 0 ==> c.last() < i && holds(f, s[c.last() as int], s[i as int]),
    ensures
        is_chain(s, f, c.push(i)),
{
    reveal(is_chain);
    let g = c.push(i);
    assert forall|k: int| 0 <= k < g.len() implies (#[trigger] g[k]) < s.len() by {
        if k < c.len() {
            assert(g[k] == c[k]);
        }
    }
    assert forall|k: int| 0 <= k < g.len() - 1 implies (#[trigger] g[k]) < g[k + 1] && holds(
        f,
        s[g[k] as int],
        s[g[k + 1] as int],
    ) by {
        assert(g[k] == c[k]);
        if k < c.len() - 1 {
            assert(g[k + 1] == c[k + 1]);
        }
    }
}

/// A chain without its last element.
proof fn lemma_chain_drop<T, F: Fn(&T, &T) -> bool>(s: Seq<T>, f: F, c: Seq<usize>)
    requires
        is_chain(s, f, c),
        c.len() >= 2,
    ensures
        is_chain(s, f, c.drop_last()),
        c.drop_last().last() == c[c.len() - 2],
        c[c.len() - 2] < c.last(),
        holds(f, s[c[c.len() - 2] as int], s[c.last() as int]),
{
    reveal(is_chain);
    let p = c.drop_last();
    let q = c.len() as int;
    assert forall|k: int| 0 <= k < p.len() implies (#[trigger] p[k]) < s.len() by {
        assert(p[k] == c[k]);
    }
    assert forall|k: int| 0 <= k < p.len() - 1 implies (#[trigger] p[k]) < p[k + 1] && holds(
        f,
        s[p[k] as int],
        s[p[k + 1] as int],
    ) by {
        assert(p[k] == c[k]);
        assert(p[k + 1] == c[k + 1]);
    }
    assert(c[q - 2] < c[q - 2 + 1]);
}

/// The chain of no elements.
proof fn lemma_chain_empty<T, F: Fn(&T, &T) -> bool>(s: Seq<T>, f: F)
    ensures
        is_chain(s, f, Seq::<usize>::empty()),
{
    reveal(is_chain);
}

/// `d[m]` ends the chain `chains[m]` of `m + 1` elements, all before `i`.
spec fn tails_chains<T, F: Fn(&T, &T) -> bool>(
    s: Seq<T>,
    f: F,
    d: Seq<usize>,
    chains: Seq<Seq<usize>>,
    i: int,
) -> bool {
    &&& d.len() == chains.len()
    &&& forall|m: int|
        0 <= m < d.len() ==> {
            &&& (#[trigger] d[m]) < i
            &&& d[m] < s.len()
            &&& is_chain(s, f, chains[m])
            &&& chains[m].len() == m + 1
            &&& chains[m].last() == d[m]
        }
}

/// Each tail is related to the next.
spec fn tails_linked<T, F: Fn(&T, &T) -> bool>(s: Seq<T>, f: F, d: Seq<usize>) -> bool {
    forall|m: int| 0 <= m < d.len() - 1 ==> holds(f, s[(#[trigger] d[m]) as int], s[d[m + 1] as int])
}

/// No chain among the first `i` elements is longer than there are tails,
/// or ends better than the tail of its length.
#[verifier::opaque]
spec fn tails_best<T, F: Fn(&T, &T) -> bool>(s: Seq<T>, f: F, d: Seq<usize>, i: int) -> bool {
    forall|c: Seq<usize>|
        #![trigger is_chain(s, f, c)]
        is_chain(s, f, c) && c.len() >= 1 && c.last() < i ==> c.len() <= d.len() && dominates(
            s,
            f,
            c.last() as int,
            d[c.len() - 1] as int,
        )
}

proof fn lemma_best<T, F: Fn(&T, &T) -> bool>(s: Seq<T>, f: F, d: Seq<usize>, i: int, c: Seq<usize>)
    requires
        tails_best(s, f, d, i),
        is_chain(s, f, c),
        c.len() >= 1,
        c.last() < i,
    ensures
        c.len() <= d.len(),
        dominates(s, f, c.last() as int, d[c.len() - 1] as int),
{
    reveal(tails_best);
}

/// Up to the place that the search finds, every tail is related to the new
/// element, and from there on none is.
proof fn lemma_place<T, F: Fn(&T, &T) -> bool>(s: Seq<T>, f: F, d: Seq<usize>, v: T, ok: int, m: int)
    requires
        is_order(f),
        tails_linked(s, f, d),
        0 <= ok <= d.len(),
        ok == 0 || holds(f, s[d[ok - 1] as int], v),
        ok == d.len() || !holds(f, s[d[ok] as int], v),
        0 <= m < d.len(),
    ensures
        holds(f, s[d[m] as int], v) == (m < ok),
    decreases
            (if m < ok {
                ok - m
            } else {
                m - ok
            }),
{
    if m < ok - 1 {
        lemma_place(s, f, d, v, ok, m + 1);
        assert(holds(f, s[d[m] as int], s[d[m + 1] as int]));
        lemma_transitive(f, s[d[m] as int], s[d[m + 1] as int], v);
    } else if m > ok {
        lemma_place(s, f, d, v, ok, m - 1);
        assert(holds(f, s[d[m - 1] as int], s[d[m] as int]));
        if holds(f, s[d[m] as int], v) {
            lemma_transitive(f, s[d[m - 1] as int], s[d[m] as int], v);
        }
    }
}

/// The tails with the element at `i` placed at `ok`.
spec fn placed(d: Seq<usize>, i: usize, ok: int) -> Seq<usize> {
    if ok == d.len() {
        d.push(i)
    } else {
        d.update(ok, i)
    }
}

/// The chain that ends at the element placed at `ok`.
spec fn grown(chains: Seq<Seq<usize>>, i: usize, ok: int) -> Seq<usize> {
    if ok == 0 {
        Seq::<usize>::empty().push(i)
    } else {
        chains[ok - 1].push(i)
    }
}

/// The chains with the one that ends at the element placed at `ok`.
spec fn stored(chains: Seq<Seq<usize>>, i: usize, ok: int) -> Seq<Seq<usize>> {
    if ok == chains.len() {
        chains.push(grown(chains, i, ok))
    } else {
        chains.update(ok, grown(chains, i, ok))
    }
}

proof fn lemma_step_chains<T, F: Fn(&T, &T) -> bool>(
    s: Seq<T>,
    f: F,
    d: Seq<usize>,
    chains: Seq<Seq<usize>>,
    i: usize,
    ok: int,
)
    requires
        tails_chains(s, f, d, chains, i as int),
        i < s.len(),
        0 <= ok <= d.len(),
        ok == 0 || holds(f, s[d[ok - 1] as int], s[i as int]),
    ensures
        tails_chains(s, f, placed(d, i, ok), stored(chains, i, ok), i + 1),
        is_chain(s, f, grown(chains, i, ok)),
        grown(chains, i, ok).len() == ok + 1,
        grown(chains, i, ok).last() == i,
{
    let d2 = placed(d, i, ok);
    let chains2 = stored(chains, i, ok);
    if ok > 0 {
        assert(d[ok - 1] < i);
        lemma_chain_push(s, f, chains[ok - 1], i);
    } else {
        lemma_chain_push(s, f, Seq::<usize>::empty(), i);
    }
    assert forall|m: int| 0 <= m < d2.len() implies {
        &&& (#[trigger] d2[m]) < i + 1
        &&& d2[m] < s.len()
        &&& is_chain(s, f, chains2[m])
        &&& chains2[m].len() == m + 1
        &&& chains2[m].last() == d2[m]
    } by {
        if m != ok {
            assert(d2[m] == d[m]);
            assert(chains2[m] == chains[m]);
        }
    }
}

proof fn lemma_step_linked<T, F: Fn(&T, &T) -> bool>(
    s: Seq<T>,
    f: F,
    d: Seq<usize>,
    i: usize,
    ok: int,
)
    requires
        is_order(f),
        tails_linked(s, f, d),
        0 <= ok <= d.len(),
        ok == 0 || holds(f, s[d[ok - 1] as int], s[i as int]),
        ok == d.len() || !holds(f, s[d[ok] as int], s[i as int]),
    ensures
        tails_linked(s, f, placed(d, i, ok)),
{
    let d2 = placed(d, i, ok);
    assert forall|m: int| 0 <= m < d2.len() - 1 implies holds(
        f,
        s[(#[trigger] d2[m]) as int],
        s[d2[m + 1] as int],
    ) by {
        if m == ok {
            assert(holds(f, s[d[ok] as int], s[d[ok + 1] as int]));
            lemma_beside(f, s[d[ok] as int], s[i as int], s[d[ok + 1] as int]);
        } else if m + 1 == ok {
        } else {
            assert(holds(f, s[d[m] as int], s[d[m + 1] as int]));
        }
    }
}

/// What can follow the new element can follow a tail that is related to it.
proof fn lemma_dominated_by_tail<T, F: Fn(&T, &T) -> bool>(s: Seq<T>, f: F, i: int, t: int)
    requires
        is_order(f),
        holds(f, s[t], s[i]),
    ensures
        dominates(s, f, i, t),
{
    reveal(dominates);
    assert forall|x: T| #[trigger] holds(f, s[i], x) implies holds(f, s[t], x) by {
        lemma_transitive(f, s[t], s[i], x);
    }
}

/// What can follow the end of a chain can follow the new element, where it
/// takes the place of a tail that the chain's end is no better than.
proof fn lemma_dominated_by_new<T, F: Fn(&T, &T) -> bool>(s: Seq<T>, f: F, e: int, t: int, i: int)
    requires
        is_order(f),
        dominates(s, f, e, t),
        !holds(f, s[t], s[i]),
    ensures
        dominates(s, f, e, i),
{
    reveal(dominates);
    assert forall|x: T| #[trigger] holds(f, s[e], x) implies holds(f, s[i], x) by {
        assert(holds(f, s[t], x));
        lemma_beside(f, s[t], s[i], x);
    }
}

proof fn lemma_dominates<T, F: Fn(&T, &T) -> bool>(s: Seq<T>, f: F, a: int, b: int, x: T)
    requires
        dominates(s, f, a, b),
        holds(f, s[a], x),
    ensures
        holds(f, s[b], x),
{
    reveal(dominates);
}

proof fn lemma_dominates_self<T, F: Fn(&T, &T) -> bool>(s: Seq<T>, f: F, a: int)
    ensures
        dominates(s, f, a, a),
{
    reveal(dominates);
}

/// One chain after the step.
proof fn lemma_step_one<T, F: Fn(&T, &T) -> bool>(
    s: Seq<T>,
    f: F,
    d: Seq<usize>,
    i: usize,
    ok: int,
    c: Seq<usize>,
)
    requires
        is_order(f),
        tails_linked(s, f, d),
        tails_best(s, f, d, i as int),
        i < s.len(),
        0 <= ok <= d.len(),
        ok == 0 || holds(f, s[d[ok - 1] as int], s[i as int]),
        ok == d.len() || !holds(f, s[d[ok] as int], s[i as int]),
        is_chain(s, f, c),
        c.len() >= 1,
        c.last() < i + 1,
    ensures
        c.len() <= placed(d, i, ok).len(),
        dominates(s, f, c.last() as int, placed(d, i, ok)[c.len() - 1] as int),
{
    let v = s[i as int];
    let d2 = placed(d, i, ok);
    let q = c.len() as int;
    if c.last() == i {
        if q >= 2 {
            let p = c.drop_last();
            lemma_chain_drop(s, f, c);
            lemma_best(s, f, d, i as int, p);
            lemma_dominates(s, f, p.last() as int, d[q - 2] as int, v);
            lemma_place(s, f, d, v, ok, q - 2);
        }
        if q - 1 < ok {
            lemma_place(s, f, d, v, ok, q - 1);
            lemma_dominated_by_tail(s, f, i as int, d[q - 1] as int);
            assert(d2[q - 1] == d[q - 1]);
        } else {
            assert(q - 1 == ok);
            assert(d2[ok] == i);
            lemma_dominates_self(s, f, i as int);
        }
    } else {
        lemma_best(s, f, d, i as int, c);
        if q - 1 == ok {
            lemma_dominated_by_new(s, f, c.last() as int, d[ok] as int, i as int);
            assert(d2[ok] == i);
        } else {
            assert(d2[q - 1] == d[q - 1]);
        }
    }
}

proof fn lemma_step_best<T, F: Fn(&T, &T) -> bool>(
    s: Seq<T>,
    f: F,
    d: Seq<usize>,
    i: usize,
    ok: int,
)
    requires
        is_order(f),
        tails_linked(s, f, d),
        tails_best(s, f, d, i as int),
        i < s.len(),
        0 <= ok <= d.len(),
        ok == 0 || holds(f, s[d[ok - 1] as int], s[i as int]),
        ok == d.len() || !holds(f, s[d[ok] as int], s[i as int]),
    ensures
        tails_best(s, f, placed(d, i, ok), i + 1),
{
    reveal(tails_best);
    let d2 = placed(d, i, ok);
    assert forall|c: Seq<usize>|
        #![trigger is_chain(s, f, c)]
        is_chain(s, f, c) && c.len() >= 1 && c.last() < i + 1 implies c.len() <= d2.len() && dominates(
        s,
        f,
        c.last() as int,
        d2[c.len() - 1] as int,
    ) by {
        lemma_step_one(s, f, d, i, ok, c);
    }
}

/// Once every element is placed, no chain is longer than there are tails.
proof fn lemma_longest<T, F: Fn(&T, &T) -> bool>(s: Seq<T>, f: F, d: Seq<usize>, c: Seq<usize>)
    requires
        tails_best(s, f, d, s.len() as int),
        is_chain(s, f, c),
    ensures
        c.len() <= d.len(),
{
    if c.len() > 0 {
        lemma_chain_last(s, f, c);
        lemma_best(s, f, d, s.len() as int, c);
    }
}

proof fn lemma_best_start<T, F: Fn(&T, &T) -> bool>(s: Seq<T>, f: F)
    ensures
        tails_best(s, f, Seq::<usize>::empty(), 0),
{
    reveal(tails_best);
}

/// Among the tails, the number of those that are related to the element
/// at `i`: they come first.
fn place<T, F: Fn(&T, &T) -> bool>(slice: &[T], f: &F, d: &Vec<usize>, i: usize) -> (ok: usize)
    requires
        is_order(*f),
        i < slice@.len(),
        d@.len() <= i,
        forall|m: int| 0 <= m < d@.len() ==> (#[trigger] d@[m]) < slice@.len(),
    ensures
        ok <= d@.len(),
        ok == 0 || holds(*f, slice@[d@[ok - 1] as int], slice@[i as int]),
        ok == d@.len() || !holds(*f, slice@[d@[ok as int] as int], slice@[i as int]),
{
    let n = slice.len();
    let mut ok: usize = 0;
    let mut ng: usize = d.len() + 1;
    while ng - ok > 1
        invariant
            is_order(*f),
            i < slice@.len(),
            forall|m: int| 0 <= m < d@.len() ==> (#[trigger] d@[m]) < slice@.len(),
            ok < ng <= d@.len() + 1,
            ok == 0 || holds(*f, slice@[d@[ok - 1] as int], slice@[i as int]),
            ng == d@.len() + 1 || !holds(*f, slice@[d@[ng - 1] as int], slice@[i as int]),
        decreases ng - ok,
    {
        let mid = ok + (ng - ok) / 2;
        let a = &slice[d[mid - 1]];
        let b = &slice[i];
        assert(call_requires(*f, (a, b))) by {
            reveal(is_order);
        }
        let related = f(a, b);
        proof {
            lemma_answer(*f, *a, *b, related);
        }
        if related {
            ok = mid;
        } else {
            ng = mid;
        }
    }
    ok
}

/// The length of a longest chain in `slice`.
pub fn lis_len<T, F: Fn(&T, &T) -> bool>(slice: &[T], f: F) -> (n: usize)
    requires
        is_order(f),
    ensures
        exists|c: Seq<usize>| #[trigger] is_chain(slice@, f, c) && c.len() == n,
        forall|c: Seq<usize>| #[trigger] is_chain(slice@, f, c) ==> c.len() <= n,
{
    let mut d: Vec<usize> = Vec::new();
    let ghost mut chains: Seq<Seq<usize>> = Seq::empty();
    let mut i: usize = 0;
    proof {
        lemma_best_start(slice@, f);
    }
    while i < slice.len()
        invariant
            is_order(f),
            i <= slice@.len(),
            d@.len() <= i,
            tails_chains(slice@, f, d@, chains, i as int),
            tails_linked(slice@, f, d@),
            tails_best(slice@, f, d@, i as int),
        decreases slice@.len() - i,
    {
        let ok = place(slice, &f, &d, i);
        proof {
            lemma_step_chains(slice@, f, d@, chains, i, ok as int);
            lemma_step_linked(slice@, f, d@, i, ok as int);
            lemma_step_best(slice@, f, d@, i, ok as int);
            chains = stored(chains, i, ok as int);
        }
        let ghost before = d@;
        if ok == d.len() {
            d.push(i);
        } else {
            d[ok] = i;
        }
        assert(d@ == placed(before, i, ok as int));
        i += 1;
    }
    proof {
        let s = slice@;
        if d@.len() > 0 {
            let tail = d@[d@.len() - 1];
            assert(is_chain(s, f, chains[d@.len() - 1]));
        } else {
            lemma_chain_empty(s, f);
        }
        assert forall|c: Seq<usize>| #[trigger] is_chain(s, f, c) implies c.len() <= d@.len() by {
            lemma_longest(s, f, d@, c);
        }
    }
    d.len()
}

/// What holds of the links once the first `i` elements are placed: `at[j]`
/// is a chain that ends at `j`, and `r[j]` is the element before `j` in it,
/// or `j` itself where there is none.
spec fn links_inv<T, F: Fn(&T, &T) -> bool>(
    s: Seq<T>,
    f: F,
    r: Seq<usize>,
    at: Seq<Seq<usize>>,
    i: int,
) -> bool {
    &&& r.len() == i
    &&& at.len() == i
    &&& forall|j: int|
        0 <= j < i ==> {
            &&& is_chain(s, f, #[trigger] at[j])
            &&& at[j].len() >= 1
            &&& at[j].last() == j
            &&& at[j].len() == 1 ==> r[j] == j
            &&& at[j].len() >= 2 ==> r[j] < j && r[j] == at[j][at[j].len() - 2] && at[r[j] as int]
                == at[j].drop_last()
        }
}

/// The links with the new element's.
proof fn lemma_step_links<T, F: Fn(&T, &T) -> bool>(
    s: Seq<T>,
    f: F,
    d: Seq<usize>,
    chains: Seq<Seq<usize>>,
    r: Seq<usize>,
    at: Seq<Seq<usize>>,
    i: usize,
    ok: int,
)
    requires
        tails_chains(s, f, d, chains, i as int),
        links_inv(s, f, r, at, i as int),
        forall|m: int| 0 <= m < d.len() ==> chains[m] == at[(#[trigger] d[m]) as int],
        i < s.len(),
        0 <= ok <= d.len(),
        ok == 0 || holds(f, s[d[ok - 1] as int], s[i as int]),
    ensures
        links_inv(
            s,
            f,
            r.push(
                if ok == 0 {
                    i
                } else {
                    d[ok - 1]
                },
            ),
            at.push(grown(chains, i, ok)),
            i + 1,
        ),
        forall|m: int|
            0 <= m < placed(d, i, ok).len() ==> stored(chains, i, ok)[m] == at.push(
                grown(chains, i, ok),
            )[(#[trigger] placed(d, i, ok)[m]) as int],
{
    let chain = grown(chains, i, ok);
    let r2 = r.push(
        if ok == 0 {
            i
        } else {
            d[ok - 1]
        },
    );
    let at2 = at.push(chain);
    let d2 = placed(d, i, ok);
    let chains2 = stored(chains, i, ok);
    lemma_step_chains(s, f, d, chains, i, ok);
    assert forall|j: int| 0 <= j < i + 1 implies {
        &&& is_chain(s, f, #[trigger] at2[j])
        &&& at2[j].len() >= 1
        &&& at2[j].last() == j
        &&& at2[j].len() == 1 ==> r2[j] == j
        &&& at2[j].len() >= 2 ==> r2[j] < j && r2[j] == at2[j][at2[j].len() - 2] && at2[r2[j] as int]
            == at2[j].drop_last()
    } by {
        if j < i {
            assert(at2[j] == at[j]);
            assert(r2[j] == r[j]);
            if at[j].len() >= 2 {
                assert(at2[r[j] as int] == at[r[j] as int]);
            }
        } else {
            if ok > 0 {
                let before = chains[ok - 1];
                assert(d[ok - 1] < i);
                assert(chain.drop_last() =~= before);
                assert(before == at[d[ok - 1] as int]);
                assert(chain[chain.len() - 2] == before.last());
                assert(at2[d[ok - 1] as int] == at[d[ok - 1] as int]);
            }
        }
    }
    assert forall|m: int| 0 <= m < d2.len() implies chains2[m] == at2[(#[trigger] d2[m]) as int] by {
        if m != ok {
            assert(d2[m] == d[m]);
            assert(chains2[m] == chains[m]);
            assert(at2[d[m] as int] == at[d[m] as int]);
        }
    }
}

/// The positions of a longest chain in `slice`, in ascending order.
pub fn lis<T, F: Fn(&T, &T) -> bool>(slice: &[T], f: F) -> (k: Vec<usize>)
    requires
        is_order(f),
    ensures
        is_chain(slice@, f, k@),
        forall|c: Seq<usize>| #[trigger] is_chain(slice@, f, c) ==> c.len() <= k@.len(),
{
    if slice.len() == 0 {
        proof {
            lemma_chain_empty(slice@, f);
            assert forall|c: Seq<usize>| #[trigger] is_chain(slice@, f, c) implies c.len() <= 0 by {
                if c.len() > 0 {
                    lemma_chain_last(slice@, f, c);
                }
            }
        }
        return Vec::new();
    }
    let mut d: Vec<usize> = Vec::new();
    let mut r: Vec<usize> = Vec::new();
    let ghost mut chains: Seq<Seq<usize>> = Seq::empty();
    let ghost mut at: Seq<Seq<usize>> = Seq::empty();
    let mut i: usize = 0;
    proof {
        lemma_best_start(slice@, f);
    }
    while i < slice.len()
        invariant
            is_order(f),
            i <= slice@.len(),
            d@.len() <= i,
            i > 0 ==> d@.len() > 0,
            tails_chains(slice@, f, d@, chains, i as int),
            tails_linked(slice@, f, d@),
            tails_best(slice@, f, d@, i as int),
            links_inv(slice@, f, r@, at, i as int),
            forall|m: int| 0 <= m < d@.len() ==> chains[m] == at[(#[trigger] d@[m]) as int],
        decreases slice@.len() - i,
    {
        let ok = place(slice, &f, &d, i);
        proof {
            lemma_step_links(slice@, f, d@, chains, r@, at, i, ok as int);
            lemma_step_chains(slice@, f, d@, chains, i, ok as int);
            lemma_step_linked(slice@, f, d@, i, ok as int);
            lemma_step_best(slice@, f, d@, i, ok as int);
            at = at.push(grown(chains, i, ok as int));
            chains = stored(chains, i, ok as int);
        }
        let ghost before = d@;
        if ok == 0 {
            r.push(i);
        } else {
            r.push(d[ok - 1]);
        }
        if ok == d.len() {
            d.push(i);
        } else {
            d[ok] = i;
        }
        assert(d@ == placed(before, i, ok as int));
        i += 1;
    }
    let last = d.len() - 1;
    let mut g = d[last];
    let ghost full = chains[last as int];
    let ghost n = slice@.len();
    let mut back: Vec<usize> = Vec::new();
    back.push(g);
    assert(full == at[g as int]);
    assert(full.take(full.len() as int) =~= full);
    while g != r[g]
        invariant
            links_inv(slice@, f, r@, at, n as int),
            g < n,
            1 <= back@.len() <= full.len(),
            at[g as int] == full.take(full.len() - back@.len() + 1),
            forall|t: int| 0 <= t < back@.len() ==> back@[t] == full[full.len() - 1 - t],
        decreases at[g as int].len(),
    {
        let ghost here = at[g as int];
        let ghost taken = back@;
        assert(here.len() >= 2);
        g = r[g];
        back.push(g);
        proof {
            assert(at[g as int] == here.drop_last());
            assert(here.drop_last() =~= full.take(full.len() - back@.len() + 1));
            assert forall|t: int| 0 <= t < back@.len() implies back@[t] == full[full.len() - 1
                - t] by {
                if t < taken.len() {
                    assert(back@[t] == taken[t]);
                }
            }
        }
    }
    assert(back@.len() == full.len()) by {
        assert(at[g as int].len() == 1);
    }
    let mut k: Vec<usize> = Vec::new();
    while back.len() > 0
        invariant
            back@.len() + k@.len() == full.len(),
            forall|t: int| 0 <= t < back@.len() ==> back@[t] == full[full.len() - 1 - t],
            forall|t: int| 0 <= t < k@.len() ==> k@[t] == full[t],
        decreases back@.len(),
    {
        let ghost done = k@;
        let x = back.pop().unwrap();
        k.push(x);
        assert forall|t: int| 0 <= t < k@.len() implies k@[t] == full[t] by {
            if t < done.len() {
                assert(k@[t] == done[t]);
            }
        }
    }
    proof {
        let s = slice@;
        assert(k@ =~= full);
        assert forall|c: Seq<usize>| #[trigger] is_chain(s, f, c) implies c.len() <= k@.len() by {
            lemma_longest(s, f, d@, c);
        }
    }
    k
}

} // verus!
