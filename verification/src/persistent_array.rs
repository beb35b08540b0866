//! An array that is never changed: `set` returns a new array and leaves the
//! old one as it was, and the two share what they have in common.

use vstd::prelude::*;
use std::rc::Rc;
use vstd::arithmetic::power2::is_pow2;

verus! {

/// A node of the tree that holds the elements. The path to an element
/// follows the binary digits of its index, the lowest first.
#[derive(Clone, Debug)]
enum Node<T> {
    /// An element.
    Reaf(T),
    /// The elements whose next digit is 0, and those whose next digit is 1.
    Root(Rc<Node<T>>, Rc<Node<T>>),
}

/// The element that the digits of `i` lead to from `node`, if any.
spec fn lookup<T>(node: Node<T>, i: nat) -> Option<T>
    decreases node,
{
    match node {
        Node::Reaf(v) => if i == 0 {
            Some(v)
        } else {
            None
        },
        Node::Root(l, r) => if i % 2 == 0 {
            lookup(*l, i / 2)
        } else {
            lookup(*r, i / 2)
        },
    }
}

/// A second handle on a shared node.
///
/// Trusted: `Rc::clone` returns a pointer to the same allocation, so what
/// it points to is the same value.
#[verifier::external_body]
fn share<T>(node: &Rc<Node<T>>) -> (r: Rc<Node<T>>)
    ensures
        r == *node,
{
    Rc::clone(node)
}

/// The node with `value` in the place that the digits of `i` lead to.
fn replaced<T>(node: &Node<T>, i: usize, value: T) -> (r: Node<T>)
    requires
        lookup(*node, i as nat) is Some,
    ensures
        forall|j: nat|
            lookup(r, j) == (if j == i {
                Some(value)
            } else {
                lookup(*node, j)
            }),
    decreases *node,
{
    match node {
        Node::Reaf(_) => Node::Reaf(value),
        Node::Root(l, r) => {
            let x = i;
            assert((x & 1 == 0) == (x % 2 == 0) && x >> 1 == x / 2) by (bit_vector);
            if i & 1 == 0 {
                let left = replaced(&**l, i >> 1, value);
                let node = Node::Root(Rc::new(left), share(r));
                assert forall|j: nat|
                    lookup(node, j) == (if j == i {
                        Some(value)
                    } else {
                        lookup(Node::Root(*l, *r), j)
                    }) by {
                    if j % 2 == 0 {
                        assert(lookup(node, j) == lookup(left, j / 2));
                    }
                }
                node
            } else {
                let right = replaced(&**r, i >> 1, value);
                let node = Node::Root(share(l), Rc::new(right));
                assert forall|j: nat|
                    lookup(node, j) == (if j == i {
                        Some(value)
                    } else {
                        lookup(Node::Root(*l, *r), j)
                    }) by {
                    if j % 2 == 1 {
                        assert(lookup(node, j) == lookup(right, j / 2));
                    }
                }
                node
            }
        },
    }
}

/// The element of `v` at `x`, if there is one.
pub open spec fn element<T>(v: Seq<T>, x: int) -> Option<T> {
    if 0 <= x < v.len() {
        Some(v[x])
    } else {
        None
    }
}

/// Whether `node` holds the elements of `v` whose index is `i` plus a
/// multiple of `stride`, the multiple being the index in the node.
spec fn holds_stride<T>(node: Node<T>, v: Seq<T>, i: int, stride: int) -> bool {
    forall|t: nat| #[trigger] lookup(node, t) == element(v, i + stride * t)
}

/// Takes the value out of a cell.
fn take_out<T>(cells: &mut Vec<Option<T>>, i: usize) -> (x: T)
    requires
        i < old(cells)@.len(),
        old(cells)@[i as int] is Some,
    ensures
        Some(x) == old(cells)@[i as int],
        final(cells)@ == old(cells)@.update(i as int, None),
{
    let mut out: Option<T> = None;
    std::mem::swap(&mut out, &mut cells[i]);
    out.unwrap()
}

/// Two nodes of one stride under one root hold the elements of half the
/// stride.
proof fn lemma_join<T>(a: Node<T>, b: Node<T>, v: Seq<T>, i: int, half: int)
    requires
        half >= 1,
        0 <= i,
        holds_stride(a, v, i, 2 * half),
        holds_stride(b, v, i + half, 2 * half),
    ensures
        holds_stride(Node::Root(Rc::new(a), Rc::new(b)), v, i, half),
{
    let node = Node::Root(Rc::new(a), Rc::new(b));
    assert forall|t: nat| #[trigger] lookup(node, t) == element(v, i + half * t) by {
        let u = t / 2;
        if t % 2 == 0 {
            assert(lookup(node, t) == lookup(a, u));
            assert(half * t == (2 * half) * u) by (nonlinear_arith)
                requires
                    t == 2 * u,
            ;
        } else {
            assert(lookup(node, t) == lookup(b, u));
            assert(half * t == half + (2 * half) * u) by (nonlinear_arith)
                requires
                    t == 2 * u + 1,
            ;
        }
    }
}

/// A leaf holds one element, and none at any multiple of a stride that
/// leads past the end.
proof fn lemma_leaf<T>(x: T, v: Seq<T>, i: int, stride: int)
    requires
        0 <= i < v.len(),
        v[i] == x,
        i + stride >= v.len(),
        stride >= 1,
    ensures
        holds_stride(Node::Reaf(x), v, i, stride),
{
    assert forall|t: nat| #[trigger] lookup(Node::Reaf(x), t) == element(v, i + stride * t) by {
        if t > 0 {
            assert(stride * t >= stride) by (nonlinear_arith)
                requires
                    t >= 1,
                    stride >= 1,
            ;
        } else {
            assert(stride * t == 0) by (nonlinear_arith)
                requires
                    t == 0,
            ;
        }
    }
}

/// An array whose elements stay as they are.
#[derive(Clone)]
pub struct PersistentArray<T>(Option<Node<T>>);

impl<T> PersistentArray<T> {
    /// The element at `i`, if there is one.
    pub closed spec fn spec_get(&self, i: nat) -> Option<T> {
        match self.0 {
            Some(node) => lookup(node, i),
            None => None,
        }
    }

    /// The array of the elements of `v`.
    pub fn new(v: Vec<T>) -> (a: Self)
        ensures
            forall|i: nat| a.spec_get(i) == element(v@, i as int),
    {
        let ghost elems = v@;
        let n = v.len();
        if n == 0 {
            return PersistentArray(None);
        }
        // the elements in cells, last first, so that each can be taken out
        let mut v = v;
        let mut cells: Vec<Option<T>> = Vec::new();
        while v.len() > 0
            invariant
                v@.len() + cells@.len() == n,
                n == elems.len(),
                v@ == elems.take(v@.len() as int),
                forall|x: int| v@.len() <= x < n ==> cells@[n - 1 - x] == Some(#[trigger] elems[x]),
            decreases v@.len(),
        {
            let ghost rest = v@;
            let ghost before = cells@;
            let x = v.pop();
            cells.push(x);
            proof {
                assert(v@ =~= elems.take(v@.len() as int));
                assert forall|x: int| v@.len() <= x < n implies cells@[n - 1 - x] == Some(
                    #[trigger] elems[x],
                ) by {
                    if x > v@.len() {
                        assert(cells@[n - 1 - x] == before[n - 1 - x]);
                    }
                }
            }
        }
        if n == 1 {
            assert(cells@[n - 1 - 0] == Some(elems[0]));
            let x = take_out(&mut cells, 0);
            proof {
                lemma_leaf(x, elems, 0, 1);
                assert forall|i: nat| lookup(Node::Reaf(x), i) == element(elems, i as int) by {
                    assert(1 * i == i) by (nonlinear_arith);
                }
            }
            return PersistentArray(Some(Node::Reaf(x)));
        }
        // the greatest power of two below `n`
        let mut p: usize = 1;
        proof {
            reveal(is_pow2);
            assert(is_pow2(1));
        }
        while n - p > p
            invariant
                1 <= p < n,
                is_pow2(p as int),
            decreases n - p,
        {
            proof {
                reveal(is_pow2);
                assert(is_pow2(2 * p));
            }
            p = p * 2;
        }
        let mut q: Vec<Option<Node<T>>> = Vec::new();
        let mut i: usize = 0;
        while i < p
            invariant
                i <= p,
                p < n <= 2 * p,
                n == elems.len(),
                cells@.len() == n,
                q@.len() == i,
                forall|x: int|
                    0 <= x < n && !(x < i || p <= x < p + i) ==> cells@[n - 1 - x] == Some(
                        #[trigger] elems[x],
                    ),
                forall|j: int|
                    0 <= j < i ==> (#[trigger] q@[j]) is Some && holds_stride(
                        q@[j]->Some_0,
                        elems,
                        j,
                        p as int,
                    ),
            decreases p - i,
        {
            let ghost cells0 = cells@;
            assert(cells@[n - 1 - i] == Some(elems[i as int]));
            let a = take_out(&mut cells, n - 1 - i);
            let node = if n - p > i {
                assert(cells0[n - 1 - (i + p)] == Some(elems[i + p]));
                let b = take_out(&mut cells, n - 1 - i - p);
                proof {
                    lemma_leaf(a, elems, i as int, 2 * p);
                    lemma_leaf(b, elems, i + p, 2 * p);
                    lemma_join(Node::Reaf(a), Node::Reaf(b), elems, i as int, p as int);
                }
                Node::Root(Rc::new(Node::Reaf(a)), Rc::new(Node::Reaf(b)))
            } else {
                proof {
                    lemma_leaf(a, elems, i as int, p as int);
                }
                Node::Reaf(a)
            };
            let ghost before = q@;
            q.push(Some(node));
            proof {
                assert forall|x: int|
                    0 <= x < n && !(x < i + 1 || p <= x < p + i + 1) implies cells@[n - 1 - x] == Some(
                    #[trigger] elems[x],
                ) by {
                    assert(cells0[n - 1 - x] == Some(elems[x]));
                }
                assert forall|j: int| 0 <= j < i + 1 implies (#[trigger] q@[j]) is Some && holds_stride(
                    q@[j]->Some_0,
                    elems,
                    j,
                    p as int,
                ) by {
                    if j < i {
                        assert(q@[j] == before[j]);
                    }
                }
            }
            i += 1;
        }
        while p != 1
            invariant
                1 <= p,
                is_pow2(p as int),
                q@.len() == p,
                forall|j: int|
                    0 <= j < p ==> (#[trigger] q@[j]) is Some && holds_stride(
                        q@[j]->Some_0,
                        elems,
                        j,
                        p as int,
                    ),
            decreases p,
        {
            let ghost whole = p;
            proof {
                reveal(is_pow2);
                let x = p;
                assert(x >> 1 == x / 2) by (bit_vector);
            }
            p >>= 1;
            let mut nq: Vec<Option<Node<T>>> = Vec::new();
            let mut i: usize = 0;
            while i < p
                invariant
                    i <= p,
                    p >= 1,
                    whole == 2 * p,
                    q@.len() == whole,
                    nq@.len() == i,
                    forall|j: int|
                        0 <= j < whole && !(j < i || p <= j < p + i) ==> (#[trigger] q@[j]) is Some
                            && holds_stride(q@[j]->Some_0, elems, j, whole as int),
                    forall|j: int|
                        0 <= j < i ==> (#[trigger] nq@[j]) is Some && holds_stride(
                            nq@[j]->Some_0,
                            elems,
                            j,
                            p as int,
                        ),
                decreases p - i,
            {
                let ghost (q0, nq0) = (q@, nq@);
                assert(q@[i as int] is Some);
                let a = take_out(&mut q, i);
                assert(q@[i + p] == q0[i + p]);
                let b = take_out(&mut q, i + p);
                proof {
                    lemma_join(a, b, elems, i as int, p as int);
                }
                nq.push(Some(Node::Root(Rc::new(a), Rc::new(b))));
                proof {
                    assert forall|j: int|
                        0 <= j < whole && !(j < i + 1 || p <= j < p + i + 1) implies (
                    #[trigger] q@[j]) is Some && holds_stride(q@[j]->Some_0, elems, j, whole as int) by {
                        assert(q@[j] == q0[j]);
                    }
                    assert forall|j: int| 0 <= j < i + 1 implies (#[trigger] nq@[j]) is Some
                        && holds_stride(nq@[j]->Some_0, elems, j, p as int) by {
                        if j < i {
                            assert(nq@[j] == nq0[j]);
                        }
                    }
                }
                i += 1;
            }
            q = nq;
        }
        assert(q@[0] is Some);
        let root = take_out(&mut q, 0);
        proof {
            assert forall|i: nat| lookup(root, i) == element(elems, i as int) by {
                assert(1 * i == i) by (nonlinear_arith);
            }
        }
        PersistentArray(Some(root))
    }

    /// An array with `value` in the place of the element at `index`.
    pub fn set(&self, index: usize, value: T) -> (a: Self)
        requires
            self.spec_get(index as nat) is Some,
        ensures
            forall|j: nat|
                a.spec_get(j) == (if j == index {
                    Some(value)
                } else {
                    self.spec_get(j)
                }),
    {
        match &self.0 {
            Some(node) => PersistentArray(Some(replaced(node, index, value))),
            None => PersistentArray(None),
        }
    }

    /// The element at `index`, if there is one.
    pub fn get(&self, index: usize) -> (r: Option<&T>)
        ensures
            match r {
                Some(v) => self.spec_get(index as nat) == Some(*v),
                None => self.spec_get(index as nat) is None,
            },
    {
        match &self.0 {
            None => None,
            Some(root) => {
                let mut e: &Node<T> = root;
                let mut i = index;
                loop
                    invariant
                        lookup(*e, i as nat) == self.spec_get(index as nat),
                    decreases *e,
                {
                    match e {
                        Node::Reaf(v) => {
                            if i == 0 {
                                return Some(v);
                            } else {
                                return None;
                            }
                        },
                        Node::Root(l, r) => {
                            let x = i;
                            assert((x & 1 == 0) == (x % 2 == 0) && x >> 1 == x / 2) by (bit_vector);
                            if i & 1 == 0 {
                                e = &**l;
                            } else {
                                e = &**r;
                            }
                        },
                    }
                    i >>= 1;
                }
            },
        }
    }
}

} // verus!
