//! What holds of every run of pushes and pops on a radix heap.

use vstd::prelude::*;
use super::distance::radix_distance;
use super::{Radix, RadixHeap};

verus! {

/// One operation on a heap that succeeded: a push with its key, or a pop
/// with the key that came out.
pub enum Step<T> {
    Push(T),
    Pop(T),
}

/// Whether `after` is what `step` makes of `before`.
pub open spec fn follows<T: Radix>(before: RadixHeap<T>, step: Step<T>, after: RadixHeap<T>) -> bool {
    match step {
        Step::Push(v) => before.pushed(v, after),
        Step::Pop(v) => before.popped(v, after),
    }
}

/// Whether `heaps` are the states that `steps` lead through, one after the
/// other.
pub open spec fn is_run<T: Radix>(heaps: Seq<RadixHeap<T>>, steps: Seq<Step<T>>) -> bool {
    &&& heaps.len() == steps.len() + 1
    &&& forall|i: int| 0 <= i < steps.len() ==> follows(heaps[i], #[trigger] steps[i], heaps[i + 1])
}

/// The number of pushes among the first `n` steps.
pub open spec fn pushes<T>(steps: Seq<Step<T>>, n: nat) -> nat
    decreases n,
{
    if n == 0 {
        0
    } else {
        pushes(steps, (n - 1) as nat) + if steps[n - 1] is Push {
            1nat
        } else {
            0nat
        }
    }
}

/// The number of pops among the first `n` steps.
pub open spec fn pops<T>(steps: Seq<Step<T>>, n: nat) -> nat
    decreases n,
{
    if n == 0 {
        0
    } else {
        pops(steps, (n - 1) as nat) + if steps[n - 1] is Pop {
            1nat
        } else {
            0nat
        }
    }
}

/// While the heap does not run empty, the floor never rises.
proof fn lemma_floor_descends<T: Radix>(
    heaps: Seq<RadixHeap<T>>,
    steps: Seq<Step<T>>,
    i: int,
    j: int,
)
    requires
        is_run(heaps, steps),
        0 <= i <= j <= steps.len(),
        forall|k: int| i < k <= j ==> (#[trigger] heaps[k])@.len() > 0,
    ensures
        heaps[j].floor().rank() <= heaps[i].floor().rank(),
    decreases j - i,
{
    if i < j {
        lemma_floor_descends(heaps, steps, i, j - 1);
        let before = heaps[j - 1];
        assert(follows(before, steps[j - 1], heaps[j]));
        if steps[j - 1] is Pop {
            before.lemma_top_is_greatest();
        }
    }
}

/// Between two pops the heap yields keys in descending order, as long as it
/// does not run empty in between: the later pop yields no greater key than
/// the earlier one.
pub proof fn lemma_pops_descend<T: Radix>(
    heaps: Seq<RadixHeap<T>>,
    steps: Seq<Step<T>>,
    i: int,
    j: int,
)
    requires
        is_run(heaps, steps),
        0 <= i < j < steps.len(),
        steps[i] is Pop,
        steps[j] is Pop,
        forall|k: int| i < k <= j ==> (#[trigger] heaps[k])@.len() > 0,
    ensures
        steps[j]->Pop_0.rank() <= steps[i]->Pop_0.rank(),
{
    lemma_floor_descends(heaps, steps, i + 1, j);
    assert(follows(heaps[i], steps[i], heaps[i + 1]));
    assert(follows(heaps[j], steps[j], heaps[j + 1]));
    assert(heaps[i + 1]@.len() > 0);
    heaps[j].lemma_top_is_greatest();
}

/// After a run the heap holds as many keys more than at the start as there
/// were pushes, less the pops.
pub proof fn lemma_run_len<T: Radix>(heaps: Seq<RadixHeap<T>>, steps: Seq<Step<T>>, n: nat)
    requires
        is_run(heaps, steps),
        n <= steps.len(),
    ensures
        heaps[n as int]@.len() + pops(steps, n) == heaps[0]@.len() + pushes(steps, n),
    decreases n,
{
    broadcast use vstd::multiset::group_multiset_axioms;

    if n > 0 {
        lemma_run_len(heaps, steps, (n - 1) as nat);
        let before = heaps[n - 1];
        assert(follows(before, steps[n - 1], heaps[n as int]));
        if steps[n - 1] is Pop {
            before.lemma_top_is_greatest();
        }
    }
}

/// After a push or a pop every key in a bucket lies at the distance from
/// the floor that is the number of its bucket.
pub proof fn lemma_buckets_sorted<T: Radix>(
    before: RadixHeap<T>,
    step: Step<T>,
    after: RadixHeap<T>,
    i: int,
    j: int,
)
    requires
        follows(before, step, after),
        0 <= i < after.buckets().len(),
        0 <= j < after.buckets()[i].len(),
    ensures
        radix_distance(after.floor().rank(), after.buckets()[i][j].rank()) == i,
{
}

/// A heap that has run empty takes any key.
pub proof fn lemma_empty_accepts<T: Radix>(heap: RadixHeap<T>, v: T)
    requires
        heap.wf(),
        heap@.len() == 0,
    ensures
        v.rank() <= heap.floor().rank(),
{
    v.lemma_max_rank();
}

} // verus!
