//! The Z array of a sequence.

use vstd::prelude::*;
use vstd::laws_eq::obeys_concrete_eq;
use vstd::std_specs::cmp::PartialEqSpec;

verus! {

/// Whether `k` is the length of the longest common prefix of `v` and of what
/// `v` holds from `i` on.
pub open spec fn is_z<T>(v: Seq<T>, i: int, k: int) -> bool {
    &&& 0 <= k <= v.len() - i
    &&& forall|t: int| 0 <= t < k ==> v[t] == #[trigger] v[i + t]
    &&& i + k == v.len() || v[k] != v[i + k]
}

/// `==` on `T` tells whether two values are the same value.
spec fn plain_eq<T: PartialEq>() -> bool {
    &&& T::obeys_eq_spec()
    &&& forall|x: T, y: T| x.eq_spec(&y) <==> (x == y)
}

/// For each position of `v`, the length of the longest common prefix of `v`
/// and of what `v` holds from that position on.
pub fn z_algorithm<T: PartialEq>(v: &[T]) -> (z: Vec<usize>)
    requires
        obeys_concrete_eq::<T>(),
    ensures
        z@.len() == v@.len(),
        forall|i: int| 0 <= i < z@.len() ==> is_z(v@, i, #[trigger] z@[i] as int),
{
    proof {
        reveal(obeys_concrete_eq);
    }
    let n = v.len();
    if n == 0 {
        return Vec::new();
    }
    if n == 1 {
        let mut z: Vec<usize> = Vec::new();
        z.push(1);
        return z;
    }
    let mut l: usize = 0;
    while l + 1 != n && v[l] == v[l + 1]
        invariant
            n == v@.len(),
            l + 1 <= n,
            plain_eq::<T>(),
            forall|t: int| 0 <= t < l ==> v@[t] == #[trigger] v@[1 + t],
        decreases n - l,
    {
        l += 1;
    }
    let mut z: Vec<usize> = Vec::new();
    z.push(n);
    z.push(l);
    let mut j: usize = 1;
    let mut i: usize = 2;
    while i < n
        invariant
            n == v@.len(),
            2 <= i <= n,
            1 <= j < i,
            z@.len() == i,
            z@[j as int] == l,
            plain_eq::<T>(),
            forall|a: int| 0 <= a < i ==> is_z(v@, a, #[trigger] z@[a] as int),
        decreases n - i,
    {
        let k = z[i - j];
        assert(is_z(v@, i - j, k as int));
        assert(is_z(v@, j as int, l as int));
        if k + (i - j) < l {
            proof {
                assert forall|t: int| 0 <= t < k implies v@[t] == #[trigger] v@[i + t] by {
                    assert(v@[t] == v@[(i - j) + t]);
                    assert(v@[(i - j) + t] == v@[j + ((i - j) + t)]);
                }
                assert(v@[(i - j) + k] == v@[j + ((i - j) + k)]);
            }
            z.push(k);
        } else {
            l = (l + j).checked_sub(i).unwrap_or(0);
            proof {
                assert forall|t: int| 0 <= t < l implies v@[t] == #[trigger] v@[i + t] by {
                    assert(v@[t] == v@[(i - j) + t]);
                    assert(v@[(i - j) + t] == v@[j + ((i - j) + t)]);
                }
            }
            while i + l != n && v[l] == v[i + l]
                invariant
                    n == v@.len(),
                    i < n,
                    i + l <= n,
                    plain_eq::<T>(),
                    forall|t: int| 0 <= t < l ==> v@[t] == #[trigger] v@[i + t],
                decreases n - l,
            {
                l += 1;
            }
            z.push(l);
            j = i;
        }
        i += 1;
    }
    z[0] = n;
    z
}

} // verus!
