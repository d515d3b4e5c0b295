//! The two partition schemes. Both work in place on a half-open range
//! `[lo, hi)` of the buffer, take the last element of the range as the pivot
//! value, and promise: the range keeps its multiset of values, everything
//! outside the range keeps its value, and the range splits around the pivot
//! as stated.

use vstd::prelude::*;
use vstd::pervasive::VecAdditionalExecFns;
use crate::order::{lemma_swap_in_range_multiset, lemma_swap_preserves_multiset};

verus! {

/// Exchange the values at positions `i` and `j`.
pub(crate) fn swap_entries(v: &mut Vec<isize>, i: usize, j: usize)
    requires
        i < old(v).len(),
        j < old(v).len(),
    ensures
        final(v)@ == old(v)@.update(i as int, old(v)@[j as int]).update(j as int, old(v)@[i as int]),
        final(v)@.to_multiset() == old(v)@.to_multiset(),
        final(v)@.len() == old(v)@.len(),
{
    let a: isize = v[i];
    let b: isize = v[j];
    v.set(i, b);
    v.set(j, a);
    proof {
        lemma_swap_preserves_multiset(old(v)@, i as int, j as int);
    }
}

/// Two-way partition of the range `[lo, hi)` around its last element.
///
/// A single left-to-right scan moves every value smaller than the pivot in
/// front of a boundary, then swaps the pivot onto the boundary. The returned
/// index `p` is the pivot's final position: `[lo, p)` holds values strictly
/// below the pivot, `(p, hi)` values at or above it. Values equal to the
/// pivot land on the right side — the scheme's known weakness on
/// duplicate-heavy input, kept as is.
pub(crate) fn partition_range(v: &mut Vec<isize>, lo: usize, hi: usize) -> (p: usize)
    requires
        lo < hi,
        hi <= old(v).len(),
    ensures
        lo <= p < hi,
        final(v)@.len() == old(v)@.len(),
        forall|k: int| 0 <= k < lo ==> final(v)@[k] == old(v)@[k],
        forall|k: int| hi <= k < final(v)@.len() ==> final(v)@[k] == old(v)@[k],
        final(v)@.subrange(lo as int, hi as int).to_multiset()
            == old(v)@.subrange(lo as int, hi as int).to_multiset(),
        final(v)@[p as int] == old(v)@[hi - 1],
        forall|k: int| lo <= k < p ==> final(v)@[k] < final(v)@[p as int],
        forall|k: int| p < k < hi ==> final(v)@[k] >= final(v)@[p as int],
{
    let pv: isize = v[hi - 1];
    let mut i: usize = lo;
    let mut j: usize = lo;
    while j < hi - 1
        invariant
            lo <= i <= j <= hi - 1,
            lo < hi <= v@.len(),
            v@.len() == old(v)@.len(),
            v@[hi - 1] == pv,
            pv == old(v)@[hi - 1],
            forall|k: int| 0 <= k < lo ==> v@[k] == old(v)@[k],
            forall|k: int| hi <= k < v@.len() ==> v@[k] == old(v)@[k],
            v@.subrange(lo as int, hi as int).to_multiset()
                == old(v)@.subrange(lo as int, hi as int).to_multiset(),
            forall|k: int| lo <= k < i ==> v@[k] < pv,
            forall|k: int| i <= k < j ==> v@[k] >= pv,
        decreases hi - 1 - j,
    {
        if v[j] < pv {
            proof {
                lemma_swap_in_range_multiset(v@, lo as int, hi as int, i as int, j as int);
            }
            swap_entries(v, i, j);
            i = i + 1;
        }
        j = j + 1;
    }
    proof {
        lemma_swap_in_range_multiset(v@, lo as int, hi as int, i as int, (hi - 1) as int);
    }
    swap_entries(v, i, hi - 1);
    i
}

/// Three-way (Dutch-flag) partition of the range `[lo, hi)` around its last
/// element.
///
/// One pass with three cursors separates the range into values below, equal
/// to, and above the pivot. The returned pair `(r.0, r.1)` bounds the equal
/// run: `[lo, r.0)` holds values strictly below the pivot, `[r.0, r.1)`
/// exactly the values equal to it (the pivot included, so the run is never
/// empty), and `[r.1, hi)` values strictly above it. The equal run is in its
/// final sorted position and needs no further work.
pub(crate) fn partition3_range(v: &mut Vec<isize>, lo: usize, hi: usize) -> (r: (usize, usize))
    requires
        lo < hi,
        hi <= old(v).len(),
    ensures
        lo <= r.0 < r.1 <= hi,
        final(v)@.len() == old(v)@.len(),
        forall|k: int| 0 <= k < lo ==> final(v)@[k] == old(v)@[k],
        forall|k: int| hi <= k < final(v)@.len() ==> final(v)@[k] == old(v)@[k],
        final(v)@.subrange(lo as int, hi as int).to_multiset()
            == old(v)@.subrange(lo as int, hi as int).to_multiset(),
        final(v)@[r.0 as int] == old(v)@[hi - 1],
        forall|k: int| r.0 <= k < r.1 ==> #[trigger] final(v)@[k] == final(v)@[r.0 as int],
        forall|k: int| lo <= k < r.0 ==> #[trigger] final(v)@[k] < final(v)@[r.0 as int],
        forall|k: int| r.1 <= k < hi ==> #[trigger] final(v)@[k] > final(v)@[r.0 as int],
{
    let pv: isize = v[hi - 1];
    let mut a: usize = lo;
    let mut c: usize = hi - 1;
    let mut e: usize = lo;
    while e != c
        invariant
            lo <= a <= e <= c <= hi - 1,
            lo < hi <= v@.len(),
            v@.len() == old(v)@.len(),
            v@[hi - 1] == pv,
            pv == old(v)@[hi - 1],
            forall|k: int| 0 <= k < lo ==> v@[k] == old(v)@[k],
            forall|k: int| hi <= k < v@.len() ==> v@[k] == old(v)@[k],
            v@.subrange(lo as int, hi as int).to_multiset()
                == old(v)@.subrange(lo as int, hi as int).to_multiset(),
            forall|k: int| lo <= k < a ==> v@[k] < pv,
            forall|k: int| a <= k < e ==> v@[k] == pv,
            forall|k: int| c <= k < hi - 1 ==> v@[k] > pv,
        decreases c - e,
    {
        let x: isize = v[e];
        if x < pv {
            proof {
                lemma_swap_in_range_multiset(v@, lo as int, hi as int, a as int, e as int);
            }
            swap_entries(v, a, e);
            a = a + 1;
            e = e + 1;
        } else if x > pv {
            c = c - 1;
            proof {
                lemma_swap_in_range_multiset(v@, lo as int, hi as int, e as int, c as int);
            }
            swap_entries(v, e, c);
        } else {
            e = e + 1;
        }
    }
    proof {
        lemma_swap_in_range_multiset(v@, lo as int, hi as int, e as int, (hi - 1) as int);
    }
    swap_entries(v, e, hi - 1);
    (a, e + 1)
}

/// Two-way partition of the whole buffer around its last element; returns
/// the pivot's final index.
pub fn partition(v: &mut Vec<isize>) -> (p: usize)
    requires
        old(v).len() >= 1,
    ensures
        p < final(v).len(),
        final(v)@.len() == old(v)@.len(),
        final(v)@.to_multiset() == old(v)@.to_multiset(),
        final(v)@[p as int] == old(v)@[old(v)@.len() - 1],
        forall|k: int| 0 <= k < p ==> final(v)@[k] < final(v)@[p as int],
        forall|k: int| p < k < final(v)@.len() ==> final(v)@[k] >= final(v)@[p as int],
{
    let n: usize = v.len();
    let p = partition_range(v, 0, n);
    proof {
        assert(v@.subrange(0, n as int) =~= v@);
        assert(old(v)@.subrange(0, n as int) =~= old(v)@);
    }
    p
}

/// Three-way partition of the whole buffer around its last element; returns
/// the bounds `(lo, hi)` of the equal run, as `partition3_range` states them.
pub fn partition3(v: &mut Vec<isize>) -> (r: (usize, usize))
    requires
        old(v).len() >= 1,
    ensures
        r.0 < r.1 <= final(v).len(),
        final(v)@.len() == old(v)@.len(),
        final(v)@.to_multiset() == old(v)@.to_multiset(),
        final(v)@[r.0 as int] == old(v)@[old(v)@.len() - 1],
        forall|k: int| r.0 <= k < r.1 ==> #[trigger] final(v)@[k] == final(v)@[r.0 as int],
        forall|k: int| 0 <= k < r.0 ==> #[trigger] final(v)@[k] < final(v)@[r.0 as int],
        forall|k: int| r.1 <= k < final(v)@.len() ==> #[trigger] final(v)@[k] > final(v)@[r.0 as int],
{
    let n: usize = v.len();
    let r = partition3_range(v, 0, n);
    proof {
        assert(v@.subrange(0, n as int) =~= v@);
        assert(old(v)@.subrange(0, n as int) =~= old(v)@);
    }
    r
}

} // verus!
