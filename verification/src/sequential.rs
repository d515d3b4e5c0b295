//! The sequential recursion engines: plain recursive quicksort over a range
//! of the buffer, one engine per partition scheme, both falling back to an
//! in-place insertion sort once a range is at or below the caller's cutoff.

use vstd::prelude::*;
use crate::order::{
    is_sorted, lemma_multiset_all, lemma_multiset_frame, sorted_between,
};
use crate::partition::{partition3_range, partition_range, swap_entries};

verus! {

/// Baseline comparison sort for small ranges: in-place insertion sort on
/// `[lo, hi)`. Keeps the range's multiset, touches nothing outside it.
pub(crate) fn insertion_sort_range(v: &mut Vec<isize>, lo: usize, hi: usize)
    requires
        lo <= hi,
        hi <= old(v).len(),
    ensures
        final(v)@.len() == old(v)@.len(),
        forall|k: int| 0 <= k < lo ==> final(v)@[k] == old(v)@[k],
        forall|k: int| hi <= k < final(v)@.len() ==> final(v)@[k] == old(v)@[k],
        final(v)@.subrange(lo as int, hi as int).to_multiset()
            == old(v)@.subrange(lo as int, hi as int).to_multiset(),
        sorted_between(final(v)@, lo as int, hi as int),
{
    if hi - lo <= 1 {
        return;
    }
    let mut i: usize = lo + 1;
    while i < hi
        invariant
            lo < i <= hi <= v@.len(),
            v@.len() == old(v)@.len(),
            forall|k: int| 0 <= k < lo ==> v@[k] == old(v)@[k],
            forall|k: int| hi <= k < v@.len() ==> v@[k] == old(v)@[k],
            v@.subrange(lo as int, hi as int).to_multiset()
                == old(v)@.subrange(lo as int, hi as int).to_multiset(),
            sorted_between(v@, lo as int, i as int),
        decreases hi - i,
    {
        let mut j: usize = i;
        while j > lo && v[j - 1] > v[j]
            invariant
                lo <= j <= i < hi <= v@.len(),
                v@.len() == old(v)@.len(),
                forall|k: int| 0 <= k < lo ==> v@[k] == old(v)@[k],
                forall|k: int| hi <= k < v@.len() ==> v@[k] == old(v)@[k],
                v@.subrange(lo as int, hi as int).to_multiset()
                    == old(v)@.subrange(lo as int, hi as int).to_multiset(),
                sorted_between(v@, lo as int, j as int),
                sorted_between(v@, j as int, i as int + 1),
                j < i ==> forall|k: int| lo <= k < j ==> #[trigger] v@[k] <= v@[j as int + 1],
            decreases j,
        {
            proof {
                crate::order::lemma_swap_in_range_multiset(
                    v@, lo as int, hi as int, (j - 1) as int, j as int);
            }
            swap_entries(v, j - 1, j);
            j = j - 1;
        }
        i = i + 1;
    }
}

/// Sequential two-way quicksort of the range `[lo, hi)`: after the call the
/// range is in non-decreasing order and holds the same multiset of values;
/// nothing outside the range changes, and a range of length at most one is
/// left exactly as it was.
pub(crate) fn quicksort_range(v: &mut Vec<isize>, lo: usize, hi: usize, cutoff: usize)
    requires
        lo <= hi,
        hi <= old(v).len(),
        cutoff >= 1,
    ensures
        final(v)@.len() == old(v)@.len(),
        forall|k: int| 0 <= k < lo ==> final(v)@[k] == old(v)@[k],
        forall|k: int| hi <= k < final(v)@.len() ==> final(v)@[k] == old(v)@[k],
        final(v)@.subrange(lo as int, hi as int).to_multiset()
            == old(v)@.subrange(lo as int, hi as int).to_multiset(),
        sorted_between(final(v)@, lo as int, hi as int),
        hi - lo <= 1 ==> final(v)@ == old(v)@,
    decreases hi - lo,
{
    if hi - lo <= 1 {
        return;
    }
    if hi - lo <= cutoff {
        insertion_sort_range(v, lo, hi);
        return;
    }
    let p = partition_range(v, lo, hi);
    let ghost s1 = v@;
    let ghost pv = s1[p as int];
    quicksort_range(v, lo, p, cutoff);
    let ghost s2 = v@;
    quicksort_range(v, p + 1, hi, cutoff);
    let ghost s3 = v@;
    proof {
        // The two recursive calls preserve the multiset of the whole range.
        lemma_multiset_frame(s1, s2, lo as int, hi as int, lo as int, p as int);
        lemma_multiset_frame(s2, s3, lo as int, hi as int, p as int + 1, hi as int);
        // The left side keeps holding values below the pivot, the right side
        // values at or above it, though each was rearranged.
        assert(s2.subrange(lo as int, p as int) =~= s3.subrange(lo as int, p as int));
        lemma_multiset_all(
            s1.subrange(lo as int, p as int),
            s3.subrange(lo as int, p as int),
            |x: isize| x < pv,
        );
        lemma_multiset_all(
            s2.subrange(p as int + 1, hi as int),
            s3.subrange(p as int + 1, hi as int),
            |x: isize| x >= pv,
        );
        assert(s3[p as int] == pv);
        assert forall|i: int, j: int| lo <= i < j < hi implies s3[i] <= s3[j] by {
            if j < p {
                assert(sorted_between(s3, lo as int, p as int));
            } else if i > p {
                assert(sorted_between(s3, p as int + 1, hi as int));
            } else {
                if i < p {
                    assert(s3.subrange(lo as int, p as int)[i - lo] == s3[i]);
                    assert(s3[i] < pv);
                }
                if j > p {
                    assert(s3.subrange(p as int + 1, hi as int)[j - (p + 1)] == s3[j]);
                    assert(s3[j] >= pv);
                }
            }
        }
    }
}

/// Sequential three-way quicksort of the range `[lo, hi)`; same contract as
/// the two-way engine, with the Dutch-flag partitioner underneath.
pub(crate) fn quicksort3_range(v: &mut Vec<isize>, lo: usize, hi: usize, cutoff: usize)
    requires
        lo <= hi,
        hi <= old(v).len(),
        cutoff >= 1,
    ensures
        final(v)@.len() == old(v)@.len(),
        forall|k: int| 0 <= k < lo ==> final(v)@[k] == old(v)@[k],
        forall|k: int| hi <= k < final(v)@.len() ==> final(v)@[k] == old(v)@[k],
        final(v)@.subrange(lo as int, hi as int).to_multiset()
            == old(v)@.subrange(lo as int, hi as int).to_multiset(),
        sorted_between(final(v)@, lo as int, hi as int),
        hi - lo <= 1 ==> final(v)@ == old(v)@,
    decreases hi - lo,
{
    if hi - lo <= 1 {
        return;
    }
    if hi - lo <= cutoff {
        insertion_sort_range(v, lo, hi);
        return;
    }
    let r = partition3_range(v, lo, hi);
    let a = r.0;
    let b = r.1;
    let ghost s1 = v@;
    let ghost pv = s1[a as int];
    quicksort3_range(v, lo, a, cutoff);
    let ghost s2 = v@;
    quicksort3_range(v, b, hi, cutoff);
    let ghost s3 = v@;
    proof {
        lemma_multiset_frame(s1, s2, lo as int, hi as int, lo as int, a as int);
        lemma_multiset_frame(s2, s3, lo as int, hi as int, b as int, hi as int);
        assert(s2.subrange(lo as int, a as int) =~= s3.subrange(lo as int, a as int));
        lemma_multiset_all(
            s1.subrange(lo as int, a as int),
            s3.subrange(lo as int, a as int),
            |x: isize| x < pv,
        );
        lemma_multiset_all(
            s2.subrange(b as int, hi as int),
            s3.subrange(b as int, hi as int),
            |x: isize| x > pv,
        );
        // The equal run is untouched by both recursive calls.
        assert forall|k: int| a <= k < b implies s3[k] == pv by {
            assert(s2[k] == s1[k]);
        }
        assert forall|i: int, j: int| lo <= i < j < hi implies s3[i] <= s3[j] by {
            if j < a {
                assert(sorted_between(s3, lo as int, a as int));
            } else if i >= b {
                assert(sorted_between(s3, b as int, hi as int));
            } else {
                if i < a {
                    assert(s3.subrange(lo as int, a as int)[i - lo] == s3[i]);
                    assert(s3[i] < pv);
                }
                if j >= b {
                    assert(s3.subrange(b as int, hi as int)[j - b] == s3[j]);
                    assert(s3[j] > pv);
                }
            }
        }
    }
}

/// Sequential two-way quicksort of the whole buffer: afterwards the buffer
/// holds the same multiset of values in non-decreasing order; a buffer of
/// length at most one is returned unchanged.
pub fn quicksort(v: &mut Vec<isize>, cutoff: usize)
    requires
        cutoff >= 1,
    ensures
        final(v)@.len() == old(v)@.len(),
        final(v)@.to_multiset() == old(v)@.to_multiset(),
        is_sorted(final(v)@),
        old(v)@.len() <= 1 ==> final(v)@ == old(v)@,
{
    let n: usize = v.len();
    quicksort_range(v, 0, n, cutoff);
    proof {
        assert(v@.subrange(0, n as int) =~= v@);
        assert(old(v)@.subrange(0, n as int) =~= old(v)@);
    }
}

/// Sequential three-way quicksort of the whole buffer; same contract as
/// `quicksort`.
pub fn quicksort3(v: &mut Vec<isize>, cutoff: usize)
    requires
        cutoff >= 1,
    ensures
        final(v)@.len() == old(v)@.len(),
        final(v)@.to_multiset() == old(v)@.to_multiset(),
        is_sorted(final(v)@),
        old(v)@.len() <= 1 ==> final(v)@ == old(v)@,
{
    let n: usize = v.len();
    quicksort3_range(v, 0, n, cutoff);
    proof {
        assert(v@.subrange(0, n as int) =~= v@);
        assert(old(v)@.subrange(0, n as int) =~= old(v)@);
    }
}

} // verus!
