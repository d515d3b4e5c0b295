//! The depth-bounded fork-join engines. Each call partitions its buffer,
//! carves the two sides off into vectors of their own — so the two recursive
//! calls own disjoint memory by construction — and hands them to Rayon as a
//! pair of concurrently schedulable tasks, up to `depth` fork levels. At the
//! depth budget, and below the size cutoff, the work degrades to the
//! sequential engine of the same partition scheme.

use vstd::prelude::*;
use vstd::seq_lib::lemma_multiset_commutative;
use crate::order::{
    is_sorted, lemma_multiset_all, lemma_sorted_three_parts, lemma_subrange_split,
};
use crate::partition::{partition3_range, partition_range};
use crate::sequential::{insertion_sort_range, quicksort3_range, quicksort_range};

verus! {

/// Relies on `rayon::join`: it calls both closures and returns only once
/// both have run to completion (possibly on different threads, in either
/// order). Each closure does nothing but sort its own vector with the
/// verified two-way parallel engine, so each vector afterwards satisfies
/// that engine's contract.
#[verifier::external_body]
fn fork_join_two_way(
    left: &mut Vec<isize>,
    right: &mut Vec<isize>,
    cutoff: usize,
    depth: usize,
    level: usize,
)
    requires
        cutoff >= 1,
        level <= depth,
    ensures
        final(left)@.len() == old(left)@.len(),
        final(left)@.to_multiset() == old(left)@.to_multiset(),
        is_sorted(final(left)@),
        final(right)@.len() == old(right)@.len(),
        final(right)@.to_multiset() == old(right)@.to_multiset(),
        is_sorted(final(right)@),
{
    rayon::join(
        || quicksort_parallel(left, cutoff, depth, level),
        || quicksort_parallel(right, cutoff, depth, level),
    );
}

/// Relies on `rayon::join`, as `fork_join_two_way` does; each closure calls
/// the verified three-way parallel engine on its own vector.
#[verifier::external_body]
fn fork_join_three_way(
    left: &mut Vec<isize>,
    right: &mut Vec<isize>,
    cutoff: usize,
    depth: usize,
    level: usize,
)
    requires
        cutoff >= 1,
        level <= depth,
    ensures
        final(left)@.len() == old(left)@.len(),
        final(left)@.to_multiset() == old(left)@.to_multiset(),
        is_sorted(final(left)@),
        final(right)@.len() == old(right)@.len(),
        final(right)@.to_multiset() == old(right)@.to_multiset(),
        is_sorted(final(right)@),
{
    rayon::join(
        || quicksort3_parallel(left, cutoff, depth, level),
        || quicksort3_parallel(right, cutoff, depth, level),
    );
}

/// Depth-bounded parallel two-way quicksort. `level` is the current fork
/// depth; once it reaches `depth` the remaining region is sorted by the
/// sequential two-way engine, so at most `2^depth` tasks ever run at once.
/// The contract is that of `quicksort`: same multiset, non-decreasing order,
/// and a buffer of length at most one comes back unchanged.
pub fn quicksort_parallel(v: &mut Vec<isize>, cutoff: usize, depth: usize, level: usize)
    requires
        cutoff >= 1,
        level <= depth,
    ensures
        final(v)@.len() == old(v)@.len(),
        final(v)@.to_multiset() == old(v)@.to_multiset(),
        is_sorted(final(v)@),
        old(v)@.len() <= 1 ==> final(v)@ == old(v)@,
{
    let n: usize = v.len();
    if n <= 1 {
        return;
    }
    if n <= cutoff {
        insertion_sort_range(v, 0, n);
        proof {
            assert(v@.subrange(0, n as int) =~= v@);
            assert(old(v)@.subrange(0, n as int) =~= old(v)@);
        }
        return;
    }
    if depth == level {
        quicksort_range(v, 0, n, cutoff);
        proof {
            assert(v@.subrange(0, n as int) =~= v@);
            assert(old(v)@.subrange(0, n as int) =~= old(v)@);
        }
        return;
    }
    let p = partition_range(v, 0, n);
    let ghost s1 = v@;
    let ghost pv = s1[p as int];
    let mut right = v.split_off(p + 1);
    let mut mid = v.split_off(p);
    proof {
        assert(v@ =~= s1.subrange(0, p as int));
        assert(mid@ =~= s1.subrange(p as int, p as int + 1));
    }
    fork_join_two_way(v, &mut right, cutoff, depth, level + 1);
    let ghost lft = v@;
    let ghost rgt = right@;
    v.append(&mut mid);
    v.append(&mut right);
    proof {
        assert(old(v)@.subrange(0, n as int) =~= old(v)@);
        assert(s1.subrange(0, n as int) =~= s1);
        lemma_reassemble(
            s1, lft, rgt, p as int, p as int + 1, pv,
            old(v)@.to_multiset(),
        );
        assert(v@ == lft + s1.subrange(p as int, p as int + 1) + rgt);
    }
}

/// Depth-bounded parallel three-way quicksort; the control structure of
/// `quicksort_parallel` with the Dutch-flag partitioner underneath, skipping
/// the equal run entirely. At the depth budget it delegates to the
/// sequential three-way engine, keeping the partition scheme across the
/// parallel/sequential boundary. Same contract as `quicksort_parallel`.
pub fn quicksort3_parallel(v: &mut Vec<isize>, cutoff: usize, depth: usize, level: usize)
    requires
        cutoff >= 1,
        level <= depth,
    ensures
        final(v)@.len() == old(v)@.len(),
        final(v)@.to_multiset() == old(v)@.to_multiset(),
        is_sorted(final(v)@),
        old(v)@.len() <= 1 ==> final(v)@ == old(v)@,
{
    let n: usize = v.len();
    if n <= 1 {
        return;
    }
    if n <= cutoff {
        insertion_sort_range(v, 0, n);
        proof {
            assert(v@.subrange(0, n as int) =~= v@);
            assert(old(v)@.subrange(0, n as int) =~= old(v)@);
        }
        return;
    }
    if depth == level {
        quicksort3_range(v, 0, n, cutoff);
        proof {
            assert(v@.subrange(0, n as int) =~= v@);
            assert(old(v)@.subrange(0, n as int) =~= old(v)@);
        }
        return;
    }
    let r = partition3_range(v, 0, n);
    let a = r.0;
    let b = r.1;
    let ghost s1 = v@;
    let ghost pv = s1[a as int];
    let mut right = v.split_off(b);
    let mut mid = v.split_off(a);
    proof {
        assert(v@ =~= s1.subrange(0, a as int));
        assert(mid@ =~= s1.subrange(a as int, b as int));
    }
    fork_join_three_way(v, &mut right, cutoff, depth, level + 1);
    let ghost lft = v@;
    let ghost rgt = right@;
    v.append(&mut mid);
    v.append(&mut right);
    proof {
        assert(old(v)@.subrange(0, n as int) =~= old(v)@);
        assert(s1.subrange(0, n as int) =~= s1);
        lemma_reassemble(
            s1, lft, rgt, a as int, b as int, pv,
            old(v)@.to_multiset(),
        );
        assert(v@ == lft + s1.subrange(a as int, b as int) + rgt);
    }
}

/// After a fork: if a partitioned buffer's two sides came back sorted with
/// their multisets kept, gluing side, equal run and side together yields a
/// sorted buffer that keeps the multiset it started with.
proof fn lemma_reassemble(
    s1: Seq<isize>,
    lft: Seq<isize>,
    rgt: Seq<isize>,
    a: int,
    b: int,
    pv: isize,
    orig: vstd::multiset::Multiset<isize>,
)
    requires
        0 <= a < b <= s1.len(),
        s1.to_multiset() == orig,
        forall|k: int| 0 <= k < a ==> s1[k] < pv,
        forall|k: int| a <= k < b ==> s1[k] == pv,
        forall|k: int| b <= k < s1.len() ==> s1[k] >= pv,
        lft.to_multiset() == s1.subrange(0, a).to_multiset(),
        is_sorted(lft),
        rgt.to_multiset() == s1.subrange(b, s1.len() as int).to_multiset(),
        is_sorted(rgt),
    ensures
        (lft + s1.subrange(a, b) + rgt).to_multiset() == orig,
        is_sorted(lft + s1.subrange(a, b) + rgt),
        (lft + s1.subrange(a, b) + rgt).len() == s1.len(),
{
    broadcast use lemma_multiset_commutative;
    broadcast use vstd::seq_lib::group_to_multiset_ensures;

    let n = s1.len() as int;
    let mid = s1.subrange(a, b);
    lemma_subrange_split(s1, 0, a, n);
    lemma_subrange_split(s1, a, b, n);
    assert(s1.subrange(0, n) =~= s1);
    assert(s1 == s1.subrange(0, a) + mid + s1.subrange(b, n));
    assert(lft.len() == s1.subrange(0, a).len()) by {
        vstd::seq_lib::to_multiset_len(lft);
        vstd::seq_lib::to_multiset_len(s1.subrange(0, a));
    }
    assert(rgt.len() == s1.subrange(b, n).len()) by {
        vstd::seq_lib::to_multiset_len(rgt);
        vstd::seq_lib::to_multiset_len(s1.subrange(b, n));
    }
    lemma_multiset_all(s1.subrange(0, a), lft, |x: isize| x < pv);
    lemma_multiset_all(s1.subrange(b, n), rgt, |x: isize| x >= pv);
    lemma_sorted_three_parts(lft, mid, rgt, pv);
}

} // verus!
