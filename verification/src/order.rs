//! The ordering vocabulary of the crate: what it means for a (range of a)
//! sequence to be sorted, and the multiset lemmas that every sort variant's
//! proof leans on.

use vstd::prelude::*;
use vstd::seq_lib::*;

verus! {

/// The slice of `s` between `lo` (inclusive) and `hi` (exclusive) is in
/// non-decreasing order.
pub open spec fn sorted_between(s: Seq<isize>, lo: int, hi: int) -> bool {
    forall|i: int, j: int| lo <= i < j < hi ==> s[i] <= s[j]
}

/// The whole sequence is in non-decreasing order.
pub open spec fn is_sorted(s: Seq<isize>) -> bool {
    sorted_between(s, 0, s.len() as int)
}

/// Chain adjacent comparisons from `i` up to `j`.
proof fn lemma_adjacent_chain(s: Seq<isize>, i: int, j: int)
    requires
        0 <= i < j < s.len(),
        forall|k: int| 0 <= k < s.len() - 1 ==> #[trigger] s[k] <= s[k + 1],
    ensures
        s[i] <= s[j],
    decreases j - i,
{
    if i + 1 < j {
        lemma_adjacent_chain(s, i, j - 1);
    }
}

/// A sequence is sorted exactly when every adjacent pair of its values is in
/// order.
pub proof fn lemma_sorted_iff_adjacent(s: Seq<isize>)
    ensures
        is_sorted(s) <==> (forall|k: int|
            0 <= k < s.len() - 1 ==> #[trigger] s[k] <= s[k + 1]),
{
    if forall|k: int| 0 <= k < s.len() - 1 ==> #[trigger] s[k] <= s[k + 1] {
        assert forall|i: int, j: int| 0 <= i < j < s.len() implies s[i] <= s[j] by {
            lemma_adjacent_chain(s, i, j);
        }
    }
}

/// Two sorted arrangements of the same multiset of values are the same
/// sequence. Every sort variant of this crate promises a sorted arrangement
/// of the input's multiset, so by this law the two partition schemes and the
/// two execution modes — any depth budget and cutoff included — all return
/// the very same output for the same input.
pub proof fn lemma_sorted_permutation_unique(x: Seq<isize>, y: Seq<isize>)
    requires
        is_sorted(x),
        is_sorted(y),
        x.to_multiset() == y.to_multiset(),
    ensures
        x == y,
{
    let leq = |a: isize, b: isize| a <= b;
    assert(vstd::relations::total_ordering(leq)) by {
        assert forall|a: isize| #[trigger] leq(a, a) by {}
        assert forall|a: isize, b: isize| #[trigger] leq(a, b) && #[trigger] leq(b, a)
            implies a == b by {}
        assert forall|a: isize, b: isize, c: isize|
            #[trigger] leq(a, b) && #[trigger] leq(b, c) implies leq(a, c) by {}
        assert forall|a: isize, b: isize| #[trigger] leq(a, b) || #[trigger] leq(b, a) by {}
    }
    assert(vstd::relations::sorted_by(x, leq));
    assert(vstd::relations::sorted_by(y, leq));
    lemma_sorted_unique(x, y, leq);
    assert(x =~= y);
}

/// Sorting a sequence that is already sorted gives it back unchanged: any
/// output that a sort variant may return for a sorted input — sorted, with
/// the input's multiset — is that input itself.
pub proof fn lemma_sort_idempotent(pre: Seq<isize>, post: Seq<isize>)
    requires
        is_sorted(pre),
        is_sorted(post),
        post.to_multiset() == pre.to_multiset(),
    ensures
        post == pre,
{
    lemma_sorted_permutation_unique(post, pre);
}

/// Exchanging two positions of a sequence leaves its multiset of values
/// unchanged.
pub proof fn lemma_swap_preserves_multiset(s: Seq<isize>, i: int, j: int)
    requires
        0 <= i < s.len(),
        0 <= j < s.len(),
    ensures
        s.update(i, s[j]).update(j, s[i]).to_multiset() == s.to_multiset(),
{
    broadcast use group_to_multiset_ensures;
    broadcast use vstd::multiset::group_multiset_axioms;
    broadcast use vstd::multiset::group_multiset_properties;

    let t = s.update(i, s[j]);
    assert(t[j] == s[j]);
    assert(s.contains(s[i]));
    assert(s.to_multiset().count(s[i]) > 0);
    assert(t.update(j, s[i]).to_multiset()
        =~= s.to_multiset().insert(s[j]).remove(s[i]).insert(s[i]).remove(s[j]));
    assert(s.to_multiset().insert(s[j]).remove(s[i]).insert(s[i]).remove(s[j])
        =~= s.to_multiset());
}

/// A sequence splits at any midpoint into the concatenation of its two halves.
pub proof fn lemma_subrange_split(s: Seq<isize>, lo: int, m: int, hi: int)
    requires
        0 <= lo <= m <= hi <= s.len(),
    ensures
        s.subrange(lo, hi) == s.subrange(lo, m) + s.subrange(m, hi),
{
    assert(s.subrange(lo, hi) =~= s.subrange(lo, m) + s.subrange(m, hi));
}

/// Exchanging two positions inside `[lo, hi)` leaves the multiset of that
/// range unchanged.
pub proof fn lemma_swap_in_range_multiset(s: Seq<isize>, lo: int, hi: int, i: int, j: int)
    requires
        0 <= lo <= i < hi <= s.len(),
        lo <= j < hi,
    ensures
        s.update(i, s[j]).update(j, s[i]).subrange(lo, hi).to_multiset()
            == s.subrange(lo, hi).to_multiset(),
{
    let sub = s.subrange(lo, hi);
    let t = s.update(i, s[j]).update(j, s[i]);
    assert(t.subrange(lo, hi) =~= sub.update(i - lo, sub[j - lo]).update(j - lo, sub[i - lo]));
    lemma_swap_preserves_multiset(sub, i - lo, j - lo);
}

/// If a range `[a, b)` keeps its multiset while everything else in `[lo, hi)`
/// keeps its value, the whole range `[lo, hi)` keeps its multiset.
pub proof fn lemma_multiset_frame(s: Seq<isize>, t: Seq<isize>, lo: int, hi: int, a: int, b: int)
    requires
        s.len() == t.len(),
        0 <= lo <= a <= b <= hi <= s.len(),
        t.subrange(a, b).to_multiset() == s.subrange(a, b).to_multiset(),
        forall|k: int| lo <= k < a ==> t[k] == s[k],
        forall|k: int| b <= k < hi ==> t[k] == s[k],
    ensures
        t.subrange(lo, hi).to_multiset() == s.subrange(lo, hi).to_multiset(),
{
    broadcast use lemma_multiset_commutative;

    lemma_subrange_split(s, lo, a, hi);
    lemma_subrange_split(s, a, b, hi);
    lemma_subrange_split(t, lo, a, hi);
    lemma_subrange_split(t, a, b, hi);
    assert(t.subrange(lo, a) =~= s.subrange(lo, a));
    assert(t.subrange(b, hi) =~= s.subrange(b, hi));
    assert(s.subrange(a, hi) == s.subrange(a, b) + s.subrange(b, hi));
    assert(t.subrange(a, hi) == t.subrange(a, b) + t.subrange(b, hi));
    assert(t.subrange(lo, hi).to_multiset() == s.subrange(lo, hi).to_multiset());
}

/// Three consecutive parts — sorted values below a pivot, values equal to
/// it, sorted values at or above it — concatenate to a sorted sequence.
pub proof fn lemma_sorted_three_parts(a: Seq<isize>, b: Seq<isize>, c: Seq<isize>, pv: isize)
    requires
        is_sorted(a),
        is_sorted(c),
        forall|k: int| 0 <= k < a.len() ==> a[k] < pv,
        forall|k: int| 0 <= k < b.len() ==> b[k] == pv,
        forall|k: int| 0 <= k < c.len() ==> c[k] >= pv,
    ensures
        is_sorted(a + b + c),
{
    let s = a + b + c;
    let na = a.len() as int;
    let nb = b.len() as int;
    assert forall|i: int, j: int| 0 <= i < j < s.len() implies s[i] <= s[j] by {
        assert(forall|k: int| 0 <= k < na ==> s[k] == a[k]);
        assert(forall|k: int| na <= k < na + nb ==> s[k] == b[k - na]);
        assert(forall|k: int| na + nb <= k < s.len() ==> s[k] == c[k - na - nb]);
    }
}

/// Every value of a sequence reappears somewhere in any multiset-equal
/// sequence, so a property of all values carries over.
pub proof fn lemma_multiset_all(s: Seq<isize>, t: Seq<isize>, p: spec_fn(isize) -> bool)
    requires
        s.to_multiset() == t.to_multiset(),
        forall|k: int| 0 <= k < s.len() ==> p(s[k]),
    ensures
        forall|k: int| 0 <= k < t.len() ==> p(t[k]),
{
    broadcast use group_to_multiset_ensures;

    assert forall|k: int| 0 <= k < t.len() implies p(t[k]) by {
        assert(t.contains(t[k]));
        assert(t.to_multiset().count(t[k]) > 0);
        assert(s.contains(t[k]));
        let m = choose|m: int| 0 <= m < s.len() && s[m] == t[k];
        assert(p(s[m]));
    }
}

} // verus!
