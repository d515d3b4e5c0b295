//! In-place quicksort over a vector of signed integers, with a choice of
//! two partition schemes (two-way and three-way, Dutch-flag style) and a
//! choice of execution mode (purely sequential recursion, or depth-bounded
//! fork-join parallelism via Rayon).
//!
//! Every sort variant carries the same contract: the buffer afterwards holds
//! the same multiset of values as before, in non-decreasing order.

pub mod order;
pub mod partition;
pub mod parallel;
pub mod sequential;

use vstd::prelude::*;
use crate::order::is_sorted;
use crate::parallel::{quicksort3_parallel, quicksort_parallel};
use crate::sequential::{quicksort, quicksort3};

verus! {

/// Which partition scheme a sort call uses.
#[derive(Clone, Copy, Debug)]
pub enum Scheme {
    /// Single-boundary partition: below the pivot to the left, at or above
    /// it to the right.
    TwoWay,
    /// Dutch-flag partition: below, equal to, and above the pivot, so that
    /// an equal run needs no further recursion.
    ThreeWay,
}

/// How a sort call executes.
#[derive(Clone, Copy, Debug)]
pub enum Mode {
    /// Plain recursion on one thread.
    Sequential,
    /// Fork-join recursion, up to `max_depth` fork levels.
    Parallel,
}

/// Sort the buffer in place, ascending, with the chosen partition scheme
/// and execution mode. `cutoff` is the region length at or below which the
/// recursion hands over to the baseline insertion sort; `max_depth` bounds
/// the parallel fork levels and is ignored by the sequential mode.
///
/// The buffer afterwards holds the same multiset of values as before, in
/// non-decreasing order; a buffer of length at most one comes back
/// unchanged. All four scheme/mode combinations return the same output for
/// the same input (`crate::order::lemma_sorted_permutation_unique`).
pub fn sort(buffer: &mut Vec<isize>, cutoff: usize, max_depth: usize, scheme: Scheme, mode: Mode)
    requires
        cutoff >= 1,
    ensures
        final(buffer)@.len() == old(buffer)@.len(),
        final(buffer)@.to_multiset() == old(buffer)@.to_multiset(),
        is_sorted(final(buffer)@),
        old(buffer)@.len() <= 1 ==> final(buffer)@ == old(buffer)@,
{
    match mode {
        Mode::Sequential => match scheme {
            Scheme::TwoWay => quicksort(buffer, cutoff),
            Scheme::ThreeWay => quicksort3(buffer, cutoff),
        },
        Mode::Parallel => match scheme {
            Scheme::TwoWay => quicksort_parallel(buffer, cutoff, max_depth, 0),
            Scheme::ThreeWay => quicksort3_parallel(buffer, cutoff, max_depth, 0),
        },
    }
}

} // verus!
