use rustsort::partition::{partition, partition3};
use rustsort::sequential::{quicksort, quicksort3};
use rustsort::parallel::{quicksort3_parallel, quicksort_parallel};
use rustsort::{sort, Mode, Scheme};

fn assert_adjacent_sorted(v: &[isize]) {
    for w in v.windows(2) {
        assert!(w[0] <= w[1], "out of order: {} > {}", w[0], w[1]);
    }
}

fn std_sorted(v: &[isize]) -> Vec<isize> {
    let mut c = v.to_vec();
    c.sort();
    c
}

/// A small deterministic pseudo-random generator, so the large inputs are
/// reproducible without any outside crate.
fn pseudo_random(n: usize, bound: isize) -> Vec<isize> {
    let mut state: u64 = 0x2545F4914F6CDD1D;
    let mut v: Vec<isize> = Vec::with_capacity(n);
    for _ in 0..n {
        state = state.wrapping_mul(6364136223846793005).wrapping_add(1442695040888963407);
        v.push(((state >> 33) % (bound as u64)) as isize);
    }
    v
}

#[test]
fn two_way_sequential_basic() {
    let mut v: Vec<isize> = vec![5, 3, 8, 1, 9, 2];
    quicksort(&mut v, 1);
    assert_eq!(v, vec![1, 2, 3, 5, 8, 9]);

    let mut w: Vec<isize> = vec![5, 3, 8, 1, 9, 2];
    sort(&mut w, 1, 0, Scheme::TwoWay, Mode::Sequential);
    assert_eq!(w, vec![1, 2, 3, 5, 8, 9]);
}

#[test]
fn three_way_all_equal() {
    for cutoff in [1usize, 2, 5] {
        let mut v: Vec<isize> = vec![4, 4, 4, 4, 4];
        quicksort3(&mut v, cutoff);
        assert_eq!(v, vec![4, 4, 4, 4, 4]);
    }
}

#[test]
fn partition3_all_equal_bounds() {
    let mut v: Vec<isize> = vec![4, 4, 4, 4, 4];
    let (lo, hi) = partition3(&mut v);
    assert_eq!((lo, hi), (0, 5));
    assert_eq!(v, vec![4, 4, 4, 4, 4]);
}

#[test]
fn partition3_mixed_bounds() {
    let mut v: Vec<isize> = vec![7, 2, 5, 9, 5, 1, 5];
    let (lo, hi) = partition3(&mut v);
    // The pivot value is the old last element, 5.
    assert_eq!(v[lo], 5);
    for k in 0..lo {
        assert!(v[k] < 5);
    }
    for k in lo..hi {
        assert_eq!(v[k], 5);
    }
    for k in hi..v.len() {
        assert!(v[k] > 5);
    }
    assert_eq!(hi - lo, 3);
}

#[test]
fn empty_input_unchanged() {
    for scheme in [Scheme::TwoWay, Scheme::ThreeWay] {
        for mode in [Mode::Sequential, Mode::Parallel] {
            let mut v: Vec<isize> = vec![];
            sort(&mut v, 3, 2, scheme, mode);
            assert!(v.is_empty());
        }
    }
}

#[test]
fn single_element_unchanged() {
    for scheme in [Scheme::TwoWay, Scheme::ThreeWay] {
        for mode in [Mode::Sequential, Mode::Parallel] {
            let mut v: Vec<isize> = vec![7];
            sort(&mut v, 1, 4, scheme, mode);
            assert_eq!(v, vec![7]);
        }
    }
}

#[test]
fn large_random_parallel_two_way() {
    let input = pseudo_random(10_000, 1000);
    let reference = std_sorted(&input);
    let mut v = input.clone();
    quicksort_parallel(&mut v, 100, 4, 0);
    assert_eq!(v, reference);
}

#[test]
fn large_random_parallel_three_way() {
    let input = pseudo_random(10_000, 50);
    let reference = std_sorted(&input);
    let mut v = input.clone();
    quicksort3_parallel(&mut v, 100, 4, 0);
    assert_eq!(v, reference);
}

#[test]
fn reverse_sorted_two_way_cutoff_one() {
    let mut v: Vec<isize> = vec![9, 8, 7, 6, 5, 4, 3, 2, 1];
    quicksort(&mut v, 1);
    assert_eq!(v, vec![1, 2, 3, 4, 5, 6, 7, 8, 9]);
}

#[test]
fn adjacent_pairs_in_order() {
    let input = pseudo_random(500, 40);
    let mut v = input.clone();
    sort(&mut v, 8, 2, Scheme::TwoWay, Mode::Parallel);
    assert_adjacent_sorted(&v);
}

#[test]
fn multiset_preserved() {
    let input = pseudo_random(500, 7);
    let reference = std_sorted(&input);
    for scheme in [Scheme::TwoWay, Scheme::ThreeWay] {
        for mode in [Mode::Sequential, Mode::Parallel] {
            let mut v = input.clone();
            sort(&mut v, 4, 3, scheme, mode);
            // Equal as sorted sequences: the same values, the same number
            // of times each.
            assert_eq!(v, reference);
        }
    }
}

#[test]
fn idempotent_on_sorted_input() {
    let sorted_input: Vec<isize> = vec![-9, -2, 0, 0, 1, 3, 3, 3, 11, 25];
    for scheme in [Scheme::TwoWay, Scheme::ThreeWay] {
        for mode in [Mode::Sequential, Mode::Parallel] {
            let mut v = sorted_input.clone();
            sort(&mut v, 2, 2, scheme, mode);
            assert_eq!(v, sorted_input);
        }
    }
}

#[test]
fn scheme_and_mode_equivalence() {
    let input = pseudo_random(300, 10);
    let mut first: Option<Vec<isize>> = None;
    for scheme in [Scheme::TwoWay, Scheme::ThreeWay] {
        for mode in [Mode::Sequential, Mode::Parallel] {
            let mut v = input.clone();
            sort(&mut v, 5, 3, scheme, mode);
            match &first {
                None => first = Some(v),
                Some(f) => assert_eq!(&v, f),
            }
        }
    }
}

#[test]
fn depth_zero_matches_sequential() {
    let input = pseudo_random(200, 30);
    for scheme in [Scheme::TwoWay, Scheme::ThreeWay] {
        let mut s = input.clone();
        sort(&mut s, 2, 0, scheme, Mode::Sequential);
        let mut p = input.clone();
        sort(&mut p, 2, 0, scheme, Mode::Parallel);
        assert_eq!(p, s);
    }
}

#[test]
fn partition_basic() {
    let mut v: Vec<isize> = vec![5, 3, 8, 1, 9, 2];
    let p = partition(&mut v);
    // The pivot value is the old last element, 2, now at its final index.
    assert_eq!(v[p], 2);
    for k in 0..p {
        assert!(v[k] < 2);
    }
    for k in p + 1..v.len() {
        assert!(v[k] >= 2);
    }
}

#[test]
fn baseline_only_when_cutoff_covers_input() {
    let mut v: Vec<isize> = vec![3, -1, 4, -1, 5, 9, 2, 6];
    quicksort(&mut v, 100);
    assert_eq!(v, vec![-1, -1, 2, 3, 4, 5, 6, 9]);
    let mut w: Vec<isize> = vec![3, -1, 4, -1, 5, 9, 2, 6];
    quicksort3(&mut w, 100);
    assert_eq!(w, v);
}

#[test]
fn parallel_forks_do_the_work() {
    // Small cutoff and a real depth budget: the fork-join path must run and
    // must actually sort both sides, or the output stays unsorted.
    let mut v: Vec<isize> = (1..=40).rev().map(|x| x as isize).collect();
    quicksort_parallel(&mut v, 2, 3, 0);
    let expected: Vec<isize> = (1..=40).map(|x| x as isize).collect();
    assert_eq!(v, expected);

    let mut w: Vec<isize> = (1..=40).rev().map(|x| x as isize).collect();
    quicksort3_parallel(&mut w, 2, 3, 0);
    assert_eq!(w, expected);
}

#[test]
fn duplicates_three_way_sequential() {
    let mut v: Vec<isize> = vec![2, 7, 2, 2, 9, 7, 2, 0, 7];
    quicksort3(&mut v, 1);
    assert_eq!(v, vec![0, 2, 2, 2, 2, 7, 7, 7, 9]);
}
