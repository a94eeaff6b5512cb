use rand::Rng;
use threads_and_parallelism::sort::multi_thread::{quicksort_impl, SINGLETHREAD_THRESHOLD};
use threads_and_parallelism::sort::single_thread::quicksort;

/// Runs the pooled sort's steps one after another: each job's region is
/// stepped in turn, and the jobs it hands back are queued.
fn stepped_sort(xs: &mut [i32]) {
    let mut pending: Vec<(usize, usize)> = vec![(0, xs.len())];
    while let Some((lo, hi)) = pending.pop() {
        for (a, b) in quicksort_impl(&mut xs[lo..hi]) {
            pending.push((lo + a, lo + b));
        }
    }
}

fn random_vec(len: usize) -> Vec<i32> {
    let mut rng = rand::thread_rng();
    (0..len).map(|_| rng.gen()).collect()
}

fn is_sorted(xs: &[i32]) -> bool {
    xs.windows(2).all(|w| w[0] <= w[1])
}

#[test]
fn sequential_sort_orders_and_keeps_elements() {
    let mut xs = vec![5, -3, 9, 0, 5, 2, -3, 7];
    quicksort(&mut xs);
    assert_eq!(xs, vec![-3, -3, 0, 2, 5, 5, 7, 9]);
}

#[test]
fn sequential_sort_random() {
    let original = random_vec(5000);
    let mut xs = original.clone();
    quicksort(&mut xs);
    let mut expected = original;
    expected.sort();
    assert_eq!(xs, expected);
}

#[test]
fn sort_twice_is_sort_once() {
    let mut xs = random_vec(2000);
    quicksort(&mut xs);
    let once = xs.clone();
    quicksort(&mut xs);
    assert_eq!(xs, once);
}

#[test]
fn empty_and_single_are_unchanged() {
    let mut empty: Vec<i32> = vec![];
    quicksort(&mut empty);
    assert_eq!(empty, Vec::<i32>::new());
    let mut one = vec![42];
    quicksort(&mut one);
    assert_eq!(one, vec![42]);
    let mut one = vec![-7];
    stepped_sort(&mut one);
    assert_eq!(one, vec![-7]);
}

#[test]
fn all_equal_elements_sort() {
    let mut xs = vec![3; 1000];
    quicksort(&mut xs);
    assert_eq!(xs, vec![3; 1000]);
    let mut ys = vec![-1; 1000];
    stepped_sort(&mut ys);
    assert_eq!(ys, vec![-1; 1000]);
}

#[test]
fn stepped_and_sequential_sort_agree() {
    for len in [50usize, SINGLETHREAD_THRESHOLD, 300_000] {
        let original = random_vec(len);
        let mut a = original.clone();
        let mut b = original;
        quicksort(&mut a);
        stepped_sort(&mut b);
        assert_eq!(a, b, "length {}", len);
        assert!(is_sorted(&b));
    }
}

#[test]
fn step_below_threshold_sorts_outright() {
    let mut xs = vec![4, 1, 3, 2];
    let jobs = quicksort_impl(&mut xs);
    assert!(jobs.is_empty());
    assert_eq!(xs, vec![1, 2, 3, 4]);
}

#[test]
fn step_hands_back_disjoint_large_jobs() {
    let original = random_vec(450_000);
    let mut xs = original.clone();
    let jobs = quicksort_impl(&mut xs);
    assert!(jobs.len() <= 2);
    for &(lo, hi) in &jobs {
        assert!(lo < hi && hi <= xs.len());
        assert!(hi - lo >= SINGLETHREAD_THRESHOLD);
    }
    if jobs.len() == 2 {
        assert!(jobs[0].1 <= jobs[1].0);
    }
    let mut a = xs.clone();
    a.sort();
    let mut b = original;
    b.sort();
    assert_eq!(a, b);
}

#[test]
fn large_list_through_steps() {
    let len = 1_000_000;
    let mut xs: Vec<i32> = random_vec(len);
    stepped_sort(&mut xs);
    for i in 0..xs.len() - 1 {
        assert!(xs[i] <= xs[i + 1], "{} <= {}", xs[i], xs[i + 1]);
    }
}
