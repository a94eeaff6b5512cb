//! One step of the pooled quicksort. A step partitions its region, sorts the
//! parts below the threshold at once, and hands the others back as jobs: disjoint
//! regions that a worker pool may then sort concurrently, each by further steps.
use vstd::prelude::*;

use vstd::seq_lib::{lemma_multiset_commutative, to_multiset_contains};

use super::single_thread::{quicksort, quicksort_range};
use super::{
    all_ge, all_le, is_sorted_permutation, keeps_bounds, partition, same_outside,
    sorted_between,
};

verus! {

/// A region shorter than this is sorted in the current thread rather than
/// handed to the pool.
pub const SINGLETHREAD_THRESHOLD: usize = 100_000;

/// The index `i` lies in the region `job`.
pub open spec fn in_job(job: (usize, usize), i: int) -> bool {
    job.0 <= i < job.1
}

/// At most two jobs, each a region of `[0, n)` at least as long as the
/// threshold, in increasing order and pairwise disjoint.
pub open spec fn jobs_valid(jobs: Seq<(usize, usize)>, n: int) -> bool {
    &&& jobs.len() <= 2
    &&& forall|k: int|
        0 <= k < jobs.len() ==> #[trigger] jobs[k].0 < jobs[k].1 <= n && jobs[k].1 - jobs[k].0
            >= SINGLETHREAD_THRESHOLD
    &&& forall|k: int| 0 < k < jobs.len() ==> jobs[k - 1].1 <= #[trigger] jobs[k].0
}

/// Some job holds both `i` and `j`.
pub open spec fn same_job(jobs: Seq<(usize, usize)>, i: int, j: int) -> bool {
    exists|k: int| 0 <= k < jobs.len() && #[trigger] in_job(jobs[k], i) && in_job(jobs[k], j)
}

/// `s` is in order except inside the jobs: each pair of positions that no single
/// job holds is in order.
pub open spec fn ordered_except(s: Seq<i32>, jobs: Seq<(usize, usize)>) -> bool {
    forall|i: int, j: int| 0 <= i < j < s.len() && !same_job(jobs, i, j) ==> s[i] <= s[j]
}

/// Partitions `xs` once and sorts each part below the threshold in place; returns
/// the parts left to sort as jobs. A slice below the threshold is sorted outright
/// and gives no job.
pub fn quicksort_impl(xs: &mut [i32]) -> (jobs: Vec<(usize, usize)>)
    ensures
        final(xs)@.to_multiset() == old(xs)@.to_multiset(),
        final(xs)@.len() == old(xs)@.len(),
        jobs_valid(jobs@, old(xs)@.len() as int),
        forall|k: int| 0 <= k < jobs@.len() ==> #[trigger] jobs@[k].1 - jobs@[k].0 < old(xs)@.len(),
        ordered_except(final(xs)@, jobs@),
        old(xs)@.len() < SINGLETHREAD_THRESHOLD ==> jobs@.len() == 0,
{
    let mut jobs: Vec<(usize, usize)> = Vec::new();
    let n = xs.len();
    if n < SINGLETHREAD_THRESHOLD {
        quicksort(xs);
        return jobs;
    }
    let p = partition(xs, 0, n);
    let ghost s1 = xs@;
    if p < SINGLETHREAD_THRESHOLD {
        quicksort_range(xs, 0, p);
    } else {
        jobs.push((0, p));
    }
    let ghost s2 = xs@;
    proof {
        assert(same_outside(s1, s2, 0, p as int));
        assert forall|j: int| p <= j < n implies all_le(s2, 0, p as int, #[trigger] s2[j]) by {
            assert(all_le(s1, 0, p as int, s1[j]));
            assert(s2[j] == s1[j]);
        }
    }
    if n - p < SINGLETHREAD_THRESHOLD {
        quicksort_range(xs, p, n);
    } else {
        jobs.push((p, n));
    }
    proof {
        let s3 = xs@;
        assert forall|i: int| 0 <= i < p implies all_ge(s3, p as int, n as int, #[trigger] s3[i]) by {
            assert(all_ge(s2, p as int, n as int, s2[i])) by {
                assert forall|j: int| p <= j < n implies s2[j] >= s2[i] by {
                    assert(all_le(s2, 0, p as int, s2[j]));
                }
            }
            assert(s3[i] == s2[i]);
        }
        assert forall|i: int, j: int| 0 <= i < j < s3.len() && !same_job(jobs@, i, j) implies s3[i] <= s3[j] by {
            if j < p {
                assert(s3[i] == s2[i] && s3[j] == s2[j]);
                if p >= SINGLETHREAD_THRESHOLD {
                    assert(in_job(jobs@[0], i) && in_job(jobs@[0], j));
                }
            } else if i >= p {
                if n - p >= SINGLETHREAD_THRESHOLD {
                    let k = jobs@.len() - 1;
                    assert(in_job(jobs@[k], i) && in_job(jobs@[k], j));
                }
            } else {
                assert(all_ge(s3, p as int, n as int, s3[i]));
            }
        }
    }
    jobs
}

/// No job holds the index `i`.
pub open spec fn outside_jobs(jobs: Seq<(usize, usize)>, i: int) -> bool {
    forall|k: int| 0 <= k < jobs.len() ==> !#[trigger] in_job(jobs[k], i)
}

/// The region `[lo, hi)` of `t` is sorted and holds the same elements as that of `s`.
pub open spec fn region_sorted_from(s: Seq<i32>, t: Seq<i32>, lo: int, hi: int) -> bool {
    &&& sorted_between(t, lo, hi)
    &&& t.subrange(lo, hi).to_multiset() == s.subrange(lo, hi).to_multiset()
}

proof fn lemma_split3(s: Seq<i32>, lo: int, hi: int)
    requires
        0 <= lo <= hi <= s.len(),
    ensures
        s.to_multiset() == s.subrange(0, lo).to_multiset().add(
            s.subrange(lo, hi).to_multiset(),
        ).add(s.subrange(hi, s.len() as int).to_multiset()),
{
    let a = s.subrange(0, lo);
    let b = s.subrange(lo, hi);
    let c = s.subrange(hi, s.len() as int);
    assert(s =~= a + b + c);
    lemma_multiset_commutative(a + b, c);
    lemma_multiset_commutative(a, b);
}

/// Rearranging one region, and nothing else, keeps the elements and the bounds.
proof fn lemma_region_rearranged(s: Seq<i32>, t: Seq<i32>, lo: int, hi: int)
    requires
        0 <= lo <= hi <= s.len(),
        same_outside(s, t, lo, hi),
        t.subrange(lo, hi).to_multiset() == s.subrange(lo, hi).to_multiset(),
    ensures
        t.to_multiset() == s.to_multiset(),
        keeps_bounds(s, t, lo, hi),
{
    lemma_split3(s, lo, hi);
    lemma_split3(t, lo, hi);
    assert(s.subrange(0, lo) =~= t.subrange(0, lo));
    assert(s.subrange(hi, s.len() as int) =~= t.subrange(hi, t.len() as int));
    assert forall|k: int| lo <= k < hi implies exists|x: int| lo <= x < hi && s[x] == #[trigger] t[k] by {
        let ts = t.subrange(lo, hi);
        let ss = s.subrange(lo, hi);
        assert(ts[k - lo] == t[k]);
        to_multiset_contains(ts, t[k]);
        to_multiset_contains(ss, t[k]);
        let y = choose|y: int| 0 <= y < ss.len() && ss[y] == t[k];
        assert(s[lo + y] == t[k]);
    }
    assert forall|v: i32| #[trigger] all_le(s, lo, hi, v) implies all_le(t, lo, hi, v) by {
        assert forall|k: int| lo <= k < hi implies t[k] <= v by {
            let x = choose|x: int| lo <= x < hi && s[x] == #[trigger] t[k];
        }
    }
    assert forall|v: i32| #[trigger] all_ge(s, lo, hi, v) implies all_ge(t, lo, hi, v) by {
        assert forall|k: int| lo <= k < hi implies t[k] >= v by {
            let x = choose|x: int| lo <= x < hi && s[x] == #[trigger] t[k];
        }
    }
}

/// The region around `i`: the job that holds it, or `i` alone.
spec fn region_of(jobs: Seq<(usize, usize)>, i: int) -> (int, int) {
    if jobs.len() > 0 && in_job(jobs[0], i) {
        (jobs[0].0 as int, jobs[0].1 as int)
    } else if jobs.len() > 1 && in_job(jobs[1], i) {
        (jobs[1].0 as int, jobs[1].1 as int)
    } else {
        (i, i + 1)
    }
}

proof fn lemma_pair_in_order(s: Seq<i32>, t: Seq<i32>, jobs: Seq<(usize, usize)>, i: int, j: int)
    requires
        jobs_valid(jobs, s.len() as int),
        ordered_except(s, jobs),
        t.len() == s.len(),
        forall|x: int| 0 <= x < s.len() && outside_jobs(jobs, x) ==> t[x] == s[x],
        forall|k: int| 0 <= k < jobs.len() ==> keeps_bounds(s, t, jobs[k].0 as int, jobs[k].1 as int),
        0 <= i < j < s.len(),
        !same_job(jobs, i, j),
    ensures
        t[i] <= t[j],
{
    let (alo, ahi) = region_of(jobs, i);
    let (blo, bhi) = region_of(jobs, j);
    assert(alo <= i < ahi <= blo <= j < bhi);
    assert(keeps_bounds(s, t, alo, ahi)) by {
        if !(jobs.len() > 0 && in_job(jobs[0], i)) && !(jobs.len() > 1 && in_job(jobs[1], i)) {
            assert(outside_jobs(jobs, i));
        }
    }
    assert(keeps_bounds(s, t, blo, bhi)) by {
        if !(jobs.len() > 0 && in_job(jobs[0], j)) && !(jobs.len() > 1 && in_job(jobs[1], j)) {
            assert(outside_jobs(jobs, j));
        }
    }
    assert forall|x: int, y: int| alo <= x < ahi && blo <= y < bhi implies s[x] <= s[y] by {
        assert(!same_job(jobs, x, y));
    }
    assert forall|x: int| alo <= x < ahi implies s[x] <= t[j] by {
        assert(all_ge(s, blo, bhi, s[x]));
        assert(all_ge(t, blo, bhi, s[x]));
    }
    assert(all_le(s, alo, ahi, t[j]));
    assert(all_le(t, alo, ahi, t[j]));
}

/// Once each job's region has been sorted in place into a rearrangement of
/// itself, with nothing outside the jobs touched, the whole sequence is sorted
/// and holds the same elements as before.
pub proof fn lemma_jobs_finish_sort(s: Seq<i32>, t: Seq<i32>, jobs: Seq<(usize, usize)>)
    requires
        jobs_valid(jobs, s.len() as int),
        ordered_except(s, jobs),
        t.len() == s.len(),
        forall|x: int| 0 <= x < s.len() && outside_jobs(jobs, x) ==> t[x] == s[x],
        forall|k: int|
            0 <= k < jobs.len() ==> region_sorted_from(s, t, jobs[k].0 as int, jobs[k].1 as int),
    ensures
        is_sorted_permutation(t, s),
{
    let n = s.len() as int;
    if jobs.len() == 0 {
        assert(t =~= s) by {
            assert forall|x: int| 0 <= x < n implies t[x] == s[x] by {
                assert(outside_jobs(jobs, x));
            }
        }
        assert forall|k: int| 0 <= k < jobs.len() implies keeps_bounds(s, t, jobs[k].0 as int, jobs[k].1 as int) by {}
    } else if jobs.len() == 1 {
        let (lo, hi) = (jobs[0].0 as int, jobs[0].1 as int);
        assert forall|x: int| 0 <= x < n && !(lo <= x < hi) implies #[trigger] t[x] == s[x] by {
            assert(outside_jobs(jobs, x));
        }
        assert(region_sorted_from(s, t, lo, hi));
        lemma_region_rearranged(s, t, lo, hi);
    } else {
        let (lo0, hi0) = (jobs[0].0 as int, jobs[0].1 as int);
        let (lo1, hi1) = (jobs[1].0 as int, jobs[1].1 as int);
        let u = Seq::new(n as nat, |x: int| if lo0 <= x < hi0 { t[x] } else { s[x] });
        assert forall|x: int| 0 <= x < n && !(lo0 <= x < hi0) implies #[trigger] u[x] == s[x] by {}
        assert(u.subrange(lo0, hi0) =~= t.subrange(lo0, hi0));
        assert(region_sorted_from(s, t, lo0, hi0));
        lemma_region_rearranged(s, u, lo0, hi0);
        assert forall|x: int| 0 <= x < n && !(lo1 <= x < hi1) implies #[trigger] t[x] == u[x] by {
            if !(lo0 <= x < hi0) {
                assert(outside_jobs(jobs, x));
            }
        }
        assert(u.subrange(lo1, hi1) =~= s.subrange(lo1, hi1));
        assert(region_sorted_from(s, t, lo1, hi1));
        lemma_region_rearranged(u, t, lo1, hi1);
        assert(keeps_bounds(s, t, lo0, hi0)) by {
            assert forall|v: i32| #[trigger] all_le(s, lo0, hi0, v) implies all_le(t, lo0, hi0, v) by {
                assert(all_le(u, lo0, hi0, v));
            }
            assert forall|v: i32| #[trigger] all_ge(s, lo0, hi0, v) implies all_ge(t, lo0, hi0, v) by {
                assert(all_ge(u, lo0, hi0, v));
            }
        }
        assert(keeps_bounds(s, t, lo1, hi1)) by {
            assert forall|v: i32| #[trigger] all_le(s, lo1, hi1, v) implies all_le(t, lo1, hi1, v) by {
                assert(all_le(u, lo1, hi1, v));
            }
            assert forall|v: i32| #[trigger] all_ge(s, lo1, hi1, v) implies all_ge(t, lo1, hi1, v) by {
                assert(all_ge(u, lo1, hi1, v));
            }
        }
        assert forall|k: int| 0 <= k < jobs.len() implies keeps_bounds(s, t, jobs[k].0 as int, jobs[k].1 as int) by {}
    }
    assert forall|i: int, j: int| 0 <= i < j < n implies t[i] <= t[j] by {
        if same_job(jobs, i, j) {
            let k = choose|k: int| 0 <= k < jobs.len() && #[trigger] in_job(jobs[k], i) && in_job(jobs[k], j);
            assert(region_sorted_from(s, t, jobs[k].0 as int, jobs[k].1 as int));
        } else {
            lemma_pair_in_order(s, t, jobs, i, j);
        }
    }
}

} // verus!
