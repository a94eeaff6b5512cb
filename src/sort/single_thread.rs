//! Sequential quicksort: the reference order and the fallback for small regions.
use vstd::prelude::*;

use super::{
    all_ge, all_le, is_sorted_permutation, keeps_bounds, partition, same_outside, sorted_between,
};

verus! {

/// Sorts `xs` in place into non-decreasing order.
pub fn quicksort(xs: &mut [i32])
    ensures
        is_sorted_permutation(final(xs)@, old(xs)@),
        final(xs)@.len() == old(xs)@.len(),
{
    let n = xs.len();
    quicksort_range(xs, 0, n);
}

/// Sorts the region `[lo, hi)` of `xs` in place and touches nothing outside it.
pub fn quicksort_range(xs: &mut [i32], lo: usize, hi: usize)
    requires
        lo <= hi <= old(xs)@.len(),
    ensures
        final(xs)@.to_multiset() == old(xs)@.to_multiset(),
        same_outside(old(xs)@, final(xs)@, lo as int, hi as int),
        keeps_bounds(old(xs)@, final(xs)@, lo as int, hi as int),
        sorted_between(final(xs)@, lo as int, hi as int),
    decreases hi - lo,
{
    if hi - lo <= 1 {
        return;
    }
    let ghost s0 = xs@;
    let p = partition(xs, lo, hi);
    let ghost s1 = xs@;
    quicksort_range(xs, lo, p);
    let ghost s2 = xs@;
    proof {
        assert forall|j: int| p <= j < hi implies all_le(s2, lo as int, p as int, #[trigger] s2[j]) by {
            assert(all_le(s1, lo as int, p as int, s1[j]));
            assert(s2[j] == s1[j]);
        }
    }
    quicksort_range(xs, p, hi);
    proof {
        let s3 = xs@;
        assert forall|i: int| lo <= i < p implies all_ge(s3, p as int, hi as int, #[trigger] s3[i]) by {
            assert(all_ge(s2, p as int, hi as int, s2[i])) by {
                assert forall|j: int| p <= j < hi implies s2[j] >= s2[i] by {
                    assert(all_le(s2, lo as int, p as int, s2[j]));
                }
            }
            assert(s3[i] == s2[i]);
        }
        assert forall|i: int, j: int| lo <= i < j < hi implies s3[i] <= s3[j] by {
            if j < p {
                assert(s3[i] == s2[i] && s3[j] == s2[j]);
            } else if i >= p {
            } else {
                assert(all_ge(s3, p as int, hi as int, s3[i]));
            }
        }
        assert forall|v: i32| #[trigger] all_le(s0, lo as int, hi as int, v) implies all_le(s3, lo as int, hi as int, v) by {
            assert(all_le(s1, lo as int, hi as int, v));
            assert(all_le(s1, lo as int, p as int, v));
            assert(all_le(s2, lo as int, p as int, v));
            assert(all_le(s2, p as int, hi as int, v));
            assert(all_le(s3, p as int, hi as int, v));
        }
        assert forall|v: i32| #[trigger] all_ge(s0, lo as int, hi as int, v) implies all_ge(s3, lo as int, hi as int, v) by {
            assert(all_ge(s1, lo as int, hi as int, v));
            assert(all_ge(s1, lo as int, p as int, v));
            assert(all_ge(s2, lo as int, p as int, v));
            assert(all_ge(s2, p as int, hi as int, v));
            assert(all_ge(s3, p as int, hi as int, v));
        }
    }
}

} // verus!
