//! Ordering facts shared by the sequential and the pooled sort.
use vstd::prelude::*;
use vstd::relations::{sorted_by, total_ordering};
use vstd::seq_lib::lemma_sorted_unique;

pub mod multi_thread;
pub mod single_thread;

verus! {

/// Every element is at most every element after it.
pub open spec fn sorted(s: Seq<i32>) -> bool {
    forall|i: int, j: int| 0 <= i < j < s.len() ==> s[i] <= s[j]
}

/// The region `[lo, hi)` of `s` is in non-decreasing order.
pub open spec fn sorted_between(s: Seq<i32>, lo: int, hi: int) -> bool {
    forall|i: int, j: int| lo <= i < j < hi ==> s[i] <= s[j]
}

/// `r` is `s` rearranged into non-decreasing order.
pub open spec fn is_sorted_permutation(r: Seq<i32>, s: Seq<i32>) -> bool {
    sorted(r) && r.to_multiset() == s.to_multiset()
}

/// Every element of the region `[lo, hi)` is at most `v`.
pub open spec fn all_le(s: Seq<i32>, lo: int, hi: int, v: i32) -> bool {
    forall|k: int| lo <= k < hi ==> s[k] <= v
}

/// Every element of the region `[lo, hi)` is at least `v`.
pub open spec fn all_ge(s: Seq<i32>, lo: int, hi: int, v: i32) -> bool {
    forall|k: int| lo <= k < hi ==> s[k] >= v
}

/// Rearranging the region `[lo, hi)` of `a` into `b` kept every bound that held of it.
pub open spec fn keeps_bounds(a: Seq<i32>, b: Seq<i32>, lo: int, hi: int) -> bool {
    &&& forall|v: i32| #[trigger] all_le(a, lo, hi, v) ==> all_le(b, lo, hi, v)
    &&& forall|v: i32| #[trigger] all_ge(a, lo, hi, v) ==> all_ge(b, lo, hi, v)
}

/// `b` equals `a` at every index outside the region `[lo, hi)`.
pub open spec fn same_outside(a: Seq<i32>, b: Seq<i32>, lo: int, hi: int) -> bool {
    a.len() == b.len() && forall|k: int|
        0 <= k < a.len() && !(lo <= k < hi) ==> #[trigger] b[k] == a[k]
}

spec fn leq(a: i32, b: i32) -> bool {
    a <= b
}

proof fn lemma_sorted_is_sorted_by(s: Seq<i32>)
    requires
        sorted(s),
    ensures
        sorted_by(s, |a: i32, b: i32| leq(a, b)),
        total_ordering(|a: i32, b: i32| leq(a, b)),
{
}

/// Two sorted rearrangements of one sequence are equal: any two correct sorts,
/// sequential or pooled, give the same output.
pub proof fn lemma_sorted_permutation_unique(r1: Seq<i32>, r2: Seq<i32>, s: Seq<i32>)
    requires
        is_sorted_permutation(r1, s),
        is_sorted_permutation(r2, s),
    ensures
        r1 == r2,
{
    lemma_sorted_is_sorted_by(r1);
    lemma_sorted_is_sorted_by(r2);
    lemma_sorted_unique(r1, r2, |a: i32, b: i32| leq(a, b));
}

/// Sorting a sorted sequence again leaves it as it is.
pub proof fn lemma_sort_idempotent(s: Seq<i32>, r: Seq<i32>, r2: Seq<i32>)
    requires
        is_sorted_permutation(r, s),
        is_sorted_permutation(r2, r),
    ensures
        r2 == r,
{
    lemma_sorted_permutation_unique(r2, r, r);
}

/// An empty or one-element sequence sorts to itself.
pub proof fn lemma_short_sorts_to_itself(s: Seq<i32>, r: Seq<i32>)
    requires
        s.len() <= 1,
        is_sorted_permutation(r, s),
    ensures
        r == s,
{
    lemma_sorted_permutation_unique(r, s, s);
}

/// A sequence whose elements are all equal sorts to itself.
pub proof fn lemma_constant_sorts_to_itself(s: Seq<i32>, r: Seq<i32>)
    requires
        forall|i: int, j: int| 0 <= i < s.len() && 0 <= j < s.len() ==> s[i] == s[j],
        is_sorted_permutation(r, s),
    ensures
        r == s,
{
    lemma_sorted_permutation_unique(r, s, s);
}

/// Exchanges two elements of a region; the elements of the region stay the same.
pub(crate) fn swap(xs: &mut [i32], i: usize, j: usize, Ghost(lo): Ghost<int>, Ghost(hi): Ghost<int>)
    requires
        0 <= lo <= i < hi,
        lo <= j < hi,
        hi <= old(xs)@.len(),
    ensures
        final(xs)@ == old(xs)@.update(i as int, old(xs)@[j as int]).update(j as int, old(xs)@[i as int]),
        final(xs)@.to_multiset() == old(xs)@.to_multiset(),
        same_outside(old(xs)@, final(xs)@, lo, hi),
        keeps_bounds(old(xs)@, final(xs)@, lo, hi),
{
    let a = xs[i];
    let b = xs[j];
    proof {
        let s = xs@;
        let t = s.update(i as int, b);
        vstd::seq_lib::to_multiset_update(s, i as int, b);
        vstd::seq_lib::to_multiset_update(t, j as int, a);
        assert(t[j as int] == b);
        assert(s.contains(a)) by {
            assert(s[i as int] == a);
        }
        vstd::seq_lib::to_multiset_contains(s, a);
        broadcast use vstd::multiset::group_multiset_axioms;
        assert(t.update(j as int, a).to_multiset() =~= s.to_multiset());
    }
    xs[i] = b;
    xs[j] = a;
}

/// Lomuto partition of the region `[lo, hi)` around its last element, with the
/// split clamped inside the region: returns `p` with `lo < p < hi` such that every
/// element of `[lo, p)` is at most every element of `[p, hi)`.
pub(crate) fn partition(xs: &mut [i32], lo: usize, hi: usize) -> (p: usize)
    requires
        lo + 2 <= hi <= old(xs)@.len(),
    ensures
        lo < p < hi,
        final(xs)@.to_multiset() == old(xs)@.to_multiset(),
        same_outside(old(xs)@, final(xs)@, lo as int, hi as int),
        keeps_bounds(old(xs)@, final(xs)@, lo as int, hi as int),
        forall|i: int, j: int| lo <= i < p <= j < hi ==> final(xs)@[i] <= final(xs)@[j],
{
    let ghost s0 = xs@;
    let last = hi - 1;
    let pivot = xs[last];
    let mut boundary: usize = lo;
    let mut i: usize = lo;
    while i < hi
        invariant
            lo <= boundary <= i <= hi,
            hi <= xs@.len(),
            last == hi - 1,
            xs@.to_multiset() == s0.to_multiset(),
            same_outside(s0, xs@, lo as int, hi as int),
            keeps_bounds(s0, xs@, lo as int, hi as int),
            all_le(xs@, lo as int, boundary as int, pivot),
            forall|k: int| boundary <= k < i ==> xs@[k] > pivot,
            i < hi ==> xs@[last as int] == pivot,
            i == hi ==> lo < boundary && xs@[boundary - 1] == pivot,
        decreases hi - i,
    {
        if xs[i] <= pivot {
            swap(xs, boundary, i, Ghost(lo as int), Ghost(hi as int));
            boundary = boundary + 1;
        }
        i = i + 1;
    }
    let ghost clamped = boundary >= hi;
    if boundary >= hi {
        boundary = boundary - 1;
    }
    let ghost s1 = xs@;
    swap(xs, boundary, last, Ghost(lo as int), Ghost(hi as int));
    proof {
        assert forall|a: int, b: int| lo <= a < boundary <= b < hi implies xs@[a] <= xs@[b] by {
            assert(s1[a] <= pivot);
            if clamped {
                assert(s1[b] == pivot);
            } else {
                assert(s1[b] > pivot);
                assert(s1[last as int] > pivot);
            }
        }
    }
    boundary
}

} // verus!
