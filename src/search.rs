//! Lower-bound search over a non-decreasing table.

use vstd::prelude::*;

verus! {

/// `a` is non-decreasing on the index range `[lo, hi)`.
pub open spec fn sorted_between(a: Seq<u32>, lo: int, hi: int) -> bool {
    forall|i: int, j: int| lo <= i <= j < hi ==> a[i] <= a[j]
}

/// The first index in `[lo, hi)` whose element is at least `x`, or `hi` when
/// there is none.
pub open spec fn lower_bound(a: Seq<u32>, x: u32, lo: int, hi: int) -> int
    decreases hi - lo,
{
    if lo >= hi {
        hi
    } else if a[lo] >= x {
        lo
    } else {
        lower_bound(a, x, lo + 1, hi)
    }
}

/// An index `r` in `[lo, hi]` that has only smaller elements before it, from
/// `lo` on, and is `hi` or holds an element at least `x`, is the lower bound.
pub proof fn lemma_lower_bound_unique(a: Seq<u32>, x: u32, lo: int, hi: int, r: int)
    requires
        lo <= r <= hi,
        forall|k: int| lo <= k < r ==> a[k] < x,
        r == hi || a[r] >= x,
    ensures
        lower_bound(a, x, lo, hi) == r,
    decreases r - lo,
{
    if lo < r {
        lemma_lower_bound_unique(a, x, lo + 1, hi, r);
    }
}

/// The lower bound lies in `[lo, hi]`; the elements before it are smaller
/// than `x`, and it is `hi` or its element is at least `x`.
pub proof fn lemma_lower_bound_bounds(a: Seq<u32>, x: u32, lo: int, hi: int)
    requires
        lo <= hi,
    ensures
        lo <= lower_bound(a, x, lo, hi) <= hi,
        forall|k: int| lo <= k < lower_bound(a, x, lo, hi) ==> a[k] < x,
        lower_bound(a, x, lo, hi) == hi || a[lower_bound(a, x, lo, hi)] >= x,
    decreases hi - lo,
{
    if lo < hi && a[lo] < x {
        lemma_lower_bound_bounds(a, x, lo + 1, hi);
    }
}

/// Binary search for the leftmost index in `[low, hi)` whose element is at
/// least `x`; `hi` when no element there is.  On a range that is not sorted
/// the result still lies in `[low, hi]`.
pub fn bisect_left(a: &[u32], x: u32, low: usize, hi: usize) -> (r: usize)
    requires
        low <= hi <= a@.len(),
    ensures
        low <= r <= hi,
        sorted_between(a@, low as int, hi as int) ==> {
            &&& r == lower_bound(a@, x, low as int, hi as int)
            &&& forall|k: int| low <= k < r ==> a@[k] < x
            &&& forall|k: int| r <= k < hi ==> a@[k] >= x
        },
{
    let mut lo = low;
    let mut up = hi;
    while up > lo
        invariant
            low <= lo <= up <= hi <= a@.len(),
            sorted_between(a@, low as int, hi as int) ==> {
                &&& forall|k: int| low <= k < lo ==> a@[k] < x
                &&& forall|k: int| up <= k < hi ==> a@[k] >= x
            },
        decreases up - lo,
    {
        let mid = lo + (up - lo) / 2;
        if a[mid] >= x {
            up = mid;
        } else {
            lo = mid + 1;
        }
    }
    proof {
        if sorted_between(a@, low as int, hi as int) {
            lemma_lower_bound_unique(a@, x, low as int, hi as int, lo as int);
        }
    }
    lo
}

} // verus!
