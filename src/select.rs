//! In-place selection of an order statistic by repeated partitioning.
use vstd::prelude::*;
use crate::swap::swap_entries;

verus! {

/// Rearranges `v` so that the entry at `nth` is the value that a sorted
/// (ascending) `v` would hold there: no entry before it is larger, and no
/// entry after it is smaller.
pub fn select_nth(v: &mut Vec<i32>, nth: usize)
    requires
        nth < old(v).len(),
    ensures
        final(v).len() == old(v).len(),
        final(v)@.to_multiset() == old(v)@.to_multiset(),
        forall|i: int| 0 <= i < nth ==> #[trigger] final(v)@[i] <= final(v)@[nth as int],
        forall|j: int| nth < j < final(v).len() ==> final(v)@[nth as int] <= #[trigger] final(v)@[j],
{
    let n = v.len();
    let mut lo: usize = 0;
    let mut hi: usize = n;
    loop
        invariant
            v.len() == n,
            n == old(v).len(),
            v@.to_multiset() == old(v)@.to_multiset(),
            lo <= nth < hi <= n,
            forall|a: int, b: int| 0 <= a < lo <= b < n ==> v@[a] <= v@[b],
            forall|a: int, b: int| 0 <= a < hi <= b < n ==> v@[a] <= v@[b],
        decreases hi - lo,
    {
        let mid = lo + (hi - lo) / 2;
        swap_entries(v, mid, hi - 1);
        let pivot = v[hi - 1];
        let mut store: usize = lo;
        let mut j: usize = lo;
        while j < hi - 1
            invariant
                v.len() == n,
                n == old(v).len(),
                v@.to_multiset() == old(v)@.to_multiset(),
                lo <= nth < hi <= n,
                lo <= store <= j <= hi - 1,
                v@[hi - 1] == pivot,
                forall|a: int| lo <= a < store ==> #[trigger] v@[a] < pivot,
                forall|a: int| store <= a < j ==> #[trigger] v@[a] >= pivot,
                forall|a: int, b: int| 0 <= a < lo <= b < n ==> v@[a] <= v@[b],
                forall|a: int, b: int| 0 <= a < hi <= b < n ==> v@[a] <= v@[b],
            decreases hi - 1 - j,
        {
            if v[j] < pivot {
                swap_entries(v, store, j);
                store = store + 1;
            }
            j = j + 1;
        }
        swap_entries(v, store, hi - 1);
        // Gather the entries equal to the pivot right after it, so that a run
        // of equal values is settled in one round.
        let mut eq_end: usize = store + 1;
        let mut j: usize = store + 1;
        while j < hi
            invariant
                v.len() == n,
                n == old(v).len(),
                v@.to_multiset() == old(v)@.to_multiset(),
                lo <= nth < hi <= n,
                lo <= store < eq_end <= j <= hi,
                forall|a: int| lo <= a < store ==> #[trigger] v@[a] < pivot,
                forall|a: int| store <= a < eq_end ==> #[trigger] v@[a] == pivot,
                forall|a: int| eq_end <= a < j ==> #[trigger] v@[a] > pivot,
                forall|a: int| j <= a < hi ==> #[trigger] v@[a] >= pivot,
                forall|a: int, b: int| 0 <= a < lo <= b < n ==> v@[a] <= v@[b],
                forall|a: int, b: int| 0 <= a < hi <= b < n ==> v@[a] <= v@[b],
            decreases hi - j,
        {
            if v[j] == pivot {
                swap_entries(v, eq_end, j);
                eq_end = eq_end + 1;
            }
            j = j + 1;
        }
        if nth < store {
            hi = store;
        } else if nth < eq_end {
            return;
        } else {
            lo = eq_end;
        }
    }
}

} // verus!
