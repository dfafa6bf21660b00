//! Selection of the `k` largest values of a sequence of integers, by three
//! methods that are proved to return the same result.
use vstd::prelude::*;
use vstd::seq_lib::{group_to_multiset_ensures, lemma_multiset_commutative};

pub mod heap;
pub mod input;
pub mod order;
pub mod select;
mod swap;

use crate::heap::{sort_desc, MinHeap};
use crate::order::{is_top_k_of, lemma_sorted_desc, lemma_split_top, lemma_top_k_selects, top_k};
use crate::select::select_nth;

verus! {

broadcast use group_to_multiset_ensures;

/// The `k` largest values of `numbers`, from the largest down: a single scan
/// that keeps the best `k` seen so far in a min-heap.
pub fn find_top_k_heap(numbers: &[i32], k: usize) -> (r: Vec<i32>)
    requires
        k <= numbers@.len(),
    ensures
        r@ == top_k(numbers@, k as nat),
        is_top_k_of(numbers@, k as nat, r@),
{
    proof {
        lemma_top_k_selects(numbers@, k as nat);
    }
    let n = numbers.len();
    let mut heap = MinHeap::new();
    let ghost mut dropped: Seq<i32> = Seq::empty();
    let mut i: usize = 0;
    while i < n
        invariant
            n == numbers@.len(),
            k <= n,
            i <= n,
            heap.wf(),
            heap@.len() == if i < k { i } else { k },
            heap@.add(dropped.to_multiset()) == numbers@.take(i as int).to_multiset(),
            heap@.len() < k ==> dropped.len() == 0,
            forall|x: i32, j: int|
                #[trigger] heap@.contains(x) && 0 <= j < dropped.len() ==> x >= #[trigger] dropped[j],
        decreases n - i,
    {
        let num = numbers[i];
        assert(numbers@.take(i + 1) == numbers@.take(i as int).push(num));
        let ghost h0 = heap@;
        let ghost d0 = dropped;
        if heap.len() < k {
            heap.push(num);
        } else {
            match heap.peek() {
                Some(least) => {
                    if num > least {
                        heap.pop();
                        heap.push(num);
                        proof {
                            dropped = dropped.push(least);
                            assert forall|x: i32| #[trigger] heap@.contains(x) implies x >= least by {
                                assert(heap@ == h0.remove(least).insert(num));
                                if x != num {
                                    assert(heap@.count(x) == h0.remove(least).count(x));
                                    assert(h0.remove(least).count(x) <= h0.count(x));
                                    assert(h0.contains(x));
                                }
                            }
                        }
                    } else {
                        proof {
                            dropped = dropped.push(num);
                        }
                    }
                },
                None => {
                    proof {
                        dropped = dropped.push(num);
                    }
                },
            }
        }
        i = i + 1;
    }
    assert(numbers@.take(n as int) == numbers@);
    let r = heap.into_sorted_desc();
    proof {
        assert forall|a: int, b: int| 0 <= a < r@.len() && 0 <= b < dropped.len() implies r@[a]
            >= dropped[b] by {
            assert(heap@.contains(r@[a]));
        }
        lemma_split_top(numbers@, r@, dropped);
    }
    r
}

/// The `k` largest values of `numbers`, from the largest down: the first `k`
/// values of a full sort.
pub fn find_top_k_sort(numbers: &[i32], k: usize) -> (r: Vec<i32>)
    requires
        k <= numbers@.len(),
    ensures
        r@ == top_k(numbers@, k as nat),
        is_top_k_of(numbers@, k as nat, r@),
{
    proof {
        lemma_top_k_selects(numbers@, k as nat);
    }
    let sorted = sort_desc(numbers);
    proof {
        lemma_sorted_desc(numbers@);
    }
    let mut r: Vec<i32> = Vec::new();
    let mut i: usize = 0;
    while i < k
        invariant
            i <= k <= sorted@.len(),
            sorted@.len() == numbers@.len(),
            r@ == sorted@.take(i as int),
        decreases k - i,
    {
        r.push(sorted[i]);
        i = i + 1;
    }
    r
}

/// The `k` largest values of `numbers`, from the largest down: a partition
/// around the `k`-th largest value, then a sort of the `k` values above it.
pub fn find_top_k_quickselect(numbers: &[i32], k: usize) -> (r: Vec<i32>)
    requires
        k <= numbers@.len(),
    ensures
        r@ == top_k(numbers@, k as nat),
        is_top_k_of(numbers@, k as nat, r@),
{
    proof {
        lemma_top_k_selects(numbers@, k as nat);
    }
    let n = numbers.len();
    let mut work: Vec<i32> = Vec::new();
    let mut i: usize = 0;
    while i < n
        invariant
            n == numbers@.len(),
            i <= n,
            work@ == numbers@.take(i as int),
        decreases n - i,
    {
        work.push(numbers[i]);
        i = i + 1;
    }
    assert(work@ == numbers@);
    if k == 0 {
        let r: Vec<i32> = Vec::new();
        proof {
            assert(r@.to_multiset().add(numbers@.to_multiset()) =~= numbers@.to_multiset());
            lemma_split_top(numbers@, r@, numbers@);
        }
        return r;
    }
    let cut = n - k;
    select_nth(&mut work, cut);
    let mut upper: Vec<i32> = Vec::new();
    let mut j: usize = cut;
    while j < n
        invariant
            work@.len() == n,
            cut <= j <= n,
            upper@ == work@.subrange(cut as int, j as int),
        decreases n - j,
    {
        upper.push(work[j]);
        j = j + 1;
    }
    let r = sort_desc(upper.as_slice());
    proof {
        let lower = work@.take(cut as int);
        assert(work@ == lower + upper@);
        lemma_multiset_commutative(lower, upper@);
        lemma_sorted_desc(upper@);
        assert(r@.to_multiset().add(lower.to_multiset()) =~= numbers@.to_multiset());
        assert forall|a: int, b: int| 0 <= a < r@.len() && 0 <= b < lower.len() implies r@[a]
            >= lower[b] by {
            assert(upper@.to_multiset().contains(r@[a]));
            let m = choose|m: int| 0 <= m < upper@.len() && upper@[m] == r@[a];
            assert(work@[b] <= work@[cut as int]);
            assert(work@[cut as int] <= work@[cut + m]);
        }
        lemma_split_top(numbers@, r@, lower);
    }
    r
}

} // verus!
