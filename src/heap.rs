//! A binary min-heap of integers kept in a vector: the smallest value sits at
//! the root, and each entry is at most its children.
use vstd::prelude::*;
use vstd::multiset::Multiset;
use vstd::seq_lib::{group_to_multiset_ensures, lemma_multiset_commutative};
use crate::order::{is_descending, lemma_descending_is_sorted, sorted_desc};
use crate::swap::swap_entries;

verus! {

broadcast use group_to_multiset_ensures;

/// Each entry of `d` past the root is at least its parent.
pub open spec fn heap_ordered(d: Seq<i32>) -> bool {
    forall|i: int| 0 < i < d.len() ==> d[(i - 1) / 2] <= #[trigger] d[i]
}

proof fn lemma_root_is_least(d: Seq<i32>, i: int)
    requires
        heap_ordered(d),
        0 <= i < d.len(),
    ensures
        d[0] <= d[i],
    decreases i,
{
    if i > 0 {
        lemma_root_is_least(d, (i - 1) / 2);
    }
}

pub struct MinHeap {
    data: Vec<i32>,
}

impl View for MinHeap {
    type V = Multiset<i32>;

    /// The values that the heap holds, with their multiplicities.
    closed spec fn view(&self) -> Multiset<i32> {
        self.data@.to_multiset()
    }
}

impl MinHeap {
    /// The heap order holds of the entries.
    pub closed spec fn wf(&self) -> bool {
        heap_ordered(self.data@)
    }

    /// The least value that the heap holds.
    pub open spec fn is_least(&self, m: i32) -> bool {
        self@.contains(m) && forall|x: i32| #[trigger] self@.contains(x) ==> m <= x
    }

    pub fn new() -> (h: MinHeap)
        ensures
            h.wf(),
            h@ =~= Multiset::empty(),
    {
        MinHeap { data: Vec::new() }
    }

    pub fn len(&self) -> (n: usize)
        ensures
            n == self@.len(),
    {
        self.data.len()
    }

    /// The least value, or `None` for an empty heap.
    pub fn peek(&self) -> (r: Option<i32>)
        requires
            self.wf(),
        ensures
            r.is_none() <==> self@.len() == 0,
            r matches Some(m) ==> self.is_least(m),
    {
        if self.data.len() == 0 {
            None
        } else {
            proof {
                self.lemma_least_at_root();
            }
            Some(self.data[0])
        }
    }

    proof fn lemma_least_at_root(&self)
        requires
            self.wf(),
            self.data.len() > 0,
        ensures
            self.is_least(self.data@[0]),
    {
        assert(self.data@.contains(self.data@[0]));
        assert forall|x: i32| #[trigger] self@.contains(x) implies self.data@[0] <= x by {
            assert(self.data@.contains(x));
            let i = choose|i: int| 0 <= i < self.data@.len() && self.data@[i] == x;
            lemma_root_is_least(self.data@, i);
        }
    }

    pub fn push(&mut self, x: i32)
        requires
            old(self).wf(),
        ensures
            final(self).wf(),
            final(self)@ == old(self)@.insert(x),
    {
        self.data.push(x);
        let mut pos: usize = self.data.len() - 1;
        while pos > 0
            invariant
                0 <= pos < self.data.len(),
                self.data@.to_multiset() == old(self)@.insert(x),
                forall|i: int|
                    0 < i < self.data.len() && i != pos ==> self.data@[(i - 1) / 2]
                        <= #[trigger] self.data@[i],
                forall|i: int|
                    0 < i < self.data.len() && (i - 1) / 2 == pos && pos > 0 ==> self.data@[(pos
                        - 1) / 2] <= #[trigger] self.data@[i],
            ensures
                self.data@.to_multiset() == old(self)@.insert(x),
                heap_ordered(self.data@),
            decreases pos,
        {
            let p = (pos - 1) / 2;
            if self.data[p] <= self.data[pos] {
                break;
            }
            swap_entries(&mut self.data, p, pos);
            pos = p;
        }
    }

    /// Removes and returns the least value.
    pub fn pop(&mut self) -> (m: i32)
        requires
            old(self).wf(),
            old(self)@.len() > 0,
        ensures
            final(self).wf(),
            old(self).is_least(m),
            final(self)@ == old(self)@.remove(m),
    {
        proof {
            self.lemma_least_at_root();
        }
        let ghost d0 = self.data@;
        let last = self.data.pop().unwrap();
        assert(d0 == self.data@.push(last));
        if self.data.len() == 0 {
            return last;
        }
        let top = self.data[0];
        self.data[0] = last;
        let n = self.data.len();
        let mut pos: usize = 0;
        while n >= 2 && pos <= (n - 2) / 2
            invariant
                n == self.data.len(),
                0 <= pos < n,
                self.data@.to_multiset() == d0.to_multiset().remove(top),
                forall|i: int|
                    0 < i < n && (i - 1) / 2 != pos ==> self.data@[(i - 1) / 2]
                        <= #[trigger] self.data@[i],
                forall|i: int|
                    0 < i < n && (i - 1) / 2 == pos && pos > 0 ==> self.data@[(pos - 1) / 2]
                        <= #[trigger] self.data@[i],
            ensures
                self.data@.to_multiset() == d0.to_multiset().remove(top),
                heap_ordered(self.data@),
            decreases n - pos,
        {
            let l = 2 * pos + 1;
            let mut c = l;
            if l + 1 < n && self.data[l + 1] < self.data[l] {
                c = l + 1;
            }
            if self.data[pos] <= self.data[c] {
                break;
            }
            swap_entries(&mut self.data, pos, c);
            pos = c;
        }
        top
    }

    /// Empties the heap into a vector of its values, from the largest down.
    pub fn into_sorted_desc(self) -> (r: Vec<i32>)
        requires
            self.wf(),
        ensures
            is_descending(r@),
            r@.to_multiset() == self@,
    {
        let mut h = self;
        let n = h.len();
        let mut r: Vec<i32> = vec![0; n];
        let mut i: usize = n;
        while i > 0
            invariant
                h.wf(),
                r.len() == n,
                i <= n,
                h@.len() == i,
                forall|a: int, b: int| i <= a < b < n ==> r@[a] >= r@[b],
                forall|x: i32, j: int| #[trigger] h@.contains(x) && i <= j < n ==> x >= #[trigger] r@[j],
                h@.add(r@.subrange(i as int, n as int).to_multiset()) == self@,
            decreases i,
        {
            let ghost before = r@.subrange(i as int, n as int);
            let ghost h0 = h@;
            let m = h.pop();
            assert forall|x: i32| #[trigger] h@.contains(x) implies h0.contains(x) && m <= x by {
                assert(h0.remove(m).count(x) <= h0.count(x));
            }
            i = i - 1;
            r[i] = m;
            assert(r@.subrange(i as int, n as int) =~= seq![m] + before);
            proof {
                lemma_multiset_commutative(seq![m], before);
            }
        }
        assert(r@.subrange(0, n as int) =~= r@);
        r
    }
}

} // verus!

verus! {

/// The values of `numbers` from the largest down, by heap sort.
pub fn sort_desc(numbers: &[i32]) -> (r: Vec<i32>)
    ensures
        r@ == sorted_desc(numbers@),
{
    let mut h = MinHeap::new();
    let mut i: usize = 0;
    while i < numbers.len()
        invariant
            h.wf(),
            i <= numbers@.len(),
            h@ == numbers@.take(i as int).to_multiset(),
        decreases numbers@.len() - i,
    {
        assert(numbers@.take(i + 1) == numbers@.take(i as int).push(numbers@[i as int]));
        h.push(numbers[i]);
        i = i + 1;
    }
    assert(numbers@.take(i as int) == numbers@);
    let r = h.into_sorted_desc();
    proof {
        lemma_descending_is_sorted(numbers@, r@);
    }
    r
}

} // verus!
