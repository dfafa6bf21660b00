//! Exchanging two entries of a vector, which keeps its values.
use vstd::prelude::*;
use vstd::seq_lib::group_to_multiset_ensures;

verus! {

broadcast use group_to_multiset_ensures;

/// Exchanges the entries at `a` and `b`.
pub fn swap_entries(v: &mut Vec<i32>, a: usize, b: usize)
    requires
        a < old(v).len(),
        b < old(v).len(),
    ensures
        final(v)@ == old(v)@.update(a as int, old(v)@[b as int]).update(b as int, old(v)@[a as int]),
        final(v)@.to_multiset() == old(v)@.to_multiset(),
{
    let x = v[a];
    let y = v[b];
    v[a] = y;
    v[b] = x;
    proof {
        let s = old(v)@;
        let s1 = s.update(a as int, y);
        assert(s1.to_multiset() =~= s.to_multiset().insert(y).remove(x));
        assert(s1.update(b as int, x).to_multiset() =~= s1.to_multiset().insert(x).remove(s1[b as int]));
        assert(final(v)@.to_multiset() =~= s.to_multiset());
    }
}

} // verus!
