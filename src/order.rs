//! The mathematical model of top-k selection: a sequence sorted from the
//! largest value down, and its first `k` entries.
use vstd::multiset::{group_multiset_axioms, lemma_multiset_empty_len, Multiset};
use vstd::prelude::*;
use vstd::relations::{sorted_by, total_ordering};
use vstd::seq_lib::{group_to_multiset_ensures, lemma_multiset_commutative, lemma_sorted_unique};

verus! {

broadcast use group_to_multiset_ensures;

/// The order in which results are listed: larger values come first.
pub open spec fn larger_first() -> spec_fn(i32, i32) -> bool {
    |a: i32, b: i32| a >= b
}

/// `s` is non-increasing.
pub open spec fn is_descending(s: Seq<i32>) -> bool {
    forall|i: int, j: int| 0 <= i < j < s.len() ==> s[i] >= s[j]
}

/// `s` with its values rearranged from the largest down.
pub open spec fn sorted_desc(s: Seq<i32>) -> Seq<i32> {
    s.sort_by(larger_first())
}

/// The `k` largest values of `s`, from the largest down.
pub open spec fn top_k(s: Seq<i32>, k: nat) -> Seq<i32> {
    sorted_desc(s).take(k as int)
}

/// `r` is a selection of the `k` largest values of `s`: exactly `k` of its
/// values, listed from the largest down, none smaller than any value left out.
pub open spec fn is_top_k_of(s: Seq<i32>, k: nat, r: Seq<i32>) -> bool {
    &&& r.len() == k
    &&& is_descending(r)
    &&& r.to_multiset().subset_of(s.to_multiset())
    &&& forall|x: i32, y: i32|
        r.to_multiset().contains(x) && s.to_multiset().sub(r.to_multiset()).contains(y) ==> x >= y
}

proof fn lemma_larger_first_total()
    ensures
        total_ordering(larger_first()),
{
}

/// What the sorted model is: a non-increasing rearrangement of `s`.
pub proof fn lemma_sorted_desc(s: Seq<i32>)
    ensures
        is_descending(sorted_desc(s)),
        sorted_desc(s).to_multiset() == s.to_multiset(),
        sorted_desc(s).len() == s.len(),
{
    lemma_larger_first_total();
    s.lemma_sort_by_ensures(larger_first());
    let t = sorted_desc(s);
    assert(sorted_by(t, larger_first()));
    assert forall|i: int, j: int| 0 <= i < j < t.len() implies t[i] >= t[j] by {
        assert(larger_first()(t[i], t[j]));
    }
    assert(t.to_multiset().len() == t.len());
}

/// A non-increasing rearrangement of `s` is the sorted model of `s`.
pub proof fn lemma_descending_is_sorted(s: Seq<i32>, r: Seq<i32>)
    requires
        is_descending(r),
        r.to_multiset() == s.to_multiset(),
    ensures
        r == sorted_desc(s),
{
    lemma_larger_first_total();
    lemma_sorted_desc(s);
    let t = sorted_desc(s);
    assert(sorted_by(r, larger_first())) by {
        assert forall|i: int, j: int| 0 <= i < j < r.len() implies #[trigger] larger_first()(
            r[i],
            r[j],
        ) by {}
    }
    assert(sorted_by(t, larger_first())) by {
        assert forall|i: int, j: int| 0 <= i < j < t.len() implies #[trigger] larger_first()(
            t[i],
            t[j],
        ) by {}
    }
    lemma_sorted_unique(r, t, larger_first());
}

/// Where `s` splits into a non-increasing `a` and a rest `b` whose values are
/// all at most those of `a`, `a` is the top `a.len()` of `s`.
pub proof fn lemma_split_top(s: Seq<i32>, a: Seq<i32>, b: Seq<i32>)
    requires
        is_descending(a),
        a.to_multiset().add(b.to_multiset()) == s.to_multiset(),
        forall|i: int, j: int| 0 <= i < a.len() && 0 <= j < b.len() ==> a[i] >= b[j],
    ensures
        a == top_k(s, a.len()),
{
    lemma_sorted_desc(b);
    let u = sorted_desc(b);
    let c = a + u;
    assert forall|i: int, j: int| 0 <= i < j < c.len() implies c[i] >= c[j] by {
        if j >= a.len() && i < a.len() {
            let y = u[j - a.len()];
            assert(u.to_multiset().contains(y));
            assert(b.to_multiset().contains(y));
            let m = choose|m: int| 0 <= m < b.len() && b[m] == y;
            assert(a[i] >= b[m]);
        }
    }
    lemma_multiset_commutative(a, u);
    lemma_descending_is_sorted(s, c);
    assert(c.take(a.len() as int) == a);
}

/// A sequence that holds exactly the values of `m`.
proof fn lemma_seq_of_multiset(m: Multiset<i32>) -> (b: Seq<i32>)
    ensures
        b.to_multiset() == m,
    decreases m.len(),
{
    broadcast use group_multiset_axioms;

    if m.len() == 0 {
        lemma_multiset_empty_len(m);
        assert(Seq::<i32>::empty().to_multiset() =~= m);
        Seq::empty()
    } else {
        let x = m.choose();
        let b = lemma_seq_of_multiset(m.remove(x));
        assert(b.push(x).to_multiset() =~= m);
        b.push(x)
    }
}

/// The model selects the top `k`: it holds `k` values of `s`, listed from the
/// largest down, and each of them is at least every value of `s` left out.
pub proof fn lemma_top_k_selects(s: Seq<i32>, k: nat)
    requires
        k <= s.len(),
    ensures
        is_top_k_of(s, k, top_k(s, k)),
{
    broadcast use group_multiset_axioms;

    lemma_sorted_desc(s);
    let t = sorted_desc(s);
    let r = top_k(s, k);
    let rest = t.skip(k as int);
    assert(t == r + rest);
    lemma_multiset_commutative(r, rest);
    assert(s.to_multiset().sub(r.to_multiset()) =~= rest.to_multiset());
    assert forall|x: i32, y: i32|
        r.to_multiset().contains(x) && s.to_multiset().sub(r.to_multiset()).contains(y) implies x
        >= y by {
        let i = choose|i: int| 0 <= i < r.len() && r[i] == x;
        let j = choose|j: int| 0 <= j < rest.len() && rest[j] == y;
        assert(t[i] >= t[k + j]);
    }
}

/// A selection of the top `k` is unique: any sequence that selects the `k`
/// largest values of `s` is the model. So every method that selects them
/// returns the same sequence, and a method run twice on one input returns the
/// same sequence twice.
pub proof fn lemma_top_k_unique(s: Seq<i32>, k: nat, r: Seq<i32>)
    requires
        is_top_k_of(s, k, r),
    ensures
        r == top_k(s, k),
{
    broadcast use group_multiset_axioms;

    let b = lemma_seq_of_multiset(s.to_multiset().sub(r.to_multiset()));
    assert(r.to_multiset().add(b.to_multiset()) =~= s.to_multiset());
    assert forall|i: int, j: int| 0 <= i < r.len() && 0 <= j < b.len() implies r[i] >= b[j] by {
        assert(r.to_multiset().contains(r[i]));
        assert(b.to_multiset().contains(b[j]));
    }
    lemma_split_top(s, r, b);
}

/// At the edges: the top none of `s` is empty, and the top all of `s` is the
/// whole of `s` sorted from the largest down.
pub proof fn lemma_top_k_edges(s: Seq<i32>)
    ensures
        top_k(s, 0) == Seq::<i32>::empty(),
        top_k(s, s.len()) == sorted_desc(s),
{
    lemma_sorted_desc(s);
    assert(top_k(s, 0) =~= Seq::<i32>::empty());
    assert(top_k(s, s.len()) =~= sorted_desc(s));
}

} // verus!
