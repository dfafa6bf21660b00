use topk::heap::{sort_desc, MinHeap};
use topk::input::random_input;
use topk::select::select_nth;
use topk::{find_top_k_heap, find_top_k_quickselect, find_top_k_sort};

fn all_methods(numbers: &[i32], k: usize) -> [Vec<i32>; 3] {
    [
        find_top_k_heap(numbers, k),
        find_top_k_sort(numbers, k),
        find_top_k_quickselect(numbers, k),
    ]
}

fn sorted_copy_desc(numbers: &[i32]) -> Vec<i32> {
    let mut v = numbers.to_vec();
    v.sort_unstable_by(|a, b| b.cmp(a));
    v
}

#[test]
fn duplicates_at_the_top_are_all_kept() {
    let numbers = [5, 3, 9, 1, 9, 2];
    for r in all_methods(&numbers, 3) {
        assert_eq!(r, vec![9, 9, 5]);
    }
}

#[test]
fn k_equal_to_n_sorts_everything() {
    let numbers = [1, 2, 3, 4, 5];
    for r in all_methods(&numbers, 5) {
        assert_eq!(r, vec![5, 4, 3, 2, 1]);
    }
}

#[test]
fn k_zero_gives_empty_result() {
    let numbers = [4, 8, 15, 16, 23, 42];
    for r in all_methods(&numbers, 0) {
        assert!(r.is_empty());
    }
    let empty: [i32; 0] = [];
    for r in all_methods(&empty, 0) {
        assert!(r.is_empty());
    }
}

#[test]
fn k_equal_to_n_on_random_input() {
    let numbers = random_input(200);
    let expected = sorted_copy_desc(&numbers);
    for r in all_methods(&numbers, 200) {
        assert_eq!(r, expected);
    }
}

#[test]
fn methods_agree_on_random_input() {
    let numbers = random_input(1000);
    let expected: Vec<i32> = sorted_copy_desc(&numbers)[0..10].to_vec();
    for r in all_methods(&numbers, 10) {
        assert_eq!(r, expected);
    }
}

#[test]
fn result_is_descending_with_k_values() {
    let numbers = [7, -3, 12, 0, 12, 5, -8, 99, 4, 4];
    for k in 0..=numbers.len() {
        for r in all_methods(&numbers, k) {
            assert_eq!(r.len(), k);
            assert!(r.windows(2).all(|w| w[0] >= w[1]));
        }
    }
}

#[test]
fn selected_values_dominate_the_rest() {
    let numbers = [31, 7, 58, 2, 44, 19, 90, 63, 11, 25];
    let k = 4;
    for r in all_methods(&numbers, k) {
        let mut rest = numbers.to_vec();
        for x in &r {
            let pos = rest.iter().position(|y| y == x).unwrap();
            rest.remove(pos);
        }
        assert_eq!(rest.len(), numbers.len() - k);
        for x in &r {
            for y in &rest {
                assert!(x >= y);
            }
        }
        assert_eq!(r, vec![90, 63, 58, 44]);
    }
}

#[test]
fn rerun_on_same_input_is_identical() {
    let numbers = random_input(500);
    let first = all_methods(&numbers, 25);
    let second = all_methods(&numbers, 25);
    assert_eq!(first, second);
}

#[test]
fn all_equal_values() {
    let numbers = [6; 9];
    for r in all_methods(&numbers, 4) {
        assert_eq!(r, vec![6, 6, 6, 6]);
    }
}

#[test]
fn negative_and_extreme_values() {
    let numbers = [i32::MIN, -1, i32::MAX, 0, i32::MAX, -7];
    for r in all_methods(&numbers, 3) {
        assert_eq!(r, vec![i32::MAX, i32::MAX, 0]);
    }
}

#[test]
fn heap_pops_in_ascending_order() {
    let mut h = MinHeap::new();
    for x in [5, 1, 8, 3, 3, -2, 7] {
        h.push(x);
    }
    assert_eq!(h.len(), 7);
    assert_eq!(h.peek(), Some(-2));
    let mut out = Vec::new();
    while h.len() > 0 {
        out.push(h.pop());
    }
    assert_eq!(out, vec![-2, 1, 3, 3, 5, 7, 8]);
    assert_eq!(h.peek(), None);
}

#[test]
fn heap_empties_largest_first() {
    let mut h = MinHeap::new();
    for x in [2, 9, 4, 9, 0] {
        h.push(x);
    }
    assert_eq!(h.into_sorted_desc(), vec![9, 9, 4, 2, 0]);
}

#[test]
fn sort_desc_sorts_largest_first() {
    assert_eq!(sort_desc(&[3, 1, 4, 1, 5, 9, 2, 6]), vec![9, 6, 5, 4, 3, 2, 1, 1]);
    assert_eq!(sort_desc(&[]), Vec::<i32>::new());
}

#[test]
fn select_nth_places_order_statistic() {
    let original = vec![10, 4, 7, 1, 9, 4, 3, 8];
    let mut ascending = original.clone();
    ascending.sort();
    for nth in 0..original.len() {
        let mut v = original.clone();
        select_nth(&mut v, nth);
        assert_eq!(v[nth], ascending[nth]);
        assert!(v[..nth].iter().all(|x| *x <= v[nth]));
        assert!(v[nth + 1..].iter().all(|x| *x >= v[nth]));
        let mut back = v.clone();
        back.sort();
        assert_eq!(back, ascending);
    }
}

#[test]
fn random_input_stays_in_range() {
    let n = 1000;
    let numbers = random_input(n);
    assert_eq!(numbers.len(), n);
    assert!(numbers.iter().all(|x| *x >= 0 && (*x as usize) < 10 * n));
    let small = random_input(1);
    assert_eq!(small.len(), 1);
    assert!(small[0] >= 0 && small[0] < 10);
}
