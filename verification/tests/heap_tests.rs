use injectivity::heap::{Keyed, MaxHeap};
use injectivity::merge::Candidate;

#[test]
fn empty_heap_has_nothing_to_pop() {
    let mut heap: MaxHeap<u64> = MaxHeap::new();
    assert!(heap.is_empty());
    assert_eq!(heap.len(), 0);
    assert_eq!(heap.pop(), None);
    assert_eq!(heap.len(), 0);
}

#[test]
fn pop_hands_out_values_in_descending_order() {
    let mut heap: MaxHeap<u64> = MaxHeap::new();
    for x in [5u64, 1, 9, 3, 7, 9, 0, u64::MAX, 2] {
        heap.push(x);
    }
    assert_eq!(heap.len(), 9);
    assert!(!heap.is_empty());
    let mut out = Vec::new();
    while let Some(x) = heap.pop() {
        out.push(x);
    }
    assert_eq!(out, vec![u64::MAX, 9, 9, 7, 5, 3, 2, 1, 0]);
    assert!(heap.is_empty());
}

#[test]
fn heap_agrees_with_sorting() {
    let mut heap: MaxHeap<u64> = MaxHeap::new();
    let mut values = Vec::new();
    let mut x: u64 = 12345;
    for _ in 0..2000 {
        x = x.wrapping_mul(6364136223846793005).wrapping_add(1442695040888963407);
        let v = x >> 54;
        values.push(v);
        heap.push(v);
    }
    values.sort();
    values.reverse();
    let mut out = Vec::new();
    while let Some(v) = heap.pop() {
        out.push(v);
    }
    assert_eq!(out, values);
}

#[test]
fn pushes_and_pops_may_alternate() {
    let mut heap: MaxHeap<u64> = MaxHeap::new();
    heap.push(4);
    heap.push(8);
    assert_eq!(heap.pop(), Some(8));
    heap.push(6);
    heap.push(2);
    assert_eq!(heap.pop(), Some(6));
    assert_eq!(heap.pop(), Some(4));
    assert_eq!(heap.len(), 1);
    assert_eq!(heap.pop(), Some(2));
    assert_eq!(heap.pop(), None);
}

#[test]
fn integers_are_ordered_by_value() {
    assert!(3u64.at_most(&3));
    assert!(3u64.at_most(&4));
    assert!(!4u64.at_most(&3));
}

#[test]
fn candidates_are_ordered_by_value_then_origin() {
    let low = Candidate { value: 1, origin: 9 };
    let high = Candidate { value: 2, origin: 0 };
    let high_later = Candidate { value: 2, origin: 1 };
    assert!(low.at_most(&high));
    assert!(!high.at_most(&low));
    assert!(high.at_most(&high_later));
    assert!(!high_later.at_most(&high));
    assert!(high.at_most(&high));
}

#[test]
fn heap_of_candidates_breaks_ties_by_origin() {
    let mut heap: MaxHeap<Candidate> = MaxHeap::new();
    heap.push(Candidate { value: 4, origin: 0 });
    heap.push(Candidate { value: 4, origin: 2 });
    heap.push(Candidate { value: 9, origin: 1 });
    heap.push(Candidate { value: 4, origin: 1 });
    assert_eq!(heap.pop(), Some(Candidate { value: 9, origin: 1 }));
    assert_eq!(heap.pop(), Some(Candidate { value: 4, origin: 2 }));
    assert_eq!(heap.pop(), Some(Candidate { value: 4, origin: 1 }));
    assert_eq!(heap.pop(), Some(Candidate { value: 4, origin: 0 }));
    assert_eq!(heap.pop(), None);
}
