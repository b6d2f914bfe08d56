use lib::collections::heap::sealed::{Max, Min};
use lib::collections::heap::{FixedHeap, IndexedMinHeap};
use lib::collections::AllocationError;

#[test]
fn fixed_heap_pops_in_priority_order() {
    let mut heap: FixedHeap<u32> = FixedHeap::with_capacity(8);
    for v in [5u32, 1, 9, 3, 7, 9, 2] {
        assert!(heap.push(v).is_ok());
    }
    assert_eq!(heap.len(), 7);
    assert_eq!(heap.peek(), Some(&9));
    let mut out = Vec::new();
    while let Some(v) = heap.pop() {
        out.push(v);
    }
    assert_eq!(out, vec![9, 9, 7, 5, 3, 2, 1]);
    assert!(heap.is_empty());
}

#[test]
fn fixed_heap_hands_back_value_when_full() {
    let mut heap: FixedHeap<i64> = FixedHeap::with_capacity(2);
    assert_eq!(heap.capacity(), 2);
    assert!(heap.push(-4).is_ok());
    assert!(heap.push(10).is_ok());
    assert_eq!(heap.push(3), Err(3));
    assert_eq!(heap.len(), 2);
    assert_eq!(heap.pop(), Some(10));
    assert!(heap.push(3).is_ok());
    assert_eq!(heap.pop(), Some(3));
    assert_eq!(heap.pop(), Some(-4));
    assert_eq!(heap.pop(), None);
}

#[test]
fn fixed_heap_zero_capacity_refuses_everything() {
    let mut heap: FixedHeap<u8> = FixedHeap::with_capacity(0);
    assert_eq!(heap.push(1), Err(1));
    assert_eq!(heap.peek(), None);
    assert_eq!(heap.pop(), None);
}

#[test]
fn fixed_heap_pop_if_checks_only_the_top() {
    let mut heap: FixedHeap<u16> = FixedHeap::with_capacity(4);
    heap.push(4).unwrap();
    heap.push(8).unwrap();
    assert_eq!(heap.pop_if(|v| *v < 5), None);
    assert_eq!(heap.len(), 2);
    assert_eq!(heap.pop_if(|v| *v == 8), Some(8));
    assert_eq!(heap.pop_if(|v| *v < 5), Some(4));
    assert_eq!(heap.pop_if(|_| true), None);
}

#[test]
fn fixed_heap_clear_empties() {
    let mut heap: FixedHeap<u64> = FixedHeap::with_capacity(3);
    heap.push(1).unwrap();
    heap.push(2).unwrap();
    heap.clear();
    assert!(heap.is_empty());
    assert_eq!(heap.capacity(), 3);
    assert_eq!(heap.pop(), None);
}

#[test]
fn law_pop_order_on_concrete_values() {
    let mut heap: FixedHeap<i32> = FixedHeap::with_capacity(16);
    let values = [12, -3, 40, 7, 7, 0, 25, -9, 33, 1];
    for v in values {
        heap.push(v).unwrap();
    }
    let mut last = i32::MAX;
    let mut count = 0;
    while let Some(v) = heap.pop() {
        assert!(v <= last);
        last = v;
        count += 1;
    }
    assert_eq!(count, values.len());
}

#[test]
fn law_push_peek_on_concrete_values() {
    let mut heap: FixedHeap<u32> = FixedHeap::with_capacity(4);
    heap.push(3).unwrap();
    heap.push(11).unwrap();
    assert!(*heap.peek().unwrap() >= 11);
    heap.push(2).unwrap();
    assert!(*heap.peek().unwrap() >= 2);
}

#[test]
fn indexed_min_heap_pops_least_key_first() {
    let mut heap: IndexedMinHeap<u64> = IndexedMinHeap::with_capacity(6);
    assert_eq!(heap.capacity(), 6);
    assert!(heap.insert(3, 50).is_ok());
    assert!(heap.insert(0, 20).is_ok());
    assert!(heap.insert(5, 70).is_ok());
    assert!(heap.insert(1, 10).is_ok());
    assert_eq!(heap.len(), 4);
    assert_eq!(heap.peek(), Some((1, &10)));
    assert_eq!(heap.pop(), Some((1, 10)));
    assert_eq!(heap.pop(), Some((0, 20)));
    assert_eq!(heap.pop(), Some((3, 50)));
    assert_eq!(heap.pop(), Some((5, 70)));
    assert_eq!(heap.pop(), None);
}

#[test]
fn indexed_min_heap_refuses_taken_or_outside_index() {
    let mut heap: IndexedMinHeap<i32> = IndexedMinHeap::with_capacity(2);
    assert!(heap.insert(0, 5).is_ok());
    assert_eq!(heap.insert(0, 6), Err(6));
    assert_eq!(heap.insert(2, 7), Err(7));
    assert!(heap.contains_key(0));
    assert!(!heap.contains_key(1));
    assert!(!heap.contains_key(9));
}

#[test]
fn indexed_min_heap_remove_and_reinsert() {
    let mut heap: IndexedMinHeap<u32> = IndexedMinHeap::with_capacity(4);
    heap.insert(0, 4).unwrap();
    heap.insert(1, 1).unwrap();
    heap.insert(2, 9).unwrap();
    assert_eq!(heap.remove(1), Some(1));
    assert_eq!(heap.remove(1), None);
    assert!(!heap.contains_key(1));
    assert_eq!(heap.peek(), Some((0, &4)));
    heap.insert(1, 0).unwrap();
    assert_eq!(heap.pop(), Some((1, 0)));
}

#[test]
fn indexed_min_heap_vacant_entry_and_grow() {
    let mut heap: IndexedMinHeap<u8> = IndexedMinHeap::with_capacity(1);
    heap.vacant_entry(0).unwrap().insert(3);
    assert!(heap.vacant_entry(0).is_none());
    assert!(heap.vacant_entry(1).is_none());
    heap.grow_to(3);
    assert_eq!(heap.capacity(), 3);
    heap.vacant_entry(2).unwrap().insert(1);
    assert_eq!(heap.pop(), Some((2, 1)));
    heap.clear();
    assert!(heap.is_empty());
}

#[test]
fn indexed_min_heap_try_with_capacity() {
    let heap: Result<IndexedMinHeap<u16>, AllocationError> = IndexedMinHeap::try_with_capacity(5);
    let heap = heap.ok().unwrap();
    assert_eq!(heap.capacity(), 5);
    assert!(heap.is_empty());
}

#[test]
fn law_min_pop_order_on_concrete_values() {
    let mut heap: IndexedMinHeap<i64> = IndexedMinHeap::with_capacity(8);
    let keys = [30i64, -2, 17, 17, 5, 100, -40, 8];
    for (i, k) in keys.iter().enumerate() {
        heap.insert(i, *k).unwrap();
    }
    let mut last = i64::MIN;
    while let Some((_, k)) = heap.pop() {
        assert!(k >= last);
        last = k;
    }
}

#[test]
fn max_wrapper_behaves_as_max_heap() {
    let mut heap: Max<u32> = Max::with_capacity(3);
    heap.push(2).unwrap();
    heap.push(6).unwrap();
    assert_eq!(heap.peek(), Some(&6));
    assert_eq!(heap.pop_if(|v| *v > 10), None);
    assert_eq!(heap.pop(), Some(6));
    assert_eq!(heap.len(), 1);
    heap.clear();
    assert!(heap.is_empty());
}

#[test]
fn min_wrapper_set_grows_and_replaces() {
    let mut heap: Min<u32> = Min::new();
    heap.set(4, 9);
    assert!(heap.capacity() >= 5);
    heap.set(1, 3);
    heap.set(4, 1);
    assert_eq!(heap.peek(), Some((4, &1)));
    assert_eq!(heap.pop_if(|k| *k > 5), None);
    assert_eq!(heap.pop(), Some((4, 1)));
    assert_eq!(heap.remove(1), Some(3));
    assert!(heap.is_empty());
}

#[test]
fn indexed_min_heap_removed_key_is_gone_and_rest_pop_in_order() {
    let mut h: IndexedMinHeap<u8> = IndexedMinHeap::with_capacity(4);
    assert!(h.insert(0, 5).is_ok());
    assert!(h.insert(1, 1).is_ok());
    assert!(h.insert(2, 3).is_ok());
    assert!(h.insert(3, 4).is_ok());
    assert_eq!(h.remove(1), Some(1));
    assert_eq!(h.remove(1), None);
    assert!(!h.contains_key(1));
    assert_eq!(h.len(), 3);
    assert_eq!(h.pop(), Some((2, 3)));
    assert_eq!(h.pop(), Some((3, 4)));
    assert_eq!(h.pop(), Some((0, 5)));
    assert_eq!(h.pop(), None);
    assert!(h.is_empty());
}
