use lib::collections::batch::{IndexSet, Next};
use lib::collections::batch_set::BatchSet;

#[test]
fn batch_set_insert_pop_in_cursor_order() {
    let mut set = BatchSet::with_capacity(8);
    assert_eq!(set.capacity(), 8);
    assert!(set.insert(5));
    assert!(set.insert(2));
    assert!(!set.insert(5));
    assert!(!set.insert(8));
    assert_eq!(set.len(), 2);
    assert_eq!(set.pop(), Some(2));
    assert_eq!(set.pop(), Some(5));
    assert_eq!(set.pop(), None);
    assert!(set.is_empty());
}

#[test]
fn law_insert_during_drain_on_concrete_values() {
    let mut set = BatchSet::with_capacity(6);
    set.insert(1);
    set.insert(4);
    let mut drain = set.drain_batch().unwrap();
    assert!(set.drain_batch().is_none());
    assert!(set.insert(2));
    assert!(!set.insert(4));
    assert_eq!(drain.next(&mut set), Some(1));
    assert_eq!(drain.next(&mut set), Some(4));
    assert_eq!(drain.next(&mut set), None);
    drain.finish(&mut set);
    let mut second = set.drain_batch().unwrap();
    assert_eq!(second.next(&mut set), Some(2));
    assert_eq!(second.next(&mut set), None);
    second.finish(&mut set);
}

#[test]
fn batch_set_finish_returns_remaining_to_pending() {
    let mut set = BatchSet::with_capacity(4);
    set.insert(0);
    set.insert(3);
    let mut drain = set.drain_batch().unwrap();
    assert_eq!(drain.next(&mut set), Some(0));
    drain.finish(&mut set);
    assert_eq!(set.len(), 1);
    assert_eq!(set.pop(), Some(3));
}

#[test]
fn batch_set_remove_and_grow() {
    let mut set = BatchSet::with_capacity(2);
    assert!(set.insert(1));
    assert!(set.remove(1));
    assert!(!set.remove(1));
    set.grow_to(10);
    assert_eq!(set.capacity(), 10);
    assert!(set.insert(9));
    assert_eq!(set.pop(), Some(9));
}

#[test]
fn index_set_with_typed_indices() {
    let mut set: IndexSet<u16> = IndexSet::with_capacity(5);
    assert!(set.insert(3));
    assert!(set.insert(1));
    assert!(set.contains(3));
    assert!(!set.contains(2));
    assert_eq!(set.pop_from(2), Some(3));
    assert_eq!(set.pop_from(4), Some(1));
    assert!(set.is_empty());
    let front = set.front();
    assert!(front.is_none());
}

#[test]
fn index_set_front_take() {
    let mut set: IndexSet<usize> = IndexSet::try_with_capacity(4).ok().unwrap();
    set.insert(2);
    let front = set.front().unwrap();
    assert_eq!(front.get(), 2);
    assert_eq!(front.take(), 2);
    assert!(set.is_empty());
    assert!(set.remove(2) == false);
}

#[test]
fn index_set_drain_with_quota_and_pause() {
    let mut set: IndexSet<u32> = IndexSet::with_capacity(8);
    for i in [1u32, 3, 6] {
        set.insert(i);
    }
    let mut drain = set.drain_batch().unwrap();
    assert_eq!(drain.peek(&set), Some(1));
    let mut quota = 1usize;
    assert!(matches!(drain.next_with_quota(&mut set, &mut quota), Next::Item(1)));
    assert_eq!(quota, 0);
    assert!(matches!(drain.next_with_quota(&mut set, &mut quota), Next::Exhausted(3)));
    drain.pause(&mut set);
    set.insert(0);
    let mut resumed = set.drain_batch().unwrap();
    assert_eq!(resumed.next(&mut set), Some(3));
    assert_eq!(resumed.next(&mut set), Some(6));
    let mut quota = 5usize;
    assert!(matches!(resumed.next_with_quota(&mut set, &mut quota), Next::Empty));
    resumed.finish(&mut set);
    assert_eq!(set.pop(), Some(0));
}

#[test]
fn index_set_pop_from_past_capacity_wraps_to_first() {
    let mut set: IndexSet<usize> = IndexSet::with_capacity(8);
    set.insert(1);
    set.insert(6);
    assert_eq!(set.pop_from(12), Some(1));
    assert_eq!(set.pop_from(7), Some(6));
}

#[test]
fn batch_finish_keeps_cursor_order() {
    let mut set: IndexSet<usize> = IndexSet::with_capacity(8);
    set.insert(1);
    set.insert(5);
    let mut drain = set.drain_batch().unwrap();
    assert_eq!(drain.next(&mut set), Some(1));
    set.insert(3);
    drain.finish(&mut set);
    assert_eq!(set.len(), 2);
    assert!(set.contains(5) && set.contains(3));
    assert_eq!(set.pop(), Some(3));
    assert_eq!(set.pop(), Some(5));
    assert_eq!(set.pop(), None);
}
