use lib::collections::arena::{LinkedArena, StackArena};
use lib::collections::array::{ArrayVec, CopyArrayVec};
use lib::collections::fixed::arena::{Linked, Stack};
use lib::collections::fixed::array::{CopyInline, Inline};
use lib::collections::fixed::index::pool::Pool;
use lib::collections::fixed::index::Slots;
use lib::collections::fixed::pinned::recycle::{self, Recycle};
use lib::collections::linked_pool;
use lib::collections::pinned::Slice;
use lib::collections::AllocationError;

#[test]
fn linked_arena_lanes_are_fifo_and_isolated() {
    let mut arena: LinkedArena<u32> = LinkedArena::with_capacity(4, 2);
    assert_eq!(arena.capacity(), 4);
    assert_eq!(arena.lane_count(), 2);
    arena.push_back(0, 1).unwrap();
    arena.push_back(1, 10).unwrap();
    arena.push_back(0, 2).unwrap();
    arena.push_front(0, 0).unwrap();
    assert!(arena.is_full());
    assert_eq!(arena.push_back(1, 11), Err(11));
    assert_eq!(arena.push_back(5, 11), Err(11));
    assert_eq!(arena.lane_len(0), 3);
    assert_eq!(arena.front(1), Some(&10));
    assert_eq!(arena.pop_front(0), Some(0));
    assert_eq!(arena.pop_front(0), Some(1));
    assert_eq!(arena.pop_front(0), Some(2));
    assert_eq!(arena.pop_front(0), None);
    assert!(arena.lane_is_empty(0));
    assert_eq!(arena.available(), 3);
    *arena.front_mut(1).unwrap() += 1;
    assert_eq!(arena.pop_front(1), Some(11));
}

#[test]
fn stack_arena_lanes_are_lifo() {
    let mut arena: StackArena<char> = StackArena::with_capacity(3, 2);
    arena.push(0, 'a').unwrap();
    arena.push(0, 'b').unwrap();
    arena.push(1, 'z').unwrap();
    assert_eq!(arena.push(0, 'c'), Err('c'));
    assert_eq!(arena.pop(0), Some('b'));
    let mut drain = arena.drain(0);
    assert_eq!(drain.next(), Some('a'));
    assert_eq!(drain.next(), None);
    drain.finish();
    assert!(arena.lane_is_empty(0));
    assert!(!arena.lane_is_empty(1));
    assert_eq!(arena.available(), 2);
}

#[test]
fn linked_pool_front_and_pop() {
    let mut arena: linked_pool::LinkedArena<u8> = linked_pool::LinkedArena::with_capacity(2, 1);
    arena.push_back(0, 3).unwrap();
    arena.push_front(0, 4).unwrap();
    assert!(arena.is_full());
    assert_eq!(arena.front(0), Some(&4));
    assert_eq!(arena.lane_len(0), 2);
    assert_eq!(arena.pop_front(0), Some(4));
    assert_eq!(arena.pop_front(0), Some(3));
    assert!(arena.lane_is_empty(0));
}

#[test]
fn fixed_linked_front_entry_and_errors() {
    let r: Result<Linked<u8>, AllocationError> = Linked::try_with_capacity(u32::MAX as usize + 1, 1);
    assert!(matches!(r, Err(AllocationError::Overflow)));
    let mut linked: Linked<u8> = Linked::try_with_capacity(2, 2).ok().unwrap();
    linked.push_back(1, 7).unwrap();
    assert!(linked.front_entry(0).is_none());
    let front = linked.front_entry(1).unwrap();
    assert_eq!(front.take(), 7);
    assert!(linked.lane_is_empty(1));
    let mut stack: Stack<u8> = Stack::with_capacity(1, 1);
    stack.push(0, 1).unwrap();
    assert!(stack.is_full());
    assert_eq!(stack.pop(0), Some(1));
}

#[test]
fn array_vec_push_pop_and_iterate() {
    let mut v: ArrayVec<u32, 3> = ArrayVec::new();
    assert_eq!(v.capacity(), 3);
    v.push(1).unwrap();
    v.push(2).unwrap();
    v.push(3).unwrap();
    assert!(v.is_full());
    assert_eq!(v.push(4), Err(4));
    assert_eq!(v.as_slice(), &[1, 2, 3]);
    v.as_mut_slice()[0] = 9;
    assert_eq!(v.pop(), Some(3));
    let mut it = v.into_iter();
    assert_eq!(it.size_hint(), (2, Some(2)));
    assert_eq!(it.next(), Some(9));
    assert_eq!(it.next_back(), Some(2));
    assert_eq!(it.next(), None);
}

#[test]
fn copy_array_vec_from_fn() {
    let v: CopyArrayVec<usize, 4> = CopyArrayVec::from_fn(3, |i| i * i);
    assert_eq!(v.as_slice(), &[0, 1, 4]);
    assert_eq!(v.len(), 3);
    let d: CopyArrayVec<u8, 2> = CopyArrayVec::default();
    assert!(d.is_empty());
}

#[test]
fn inline_extend_truncate_clear() {
    let mut v: Inline<u8, 4> = Inline::new();
    assert!(v.try_extend_from_slice(&[1, 2, 3]).is_ok());
    assert!(v.try_extend_from_slice(&[4, 5]).is_err());
    assert_eq!(v.as_slice(), &[1, 2, 3]);
    v.truncate(1);
    assert_eq!(v.len(), 1);
    v.clear();
    assert!(v.is_empty());
    assert!(Inline::<u8, 2>::try_from_slice(&[1, 2, 3]).is_err());
    let w = Inline::<u8, 2>::try_from_slice(&[7]).ok().unwrap();
    assert_eq!(w.as_slice(), &[7]);
}

#[test]
fn copy_inline_insert_and_from_array() {
    let mut v: CopyInline<i32, 4> = CopyInline::from_array([1, 2, 3, 4]);
    assert!(v.is_full());
    assert_eq!(v.insert(0, 0), Err(0));
    assert_eq!(v.pop(), Some(4));
    assert!(v.insert(1, 9).is_ok());
    assert_eq!(v.as_slice(), &[1, 9, 2, 3]);
    assert_eq!(v.insert(9, 5), Err(5));
}

#[test]
fn slots_insert_remove_and_drain_where() {
    let mut slots: Slots<u32> = Slots::with_capacity(5);
    assert_eq!(slots.capacity(), 5);
    assert!(slots.try_insert(1, 10).is_ok());
    assert!(slots.try_insert(3, 30).is_ok());
    assert!(slots.try_insert(4, 41).is_ok());
    assert_eq!(slots.try_insert(3, 31), Err(31));
    assert_eq!(slots.try_insert(5, 50), Err(50));
    assert!(slots.contains(3));
    assert!(slots.vacant(0));
    assert_eq!(slots.get(4), Some(&41));
    let values: Vec<u32> = slots.values().into_iter().copied().collect();
    assert_eq!(values, vec![10, 30, 41]);
    let drained = slots.drain_where(|v| *v % 10 == 0);
    assert_eq!(drained, vec![10, 30]);
    assert_eq!(slots.len(), 1);
    assert_eq!(slots.remove(4), Some(41));
    assert_eq!(slots.remove(4), None);
    slots.try_insert(0, 1).unwrap();
    slots.clear();
    assert!(slots.is_empty());
}

#[test]
fn index_pool_hands_out_last_released_first() {
    let mut pool = Pool::try_with_capacity(3).ok().unwrap();
    assert_eq!(pool.capacity(), 3);
    assert_eq!(pool.take(), Some(0));
    assert_eq!(pool.take(), Some(1));
    assert_eq!(pool.available(), 1);
    pool.release(0);
    assert_eq!(pool.take(), Some(0));
    assert_eq!(pool.take_available(), 2);
    assert!(pool.is_exhausted());
    assert_eq!(pool.take(), None);
}

#[test]
fn pinned_slice_get() {
    let slice = Slice::from_vec(vec![5u8, 6]);
    assert_eq!(slice.len(), 2);
    assert_eq!(slice.get(1), Some(&6));
    assert_eq!(slice.get(2), None);
    assert!(!slice.is_empty());
}

struct Counter {
    uses: u32,
    resets: u32,
}

impl Recycle for Counter {
    fn recycle(&mut self) {
        self.uses = 0;
        self.resets += 1;
    }
}

#[test]
fn recycle_pool_resets_values_in_place() {
    let mut pool = recycle::Pool::with_capacity(2, |i| Counter { uses: i as u32, resets: 0 });
    assert_eq!(pool.capacity(), 2);
    let first = pool.reserve().unwrap();
    assert_eq!(first.index, 0);
    assert_eq!(first.get(&pool).uses, 0);
    first.get_mut(&mut pool).uses = 5;
    let lease = first.commit();
    assert_eq!(lease.get(&pool).uses, 5);
    let second = pool.reserve().unwrap();
    assert_eq!(second.index, 1);
    assert!(pool.reserve().is_none());
    lease.release(&mut pool);
    let again = pool.reserve().unwrap();
    assert_eq!(again.index, 0);
    assert_eq!(again.get(&pool).uses, 0);
    assert_eq!(again.get(&pool).resets, 1);
    again.release(&mut pool);
    second.release(&mut pool);
}

#[test]
fn recycle_pool_try_with_capacity() {
    let pool = recycle::Pool::try_with_capacity(3, |i| Counter { uses: 0, resets: i as u32 }).ok().unwrap();
    assert_eq!(pool.capacity(), 3);
}

#[test]
fn pinned_slice_get_mut_and_iter() {
    let mut slice = Slice::from_vec(vec![1u32, 2, 3]);
    *slice.get_mut(1).unwrap() = 20;
    assert!(slice.get_mut(3).is_none());
    let items: Vec<u32> = slice.iter().into_iter().copied().collect();
    assert_eq!(items, vec![1, 20, 3]);
}

#[test]
fn law_drain_frees_remaining_on_concrete_values() {
    let mut arena: StackArena<u32> = StackArena::with_capacity(4, 2);
    arena.push(0, 1).unwrap();
    arena.push(0, 2).unwrap();
    arena.push(0, 3).unwrap();
    arena.push(1, 9).unwrap();
    assert_eq!(arena.available(), 0);
    let mut drain = arena.drain(0);
    assert_eq!(drain.next(), Some(3));
    drain.finish();
    assert!(arena.lane_is_empty(0));
    assert_eq!(arena.available(), 3);
    assert_eq!(arena.pop(1), Some(9));
}

#[test]
fn slots_values_mut_changes_stored_values_in_place() {
    let mut slots: Slots<u32> = Slots::with_capacity(4);
    assert!(slots.try_insert(0, 1).is_ok());
    assert!(slots.try_insert(2, 3).is_ok());
    for value in slots.values_mut() {
        *value *= 10;
    }
    assert_eq!(slots.get(0), Some(&10));
    assert_eq!(slots.get(1), None);
    assert_eq!(slots.get(2), Some(&30));
    assert_eq!(slots.len(), 2);
}
