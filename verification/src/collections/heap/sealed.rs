//! The heaps under their short names: [`Max`] of values and [`Min`] of keys
//! addressed by index, which grows on demand in [`Min::set`].
use vstd::multiset::Multiset;
use vstd::prelude::*;

use crate::collections::heap::{FixedHeap, IndexedMinHeap, Priority, NONE, is_greatest};
use crate::collections::AllocationError;

verus! {

/// A fixed-capacity max-heap.
pub struct Max<T> {
    heap: FixedHeap<T>,
}

impl<T> Max<T> {
    pub closed spec fn inner(&self) -> FixedHeap<T> {
        self.heap
    }

    /// The values held.
    pub open spec fn contents(&self) -> Multiset<T> {
        self.inner().contents()
    }

    pub fn with_capacity(capacity: usize) -> (h: Self)
        ensures
            h.inner().slots_filled(),
            h.inner().cap() == capacity,
            h.contents() == Multiset::<T>::empty(),
    {
        Max { heap: FixedHeap::with_capacity(capacity) }
    }

    pub fn len(&self) -> (n: usize)
        ensures
            n == self.contents().len(),
    {
        self.heap.len()
    }

    pub fn is_empty(&self) -> (b: bool)
        ensures
            b == (self.contents().len() == 0),
    {
        self.heap.is_empty()
    }

    /// Drops every value.
    pub fn clear(&mut self)
        ensures
            final(self).inner().slots_filled(),
            final(self).inner().cap() == old(self).inner().cap(),
            final(self).contents() == Multiset::<T>::empty(),
    {
        self.heap.clear();
    }
}

impl<T: Priority> Max<T> {
    pub open spec fn wf(&self) -> bool {
        self.inner().wf()
    }

    /// Adds `value`, or hands it back when the heap is full.
    pub fn push(&mut self, value: T) -> (r: Result<(), T>)
        requires
            old(self).wf(),
        ensures
            final(self).wf(),
            final(self).inner().cap() == old(self).inner().cap(),
            old(self).contents().len() == old(self).inner().cap() ==> r == Err::<(), T>(value) && *final(self)
                == *old(self),
            old(self).contents().len() < old(self).inner().cap() ==> r is Ok && final(self).contents()
                == old(self).contents().insert(value),
    {
        self.heap.push(value)
    }

    /// A value of the highest priority.
    pub fn peek(&self) -> (r: Option<&T>)
        requires
            self.wf(),
        ensures
            self.contents().len() == 0 ==> r is None,
            self.contents().len() > 0 ==> r == Some(&self.inner().top()) && is_greatest(
                self.contents(),
                self.inner().top(),
            ),
    {
        self.heap.peek()
    }

    /// Removes and returns a value of the highest priority.
    pub fn pop(&mut self) -> (r: Option<T>)
        requires
            old(self).wf(),
        ensures
            final(self).wf(),
            final(self).inner().cap() == old(self).inner().cap(),
            old(self).contents().len() == 0 ==> r is None && *final(self) == *old(self),
            old(self).contents().len() > 0 ==> r == Some(old(self).inner().top()) && is_greatest(
                old(self).contents(),
                old(self).inner().top(),
            ) && final(self).contents() == old(self).contents().remove(old(self).inner().top()),
    {
        self.heap.pop()
    }

    /// Removes the highest-priority value only when `predicate` accepts it.
    pub fn pop_if<F: FnOnce(&T) -> bool>(&mut self, predicate: F) -> (r: Option<T>)
        requires
            old(self).wf(),
            old(self).contents().len() > 0 ==> predicate.requires((&old(self).inner().top(),)),
        ensures
            final(self).wf(),
            final(self).inner().cap() == old(self).inner().cap(),
            old(self).contents().len() == 0 ==> r is None && *final(self) == *old(self),
            old(self).contents().len() > 0 && r is Some ==> predicate.ensures((&old(self).inner().top(),), true)
                && r == Some(old(self).inner().top()) && final(self).contents() == old(self).contents().remove(
                old(self).inner().top(),
            ),
            old(self).contents().len() > 0 && r is None ==> predicate.ensures(
                (&old(self).inner().top(),),
                false,
            ) && *final(self) == *old(self),
    {
        self.heap.pop_if(predicate)
    }
}

/// A min-heap of keys addressed by dense indices, grown on demand.
pub struct Min<K> {
    heap: IndexedMinHeap<K>,
}

/// A vacant index of a [`Min`], found by `vacant_entry`.
pub struct Vacant<'a, K> {
    pub heap: &'a mut Min<K>,
    pub index: usize,
}

impl<K> Min<K> {
    pub closed spec fn inner(&self) -> IndexedMinHeap<K> {
        self.heap
    }

    /// The key held at each index in the heap.
    pub open spec fn keys(&self) -> Map<int, K> {
        self.inner().keys()
    }

    pub open spec fn cap(&self) -> nat {
        self.inner().cap()
    }

    pub fn capacity(&self) -> (n: usize)
        ensures
            n == self.cap(),
    {
        self.heap.capacity()
    }
}

impl<K: Priority> Min<K> {
    pub open spec fn wf(&self) -> bool {
        self.inner().wf()
    }

    pub fn len(&self) -> (n: usize)
        requires
            self.wf(),
        ensures
            n == self.keys().len(),
    {
        self.heap.len()
    }

    pub fn is_empty(&self) -> (b: bool)
        requires
            self.wf(),
        ensures
            b == (self.keys().len() == 0),
    {
        self.heap.is_empty()
    }

    /// An empty heap with no indices.
    pub fn new() -> (h: Self)
        ensures
            h.wf(),
            h.cap() == 0,
            h.keys() == Map::<int, K>::empty(),
    {
        Min { heap: IndexedMinHeap::with_capacity(0) }
    }

    pub fn with_capacity(capacity: usize) -> (h: Self)
        requires
            capacity <= NONE,
        ensures
            h.wf(),
            h.cap() == capacity,
            h.keys() == Map::<int, K>::empty(),
    {
        Min { heap: IndexedMinHeap::with_capacity(capacity) }
    }

    /// Like `with_capacity`, but reports a failed reservation.
    pub fn try_with_capacity(capacity: usize) -> (r: Result<Self, AllocationError>)
        requires
            capacity <= NONE,
        ensures
            r is Ok ==> r->Ok_0.wf() && r->Ok_0.cap() == capacity && r->Ok_0.keys() == Map::<int, K>::empty(),
            r is Err ==> r->Err_0 == AllocationError::Exhausted,
    {
        match IndexedMinHeap::try_with_capacity(capacity) {
            Ok(heap) => Ok(Min { heap }),
            Err(e) => Err(e),
        }
    }

    /// Finds `index` vacant, so that a key can be inserted there.
    pub fn vacant_entry(&mut self, index: usize) -> (r: Option<Vacant<'_, K>>)
        requires
            old(self).wf(),
        ensures
            (index < old(self).cap() && !old(self).keys().dom().contains(index as int)) ==> r is Some
                && r->0.index == index && *r->0.heap == *old(self) && *final(r->0.heap) == *final(self),
            !(index < old(self).cap() && !old(self).keys().dom().contains(index as int)) ==> r is None
                && *final(self) == *old(self),
    {
        if index < self.heap.capacity() && !self.heap.contains_key(index) {
            Some(Vacant { heap: self, index })
        } else {
            None
        }
    }

    /// Inserts `key` at `index`, or hands it back when `index` is outside the
    /// capacity or already holds a key.
    pub fn insert(&mut self, index: usize, key: K) -> (r: Result<(), K>)
        requires
            old(self).wf(),
        ensures
            final(self).wf(),
            final(self).cap() == old(self).cap(),
            (index < old(self).cap() && !old(self).keys().dom().contains(index as int)) ==> r is Ok
                && final(self).keys() == old(self).keys().insert(index as int, key),
            !(index < old(self).cap() && !old(self).keys().dom().contains(index as int)) ==> r == Err::<(), K>(key)
                && *final(self) == *old(self),
    {
        self.heap.insert(index, key)
    }

    /// Inserts or replaces the key at `index`, growing the heap to hold
    /// `index` when needed.
    pub fn set(&mut self, index: usize, key: K)
        requires
            old(self).wf(),
            index < NONE,
        ensures
            final(self).wf(),
            final(self).cap() == (if index < old(self).cap() { old(self).cap() } else { index as nat + 1 }),
            final(self).keys() == old(self).keys().insert(index as int, key),
    {
        if index >= self.heap.capacity() {
            self.heap.grow_to(index + 1);
        }
        if self.heap.contains_key(index) {
            self.heap.update_key(index, key);
        } else {
            self.heap.insert_unchecked(index, key);
        }
    }

    /// The index with the lowest-priority key, and that key.
    pub fn peek(&self) -> (r: Option<(usize, &K)>)
        requires
            self.wf(),
        ensures
            self.keys().len() == 0 ==> r is None,
            self.keys().len() > 0 ==> (r matches Some((i, k)) && i == self.inner().top_index() && *k
                == self.inner().top_key()) && self.keys().dom().contains(self.inner().top_index())
                && self.keys()[self.inner().top_index()] == self.inner().top_key()
                && IndexedMinHeap::<K>::is_least(self.keys(), self.inner().top_key()),
    {
        self.heap.peek()
    }

    /// Removes the index with the lowest-priority key, returning it with its key.
    pub fn pop(&mut self) -> (r: Option<(usize, K)>)
        requires
            old(self).wf(),
        ensures
            final(self).wf(),
            final(self).cap() == old(self).cap(),
            old(self).keys().len() == 0 ==> r is None && *final(self) == *old(self),
            old(self).keys().len() > 0 ==> r == Some((old(self).inner().top_index() as usize, old(self).inner().top_key()))
                && old(self).keys().dom().contains(old(self).inner().top_index())
                && old(self).keys()[old(self).inner().top_index()] == old(self).inner().top_key()
                && IndexedMinHeap::<K>::is_least(old(self).keys(), old(self).inner().top_key())
                && final(self).keys() == old(self).keys().remove(old(self).inner().top_index()),
    {
        self.heap.pop()
    }

    /// Removes the minimum only when it satisfies `predicate`.
    pub fn pop_if<F: FnOnce(&K) -> bool>(&mut self, predicate: F) -> (r: Option<(usize, K)>)
        requires
            old(self).wf(),
            old(self).keys().len() > 0 ==> predicate.requires((&old(self).inner().top_key(),)),
        ensures
            final(self).wf(),
            final(self).cap() == old(self).cap(),
            old(self).keys().len() == 0 ==> r is None && *final(self) == *old(self),
            old(self).keys().len() > 0 && r is Some ==> predicate.ensures((&old(self).inner().top_key(),), true)
                && r == Some((old(self).inner().top_index() as usize, old(self).inner().top_key()))
                && final(self).keys() == old(self).keys().remove(old(self).inner().top_index()),
            old(self).keys().len() > 0 && r is None ==> predicate.ensures(
                (&old(self).inner().top_key(),),
                false,
            ) && *final(self) == *old(self),
    {
        let key = match self.heap.peek() {
            Some((_, key)) => key,
            None => return None,
        };
        if predicate(key) {
            self.heap.pop()
        } else {
            None
        }
    }

    /// Removes the key at `index`, if there is one.
    pub fn remove(&mut self, index: usize) -> (r: Option<K>)
        requires
            old(self).wf(),
        ensures
            final(self).wf(),
            final(self).cap() == old(self).cap(),
            !old(self).keys().dom().contains(index as int) ==> r is None && *final(self) == *old(self),
            old(self).keys().dom().contains(index as int) ==> r == Some(old(self).keys()[index as int])
                && final(self).keys() == old(self).keys().remove(index as int),
    {
        self.heap.remove(index)
    }

    /// Raises the number of indices to `capacity`, keeping every key.
    pub fn grow_to(&mut self, capacity: usize)
        requires
            old(self).wf(),
            old(self).cap() <= capacity <= NONE,
        ensures
            final(self).wf(),
            final(self).cap() == capacity,
            final(self).keys() == old(self).keys(),
    {
        self.heap.grow_to(capacity);
    }

    /// Removes every key.
    pub fn clear(&mut self)
        requires
            old(self).wf(),
        ensures
            final(self).wf(),
            final(self).cap() == old(self).cap(),
            final(self).keys() == Map::<int, K>::empty(),
    {
        self.heap.clear();
    }
}

impl<'a, K: Priority> Vacant<'a, K> {
    /// Inserts `key` at the vacant index.
    pub fn insert(self, key: K)
        requires
            self.heap.wf(),
            self.index < self.heap.cap(),
            !self.heap.keys().dom().contains(self.index as int),
        ensures
            final(self.heap).wf(),
            final(self.heap).cap() == old(self.heap).cap(),
            final(self.heap).keys() == old(self.heap).keys().insert(self.index as int, key),
    {
        self.heap.heap.insert_unchecked(self.index, key);
    }
}

impl<K: Priority> Default for Min<K> {
    fn default() -> (h: Self)
        ensures
            h.wf(),
            h.cap() == 0,
            h.keys() == Map::<int, K>::empty(),
    {
        Self::new()
    }
}

} // verus!
