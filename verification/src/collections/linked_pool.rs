//! Fixed node storage whose lanes are addressed by valid lane numbers only.
use vstd::prelude::*;

use crate::collections::fixed::arena::Linked;
use crate::collections::fixed::lanes::total_len;

verus! {

/// Fixed node storage and persistent FIFO lanes under one movable owner.
pub struct LinkedArena<T> {
    inner: Linked<T>,
}

impl<T> View for LinkedArena<T> {
    type V = Seq<Seq<T>>;

    closed spec fn view(&self) -> Seq<Seq<T>> {
        self.inner@
    }
}

impl<T> LinkedArena<T> {
    /// The storage's internal links are consistent.
    pub closed spec fn wf(&self) -> bool {
        self.inner.wf()
    }

    /// The lanes together hold at most the capacity.
    pub proof fn lemma_bounded(&self)
        requires
            self.wf(),
        ensures
            total_len(self@) <= self.capacity_spec(),
    {
        self.inner.lemma_bounded();
    }

    /// The number of values the storage holds at most.
    pub closed spec fn capacity_spec(&self) -> nat {
        self.inner.capacity_spec()
    }

    /// Fixed storage for `capacity` values spread over `lanes` empty lanes.
    pub fn with_capacity(capacity: usize, lanes: usize) -> (r: Self)
        requires
            capacity <= u32::MAX,
            lanes > 0,
        ensures
            r.wf(),
            r.capacity_spec() == capacity,
            r@ == Seq::new(lanes as nat, |l: int| Seq::<T>::empty()),
    {
        LinkedArena { inner: Linked::with_capacity(capacity, lanes) }
    }

    /// Whether every node holds a value.
    pub fn is_full(&self) -> (b: bool)
        requires
            self.wf(),
        ensures
            b == (total_len(self@) == self.capacity_spec()),
    {
        self.inner.is_full()
    }

    pub fn lane_len(&self, lane: usize) -> (n: usize)
        requires
            self.wf(),
            lane < self@.len(),
        ensures
            n == self@[lane as int].len(),
    {
        self.inner.lane_len(lane)
    }

    /// Whether `lane` holds no value; a lane that does not exist is empty.
    pub fn lane_is_empty(&self, lane: usize) -> (b: bool)
        requires
            self.wf(),
            lane < self@.len(),
        ensures
            b == (lane >= self@.len() || self@[lane as int].len() == 0),
    {
        self.inner.lane_is_empty(lane)
    }

    /// The oldest value of `lane`, if any.
    pub fn front(&self, lane: usize) -> (r: Option<&T>)
        requires
            self.wf(),
            lane < self@.len(),
        ensures
            (lane < self@.len() && self@[lane as int].len() > 0) ==> r == Some(&self@[lane as int][0]),
            !(lane < self@.len() && self@[lane as int].len() > 0) ==> r is None,
    {
        self.inner.front(lane)
    }

    /// Appends `value` to `lane`; returns it back when the lane does not exist
    /// or the storage is full.
    pub fn push_back(&mut self, lane: usize, value: T) -> (r: Result<(), T>)
        requires
            old(self).wf(),
            lane < old(self)@.len(),
        ensures
            final(self).wf(),
            final(self).capacity_spec() == old(self).capacity_spec(),
            (lane >= old(self)@.len() || total_len(old(self)@) == old(self).capacity_spec()) ==> r
                == Err::<(), T>(value) && final(self)@ == old(self)@,
            (lane < old(self)@.len() && total_len(old(self)@) < old(self).capacity_spec()) ==> r is Ok
                && final(self)@ =~~= old(self)@.update(lane as int, old(self)@[lane as int].push(value)),
    {
        self.inner.push_back(lane, value)
    }

    /// Prepends `value` to `lane`; returns it back when the lane does not
    /// exist or the storage is full.
    pub fn push_front(&mut self, lane: usize, value: T) -> (r: Result<(), T>)
        requires
            old(self).wf(),
            lane < old(self)@.len(),
        ensures
            final(self).wf(),
            final(self).capacity_spec() == old(self).capacity_spec(),
            (lane >= old(self)@.len() || total_len(old(self)@) == old(self).capacity_spec()) ==> r
                == Err::<(), T>(value) && final(self)@ == old(self)@,
            (lane < old(self)@.len() && total_len(old(self)@) < old(self).capacity_spec()) ==> r is Ok
                && final(self)@ =~~= old(self)@.update(lane as int, seq![value] + old(self)@[lane as int]),
    {
        self.inner.push_front(lane, value)
    }

    /// Removes the oldest value of `lane`, if any.
    pub fn pop_front(&mut self, lane: usize) -> (r: Option<T>)
        requires
            old(self).wf(),
            lane < old(self)@.len(),
        ensures
            final(self).wf(),
            final(self).capacity_spec() == old(self).capacity_spec(),
            !(lane < old(self)@.len() && old(self)@[lane as int].len() > 0) ==> r is None
                && final(self)@ == old(self)@,
            (lane < old(self)@.len() && old(self)@[lane as int].len() > 0) ==> r == Some(
                old(self)@[lane as int][0],
            ) && final(self)@ =~~= old(self)@.update(lane as int, old(self)@[lane as int].drop_first()),
    {
        self.inner.pop_front(lane)
    }
}

} // verus!
