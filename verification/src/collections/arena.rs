//! Fixed node storage shared by persistent lanes, built without a fallible
//! constructor. The lanes are those of [`crate::collections::fixed::arena`].
use vstd::prelude::*;

use crate::collections::fixed::arena::{Linked, Stack};
use crate::collections::fixed::lanes::total_len;

verus! {

/// Fixed node storage and persistent FIFO lanes under one movable owner.
pub struct LinkedArena<T> {
    inner: Linked<T>,
}

/// Fixed node storage shared by persistent LIFO lanes.
///
/// Nodes are initialized only when first used. Moving a value between lanes or
/// returning it to the pool never allocates.
pub struct StackArena<T> {
    inner: Stack<T>,
}

/// Values removed from one [`StackArena`] lane.
pub struct StackDrain<'a, T> {
    pub arena: &'a mut StackArena<T>,
    pub lane: usize,
}

impl<T> View for LinkedArena<T> {
    type V = Seq<Seq<T>>;

    closed spec fn view(&self) -> Seq<Seq<T>> {
        self.inner@
    }
}

impl<T> LinkedArena<T> {
    /// The storage's internal links are consistent.
    pub closed spec fn wf(&self) -> bool {
        self.inner.wf()
    }

    /// The lanes together hold at most the capacity.
    pub proof fn lemma_bounded(&self)
        requires
            self.wf(),
        ensures
            total_len(self@) <= self.capacity_spec(),
    {
        self.inner.lemma_bounded();
    }

    /// The number of values the storage holds at most.
    pub closed spec fn capacity_spec(&self) -> nat {
        self.inner.capacity_spec()
    }

    /// Fixed storage for `capacity` values spread over `lanes` empty lanes.
    pub fn with_capacity(capacity: usize, lanes: usize) -> (r: Self)
        requires
            capacity <= u32::MAX,
        ensures
            r.wf(),
            r.capacity_spec() == capacity,
            r@ == Seq::new(lanes as nat, |l: int| Seq::<T>::empty()),
    {
        LinkedArena { inner: Linked::with_capacity(capacity, lanes) }
    }

    /// Whether every node holds a value.
    pub fn is_full(&self) -> (b: bool)
        requires
            self.wf(),
        ensures
            b == (total_len(self@) == self.capacity_spec()),
    {
        self.inner.is_full()
    }

    pub fn capacity(&self) -> (n: usize)
        requires
            self.wf(),
        ensures
            n == self.capacity_spec(),
    {
        self.inner.capacity()
    }

    /// The number of values that can still be pushed.
    pub fn available(&self) -> (n: usize)
        requires
            self.wf(),
        ensures
            n == self.capacity_spec() - total_len(self@),
    {
        self.inner.available()
    }

    pub fn lane_count(&self) -> (n: usize)
        requires
            self.wf(),
        ensures
            n == self@.len(),
    {
        self.inner.lane_count()
    }

    pub fn lane_len(&self, lane: usize) -> (n: usize)
        requires
            self.wf(),
            lane < self@.len(),
        ensures
            n == self@[lane as int].len(),
    {
        self.inner.lane_len(lane)
    }

    /// Whether `lane` holds no value; a lane that does not exist is empty.
    pub fn lane_is_empty(&self, lane: usize) -> (b: bool)
        requires
            self.wf(),
        ensures
            b == (lane >= self@.len() || self@[lane as int].len() == 0),
    {
        self.inner.lane_is_empty(lane)
    }

    /// The oldest value of `lane`, if any.
    pub fn front(&self, lane: usize) -> (r: Option<&T>)
        requires
            self.wf(),
        ensures
            (lane < self@.len() && self@[lane as int].len() > 0) ==> r == Some(&self@[lane as int][0]),
            !(lane < self@.len() && self@[lane as int].len() > 0) ==> r is None,
    {
        self.inner.front(lane)
    }

    /// Mutable access to the oldest value of `lane`, if any.
    pub fn front_mut(&mut self, lane: usize) -> (r: Option<&mut T>)
        requires
            old(self).wf(),
        ensures
            final(self).wf(),
            final(self).capacity_spec() == old(self).capacity_spec(),
            !(lane < old(self)@.len() && old(self)@[lane as int].len() > 0) ==> r is None
                && final(self)@ == old(self)@,
            (lane < old(self)@.len() && old(self)@[lane as int].len() > 0) ==> r is Some
                && *r->0 == old(self)@[lane as int][0]
                && final(self)@ =~~= old(self)@.update(
                    lane as int,
                    old(self)@[lane as int].update(0, *final(r->0)),
                ),
    {
        self.inner.front_mut(lane)
    }

    /// Appends `value` to `lane`; returns it back when the lane does not exist
    /// or the storage is full.
    pub fn push_back(&mut self, lane: usize, value: T) -> (r: Result<(), T>)
        requires
            old(self).wf(),
        ensures
            final(self).wf(),
            final(self).capacity_spec() == old(self).capacity_spec(),
            (lane >= old(self)@.len() || total_len(old(self)@) == old(self).capacity_spec()) ==> r
                == Err::<(), T>(value) && final(self)@ == old(self)@,
            (lane < old(self)@.len() && total_len(old(self)@) < old(self).capacity_spec()) ==> r is Ok
                && final(self)@ =~~= old(self)@.update(lane as int, old(self)@[lane as int].push(value)),
    {
        self.inner.push_back(lane, value)
    }

    /// Prepends `value` to `lane`; returns it back when the lane does not
    /// exist or the storage is full.
    pub fn push_front(&mut self, lane: usize, value: T) -> (r: Result<(), T>)
        requires
            old(self).wf(),
        ensures
            final(self).wf(),
            final(self).capacity_spec() == old(self).capacity_spec(),
            (lane >= old(self)@.len() || total_len(old(self)@) == old(self).capacity_spec()) ==> r
                == Err::<(), T>(value) && final(self)@ == old(self)@,
            (lane < old(self)@.len() && total_len(old(self)@) < old(self).capacity_spec()) ==> r is Ok
                && final(self)@ =~~= old(self)@.update(lane as int, seq![value] + old(self)@[lane as int]),
    {
        self.inner.push_front(lane, value)
    }

    /// Removes the oldest value of `lane`, if any.
    pub fn pop_front(&mut self, lane: usize) -> (r: Option<T>)
        requires
            old(self).wf(),
        ensures
            final(self).wf(),
            final(self).capacity_spec() == old(self).capacity_spec(),
            !(lane < old(self)@.len() && old(self)@[lane as int].len() > 0) ==> r is None
                && final(self)@ == old(self)@,
            (lane < old(self)@.len() && old(self)@[lane as int].len() > 0) ==> r == Some(
                old(self)@[lane as int][0],
            ) && final(self)@ =~~= old(self)@.update(lane as int, old(self)@[lane as int].drop_first()),
    {
        self.inner.pop_front(lane)
    }
}

impl<T> View for StackArena<T> {
    type V = Seq<Seq<T>>;

    closed spec fn view(&self) -> Seq<Seq<T>> {
        self.inner@
    }
}

impl<T> StackArena<T> {
    /// The storage's internal links are consistent.
    pub closed spec fn wf(&self) -> bool {
        self.inner.wf()
    }

    /// The lanes together hold at most the capacity.
    pub proof fn lemma_bounded(&self)
        requires
            self.wf(),
        ensures
            total_len(self@) <= self.capacity_spec(),
    {
        self.inner.lemma_bounded();
    }

    /// The number of values the storage holds at most.
    pub closed spec fn capacity_spec(&self) -> nat {
        self.inner.capacity_spec()
    }

    /// Fixed storage for `capacity` values spread over `lanes` empty lanes.
    pub fn with_capacity(capacity: usize, lanes: usize) -> (r: Self)
        requires
            capacity <= u32::MAX,
        ensures
            r.wf(),
            r.capacity_spec() == capacity,
            r@ == Seq::new(lanes as nat, |l: int| Seq::<T>::empty()),
    {
        StackArena { inner: Stack::with_capacity(capacity, lanes) }
    }

    /// Whether every node holds a value.
    pub fn is_full(&self) -> (b: bool)
        requires
            self.wf(),
        ensures
            b == (total_len(self@) == self.capacity_spec()),
    {
        self.inner.is_full()
    }

    pub fn capacity(&self) -> (n: usize)
        requires
            self.wf(),
        ensures
            n == self.capacity_spec(),
    {
        self.inner.capacity()
    }

    /// The number of values that can still be pushed.
    pub fn available(&self) -> (n: usize)
        requires
            self.wf(),
        ensures
            n == self.capacity_spec() - total_len(self@),
    {
        self.inner.available()
    }

    pub fn lane_count(&self) -> (n: usize)
        requires
            self.wf(),
        ensures
            n == self@.len(),
    {
        self.inner.lane_count()
    }

    /// Whether `lane` holds no value; a lane that does not exist is empty.
    pub fn lane_is_empty(&self, lane: usize) -> (b: bool)
        requires
            self.wf(),
        ensures
            b == (lane >= self@.len() || self@[lane as int].len() == 0),
    {
        self.inner.lane_is_empty(lane)
    }

    /// Pushes `value` on `lane`; returns it back when the lane does not exist
    /// or the storage is full.
    pub fn push(&mut self, lane: usize, value: T) -> (r: Result<(), T>)
        requires
            old(self).wf(),
        ensures
            final(self).wf(),
            final(self).capacity_spec() == old(self).capacity_spec(),
            (lane >= old(self)@.len() || total_len(old(self)@) == old(self).capacity_spec()) ==> r
                == Err::<(), T>(value) && final(self)@ == old(self)@,
            (lane < old(self)@.len() && total_len(old(self)@) < old(self).capacity_spec()) ==> r is Ok
                && final(self)@ =~~= old(self)@.update(lane as int, seq![value] + old(self)@[lane as int]),
    {
        self.inner.push(lane, value)
    }

    /// Pops the most recently pushed value of `lane`, if any.
    pub fn pop(&mut self, lane: usize) -> (r: Option<T>)
        requires
            old(self).wf(),
        ensures
            final(self).wf(),
            final(self).capacity_spec() == old(self).capacity_spec(),
            !(lane < old(self)@.len() && old(self)@[lane as int].len() > 0) ==> r is None
                && final(self)@ == old(self)@,
            (lane < old(self)@.len() && old(self)@[lane as int].len() > 0) ==> r == Some(
                old(self)@[lane as int][0],
            ) && final(self)@ =~~= old(self)@.update(lane as int, old(self)@[lane as int].drop_first()),
    {
        self.inner.pop(lane)
    }

    /// Drains `lane`, most recently pushed value first.
    pub fn drain(&mut self, lane: usize) -> (d: StackDrain<'_, T>)
        requires
            old(self).wf(),
        ensures
            *d.arena == *old(self),
            d.arena.wf(),
            *final(d.arena) == *final(self),
            d.lane == lane,
    {
        StackDrain { arena: self, lane }
    }
}

impl<'a, T> StackDrain<'a, T> {
    /// Removes the next value of the drained lane, if any.
    pub fn next(&mut self) -> (r: Option<T>)
        requires
            (*old(self).arena).wf(),
        ensures
            (*final(self).arena).wf(),
            final(self).lane == old(self).lane,
            *final(final(self).arena) == *final(old(self).arena),
            (*final(self).arena).capacity_spec() == (*old(self).arena).capacity_spec(),
            ({
                let lane = old(self).lane as int;
                let before = (*old(self).arena)@;
                let after = (*final(self).arena)@;
                &&& !(0 <= lane < before.len() && before[lane].len() > 0) ==> r is None && after
                    == before
                &&& (0 <= lane < before.len() && before[lane].len() > 0) ==> r == Some(before[lane][0])
                    && after =~~= before.update(lane, before[lane].drop_first())
            }),
    {
        self.arena.pop(self.lane)
    }

    /// Releases every value not yet yielded.
    pub fn finish(self)
        requires
            (*self.arena).wf(),
        ensures
            (*final(self.arena)).wf(),
            (*final(self.arena)).capacity_spec() == (*old(self.arena)).capacity_spec(),
            ({
                let lane = self.lane as int;
                let before = (*old(self.arena))@;
                let after = (*final(self.arena))@;
                &&& !(0 <= lane < before.len()) ==> after == before
                &&& 0 <= lane < before.len() ==> after =~~= before.update(lane, Seq::empty())
            }),
    {
        let lane = self.lane;
        let arena = self.arena;
        loop
            invariant
                (*arena).wf(),
                (*old(self.arena)).capacity_spec() == (*arena).capacity_spec(),
                !(0 <= lane < (*old(self.arena))@.len()) ==> (*arena)@ == (*old(self.arena))@,
                0 <= lane < (*old(self.arena))@.len() ==> (*arena)@.len() == (*old(self.arena))@.len()
                    && forall|l: int| 0 <= l < (*arena)@.len() && l != lane ==> #[trigger] (*arena)@[l] == (*old(self.arena))@[l],
                *final(arena) == *final(old(self.arena)),
            ensures
                0 <= lane < (*arena)@.len() ==> (*arena)@[lane as int].len() == 0,
            decreases (if 0 <= lane < (*arena)@.len() { (*arena)@[lane as int].len() } else { 0 }),
        {
            match arena.pop(lane) {
                Some(_) => {},
                None => break,
            }
        }
    }
}

/// Ending a drain gives back the room of every value it did not yield: the
/// drained lane is left empty, the others keep their values, and the lanes
/// together hold that many values fewer.
pub proof fn law_drain_frees_remaining<T>(before: Seq<Seq<T>>, after: Seq<Seq<T>>, lane: int)
    requires
        0 <= lane < before.len(),
        after =~~= before.update(lane, Seq::empty()),
    ensures
        after[lane].len() == 0,
        forall|l: int| 0 <= l < before.len() && l != lane ==> #[trigger] after[l] == before[l],
        total_len(after) == total_len(before) - before[lane].len(),
{
    crate::collections::fixed::lanes::lemma_total_len_update(before, lane, Seq::empty());
    assert(after == before.update(lane, Seq::<T>::empty()));
}

} // verus!
