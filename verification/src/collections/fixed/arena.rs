//! Fixed node storage shared by persistent FIFO lanes ([`Linked`]) or LIFO
//! lanes ([`Stack`]).
use vstd::prelude::*;

use crate::collections::fixed::lanes::{total_len, Lanes, NONE};
use crate::collections::AllocationError;

verus! {

/// Fixed node storage and persistent FIFO lanes under one movable owner.
pub struct Linked<T> {
    lanes: Lanes<T>,
}

/// A located FIFO entry which leaves its lane unchanged until consumed.
pub struct LinkedFront<'a, T> {
    pub linked: &'a mut Linked<T>,
    pub lane: usize,
}

/// Fixed node storage shared by persistent LIFO lanes.
pub struct Stack<T> {
    lanes: Lanes<T>,
}

/// Values removed from one [`Stack`] lane, most recently pushed first.
pub struct StackDrain<'a, T> {
    pub arena: &'a mut Stack<T>,
    pub lane: usize,
}

impl<T> View for Linked<T> {
    /// The values of every lane, front first.
    type V = Seq<Seq<T>>;

    closed spec fn view(&self) -> Seq<Seq<T>> {
        self.lanes.lanes_view()
    }
}

impl<T> Linked<T> {
    /// The storage's internal links are consistent.
    pub closed spec fn wf(&self) -> bool {
        self.lanes.wf()
    }

    /// The lanes together hold at most the capacity.
    pub proof fn lemma_bounded(&self)
        requires
            self.wf(),
        ensures
            total_len(self@) <= self.capacity_spec(),
    {
        self.lanes.lemma_live();
    }

    /// The number of values the storage holds at most.
    pub closed spec fn capacity_spec(&self) -> nat {
        self.lanes.capacity_spec()
    }

    /// Fixed storage for `capacity` values spread over `lanes` empty lanes.
    pub fn with_capacity(capacity: usize, lanes: usize) -> (r: Self)
        requires
            capacity <= u32::MAX,
        ensures
            r.wf(),
            r.capacity_spec() == capacity,
            r@ == Seq::new(lanes as nat, |l: int| Seq::<T>::empty()),
    {
        Linked { lanes: Lanes::new(capacity, lanes) }
    }

    /// Like [`Linked::with_capacity`], but reports a failed reservation.
    pub fn try_with_capacity(capacity: usize, lanes: usize) -> (r: Result<Self, AllocationError>)
        ensures
            capacity > u32::MAX ==> r == Err::<Self, AllocationError>(AllocationError::Overflow),
            r is Ok ==> r->Ok_0.wf() && r->Ok_0.capacity_spec() == capacity
                && r->Ok_0@ == Seq::new(lanes as nat, |l: int| Seq::<T>::empty()),
            r is Err ==> r->Err_0 == AllocationError::Overflow && capacity > u32::MAX
                || r->Err_0 == AllocationError::Exhausted,
    {
        if capacity > NONE as usize {
            return Err(AllocationError::Overflow);
        }
        match Lanes::try_new(capacity, lanes) {
            Ok(lanes) => Ok(Linked { lanes }),
            Err(e) => Err(e),
        }
    }

    pub fn capacity(&self) -> (n: usize)
        requires
            self.wf(),
        ensures
            n == self.capacity_spec(),
    {
        self.lanes.capacity()
    }

    /// Whether every node holds a value.
    pub fn is_full(&self) -> (b: bool)
        requires
            self.wf(),
        ensures
            b == (total_len(self@) == self.capacity_spec()),
    {
        proof {
            self.lanes.lemma_live();
        }
        self.lanes.is_full()
    }

    /// The number of values that can still be pushed.
    pub fn available(&self) -> (n: usize)
        requires
            self.wf(),
        ensures
            n == self.capacity_spec() - total_len(self@),
    {
        proof {
            self.lanes.lemma_live();
        }
        self.lanes.available()
    }

    pub fn lane_count(&self) -> (n: usize)
        requires
            self.wf(),
        ensures
            n == self@.len(),
    {
        self.lanes.lane_count()
    }

    pub fn lane_len(&self, lane: usize) -> (n: usize)
        requires
            self.wf(),
            lane < self@.len(),
        ensures
            n == self@[lane as int].len(),
    {
        self.lanes.lane_len(lane)
    }

    /// Whether `lane` holds no value; a lane that does not exist is empty.
    pub fn lane_is_empty(&self, lane: usize) -> (b: bool)
        requires
            self.wf(),
        ensures
            b == (lane >= self@.len() || self@[lane as int].len() == 0),
    {
        lane >= self.lanes.lane_count() || self.lanes.lane_len(lane) == 0
    }

    /// The oldest value of `lane`, if any.
    pub fn front(&self, lane: usize) -> (r: Option<&T>)
        requires
            self.wf(),
        ensures
            (lane < self@.len() && self@[lane as int].len() > 0) ==> r == Some(&self@[lane as int][0]),
            !(lane < self@.len() && self@[lane as int].len() > 0) ==> r is None,
    {
        if lane >= self.lanes.lane_count() {
            return None;
        }
        self.lanes.front(lane)
    }

    /// Mutable access to the oldest value of `lane`, if any.
    pub fn front_mut(&mut self, lane: usize) -> (r: Option<&mut T>)
        requires
            old(self).wf(),
        ensures
            final(self).wf(),
            final(self).capacity_spec() == old(self).capacity_spec(),
            !(lane < old(self)@.len() && old(self)@[lane as int].len() > 0) ==> r is None
                && final(self)@ == old(self)@,
            (lane < old(self)@.len() && old(self)@[lane as int].len() > 0) ==> r is Some
                && *r->0 == old(self)@[lane as int][0]
                && final(self)@ =~~= old(self)@.update(
                    lane as int,
                    old(self)@[lane as int].update(0, *final(r->0)),
                ),
    {
        if lane >= self.lanes.lane_count() {
            return None;
        }
        self.lanes.front_mut(lane)
    }

    /// Locates the oldest value of `lane` without removing it.
    pub fn front_entry(&mut self, lane: usize) -> (r: Option<LinkedFront<'_, T>>)
        requires
            old(self).wf(),
        ensures
            
            (lane < old(self)@.len() && old(self)@[lane as int].len() > 0) <==> r is Some,
            r is None ==> *final(self) == *old(self),
            r is Some ==> *r->0.linked == *old(self) && *final(r->0.linked) == *final(self)
                && r->0.linked.wf()
                && r->0.lane_spec() == lane,
    {
        if lane >= self.lanes.lane_count() || self.lanes.lane_len(lane) == 0 {
            return None;
        }
        Some(LinkedFront { linked: self, lane })
    }

    /// Appends `value` to `lane`; returns it back when the lane does not exist
    /// or the storage is full.
    pub fn push_back(&mut self, lane: usize, value: T) -> (r: Result<(), T>)
        requires
            old(self).wf(),
        ensures
            final(self).wf(),
            final(self).capacity_spec() == old(self).capacity_spec(),
            (lane >= old(self)@.len() || total_len(old(self)@) == old(self).capacity_spec()) ==> r
                == Err::<(), T>(value) && final(self)@ == old(self)@,
            (lane < old(self)@.len() && total_len(old(self)@) < old(self).capacity_spec()) ==> r is Ok
                && final(self)@ =~~= old(self)@.update(lane as int, old(self)@[lane as int].push(value)),
    {
        proof {
            self.lanes.lemma_live();
        }
        if lane >= self.lanes.lane_count() {
            return Err(value);
        }
        self.lanes.push_back(lane, value)
    }

    /// Prepends `value` to `lane`; returns it back when the lane does not
    /// exist or the storage is full.
    pub fn push_front(&mut self, lane: usize, value: T) -> (r: Result<(), T>)
        requires
            old(self).wf(),
        ensures
            final(self).wf(),
            final(self).capacity_spec() == old(self).capacity_spec(),
            (lane >= old(self)@.len() || total_len(old(self)@) == old(self).capacity_spec()) ==> r
                == Err::<(), T>(value) && final(self)@ == old(self)@,
            (lane < old(self)@.len() && total_len(old(self)@) < old(self).capacity_spec()) ==> r is Ok
                && final(self)@ =~~= old(self)@.update(lane as int, seq![value] + old(self)@[lane as int]),
    {
        proof {
            self.lanes.lemma_live();
        }
        if lane >= self.lanes.lane_count() {
            return Err(value);
        }
        self.lanes.push_front(lane, value)
    }

    /// Removes the oldest value of `lane`, if any.
    pub fn pop_front(&mut self, lane: usize) -> (r: Option<T>)
        requires
            old(self).wf(),
        ensures
            final(self).wf(),
            final(self).capacity_spec() == old(self).capacity_spec(),
            !(lane < old(self)@.len() && old(self)@[lane as int].len() > 0) ==> r is None
                && final(self)@ == old(self)@,
            (lane < old(self)@.len() && old(self)@[lane as int].len() > 0) ==> r == Some(
                old(self)@[lane as int][0],
            ) && final(self)@ =~~= old(self)@.update(lane as int, old(self)@[lane as int].drop_first()),
    {
        if lane >= self.lanes.lane_count() {
            return None;
        }
        self.lanes.pop_front(lane)
    }
}

impl<'a, T> LinkedFront<'a, T> {
    /// The lane whose front this entry names.
    pub closed spec fn lane_spec(&self) -> usize {
        self.lane
    }

    /// Removes and returns the located value.
    pub fn take(self) -> (v: T)
        requires
            (*self.linked).wf(),
            self.lane_spec() < (*self.linked)@.len(),
            (*self.linked)@[self.lane_spec() as int].len() > 0,
        ensures
            v == (*old(self.linked))@[self.lane_spec() as int][0],
            final(self.linked).wf(),
            final(self.linked).capacity_spec() == old(self.linked).capacity_spec(),
            final(self.linked)@ =~~= (*old(self.linked))@.update(
                self.lane_spec() as int,
                (*old(self.linked))@[self.lane_spec() as int].drop_first(),
            ),
    {
        let r = self.linked.pop_front(self.lane);
        r.unwrap()
    }
}

impl<T> View for Stack<T> {
    /// The values of every lane, most recently pushed first.
    type V = Seq<Seq<T>>;

    closed spec fn view(&self) -> Seq<Seq<T>> {
        self.lanes.lanes_view()
    }
}

impl<T> Stack<T> {
    /// The storage's internal links are consistent.
    pub closed spec fn wf(&self) -> bool {
        self.lanes.wf()
    }

    /// The lanes together hold at most the capacity.
    pub proof fn lemma_bounded(&self)
        requires
            self.wf(),
        ensures
            total_len(self@) <= self.capacity_spec(),
    {
        self.lanes.lemma_live();
    }

    /// The number of values the storage holds at most.
    pub closed spec fn capacity_spec(&self) -> nat {
        self.lanes.capacity_spec()
    }

    /// Fixed storage for `capacity` values spread over `lanes` empty lanes.
    pub fn with_capacity(capacity: usize, lanes: usize) -> (r: Self)
        requires
            capacity <= u32::MAX,
        ensures
            r.wf(),
            r.capacity_spec() == capacity,
            r@ == Seq::new(lanes as nat, |l: int| Seq::<T>::empty()),
    {
        Stack { lanes: Lanes::new(capacity, lanes) }
    }

    pub fn capacity(&self) -> (n: usize)
        requires
            self.wf(),
        ensures
            n == self.capacity_spec(),
    {
        self.lanes.capacity()
    }

    /// Whether every node holds a value.
    pub fn is_full(&self) -> (b: bool)
        requires
            self.wf(),
        ensures
            b == (total_len(self@) == self.capacity_spec()),
    {
        proof {
            self.lanes.lemma_live();
        }
        self.lanes.is_full()
    }

    /// The number of values that can still be pushed.
    pub fn available(&self) -> (n: usize)
        requires
            self.wf(),
        ensures
            n == self.capacity_spec() - total_len(self@),
    {
        proof {
            self.lanes.lemma_live();
        }
        self.lanes.available()
    }

    pub fn lane_count(&self) -> (n: usize)
        requires
            self.wf(),
        ensures
            n == self@.len(),
    {
        self.lanes.lane_count()
    }

    /// Whether `lane` holds no value; a lane that does not exist is empty.
    pub fn lane_is_empty(&self, lane: usize) -> (b: bool)
        requires
            self.wf(),
        ensures
            b == (lane >= self@.len() || self@[lane as int].len() == 0),
    {
        lane >= self.lanes.lane_count() || self.lanes.lane_len(lane) == 0
    }

    /// Pushes `value` on `lane`; returns it back when the lane does not exist
    /// or the storage is full.
    pub fn push(&mut self, lane: usize, value: T) -> (r: Result<(), T>)
        requires
            old(self).wf(),
        ensures
            final(self).wf(),
            final(self).capacity_spec() == old(self).capacity_spec(),
            (lane >= old(self)@.len() || total_len(old(self)@) == old(self).capacity_spec()) ==> r
                == Err::<(), T>(value) && final(self)@ == old(self)@,
            (lane < old(self)@.len() && total_len(old(self)@) < old(self).capacity_spec()) ==> r is Ok
                && final(self)@ =~~= old(self)@.update(lane as int, seq![value] + old(self)@[lane as int]),
    {
        proof {
            self.lanes.lemma_live();
        }
        if lane >= self.lanes.lane_count() {
            return Err(value);
        }
        self.lanes.push_front(lane, value)
    }

    /// Pops the most recently pushed value of `lane`, if any.
    pub fn pop(&mut self, lane: usize) -> (r: Option<T>)
        requires
            old(self).wf(),
        ensures
            final(self).wf(),
            final(self).capacity_spec() == old(self).capacity_spec(),
            !(lane < old(self)@.len() && old(self)@[lane as int].len() > 0) ==> r is None
                && final(self)@ == old(self)@,
            (lane < old(self)@.len() && old(self)@[lane as int].len() > 0) ==> r == Some(
                old(self)@[lane as int][0],
            ) && final(self)@ =~~= old(self)@.update(lane as int, old(self)@[lane as int].drop_first()),
    {
        if lane >= self.lanes.lane_count() {
            return None;
        }
        self.lanes.pop_front(lane)
    }

    /// Drains `lane`, most recently pushed value first.
    pub fn drain(&mut self, lane: usize) -> (d: StackDrain<'_, T>)
        requires
            old(self).wf(),
        ensures
            
            *d.arena == *old(self),
            *final(d.arena) == *final(self),
            d.lane_spec() == lane,
    {
        StackDrain { arena: self, lane }
    }
}

impl<'a, T> StackDrain<'a, T> {
    /// The lane being drained.
    pub closed spec fn lane_spec(&self) -> usize {
        self.lane
    }

    /// Removes the next value of the drained lane, if any.
    pub fn next(&mut self) -> (r: Option<T>)
        requires
            (*old(self).arena).wf(),
        ensures
            (*final(self).arena).wf(),
            final(self).lane_spec() == old(self).lane_spec(),
            *final(final(self).arena) == *final(old(self).arena),
            (*final(self).arena).capacity_spec() == (*old(self).arena).capacity_spec(),
            ({
                let lane = old(self).lane_spec() as int;
                let before = (*old(self).arena)@;
                let after = (*final(self).arena)@;
                &&& !(0 <= lane < before.len() && before[lane].len() > 0) ==> r is None && after
                    == before
                &&& (0 <= lane < before.len() && before[lane].len() > 0) ==> r == Some(before[lane][0])
                    && after =~~= before.update(lane, before[lane].drop_first())
            }),
    {
        self.arena.pop(self.lane)
    }

    /// Releases every value not yet yielded.
    pub fn finish(self)
        requires
            (*self.arena).wf(),
        ensures
            (*final(self.arena)).wf(),
            (*final(self.arena)).capacity_spec() == (*old(self.arena)).capacity_spec(),
            ({
                let lane = self.lane_spec() as int;
                let before = (*old(self.arena))@;
                let after = (*final(self.arena))@;
                &&& !(0 <= lane < before.len()) ==> after == before
                &&& 0 <= lane < before.len() ==> after =~~= before.update(lane, Seq::empty())
            }),
    {
        let lane = self.lane;
        let arena = self.arena;
        loop
            invariant
                (*arena).wf(),
                (*old(self.arena)).capacity_spec() == (*arena).capacity_spec(),
                !(0 <= lane < (*old(self.arena))@.len()) ==> (*arena)@ == (*old(self.arena))@,
                0 <= lane < (*old(self.arena))@.len() ==> (*arena)@.len() == (*old(self.arena))@.len()
                    && forall|l: int| 0 <= l < (*arena)@.len() && l != lane ==> #[trigger] (*arena)@[l] == (*old(self.arena))@[l],
                *final(arena) == *final(old(self.arena)),
            ensures
                0 <= lane < (*arena)@.len() ==> (*arena)@[lane as int].len() == 0,
            decreases (if 0 <= lane < (*arena)@.len() { (*arena)@[lane as int].len() } else { 0 }),
        {
            match arena.pop(lane) {
                Some(_) => {},
                None => break,
            }
        }
    }
}

} // verus!
