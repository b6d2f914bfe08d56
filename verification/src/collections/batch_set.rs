//! A set of indices drained in isolated batches, whose capacity can grow.
use vstd::prelude::*;

use crate::collections::batch::{DrainState, RawSet, Side};

verus! {

/// A single-threaded set of indices drained in isolated batches.
///
/// Duplicate inserts coalesce across both the draining and pending batches.
/// Once an index is removed from a drain, inserting it again defers it to the
/// next batch.
pub struct BatchSet {
    raw: RawSet,
}

/// One stable batch of a [`BatchSet`] being drained.
///
/// The set stays usable while it lives; what is inserted meanwhile waits for
/// the next batch. [`BatchDrain::finish`] returns what was not drained to the
/// pending batch.
pub struct BatchDrain {
    pub side: Side,
}

impl BatchSet {
    /// The two generations of the set.
    pub closed spec fn raw_spec(&self) -> RawSet {
        self.raw
    }

    /// A batch set is never paused: a drain either runs or has finished.
    pub open spec fn wf(&self) -> bool {
        &&& self.raw_spec().wf()
        &&& !(self.raw_spec().draining_spec() is Paused)
    }

    /// The indices in either batch.
    pub open spec fn members(&self) -> Set<int> {
        self.raw_spec().members()
    }

    pub fn with_capacity(capacity: usize) -> (s: Self)
        ensures
            s.wf(),
            s.raw_spec().cap() == capacity,
            s.members() == Set::<int>::empty(),
            s.raw_spec().side_view(Side::A) == Set::<int>::empty(),
            s.raw_spec().side_view(Side::B) == Set::<int>::empty(),
            s.raw_spec().active_spec() == Side::A,
            s.raw_spec().draining_spec() == DrainState::Idle,
            s.raw_spec().cursor_of(Side::A) == 0,
            s.raw_spec().cursor_of(Side::B) == 0,
    {
        let s = BatchSet { raw: RawSet::with_capacity(capacity) };
        proof {
            assert(s.members() =~= Set::<int>::empty());
        }
        s
    }

    /// Grows both batch generations while preserving their contents.
    ///
    /// Insertion never grows the set implicitly.
    pub fn grow_to(&mut self, capacity: usize)
        requires
            old(self).wf(),
        ensures
            final(self).wf(),
            final(self).raw_spec().cap() == (if capacity > old(self).raw_spec().cap() {
                capacity as nat
            } else {
                old(self).raw_spec().cap()
            }),
            final(self).raw_spec().active_spec() == old(self).raw_spec().active_spec(),
            final(self).raw_spec().draining_spec() == old(self).raw_spec().draining_spec(),
            forall|s: Side| final(self).raw_spec().side_view(s) == old(self).raw_spec().side_view(s),
            forall|s: Side| final(self).raw_spec().cursor_of(s) == old(self).raw_spec().cursor_of(s),
    {
        self.raw.grow_to(capacity);
    }

    /// Inserts an index into the pending batch.
    ///
    /// Returns `false` when the index is outside the set's capacity or already
    /// present in either the batch being drained or the pending batch. This
    /// method never grows the set.
    pub fn insert(&mut self, index: usize) -> (r: bool)
        requires
            old(self).wf(),
        ensures
            final(self).wf(),
            ({
                let before = old(self).raw_spec();
                let after = final(self).raw_spec();
                let side = before.active_spec();
                &&& after.same_frame(&before)
                &&& r == (index < before.cap() && !before.members().contains(index as int))
                &&& after.side_view(side) == (if r {
                    before.side_view(side).insert(index as int)
                } else {
                    before.side_view(side)
                })
                &&& after.side_view(side.other_spec()) == before.side_view(side.other_spec())
                &&& forall|s: Side| after.cursor_of(s) == before.cursor_of(s)
            }),
    {
        self.raw.insert(index)
    }

    /// Removes an index from either batch.
    pub fn remove(&mut self, index: usize) -> (r: bool)
        requires
            old(self).wf(),
        ensures
            final(self).wf(),
            final(self).raw_spec().same_frame(&old(self).raw_spec()),
            r == old(self).members().contains(index as int),
            forall|s: Side| final(self).raw_spec().side_view(s) == old(self).raw_spec().side_view(s).remove(index as int),
            forall|s: Side| final(self).raw_spec().cursor_of(s) == old(self).raw_spec().cursor_of(s),
    {
        self.raw.remove(index)
    }

    /// Removes the next index from the pending batch: the first at or after
    /// the pending batch's cursor, wrapping once.
    pub fn pop(&mut self) -> (r: Option<usize>)
        requires
            old(self).wf(),
        ensures
            final(self).wf(),
            final(self).raw_spec().same_frame(&old(self).raw_spec()),
            old(self).raw_spec().pops(
                &final(self).raw_spec(),
                old(self).raw_spec().active_spec(),
                old(self).raw_spec().cursor_of(old(self).raw_spec().active_spec()) as int,
                r,
            ),
    {
        self.raw.pop()
    }

    /// Starts draining a stable batch: the pending batch becomes the drained
    /// one, and a fresh pending batch receives later inserts.
    ///
    /// Returns `None` while another batch drain is live.
    pub fn drain_batch(&mut self) -> (r: Option<BatchDrain>)
        requires
            old(self).wf(),
        ensures
            final(self).wf(),
            ({
                let before = old(self).raw_spec();
                let after = final(self).raw_spec();
                &&& after.cap() == before.cap()
                &&& forall|s: Side| after.side_view(s) == before.side_view(s)
                &&& forall|s: Side| after.cursor_of(s) == before.cursor_of(s)
                &&& before.draining_spec() is Active ==> r is None && after == before
                &&& before.draining_spec() is Idle ==> r is Some && r->0.side == before.active_spec()
                    && after.active_spec() == before.active_spec().other_spec()
                    && after.draining_spec() == DrainState::Active(before.active_spec())
            }),
    {
        match self.raw.drain_batch() {
            Some(side) => Some(BatchDrain { side }),
            None => None,
        }
    }

    pub fn capacity(&self) -> (n: usize)
        ensures
            n == self.raw_spec().cap(),
    {
        self.raw.capacity()
    }

    /// The number of indices in both batches.
    pub fn len(&self) -> (n: usize)
        requires
            self.wf(),
        ensures
            n == self.members().len(),
    {
        self.raw.len()
    }

    pub fn is_empty(&self) -> (b: bool)
        requires
            self.wf(),
        ensures
            b == (self.members().len() == 0),
    {
        self.raw.is_empty()
    }
}

impl BatchDrain {
    /// This drain is the live drain of `set`.
    pub open spec fn live_in(&self, set: &BatchSet) -> bool {
        &&& set.wf()
        &&& set.raw_spec().draining_spec() == DrainState::Active(self.side)
        &&& set.raw_spec().active_spec() == self.side.other_spec()
    }

    /// Removes and returns the next index of this batch.
    pub fn next(&mut self, set: &mut BatchSet) -> (r: Option<usize>)
        requires
            old(self).live_in(&*old(set)),
        ensures
            *final(self) == *old(self),
            final(self).live_in(&*final(set)),
            final(set).raw_spec().same_frame(&old(set).raw_spec()),
            old(set).raw_spec().pops(
                &final(set).raw_spec(),
                old(self).side,
                old(set).raw_spec().cursor_of(old(self).side) as int,
                r,
            ),
    {
        set.raw.pop_side(self.side)
    }

    /// Ends this drain: what it did not yield joins the pending batch, and
    /// the set accepts a new drain.
    pub fn finish(self, set: &mut BatchSet)
        requires
            self.live_in(&*old(set)),
        ensures
            final(set).wf(),
            final(set).raw_spec().cap() == old(set).raw_spec().cap(),
            final(set).raw_spec().active_spec() == old(set).raw_spec().active_spec(),
            final(set).raw_spec().draining_spec() == DrainState::Idle,
            final(set).raw_spec().side_view(self.side) == Set::<int>::empty(),
            final(set).raw_spec().side_view(self.side.other_spec()) == old(set).raw_spec().side_view(
                self.side.other_spec(),
            ).union(old(set).raw_spec().side_view(self.side)),
            final(set).raw_spec().cursor_of(self.side) == (if old(set).raw_spec().side_view(self.side).len() == 0 {
                old(set).raw_spec().cursor_of(self.side)
            } else {
                0
            }),
            final(set).raw_spec().cursor_of(self.side.other_spec()) == (if old(set).raw_spec().side_view(self.side).len()
                != 0 && old(set).raw_spec().side_view(self.side.other_spec()).len() == 0 {
                old(set).raw_spec().cursor_of(self.side)
            } else {
                old(set).raw_spec().cursor_of(self.side.other_spec())
            }),
    {
        set.raw.return_remaining(self.side);
        set.raw.set_idle();
    }
}

} // verus!
