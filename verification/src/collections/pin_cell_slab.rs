//! A pinned slab used through exclusive access, whose vacant entries take
//! their slot off the free list until they are filled or rolled back.
use vstd::prelude::*;

use crate::collections::slab::{occupied_slots, Slot, SlabCore, SlabGeneration, SlabKey, SlabKeyParts, SlotState};

verus! {

/// The largest capacity: slot links reserve the values above it.
pub const RETIRED: u32 = 0xffff_fffb;

/// A fixed-capacity slab of values addressed by generational keys.
pub struct PinCellSlab<T, Tag, const MAX: u32> {
    core: SlabCore<T, MAX>,
    tag: core::marker::PhantomData<Tag>,
}

/// A slot taken off the free list, to be filled by [`insert`](Self::insert)
/// or put back by [`rollback`](Self::rollback).
pub struct PinCellSlabVacantEntry<'a, T, Tag, const MAX: u32> {
    pub slab: &'a mut PinCellSlab<T, Tag, MAX>,
    pub index: u32,
}

/// An occupied slot of a [`PinCellSlab`], found by key.
pub struct PinCellSlabOccupiedEntry<'a, T, Tag, const MAX: u32> {
    pub slab: &'a mut PinCellSlab<T, Tag, MAX>,
    pub key: SlabKey<Tag, MAX>,
}

impl<T, Tag, const MAX: u32> PinCellSlab<T, Tag, MAX> {
    /// The slot table.
    pub closed spec fn inner(&self) -> SlabCore<T, MAX> {
        self.core
    }

    pub open spec fn wf(&self) -> bool {
        self.inner().wf()
    }

    /// `capacity` free slots, filled in index order.
    pub fn with_capacity(capacity: usize) -> (s: Self)
        requires
            capacity <= RETIRED,
        ensures
            s.wf(),
            s.inner().slots_view().len() == capacity,
            s.inner().free_list() == Seq::new(capacity as nat, |k: int| k as u32),
            forall|i: int| #![trigger s.inner().slots_view()[i]] 0 <= i < capacity ==> s.inner().slots_view()[i].state == SlotState::Free
                && s.inner().slots_view()[i].generation == 0,
    {
        PinCellSlab { core: SlabCore::new(capacity), tag: core::marker::PhantomData }
    }

    /// Stores `value` in the next free slot and returns its key, or hands
    /// `value` back when no slot is free.
    pub fn insert(&mut self, value: T) -> (r: Result<SlabKey<Tag, MAX>, T>)
        requires
            old(self).wf(),
        ensures
            final(self).wf(),
            old(self).inner().free_list().len() == 0 ==> r is Err && r->Err_0 == value && *final(self) == *old(self),
            old(self).inner().free_list().len() > 0 ==> r is Ok && r->Ok_0.parts.index == old(self).inner().free_list()[0]
                && r->Ok_0.parts.generation == old(self).inner().slots_view()[old(self).inner().free_list()[0] as int].generation
                && final(self).inner().filled_from(&old(self).inner(), value),
    {
        if self.core.is_full() {
            return Err(value);
        }
        let index = self.core.fill_head(value);
        let generation = self.core.generation_at(index);
        Ok(SlabKey { parts: SlabKeyParts { index, generation }, tag: core::marker::PhantomData })
    }

    /// Takes the next free slot off the free list, if there is one.
    pub fn vacant_entry(&mut self) -> (r: Option<PinCellSlabVacantEntry<'_, T, Tag, MAX>>)
        requires
            old(self).wf(),
        ensures
            old(self).inner().free_list().len() == 0 ==> r is None && *final(self) == *old(self),
            old(self).inner().free_list().len() > 0 ==> (r matches Some(e) && e.index == old(self).inner().free_list()[0]
                && e.slab.wf() && e.slab.inner().free_list() == old(self).inner().free_list().drop_first()
                && e.slab.inner().slots_view() == old(self).inner().slots_view().update(
                e.index as int,
                Slot { state: SlotState::Reserved, ..old(self).inner().slots_view()[e.index as int] },
            ) && *final(e.slab) == *final(self)),
    {
        if self.core.is_full() {
            return None;
        }
        let index = self.core.detach_head();
        Some(PinCellSlabVacantEntry { slab: self, index })
    }

    /// The occupied slot `key` names, if it still holds that key's value.
    pub fn entry(&mut self, key: SlabKey<Tag, MAX>) -> (r: Option<PinCellSlabOccupiedEntry<'_, T, Tag, MAX>>)
        requires
            old(self).wf(),
        ensures
            old(self).inner().holds_spec(key.parts.index, key.parts.generation) ==> r is Some && r->0.key.parts
                == key.parts && *r->0.slab == *old(self) && *final(r->0.slab) == *final(self),
            !old(self).inner().holds_spec(key.parts.index, key.parts.generation) ==> r is None && *final(self)
                == *old(self),
    {
        self.entry_parts(key.parts)
    }

    pub fn entry_parts(&mut self, parts: SlabKeyParts<MAX>) -> (r: Option<PinCellSlabOccupiedEntry<'_, T, Tag, MAX>>)
        requires
            old(self).wf(),
        ensures
            old(self).inner().holds_spec(parts.index, parts.generation) ==> r is Some && r->0.key.parts == parts
                && *r->0.slab == *old(self) && *final(r->0.slab) == *final(self),
            !old(self).inner().holds_spec(parts.index, parts.generation) ==> r is None && *final(self) == *old(self),
    {
        if !self.core.holds(parts.index, parts.generation) {
            return None;
        }
        Some(PinCellSlabOccupiedEntry { slab: self, key: SlabKey::from_parts(parts) })
    }

    pub fn contains_key(&self, key: SlabKey<Tag, MAX>) -> (b: bool)
        requires
            self.wf(),
        ensures
            b == self.inner().holds_spec(key.parts.index, key.parts.generation),
    {
        self.core.holds(key.parts.index, key.parts.generation)
    }

    pub fn contains_parts(&self, parts: SlabKeyParts<MAX>) -> (b: bool)
        requires
            self.wf(),
        ensures
            b == self.inner().holds_spec(parts.index, parts.generation),
    {
        self.core.holds(parts.index, parts.generation)
    }

    /// Applies `f` to the value `key` names, if it is still stored.
    pub fn update<R, F: FnOnce(&mut T) -> R>(&mut self, key: SlabKey<Tag, MAX>, f: F) -> (r: Option<R>)
        requires
            old(self).wf(),
            forall|v: &mut T| f.requires((v,)),
        ensures
            final(self).wf(),
            final(self).inner().free_list() == old(self).inner().free_list(),
            old(self).inner().holds_spec(key.parts.index, key.parts.generation) ==> r is Some,
            !old(self).inner().holds_spec(key.parts.index, key.parts.generation) ==> r is None && *final(self)
                == *old(self),
            r matches Some(x) ==> exists|v: &mut T| #![auto] *v == old(self).inner().slots_view()[key.parts.index as int].value->0
                && f.ensures((v,), x) && final(self).inner().slots_view() == old(self).inner().slots_view().update(
                key.parts.index as int,
                Slot { value: Some(*final(v)), ..old(self).inner().slots_view()[key.parts.index as int] },
            ),
    {
        self.update_parts(key.parts, f)
    }

    pub fn update_parts<R, F: FnOnce(&mut T) -> R>(&mut self, parts: SlabKeyParts<MAX>, f: F) -> (r: Option<R>)
        requires
            old(self).wf(),
            forall|v: &mut T| f.requires((v,)),
        ensures
            final(self).wf(),
            final(self).inner().free_list() == old(self).inner().free_list(),
            old(self).inner().holds_spec(parts.index, parts.generation) ==> r is Some,
            !old(self).inner().holds_spec(parts.index, parts.generation) ==> r is None && *final(self) == *old(self),
            r matches Some(x) ==> exists|v: &mut T| #![auto] *v == old(self).inner().slots_view()[parts.index as int].value->0
                && f.ensures((v,), x) && final(self).inner().slots_view() == old(self).inner().slots_view().update(
                parts.index as int,
                Slot { value: Some(*final(v)), ..old(self).inner().slots_view()[parts.index as int] },
            ),
    {
        match self.core.get_mut(parts.index, parts.generation) {
            Some(v) => {
                let x = f(v);
                Some(x)
            },
            None => None,
        }
    }

    /// Drops the value `key` names; `false` when it is no longer stored.
    pub fn remove(&mut self, key: SlabKey<Tag, MAX>) -> (b: bool)
        requires
            old(self).wf(),
        ensures
            b == old(self).inner().holds_spec(key.parts.index, key.parts.generation),
            b ==> final(self).inner().took_from(&old(self).inner(), key.parts.index),
            !b ==> *final(self) == *old(self),
    {
        self.remove_parts(key.parts)
    }

    pub fn remove_parts(&mut self, parts: SlabKeyParts<MAX>) -> (b: bool)
        requires
            old(self).wf(),
        ensures
            b == old(self).inner().holds_spec(parts.index, parts.generation),
            b ==> final(self).inner().took_from(&old(self).inner(), parts.index),
            !b ==> *final(self) == *old(self),
    {
        if !self.core.holds(parts.index, parts.generation) {
            return false;
        }
        let _ = self.core.take_index(parts.index);
        true
    }

    /// Drops the value `key` names when `predicate` accepts it.
    pub fn remove_if<F: FnOnce(&mut T) -> bool>(&mut self, key: SlabKey<Tag, MAX>, predicate: F) -> (b: bool)
        requires
            old(self).wf(),
            forall|v: &mut T| predicate.requires((v,)),
        ensures
            final(self).wf(),
            !old(self).inner().holds_spec(key.parts.index, key.parts.generation) ==> !b && *final(self) == *old(self),
            old(self).inner().holds_spec(key.parts.index, key.parts.generation) ==> exists|v: &mut T| #![auto] *v == old(self).inner().slots_view()[key.parts.index as int].value->0
                && predicate.ensures((v,), b) && (b ==> final(self).inner().took_from(&old(self).inner(), key.parts.index))
                && (!b ==> final(self).inner().free_list() == old(self).inner().free_list()
                && final(self).inner().slots_view() == old(self).inner().slots_view().update(
                key.parts.index as int,
                Slot { value: Some(*final(v)), ..old(self).inner().slots_view()[key.parts.index as int] },
            )),
    {
        self.remove_parts_if(key.parts, predicate)
    }

    pub fn remove_parts_if<F: FnOnce(&mut T) -> bool>(&mut self, parts: SlabKeyParts<MAX>, predicate: F) -> (b: bool)
        requires
            old(self).wf(),
            forall|v: &mut T| predicate.requires((v,)),
        ensures
            final(self).wf(),
            !old(self).inner().holds_spec(parts.index, parts.generation) ==> !b && *final(self) == *old(self),
            old(self).inner().holds_spec(parts.index, parts.generation) ==> exists|v: &mut T| #![auto] *v == old(self).inner().slots_view()[parts.index as int].value->0
                && predicate.ensures((v,), b) && (b ==> final(self).inner().took_from(&old(self).inner(), parts.index))
                && (!b ==> final(self).inner().free_list() == old(self).inner().free_list()
                && final(self).inner().slots_view() == old(self).inner().slots_view().update(
                parts.index as int,
                Slot { value: Some(*final(v)), ..old(self).inner().slots_view()[parts.index as int] },
            )),
    {
        let accepted = match self.core.get_mut(parts.index, parts.generation) {
            Some(v) => predicate(v),
            None => return false,
        };
        if !accepted {
            return false;
        }
        let _ = self.core.take_index(parts.index);
        true
    }

    pub fn capacity(&self) -> (n: usize)
        ensures
            n == self.inner().slots_view().len(),
    {
        self.core.capacity()
    }

    /// The number of stored values.
    pub fn len(&self) -> (n: usize)
        requires
            self.wf(),
        ensures
            n == occupied_slots(self.inner().slots_view()).len(),
    {
        self.core.len()
    }

    pub fn is_empty(&self) -> (b: bool)
        requires
            self.wf(),
        ensures
            b == (occupied_slots(self.inner().slots_view()).len() == 0),
    {
        self.core.is_empty()
    }

    /// Whether no slot is free.
    pub fn is_full(&self) -> (b: bool)
        requires
            self.wf(),
        ensures
            b == (self.inner().free_list().len() == 0),
    {
        self.core.is_full()
    }
}

impl<'a, T, Tag, const MAX: u32> PinCellSlabVacantEntry<'a, T, Tag, MAX> {
    pub fn index(&self) -> (i: u32)
        ensures
            i == self.index,
    {
        self.index
    }

    /// Fills the slot with `value` and returns its key.
    pub fn insert(self, value: T) -> (k: SlabKey<Tag, MAX>)
        requires
            self.slab.wf(),
            self.index < self.slab.inner().slots_view().len(),
            self.slab.inner().slots_view()[self.index as int].state == SlotState::Reserved,
        ensures
            k.parts.index == self.index,
            k.parts.generation == old(self.slab).inner().slots_view()[self.index as int].generation,
            final(self.slab).wf(),
            final(self.slab).inner().free_list() == old(self.slab).inner().free_list(),
            final(self.slab).inner().slots_view() == old(self.slab).inner().slots_view().update(
                self.index as int,
                Slot { value: Some(value), state: SlotState::Occupied, ..old(self.slab).inner().slots_view()[self.index as int] },
            ),
    {
        let generation = self.slab.core.generation_at(self.index);
        self.slab.core.commit(self.index, value);
        SlabKey { parts: SlabKeyParts { index: self.index, generation }, tag: core::marker::PhantomData }
    }

    /// Puts the slot back at the front of the free list, unfilled.
    pub fn rollback(self)
        requires
            self.slab.wf(),
            self.index < self.slab.inner().slots_view().len(),
            self.slab.inner().slots_view()[self.index as int].state == SlotState::Reserved,
        ensures
            final(self.slab).wf(),
            final(self.slab).inner().free_list() == seq![self.index] + old(self.slab).inner().free_list(),
    {
        self.slab.core.rollback(self.index);
    }
}

impl<'a, T, Tag, const MAX: u32> PinCellSlabOccupiedEntry<'a, T, Tag, MAX> {
    pub fn key(&self) -> (k: SlabKey<Tag, MAX>)
        ensures
            k == self.key,
    {
        self.key
    }

    pub fn index(&self) -> (i: u32)
        ensures
            i == self.key.parts.index,
    {
        self.key.parts.index
    }

    pub fn generation(&self) -> (g: SlabGeneration<MAX>)
        ensures
            g.spec_value() == self.key.parts.generation,
    {
        self.key.generation()
    }

    pub fn parts(&self) -> (p: SlabKeyParts<MAX>)
        ensures
            p == self.key.parts,
    {
        self.key.parts
    }

    /// Mutable access to the entry's value.
    pub fn as_pin_mut(self) -> (r: &'a mut T)
        requires
            self.slab.wf(),
            self.slab.inner().holds_spec(self.key.parts.index, self.key.parts.generation),
        ensures
            *r == old(self.slab).inner().slots_view()[self.key.parts.index as int].value->0,
            final(self.slab).wf(),
            final(self.slab).inner().free_list() == old(self.slab).inner().free_list(),
            final(self.slab).inner().slots_view() == old(self.slab).inner().slots_view().update(
                self.key.parts.index as int,
                Slot { value: Some(*final(r)), ..old(self.slab).inner().slots_view()[self.key.parts.index as int] },
            ),
    {
        self.slab.core.get_mut(self.key.parts.index, self.key.parts.generation).unwrap()
    }

    /// Drops the entry's value, releasing its slot.
    pub fn remove(self)
        requires
            self.slab.wf(),
            self.slab.inner().holds_spec(self.key.parts.index, self.key.parts.generation),
        ensures
            final(self.slab).inner().took_from(&old(self.slab).inner(), self.key.parts.index),
    {
        let _ = self.slab.core.take_index(self.key.parts.index);
    }
}

} // verus!
