//! A slab whose values never move while they are stored, addressed by
//! generational keys.
pub mod fixed;

use vstd::prelude::*;

use crate::collections::slab::{SlabCore, SlotState, SlabGeneration, SlabKey, SlabKeyParts, NONE};

pub use fixed::{FixedPinSlab, FixedPinSlabOccupiedEntry, FixedPinSlabVacantEntry};


verus! {

/// A fixed-capacity slab of values addressed by generational keys.
///
/// Each removal advances the slot's generation, so a key never reaches a
/// later value in its slot; a slot whose generations reach `MAX` is retired.
pub struct PinSlab<T, Tag, const MAX: u32> {
    core: SlabCore<T, MAX>,
    tag: core::marker::PhantomData<Tag>,
}

/// An occupied slot of a [`PinSlab`], found by key.
pub struct PinSlabOccupiedEntry<'a, T, Tag, const MAX: u32> {
    pub slab: &'a mut PinSlab<T, Tag, MAX>,
    pub key: SlabKey<Tag, MAX>,
}

/// The next free slot of a [`PinSlab`].
pub struct PinSlabVacantEntry<'a, T, Tag, const MAX: u32> {
    pub slab: &'a mut PinSlab<T, Tag, MAX>,
    pub index: u32,
}

impl<T, Tag, const MAX: u32> PinSlab<T, Tag, MAX> {
    /// The slot table.
    pub closed spec fn inner(&self) -> SlabCore<T, MAX> {
        self.core
    }

    pub open spec fn wf(&self) -> bool {
        self.inner().wf()
    }

    /// `capacity` free slots, filled in index order.
    pub fn with_capacity(capacity: usize) -> (s: Self)
        requires
            capacity <= NONE,
        ensures
            s.wf(),
            s.inner().slots_view().len() == capacity,
            s.inner().free_list() == Seq::new(capacity as nat, |k: int| k as u32),
            forall|i: int| #![trigger s.inner().slots_view()[i]] 0 <= i < capacity ==> s.inner().slots_view()[i].state == SlotState::Free
                && s.inner().slots_view()[i].generation == 0,
    {
        PinSlab { core: SlabCore::new(capacity), tag: core::marker::PhantomData }
    }

    /// Stores `value` in the next free slot and returns its key, or hands
    /// `value` back when no slot is free.
    pub fn insert(&mut self, value: T) -> (r: Result<SlabKey<Tag, MAX>, T>)
        requires
            old(self).wf(),
        ensures
            final(self).wf(),
            old(self).inner().free_list().len() == 0 ==> r is Err && r->Err_0 == value && *final(self) == *old(self),
            old(self).inner().free_list().len() > 0 ==> r is Ok && r->Ok_0.parts.index == old(self).inner().free_list()[0]
                && r->Ok_0.parts.generation == old(self).inner().slots_view()[old(self).inner().free_list()[0] as int].generation
                && final(self).inner().filled_from(&old(self).inner(), value),
    {
        if self.core.is_full() {
            return Err(value);
        }
        let index = self.core.fill_head(value);
        let generation = self.core.generation_at(index);
        Ok(SlabKey { parts: SlabKeyParts { index, generation }, tag: core::marker::PhantomData })
    }

    /// The next free slot, if any.
    pub fn vacant_entry(&mut self) -> (r: Option<PinSlabVacantEntry<'_, T, Tag, MAX>>)
        requires
            old(self).wf(),
        ensures
            old(self).inner().free_list().len() == 0 ==> r is None && *final(self) == *old(self),
            old(self).inner().free_list().len() > 0 ==> r is Some && r->0.index == old(self).inner().free_list()[0]
                && *r->0.slab == *old(self) && *final(r->0.slab) == *final(self),
    {
        match self.core.free_head() {
            Some(index) => Some(PinSlabVacantEntry { slab: self, index }),
            None => None,
        }
    }

    pub fn contains_key(&self, key: SlabKey<Tag, MAX>) -> (b: bool)
        requires
            self.wf(),
        ensures
            b == self.inner().holds_spec(key.parts.index, key.parts.generation),
    {
        self.core.holds(key.parts.index, key.parts.generation)
    }

    pub fn contains_parts(&self, parts: SlabKeyParts<MAX>) -> (b: bool)
        requires
            self.wf(),
        ensures
            b == self.inner().holds_spec(parts.index, parts.generation),
    {
        self.core.holds(parts.index, parts.generation)
    }

    pub fn capacity(&self) -> (n: usize)
        ensures
            n == self.inner().slots_view().len(),
    {
        self.core.capacity()
    }

    /// The number of stored values.
    pub fn len(&self) -> (n: usize)
        requires
            self.wf(),
        ensures
            n == crate::collections::slab::occupied_slots(self.inner().slots_view()).len(),
    {
        self.core.len()
    }

    pub fn is_empty(&self) -> (b: bool)
        requires
            self.wf(),
        ensures
            b == (crate::collections::slab::occupied_slots(self.inner().slots_view()).len() == 0),
    {
        self.core.is_empty()
    }

    /// Whether no slot is free.
    pub fn is_full(&self) -> (b: bool)
        requires
            self.wf(),
        ensures
            b == (self.inner().free_list().len() == 0),
    {
        self.core.is_full()
    }

    /// The key of the value in slot `index`, if it holds one.
    pub fn key(&self, index: u32) -> (r: Option<SlabKey<Tag, MAX>>)
        requires
            self.wf(),
        ensures
            self.inner().holds_spec(index, self.inner().slots_view()[index as int].generation) ==> r is Some
                && r->0.parts.index == index && r->0.parts.generation == self.inner().slots_view()[index as int].generation,
            !self.inner().holds_spec(index, self.inner().slots_view()[index as int].generation) ==> r is None,
    {
        match self.core.generation_of(index) {
            Some(generation) => Some(SlabKey { parts: SlabKeyParts { index, generation }, tag: core::marker::PhantomData }),
            None => None,
        }
    }

    pub fn get(&self, key: SlabKey<Tag, MAX>) -> (r: Option<&T>)
        requires
            self.wf(),
        ensures
            self.inner().holds_spec(key.parts.index, key.parts.generation) ==> r == Some(
                &self.inner().slots_view()[key.parts.index as int].value->0,
            ),
            !self.inner().holds_spec(key.parts.index, key.parts.generation) ==> r is None,
    {
        self.get_parts(key.parts)
    }

    pub fn get_parts(&self, parts: SlabKeyParts<MAX>) -> (r: Option<&T>)
        requires
            self.wf(),
        ensures
            self.inner().holds_spec(parts.index, parts.generation) ==> r == Some(
                &self.inner().slots_view()[parts.index as int].value->0,
            ),
            !self.inner().holds_spec(parts.index, parts.generation) ==> r is None,
    {
        self.core.get(parts.index, parts.generation)
    }

    pub fn get_mut(&mut self, key: SlabKey<Tag, MAX>) -> (r: Option<&mut T>)
        requires
            old(self).wf(),
        ensures
            old(self).inner().holds_spec(key.parts.index, key.parts.generation) ==> r is Some,
            r matches Some(v) ==> *v == old(self).inner().slots_view()[key.parts.index as int].value->0,
            r matches Some(v) ==> final(self).inner().slots_view() == old(self).inner().slots_view().update(
                key.parts.index as int,
                crate::collections::slab::Slot {
                    value: Some(*final(v)),
                    ..old(self).inner().slots_view()[key.parts.index as int]
                },
            ),
            r is Some ==> final(self).inner().free_list() == old(self).inner().free_list() && final(self).wf(),
            !old(self).inner().holds_spec(key.parts.index, key.parts.generation) ==> r is None && *final(self)
                == *old(self),
    {
        self.core.get_mut(key.parts.index, key.parts.generation)
    }

    pub fn get_parts_mut(&mut self, parts: SlabKeyParts<MAX>) -> (r: Option<&mut T>)
        requires
            old(self).wf(),
        ensures
            old(self).inner().holds_spec(parts.index, parts.generation) ==> r is Some,
            r matches Some(v) ==> *v == old(self).inner().slots_view()[parts.index as int].value->0,
            r matches Some(v) ==> final(self).inner().slots_view() == old(self).inner().slots_view().update(
                parts.index as int,
                crate::collections::slab::Slot {
                    value: Some(*final(v)),
                    ..old(self).inner().slots_view()[parts.index as int]
                },
            ),
            r is Some ==> final(self).inner().free_list() == old(self).inner().free_list() && final(self).wf(),
            !old(self).inner().holds_spec(parts.index, parts.generation) ==> r is None && *final(self) == *old(self),
    {
        self.core.get_mut(parts.index, parts.generation)
    }

    /// The occupied slot `key` names, if it still holds that key's value.
    pub fn entry(&mut self, key: SlabKey<Tag, MAX>) -> (r: Option<PinSlabOccupiedEntry<'_, T, Tag, MAX>>)
        requires
            old(self).wf(),
        ensures
            old(self).inner().holds_spec(key.parts.index, key.parts.generation) ==> r is Some && r->0.key.parts
                == key.parts && *r->0.slab == *old(self) && *final(r->0.slab) == *final(self),
            !old(self).inner().holds_spec(key.parts.index, key.parts.generation) ==> r is None && *final(self)
                == *old(self),
    {
        self.entry_parts(key.parts)
    }

    pub fn entry_parts(&mut self, parts: SlabKeyParts<MAX>) -> (r: Option<PinSlabOccupiedEntry<'_, T, Tag, MAX>>)
        requires
            old(self).wf(),
        ensures
            old(self).inner().holds_spec(parts.index, parts.generation) ==> r is Some && r->0.key.parts == parts
                && *r->0.slab == *old(self) && *final(r->0.slab) == *final(self),
            !old(self).inner().holds_spec(parts.index, parts.generation) ==> r is None && *final(self) == *old(self),
    {
        if !self.core.holds(parts.index, parts.generation) {
            return None;
        }
        Some(PinSlabOccupiedEntry { slab: self, key: SlabKey::from_parts(parts) })
    }

    /// Drops the value `key` names; `false` when it is no longer stored.
    pub fn remove(&mut self, key: SlabKey<Tag, MAX>) -> (b: bool)
        requires
            old(self).wf(),
        ensures
            b == old(self).inner().holds_spec(key.parts.index, key.parts.generation),
            b ==> final(self).inner().took_from(&old(self).inner(), key.parts.index),
            !b ==> *final(self) == *old(self),
    {
        self.remove_parts(key.parts)
    }

    pub fn remove_parts(&mut self, parts: SlabKeyParts<MAX>) -> (b: bool)
        requires
            old(self).wf(),
        ensures
            b == old(self).inner().holds_spec(parts.index, parts.generation),
            b ==> final(self).inner().took_from(&old(self).inner(), parts.index),
            !b ==> *final(self) == *old(self),
    {
        if !self.core.holds(parts.index, parts.generation) {
            return false;
        }
        let _ = self.core.take_index(parts.index);
        true
    }


    /// Moves out the value `key` names, if it is still stored.
    pub fn take(&mut self, key: SlabKey<Tag, MAX>) -> (r: Option<T>)
        requires
            old(self).wf(),
        ensures
            old(self).inner().holds_spec(key.parts.index, key.parts.generation) ==> r == Some(
                old(self).inner().slots_view()[key.parts.index as int].value->0,
            ) && final(self).inner().took_from(&old(self).inner(), key.parts.index),
            !old(self).inner().holds_spec(key.parts.index, key.parts.generation) ==> r is None && *final(self)
                == *old(self),
    {
        if !self.core.holds(key.parts.index, key.parts.generation) {
            return None;
        }
        Some(self.core.take_index(key.parts.index))
    }
}

impl<'a, T, Tag, const MAX: u32> PinSlabOccupiedEntry<'a, T, Tag, MAX> {
    pub fn key(&self) -> (k: SlabKey<Tag, MAX>)
        ensures
            k == self.key,
    {
        self.key
    }

    pub fn index(&self) -> (i: u32)
        ensures
            i == self.key.parts.index,
    {
        self.key.parts.index
    }

    pub fn generation(&self) -> (g: SlabGeneration<MAX>)
        ensures
            g.spec_value() == self.key.parts.generation,
    {
        self.key.generation()
    }

    pub fn parts(&self) -> (p: SlabKeyParts<MAX>)
        ensures
            p == self.key.parts,
    {
        self.key.parts
    }

    /// Mutable access to the entry's value.
    pub fn as_pin_mut(self) -> (r: &'a mut T)
        requires
            self.slab.wf(),
            self.slab.inner().holds_spec(self.key.parts.index, self.key.parts.generation),
        ensures
            *r == old(self.slab).inner().slots_view()[self.key.parts.index as int].value->0,
            final(self.slab).wf(),
            final(self.slab).inner().free_list() == old(self.slab).inner().free_list(),
            final(self.slab).inner().slots_view() == old(self.slab).inner().slots_view().update(
                self.key.parts.index as int,
                crate::collections::slab::Slot {
                    value: Some(*final(r)),
                    ..old(self.slab).inner().slots_view()[self.key.parts.index as int]
                },
            ),
    {
        self.slab.core.get_mut(self.key.parts.index, self.key.parts.generation).unwrap()
    }

    /// Drops the entry's value, releasing its slot.
    pub fn remove(self)
        requires
            self.slab.wf(),
            self.slab.inner().holds_spec(self.key.parts.index, self.key.parts.generation),
        ensures
            final(self.slab).inner().took_from(&old(self.slab).inner(), self.key.parts.index),
    {
        let _ = self.slab.core.take_index(self.key.parts.index);
    }
}

impl<'a, T, Tag, const MAX: u32> PinSlabVacantEntry<'a, T, Tag, MAX> {
    pub fn index(&self) -> (i: u32)
        ensures
            i == self.index,
    {
        self.index
    }

    /// The key the value will have.
    pub fn key(&self) -> (k: SlabKey<Tag, MAX>)
        requires
            self.index < self.slab.inner().slots_view().len(),
        ensures
            k.parts.index == self.index,
            k.parts.generation == old(self.slab).inner().slots_view()[self.index as int].generation,
    {
        let generation = self.slab.core.generation_at(self.index);
        SlabKey { parts: SlabKeyParts { index: self.index, generation }, tag: core::marker::PhantomData }
    }

    /// Stores `value` in the slot and returns its key.
    pub fn insert(self, value: T) -> (k: SlabKey<Tag, MAX>)
        requires
            self.slab.wf(),
            self.slab.inner().free_list().len() > 0,
            self.index == self.slab.inner().free_list()[0],
        ensures
            self.index < old(self.slab).inner().slots_view().len(),
            k.parts.index == self.index,
            k.parts.generation == old(self.slab).inner().slots_view()[self.index as int].generation,
            final(self.slab).inner().filled_from(&old(self.slab).inner(), value),
    {
        let index = self.slab.core.fill_head(value);
        let generation = self.slab.core.generation_at(index);
        SlabKey { parts: SlabKeyParts { index, generation }, tag: core::marker::PhantomData }
    }
}


} // verus!
