//! Generational slab keys, and the slot table that pinned slabs share: a
//! free list of slots whose generation advances each time a value leaves,
//! so that a key of a removed value never finds the slot's next value.
use vstd::prelude::*;

verus! {

/// The link that ends the free list.
pub const NONE: u32 = 0xffff_ffff;

/// A slot generation, at most `MAX`.
#[derive(Clone, Copy)]
pub struct SlabGeneration<const MAX: u32> {
    value: u32,
}

impl<const MAX: u32> SlabGeneration<MAX> {
    pub closed spec fn spec_value(self) -> u32 {
        self.value
    }

    /// The first generation of every slot.
    pub fn min() -> (g: Self)
        ensures
            g.spec_value() == 0,
    {
        SlabGeneration { value: 0 }
    }

    pub fn get(self) -> (v: u32)
        ensures
            v == self.spec_value(),
    {
        self.value
    }

    /// The generation after this one, or `None` once `MAX` is reached.
    pub fn next(self) -> (r: Option<Self>)
        ensures
            self.spec_value() < MAX ==> r is Some && r->0.spec_value() == self.spec_value() + 1,
            self.spec_value() >= MAX ==> r is None,
    {
        if self.value < MAX {
            Some(SlabGeneration { value: self.value + 1 })
        } else {
            None
        }
    }
}

/// A slot index with the generation it was filled in.
#[derive(Clone, Copy)]
pub struct SlabKeyParts<const MAX: u32> {
    pub index: u32,
    pub generation: u32,
}

impl<const MAX: u32> SlabKeyParts<MAX> {
    pub fn new(index: u32, generation: SlabGeneration<MAX>) -> (p: Self)
        ensures
            p.index == index,
            p.generation == generation.spec_value(),
    {
        SlabKeyParts { index, generation: generation.get() }
    }

    pub fn index(self) -> (i: u32)
        ensures
            i == self.index,
    {
        self.index
    }

    pub fn generation(self) -> (g: SlabGeneration<MAX>)
        ensures
            g.spec_value() == self.generation,
    {
        SlabGeneration { value: self.generation }
    }
}

/// A key issued by a slab tagged `Tag`.
pub struct SlabKey<Tag, const MAX: u32> {
    pub parts: SlabKeyParts<MAX>,
    pub tag: core::marker::PhantomData<Tag>,
}

impl<Tag, const MAX: u32> Clone for SlabKey<Tag, MAX> {
    fn clone(&self) -> (r: Self)
        ensures
            r == *self,
    {
        SlabKey { parts: self.parts, tag: core::marker::PhantomData }
    }
}

impl<Tag, const MAX: u32> Copy for SlabKey<Tag, MAX> {
}

impl<Tag, const MAX: u32> SlabKey<Tag, MAX> {
    pub fn new(index: u32, generation: SlabGeneration<MAX>) -> (k: Self)
        ensures
            k.parts.index == index,
            k.parts.generation == generation.spec_value(),
    {
        SlabKey { parts: SlabKeyParts::new(index, generation), tag: core::marker::PhantomData }
    }

    pub fn from_parts(parts: SlabKeyParts<MAX>) -> (k: Self)
        ensures
            k.parts == parts,
    {
        SlabKey { parts, tag: core::marker::PhantomData }
    }

    pub fn parts(self) -> (p: SlabKeyParts<MAX>)
        ensures
            p == self.parts,
    {
        self.parts
    }

    pub fn index(self) -> (i: u32)
        ensures
            i == self.parts.index,
    {
        self.parts.index
    }

    pub fn generation(self) -> (g: SlabGeneration<MAX>)
        ensures
            g.spec_value() == self.parts.generation,
    {
        SlabGeneration { value: self.parts.generation }
    }
}

/// Where a slot stands.
#[derive(Clone, Copy, PartialEq, Eq, Structural)]
pub enum SlotState {
    /// On the free list.
    Free,
    /// Taken off the free list by a vacant entry, not yet filled.
    Reserved,
    Occupied,
    /// Its generations are used up; it is never reused.
    Retired,
}

/// One slot of a slab.
pub struct Slot<T> {
    pub value: Option<T>,
    pub generation: u32,
    pub state: SlotState,
    /// The next free slot, while this one is free.
    pub next: u32,
}

/// The slot table of a slab whose generations run up to `MAX`.
pub struct SlabCore<T, const MAX: u32> {
    slots: Vec<Slot<T>>,
    free: u32,
    len: usize,
    chain: Ghost<Seq<u32>>,
}

/// The occupied slots of `s`.
pub open spec fn occupied_slots<T>(s: Seq<Slot<T>>) -> Set<int> {
    Set::new(|i: int| 0 <= i < s.len() && s[i].state == SlotState::Occupied)
}

/// A slot with its generation advanced past a departed value: free again,
/// or retired once the generations are used up.
pub open spec fn released<T>(slot: Slot<T>, max: u32) -> (SlotState, u32) {
    if slot.generation < max {
        (SlotState::Free, (slot.generation + 1) as u32)
    } else {
        (SlotState::Retired, slot.generation)
    }
}

impl<T, const MAX: u32> SlabCore<T, MAX> {
    /// The slots.
    pub closed spec fn slots_view(&self) -> Seq<Slot<T>> {
        self.slots@
    }

    /// The free slots, the next one filled first.
    pub closed spec fn free_list(&self) -> Seq<u32> {
        self.chain@
    }

    /// Slot `index` holds a value filled in `generation`.
    pub open spec fn holds_spec(&self, index: u32, generation: u32) -> bool {
        &&& index < self.slots_view().len()
        &&& self.slots_view()[index as int].state == SlotState::Occupied
        &&& self.slots_view()[index as int].generation == generation
    }

    /// This table is `before` once the value of its occupied slot `index`
    /// left: the slot's generation advanced and it rejoined the free list at
    /// the front, or it retired when its generations were used up.
    pub open spec fn took_from(&self, before: &Self, index: u32) -> bool {
        let old_slot = before.slots_view()[index as int];
        let new_slot = self.slots_view()[index as int];
        &&& self.wf()
        &&& self.slots_view().len() == before.slots_view().len()
        &&& forall|i: int| 0 <= i < self.slots_view().len() && i != index ==> #[trigger] self.slots_view()[i]
            == before.slots_view()[i]
        &&& new_slot.value is None
        &&& (new_slot.state, new_slot.generation) == released(old_slot, MAX)
        &&& old_slot.generation < MAX ==> self.free_list() == seq![index] + before.free_list()
        &&& old_slot.generation >= MAX ==> self.free_list() == before.free_list()
    }

    /// This table is `before` once its next free slot was filled with `value`.
    pub open spec fn filled_from(&self, before: &Self, value: T) -> bool {
        let index = before.free_list()[0];
        &&& self.wf()
        &&& self.free_list() == before.free_list().drop_first()
        &&& self.slots_view() == before.slots_view().update(
            index as int,
            Slot { value: Some(value), state: SlotState::Occupied, ..before.slots_view()[index as int] },
        )
    }

    pub closed spec fn wf(&self) -> bool {
        let c = self.chain@;
        let s = self.slots@;
        &&& s.len() <= NONE
        &&& self.free == (if c.len() == 0 { NONE } else { c[0] })
        &&& c.no_duplicates()
        &&& forall|k: int| 0 <= k < c.len() ==> #[trigger] c[k] < s.len()
        &&& forall|k: int| 0 <= k < c.len() ==> s[#[trigger] c[k] as int].state == SlotState::Free
        &&& forall|k: int| 0 <= k < c.len() ==> s[#[trigger] c[k] as int].next == (if k + 1 < c.len() {
            c[k + 1]
        } else {
            NONE
        })
        &&& forall|i: int| 0 <= i < s.len() && #[trigger] s[i].state == SlotState::Free ==> c.contains(i as u32)
        &&& forall|i: int| 0 <= i < s.len() ==> (#[trigger] s[i].value is Some) == (s[i].state == SlotState::Occupied)
        &&& forall|i: int| 0 <= i < s.len() ==> #[trigger] s[i].generation <= MAX
        &&& occupied_slots(s).finite()
        &&& self.len == occupied_slots(s).len()
    }

    /// A table of `capacity` free slots in generation zero, filled in index order.
    #[verifier::rlimit(40)]
    pub fn new(capacity: usize) -> (core: Self)
        requires
            capacity <= NONE,
        ensures
            core.wf(),
            core.slots_view().len() == capacity,
            core.free_list() == Seq::new(capacity as nat, |k: int| k as u32),
            forall|i: int| 0 <= i < capacity ==> #[trigger] core.slots_view()[i].state == SlotState::Free
                && core.slots_view()[i].generation == 0,
    {
        let mut slots: Vec<Slot<T>> = Vec::with_capacity(capacity);
        let mut i: usize = 0;
        while i < capacity
            invariant
                i <= capacity,
                capacity <= NONE,
                slots@.len() == i,
                forall|k: int| 0 <= k < i ==> #[trigger] slots@[k].state == SlotState::Free && slots@[k].generation == 0
                    && slots@[k].value is None && slots@[k].next == (if k + 1 == capacity { NONE } else { (k + 1) as u32 }),
            decreases capacity - i,
        {
            let next = if i + 1 == capacity {
                NONE
            } else {
                (i + 1) as u32
            };
            slots.push(Slot { value: None, generation: 0, state: SlotState::Free, next });
            i = i + 1;
        }
        let ghost chain = Seq::new(capacity as nat, |k: int| k as u32);
        let core = SlabCore {
            slots,
            free: if capacity == 0 {
                NONE
            } else {
                0
            },
            len: 0,
            chain: Ghost(chain),
        };
        proof {
            core.lemma_fresh(capacity as nat);
        }
        core
    }

    proof fn lemma_fresh(&self, capacity: nat)
        requires
            capacity <= NONE,
            self.slots@.len() == capacity,
            self.len == 0,
            self.chain@ == Seq::new(capacity, |k: int| k as u32),
            self.free == (if capacity == 0 { NONE } else { 0 }),
            forall|k: int| 0 <= k < capacity ==> #[trigger] self.slots@[k].state == SlotState::Free && self.slots@[k].generation == 0
                && self.slots@[k].value is None && self.slots@[k].next == (if k + 1 == capacity { NONE } else { (k + 1) as u32 }),
        ensures
            self.wf(),
    {
        let chain = self.chain@;
        assert forall|k: int| 0 <= k < chain.len() implies self.slots@[#[trigger] chain[k] as int].next == (if k + 1
            < chain.len() {
            chain[k + 1]
        } else {
            NONE
        }) by {
            assert(chain[k] as int == k);
            assert(self.slots@[k].state == SlotState::Free);
            if k + 1 < chain.len() {
                assert(chain[k + 1] == (k + 1) as u32);
            }
        }
        assert forall|k: int| 0 <= k < chain.len() implies self.slots@[#[trigger] chain[k] as int].state == SlotState::Free by {
            assert(chain[k] as int == k);
        }
        assert forall|i: int| 0 <= i < self.slots@.len() && #[trigger] self.slots@[i].state == SlotState::Free implies chain.contains(
            i as u32,
        ) by {
            assert(chain[i] == i as u32);
        }
        assert forall|a: int, b: int| 0 <= a < chain.len() && 0 <= b < chain.len() && a != b implies chain[a]
            != chain[b] by {
        }
        assert forall|i: int| 0 <= i < self.slots@.len() implies (#[trigger] self.slots@[i].value is Some) == (self.slots@[i].state == SlotState::Occupied) by {
            assert(self.slots@[i].state == SlotState::Free);
        }
        assert forall|i: int| 0 <= i < self.slots@.len() implies #[trigger] self.slots@[i].generation <= MAX by {
            assert(self.slots@[i].state == SlotState::Free);
        }
        assert(occupied_slots(self.slots@) =~= Set::<int>::empty()) by {
            assert forall|i: int| !occupied_slots(self.slots@).contains(i) by {
                if 0 <= i < self.slots@.len() {
                    assert(self.slots@[i].state == SlotState::Free);
                }
            }
        }
    }

    /// The free list names free slots of this table, each once.
    pub proof fn lemma_free_list(&self)
        requires
            self.wf(),
        ensures
            self.free_list().no_duplicates(),
            forall|k: int| 0 <= k < self.free_list().len() ==> #[trigger] self.free_list()[k] < self.slots_view().len()
                && self.slots_view()[self.free_list()[k] as int].state == SlotState::Free,
    {
    }

    pub fn capacity(&self) -> (n: usize)
        ensures
            n == self.slots_view().len(),
    {
        self.slots.len()
    }

    pub fn len(&self) -> (n: usize)
        requires
            self.wf(),
        ensures
            n == occupied_slots(self.slots_view()).len(),
    {
        self.len
    }

    pub fn is_empty(&self) -> (b: bool)
        requires
            self.wf(),
        ensures
            b == (occupied_slots(self.slots_view()).len() == 0),
    {
        self.len == 0
    }

    /// Whether no slot is free.
    pub fn is_full(&self) -> (b: bool)
        requires
            self.wf(),
        ensures
            b == (self.free_list().len() == 0),
    {
        proof {
            if self.chain@.len() > 0 {
                assert(self.chain@[0] < self.slots@.len());
            }
        }
        self.free == NONE
    }

    /// The next free slot, without taking it.
    pub fn free_head(&self) -> (r: Option<u32>)
        requires
            self.wf(),
        ensures
            self.free_list().len() == 0 ==> r is None,
            self.free_list().len() > 0 ==> r == Some(self.free_list()[0]) && self.free_list()[0] < self.slots_view().len(),
    {
        if self.is_full() {
            None
        } else {
            Some(self.free)
        }
    }

    /// Whether slot `index` holds a value filled in `generation`.
    pub fn holds(&self, index: u32, generation: u32) -> (b: bool)
        requires
            self.wf(),
        ensures
            b == (index < self.slots_view().len() && self.slots_view()[index as int].state == SlotState::Occupied
                && self.slots_view()[index as int].generation == generation),
    {
        if index as usize >= self.slots.len() {
            return false;
        }
        let slot = &self.slots[index as usize];
        slot.state == SlotState::Occupied && slot.generation == generation
    }

    /// The value filled in `generation` at slot `index`.
    pub fn get(&self, index: u32, generation: u32) -> (r: Option<&T>)
        requires
            self.wf(),
        ensures
            (index < self.slots_view().len() && self.slots_view()[index as int].state == SlotState::Occupied
                && self.slots_view()[index as int].generation == generation) ==> r == Some(
                &self.slots_view()[index as int].value->0,
            ),
            !(index < self.slots_view().len() && self.slots_view()[index as int].state == SlotState::Occupied
                && self.slots_view()[index as int].generation == generation) ==> r is None,
    {
        if !self.holds(index, generation) {
            return None;
        }
        self.slots[index as usize].value.as_ref()
    }

    /// Changing the value of an occupied slot keeps the table well formed.
    proof fn lemma_value_change(a: Self, b: Self, index: int)
        requires
            a.wf(),
            0 <= index < a.slots@.len(),
            a.slots@[index].state == SlotState::Occupied,
            b.slots@.len() == a.slots@.len(),
            b.slots@[index].value is Some,
            b.slots@[index].state == a.slots@[index].state,
            b.slots@[index].generation == a.slots@[index].generation,
            b.slots@[index].next == a.slots@[index].next,
            forall|i: int| 0 <= i < a.slots@.len() && i != index ==> b.slots@[i] == a.slots@[i],
            b.free == a.free,
            b.len == a.len,
            b.chain == a.chain,
        ensures
            b.wf(),
    {
        assert(occupied_slots(b.slots@) =~= occupied_slots(a.slots@));
        assert forall|k: int| 0 <= k < b.chain@.len() implies b.slots@[#[trigger] b.chain@[k] as int].state == SlotState::Free
            && b.slots@[b.chain@[k] as int].next == (if k + 1 < b.chain@.len() { b.chain@[k + 1] } else { NONE }) by {
            assert(a.slots@[a.chain@[k] as int].state == SlotState::Free);
        }
        assert forall|i: int| 0 <= i < b.slots@.len() && #[trigger] b.slots@[i].state == SlotState::Free implies b.chain@.contains(i as u32) by {
            assert(a.slots@[i].state == SlotState::Free);
        }
        assert forall|i: int| 0 <= i < b.slots@.len() implies (#[trigger] b.slots@[i].value is Some) == (b.slots@[i].state == SlotState::Occupied)
            && b.slots@[i].generation <= MAX by {
            assert(a.slots@[i].value is Some == (a.slots@[i].state == SlotState::Occupied));
            assert(a.slots@[i].generation <= MAX);
        }
    }

    /// Mutable access to the value filled in `generation` at slot `index`.
    pub fn get_mut(&mut self, index: u32, generation: u32) -> (r: Option<&mut T>)
        requires
            old(self).wf(),
        ensures
            (index < old(self).slots_view().len() && old(self).slots_view()[index as int].state == SlotState::Occupied
                && old(self).slots_view()[index as int].generation == generation) ==> r is Some,
            r matches Some(v) ==> *v == old(self).slots_view()[index as int].value->0,
            r matches Some(v) ==> final(self).slots_view() == old(self).slots_view().update(
                index as int,
                Slot { value: Some(*final(v)), ..old(self).slots_view()[index as int] },
            ),
            r is Some ==> final(self).free_list() == old(self).free_list(),
            r is Some ==> final(self).wf(),
            !(index < old(self).slots_view().len() && old(self).slots_view()[index as int].state == SlotState::Occupied
                && old(self).slots_view()[index as int].generation == generation) ==> r is None && *final(self) == *old(self),
    {
        if !self.holds(index, generation) {
            return None;
        }
        proof {
            let a = *self;
            assert forall|b: Self|
                b.slots@.len() == a.slots@.len() && b.slots@[index as int].value is Some && b.slots@[index as int].state
                    == a.slots@[index as int].state && b.slots@[index as int].generation == a.slots@[index as int].generation
                    && b.slots@[index as int].next == a.slots@[index as int].next && (forall|i: int|
                    0 <= i < a.slots@.len() && i != index ==> b.slots@[i] == a.slots@[i]) && b.free == a.free && b.len
                    == a.len && b.chain == a.chain implies #[trigger] b.wf() by {
                Self::lemma_value_change(a, b, index as int);
            }
        }
        self.slots[index as usize].value.as_mut()
    }

    /// The generation of slot `index` when it holds a value.
    pub fn generation_of(&self, index: u32) -> (r: Option<u32>)
        requires
            self.wf(),
        ensures
            (index < self.slots_view().len() && self.slots_view()[index as int].state == SlotState::Occupied)
                ==> r == Some(self.slots_view()[index as int].generation),
            !(index < self.slots_view().len() && self.slots_view()[index as int].state == SlotState::Occupied)
                ==> r is None,
    {
        if index as usize >= self.slots.len() || self.slots[index as usize].state != SlotState::Occupied {
            return None;
        }
        Some(self.slots[index as usize].generation)
    }

    /// The generation slot `index` is at, whatever it holds.
    pub fn generation_at(&self, index: u32) -> (g: u32)
        requires
            index < self.slots_view().len(),
        ensures
            g == self.slots_view()[index as int].generation,
    {
        self.slots[index as usize].generation
    }

    /// Takes the next free slot off the free list, reserving it.
    pub fn detach_head(&mut self) -> (r: u32)
        requires
            old(self).wf(),
            old(self).free_list().len() > 0,
        ensures
            final(self).wf(),
            r == old(self).free_list()[0],
            final(self).free_list() == old(self).free_list().drop_first(),
            final(self).slots_view() == old(self).slots_view().update(
                r as int,
                Slot { state: SlotState::Reserved, ..old(self).slots_view()[r as int] },
            ),
    {
        let ghost c = self.chain@;
        proof {
            assert(c[0] < self.slots@.len());
        }
        let index = self.free;
        let next = self.slots[index as usize].next;
        self.slots[index as usize].state = SlotState::Reserved;
        self.free = next;
        self.chain = Ghost(c.drop_first());
        proof {
            let s = self.slots@;
            let d = c.drop_first();
            assert forall|k: int| 0 <= k < d.len() implies s[#[trigger] d[k] as int].next == (if k + 1 < d.len() {
                d[k + 1]
            } else {
                NONE
            }) && s[d[k] as int].state == SlotState::Free by {
                assert(d[k] == c[k + 1]);
                assert(c[k + 1] != c[0]);
            }
            assert forall|i: int| 0 <= i < s.len() && #[trigger] s[i].state == SlotState::Free implies d.contains(i as u32) by {
                assert(old(self).slots@[i].state == SlotState::Free);
                let k = choose|k: int| 0 <= k < c.len() && c[k] == i as u32;
                assert(k != 0);
                assert(d[k - 1] == i as u32);
            }
            assert(occupied_slots(s) =~= occupied_slots(old(self).slots@));
        }
        index
    }

    /// Fills the next free slot with `value`, returning its index.
    pub fn fill_head(&mut self, value: T) -> (r: u32)
        requires
            old(self).wf(),
            old(self).free_list().len() > 0,
        ensures
            r == old(self).free_list()[0],
            r < old(self).slots_view().len(),
            final(self).filled_from(&*old(self), value),
    {
        let index = self.detach_head();
        self.commit(index, value);
        proof {
            assert(self.slots@ =~= old(self).slots@.update(
                index as int,
                Slot { value: Some(value), state: SlotState::Occupied, ..old(self).slots@[index as int] },
            ));
        }
        index
    }

    /// Fills the reserved slot `index` with `value`.
    pub fn commit(&mut self, index: u32, value: T)
        requires
            old(self).wf(),
            index < old(self).slots_view().len(),
            old(self).slots_view()[index as int].state == SlotState::Reserved,
        ensures
            final(self).wf(),
            final(self).free_list() == old(self).free_list(),
            final(self).slots_view() == old(self).slots_view().update(
                index as int,
                Slot { value: Some(value), state: SlotState::Occupied, ..old(self).slots_view()[index as int] },
            ),
            occupied_slots(final(self).slots_view()) == occupied_slots(old(self).slots_view()).insert(index as int),
    {
        proof {
            assert(!occupied_slots(self.slots@).contains(index as int));
            assert(self.len < NONE) by {
                let all = vstd::set_lib::set_int_range(0, self.slots@.len() as int);
                vstd::set_lib::lemma_int_range(0, self.slots@.len() as int);
                assert(occupied_slots(self.slots@).subset_of(all.remove(index as int)));
                vstd::set_lib::lemma_len_subset(occupied_slots(self.slots@), all.remove(index as int));
            }
        }
        self.slots[index as usize].value = Some(value);
        self.slots[index as usize].state = SlotState::Occupied;
        self.len = self.len + 1;
        proof {
            let s = self.slots@;
            assert(occupied_slots(s) =~= occupied_slots(old(self).slots@).insert(index as int));
            assert forall|k: int| 0 <= k < self.chain@.len() implies s[#[trigger] self.chain@[k] as int].state == SlotState::Free by {
                assert(self.chain@[k] != index);
            }
            assert forall|k: int| 0 <= k < self.chain@.len() implies s[#[trigger] self.chain@[k] as int].next == (if k + 1
                < self.chain@.len() {
                self.chain@[k + 1]
            } else {
                NONE
            }) by {
                assert(self.chain@[k] != index);
            }
        }
    }

    /// Puts the reserved slot `index` back at the front of the free list.
    pub fn rollback(&mut self, index: u32)
        requires
            old(self).wf(),
            index < old(self).slots_view().len(),
            old(self).slots_view()[index as int].state == SlotState::Reserved,
        ensures
            final(self).wf(),
            final(self).free_list() == seq![index] + old(self).free_list(),
            final(self).slots_view() == old(self).slots_view().update(
                index as int,
                Slot { state: SlotState::Free, next: final(self).slots_view()[index as int].next, ..old(self).slots_view()[index as int] },
            ),
    {
        self.push_free(index);
    }

    fn push_free(&mut self, index: u32)
        requires
            old(self).wf(),
            index < old(self).slots_view().len(),
            old(self).slots_view()[index as int].state == SlotState::Reserved,
        ensures
            final(self).wf(),
            final(self).free_list() == seq![index] + old(self).free_list(),
            final(self).slots_view() == old(self).slots_view().update(
                index as int,
                Slot { state: SlotState::Free, next: final(self).slots_view()[index as int].next, ..old(self).slots_view()[index as int] },
            ),
    {
        let ghost c = self.chain@;
        proof {
            assert(!c.contains(index)) by {
                if c.contains(index) {
                    let k = choose|k: int| 0 <= k < c.len() && c[k] == index;
                    assert(self.slots@[c[k] as int].state == SlotState::Free);
                }
            }
            vstd::seq_lib::lemma_no_dup_in_concat(seq![index], c);
        }
        let head = self.free;
        self.slots[index as usize].next = head;
        self.slots[index as usize].state = SlotState::Free;
        self.free = index;
        self.chain = Ghost(seq![index] + c);
        proof {
            let s = self.slots@;
            let d = seq![index] + c;
            assert forall|k: int| 0 <= k < d.len() implies s[#[trigger] d[k] as int].next == (if k + 1 < d.len() {
                d[k + 1]
            } else {
                NONE
            }) && s[d[k] as int].state == SlotState::Free by {
                if k > 0 {
                    assert(d[k] == c[k - 1]);
                    assert(c[k - 1] != index);
                }
            }
            assert forall|k: int| 0 <= k < d.len() implies #[trigger] d[k] < s.len() by {
                if k > 0 {
                    assert(d[k] == c[k - 1]);
                }
            }
            assert forall|i: int| 0 <= i < s.len() && #[trigger] s[i].state == SlotState::Free implies d.contains(i as u32) by {
                if i != index {
                    assert(old(self).slots@[i].state == SlotState::Free);
                    let k = choose|k: int| 0 <= k < c.len() && c[k] == i as u32;
                    assert(d[k + 1] == i as u32);
                } else {
                    assert(d[0] == i as u32);
                }
            }
            assert(occupied_slots(s) =~= occupied_slots(old(self).slots@));
        }
    }

    /// Takes the value out of the occupied slot `index` and releases the slot:
    /// its generation advances and it rejoins the free list at the front, or
    /// it retires when its generations are used up.
    pub fn take_index(&mut self, index: u32) -> (r: T)
        requires
            old(self).wf(),
            index < old(self).slots_view().len(),
            old(self).slots_view()[index as int].state == SlotState::Occupied,
        ensures
            final(self).took_from(&*old(self), index),
            r == old(self).slots_view()[index as int].value->0,
            occupied_slots(final(self).slots_view()) == occupied_slots(old(self).slots_view()).remove(index as int),
    {
        proof {
            assert(occupied_slots(self.slots@).contains(index as int));
        }
        let generation = self.slots[index as usize].generation;
        let value = self.slots[index as usize].value.take();
        if generation < MAX {
            self.slots[index as usize].generation = generation + 1;
            self.slots[index as usize].state = SlotState::Reserved;
        } else {
            self.slots[index as usize].state = SlotState::Retired;
        }
        self.len = self.len - 1;
        proof {
            let s = self.slots@;
            assert(occupied_slots(s) =~= occupied_slots(old(self).slots@).remove(index as int));
            assert forall|k: int| 0 <= k < self.chain@.len() implies s[#[trigger] self.chain@[k] as int].state == SlotState::Free by {
                assert(self.chain@[k] != index);
            }
            assert forall|k: int| 0 <= k < self.chain@.len() implies s[#[trigger] self.chain@[k] as int].next == (if k + 1
                < self.chain@.len() {
                self.chain@[k + 1]
            } else {
                NONE
            }) by {
                assert(self.chain@[k] != index);
            }
        }
        if generation < MAX {
            self.push_free(index);
        }
        value.unwrap()
    }
}

/// A key outlives its value harmlessly: once the value it named is taken
/// out, the key names nothing, neither right away nor after the freed slot
/// is filled again.
pub proof fn law_stale_key<T, const MAX: u32>(
    a: SlabCore<T, MAX>,
    b: SlabCore<T, MAX>,
    c: SlabCore<T, MAX>,
    index: u32,
    generation: u32,
    value: T,
)
    requires
        a.holds_spec(index, generation),
        b.took_from(&a, index),
        b.free_list().len() > 0,
        c.filled_from(&b, value),
    ensures
        !b.holds_spec(index, generation),
        !c.holds_spec(index, generation),
{
    b.lemma_free_list();
    let i = b.free_list()[0];
    if i == index {
        assert(b.slots_view()[index as int].state == SlotState::Free);
        assert(c.slots_view()[index as int].generation == b.slots_view()[index as int].generation);
    } else {
        assert(c.slots_view()[index as int] == b.slots_view()[index as int]);
    }
}

} // verus!
