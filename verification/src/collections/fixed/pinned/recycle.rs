//! A fixed pool of values that are reset in place, never moved or replaced,
//! each time their slot is handed back.
use vstd::prelude::*;

use crate::collections::AllocationError;

verus! {

/// Resets a value in place before its slot is handed out again.
pub trait Recycle {
    fn recycle(&mut self);
}

/// Runs `f` on `v`.
fn apply<T, F: FnOnce(&mut T)>(f: F, v: &mut T)
    requires
        forall|w: &mut T| f.requires((w,)),
    ensures
        exists|w: &mut T| #![auto] *w == *old(v) && *final(w) == *final(v) && f.ensures((w,), ()),
{
    f(v)
}

/// Fixed storage for values which stay in their slots and are reset in
/// place. Slots are handed out last returned, first out.
pub struct Pool<T> {
    values: Vec<T>,
    free: Vec<usize>,
}

/// Exclusive use of one slot before it is committed.
pub struct Reservation<T> {
    pub index: usize,
    pub marker: core::marker::PhantomData<T>,
}

/// Exclusive use of one committed slot.
pub struct Lease<T> {
    pub index: usize,
    pub marker: core::marker::PhantomData<T>,
}

impl<T: Recycle> Pool<T> {
    /// The values, one per slot.
    pub closed spec fn values(&self) -> Seq<T> {
        self.values@
    }

    /// The free slots, the next one handed out first.
    pub closed spec fn free_list(&self) -> Seq<usize> {
        self.free@.reverse()
    }

    pub closed spec fn wf(&self) -> bool {
        &&& self.free@.no_duplicates()
        &&& forall|k: int| 0 <= k < self.free@.len() ==> #[trigger] self.free@[k] < self.values@.len()
    }

    /// Slot `index` is handed out.
    pub open spec fn held(&self, index: usize) -> bool {
        &&& index < self.values().len()
        &&& !self.free_list().contains(index)
    }

    /// A pool of `capacity` slots, slot `i` holding `initialize(i)`, all free
    /// and handed out in index order; `Exhausted` when the storage cannot be
    /// had.
    pub fn try_with_capacity<F: Fn(usize) -> T>(capacity: usize, initialize: F) -> (r: Result<Self, AllocationError>)
        requires
            forall|i: usize| i < capacity ==> #[trigger] initialize.requires((i,)),
        ensures
            r matches Ok(p) ==> {
                &&& p.wf()
                &&& p.values().len() == capacity
                &&& forall|i: int| 0 <= i < capacity ==> initialize.ensures((i as usize,), #[trigger] p.values()[i])
                &&& p.free_list() == Seq::new(capacity as nat, |i: int| i as usize)
            },
            r matches Err(e) ==> e == AllocationError::Exhausted,
    {
        let mut values: Vec<T> = Vec::new();
        if values.try_reserve(capacity).is_err() {
            return Err(AllocationError::Exhausted);
        }
        let mut free: Vec<usize> = Vec::new();
        if free.try_reserve(capacity).is_err() {
            return Err(AllocationError::Exhausted);
        }
        Ok(Self::build(capacity, initialize, values, free))
    }

    /// A pool of `capacity` slots, slot `i` holding `initialize(i)`, all free
    /// and handed out in index order.
    pub fn with_capacity<F: Fn(usize) -> T>(capacity: usize, initialize: F) -> (p: Self)
        requires
            forall|i: usize| i < capacity ==> #[trigger] initialize.requires((i,)),
        ensures
            p.wf(),
            p.values().len() == capacity,
            forall|i: int| 0 <= i < capacity ==> initialize.ensures((i as usize,), #[trigger] p.values()[i]),
            p.free_list() == Seq::new(capacity as nat, |i: int| i as usize),
    {
        Self::build(capacity, initialize, Vec::new(), Vec::new())
    }

    fn build<F: Fn(usize) -> T>(capacity: usize, initialize: F, values: Vec<T>, free: Vec<usize>) -> (p: Self)
        requires
            forall|i: usize| i < capacity ==> #[trigger] initialize.requires((i,)),
            values@.len() == 0,
            free@.len() == 0,
        ensures
            p.wf(),
            p.values().len() == capacity,
            forall|i: int| 0 <= i < capacity ==> initialize.ensures((i as usize,), #[trigger] p.values()[i]),
            p.free_list() == Seq::new(capacity as nat, |i: int| i as usize),
    {
        let mut values = values;
        let mut free = free;
        let mut i: usize = 0;
        while i < capacity
            invariant
                i <= capacity,
                values@.len() == i,
                forall|j: usize| j < capacity ==> #[trigger] initialize.requires((j,)),
                forall|j: int| 0 <= j < i ==> initialize.ensures((j as usize,), #[trigger] values@[j]),
            decreases capacity - i,
        {
            let value = initialize(i);
            values.push(value);
            i = i + 1;
        }
        let mut k: usize = capacity;
        while k > 0
            invariant
                k <= capacity,
                free@.len() == capacity - k,
                forall|j: int| 0 <= j < free@.len() ==> #[trigger] free@[j] == capacity - 1 - j,
            decreases k,
        {
            k = k - 1;
            free.push(k);
        }
        let p = Pool { values, free };
        proof {
            assert(p.free_list() =~= Seq::new(capacity as nat, |i: int| i as usize));
            assert forall|a: int, b: int| 0 <= a < free@.len() && 0 <= b < free@.len() && a != b implies free@[a] != free@[b] by {
            }
        }
        p
    }

    /// Hands out the next free slot.
    pub fn reserve(&mut self) -> (r: Option<Reservation<T>>)
        requires
            old(self).wf(),
        ensures
            final(self).wf(),
            final(self).values() == old(self).values(),
            old(self).free_list().len() == 0 ==> r is None && final(self).free_list() == old(self).free_list(),
            old(self).free_list().len() > 0 ==> (r matches Some(res) && res.index == old(self).free_list()[0]
                && final(self).free_list() == old(self).free_list().drop_first() && final(self).held(res.index)),
    {
        match self.free.pop() {
            Some(index) => {
                proof {
                    let f = old(self).free@;
                    assert(self.free@ =~= f.drop_last());
                    assert(old(self).free_list()[0] == f.last());
                    assert(self.free_list() =~= old(self).free_list().drop_first());
                    assert(!self.free@.contains(index)) by {
                        if self.free@.contains(index) {
                            let k = choose|k: int| 0 <= k < self.free@.len() && self.free@[k] == index;
                            assert(f[k] == f[f.len() - 1]);
                        }
                    }
                    assert(!self.free_list().contains(index)) by {
                        if self.free_list().contains(index) {
                            let k = choose|k: int| 0 <= k < self.free_list().len() && self.free_list()[k] == index;
                            assert(self.free@[self.free@.len() - 1 - k] == index);
                        }
                    }
                }
                Some(Reservation { index, marker: core::marker::PhantomData })
            },
            None => None,
        }
    }

    pub fn capacity(&self) -> (n: usize)
        ensures
            n == self.values().len(),
    {
        self.values.len()
    }

    /// The value in slot `index`.
    fn value(&self, index: usize) -> (v: &T)
        requires
            index < self.values().len(),
        ensures
            *v == self.values()[index as int],
    {
        &self.values[index]
    }

    /// The value in slot `index`, to change in place.
    fn value_mut(&mut self, index: usize) -> (v: &mut T)
        requires
            index < old(self).values().len(),
        ensures
            *v == old(self).values()[index as int],
            final(self).values() == old(self).values().update(index as int, *final(v)),
            final(self).free_list() == old(self).free_list(),
            final(self).wf() == old(self).wf(),
    {
        &mut self.values[index]
    }

    /// Resets the value in the held slot `index` and frees the slot; it is
    /// the next one handed out.
    fn recycle_slot(&mut self, index: usize)
        requires
            old(self).wf(),
            old(self).held(index),
        ensures
            final(self).wf(),
            final(self).values().len() == old(self).values().len(),
            forall|j: int| 0 <= j < old(self).values().len() && j != index ==> #[trigger] final(self).values()[j]
                == old(self).values()[j],
            final(self).free_list() == seq![index] + old(self).free_list(),
            exists|v: &mut T| #![auto] *v == old(self).values()[index as int] && *final(v) == final(self).values()[index as int]
                && call_ensures(T::recycle, (v,), ()),
    {
        apply(T::recycle, self.value_mut(index));
        let ghost f = self.free@;
        self.free.push(index);
        proof {
            assert(self.free_list() =~= seq![index] + old(self).free_list());
            assert(!f.contains(index)) by {
                if f.contains(index) {
                    let k = choose|k: int| 0 <= k < f.len() && f[k] == index;
                    assert(old(self).free_list()[f.len() - 1 - k] == index);
                }
            }
            assert forall|a: int, b: int| 0 <= a < self.free@.len() && 0 <= b < self.free@.len() && a != b implies self.free@[a]
                != self.free@[b] by {
                if a == f.len() {
                    assert(f.contains(self.free@[b]));
                } else if b == f.len() {
                    assert(f.contains(self.free@[a]));
                }
            }
        }
    }
}

impl<T: Recycle> Reservation<T> {
    pub fn get<'a>(&self, pool: &'a Pool<T>) -> (v: &'a T)
        requires
            pool.held(self.index),
        ensures
            *v == pool.values()[self.index as int],
    {
        pool.value(self.index)
    }

    pub fn get_mut<'a>(&self, pool: &'a mut Pool<T>) -> (v: &'a mut T)
        requires
            old(pool).held(self.index),
        ensures
            *v == old(pool).values()[self.index as int],
            final(pool).values() == old(pool).values().update(self.index as int, *final(v)),
            final(pool).free_list() == old(pool).free_list(),
            final(pool).wf() == old(pool).wf(),
    {
        pool.value_mut(self.index)
    }

    /// Keeps the slot, handing it to a lease.
    pub fn commit(self) -> (l: Lease<T>)
        ensures
            l.index == self.index,
    {
        Lease { index: self.index, marker: core::marker::PhantomData }
    }

    /// Resets the value and frees the slot, as dropping the reservation does.
    pub fn release(self, pool: &mut Pool<T>)
        requires
            old(pool).wf(),
            old(pool).held(self.index),
        ensures
            final(pool).wf(),
            final(pool).values().len() == old(pool).values().len(),
            forall|j: int| 0 <= j < old(pool).values().len() && j != self.index ==> #[trigger] final(pool).values()[j]
                == old(pool).values()[j],
            final(pool).free_list() == seq![self.index] + old(pool).free_list(),
            exists|v: &mut T| #![auto] *v == old(pool).values()[self.index as int] && *final(v) == final(pool).values()[self.index as int]
                && call_ensures(T::recycle, (v,), ()),
    {
        pool.recycle_slot(self.index);
    }
}

impl<T: Recycle> Lease<T> {
    pub fn get<'a>(&self, pool: &'a Pool<T>) -> (v: &'a T)
        requires
            pool.held(self.index),
        ensures
            *v == pool.values()[self.index as int],
    {
        pool.value(self.index)
    }

    pub fn get_mut<'a>(&self, pool: &'a mut Pool<T>) -> (v: &'a mut T)
        requires
            old(pool).held(self.index),
        ensures
            *v == old(pool).values()[self.index as int],
            final(pool).values() == old(pool).values().update(self.index as int, *final(v)),
            final(pool).free_list() == old(pool).free_list(),
            final(pool).wf() == old(pool).wf(),
    {
        pool.value_mut(self.index)
    }

    /// Resets the value and frees the slot, as dropping the lease does.
    pub fn release(self, pool: &mut Pool<T>)
        requires
            old(pool).wf(),
            old(pool).held(self.index),
        ensures
            final(pool).wf(),
            final(pool).values().len() == old(pool).values().len(),
            forall|j: int| 0 <= j < old(pool).values().len() && j != self.index ==> #[trigger] final(pool).values()[j]
                == old(pool).values()[j],
            final(pool).free_list() == seq![self.index] + old(pool).free_list(),
            exists|v: &mut T| #![auto] *v == old(pool).values()[self.index as int] && *final(v) == final(pool).values()[self.index as int]
                && call_ensures(T::recycle, (v,), ()),
    {
        pool.recycle_slot(self.index);
    }
}


/// A released slot is reset by `Recycle::recycle`: the next reservation hands
/// the same slot out again, holding what `recycle` made of the value the slot
/// held when it was released.
pub proof fn law_release_recycles<T: Recycle>(p0: Pool<T>, p1: Pool<T>, p2: Pool<T>, index: usize, next: Option<usize>)
    requires
        p0.wf(),
        p0.held(index),
        p1.values().len() == p0.values().len(),
        forall|j: int| 0 <= j < p0.values().len() && j != index ==> #[trigger] p1.values()[j] == p0.values()[j],
        p1.free_list() == seq![index] + p0.free_list(),
        exists|v: &mut T| #![auto] *v == p0.values()[index as int] && *final(v) == p1.values()[index as int]
            && call_ensures(T::recycle, (v,), ()),
        p2.values() == p1.values(),
        p1.free_list().len() > 0 ==> next == Some(p1.free_list()[0]),
    ensures
        next == Some(index),
        exists|v: &mut T| #![auto] *v == p0.values()[index as int] && *final(v) == p2.values()[index as int]
            && call_ensures(T::recycle, (v,), ()),
{
}

} // verus!
