//! A fixed-capacity batch filled only while empty and drained in FIFO order.
use vstd::prelude::*;

verus! {

/// A fixed-capacity inline batch filled only while empty and drained in FIFO
/// order.
///
/// Consumed capacity is not reused until the batch becomes empty and a new
/// [`Fill`] is acquired, so a partially drained batch is immutable to
/// producers.
pub struct Inline<T, const N: usize> {
    slots: Vec<Option<T>>,
    head: usize,
    tail: usize,
}

/// Exclusive proof that an [`Inline`] batch is empty and may be filled.
pub struct Fill<'a, T, const N: usize> {
    pub batch: &'a mut Inline<T, N>,
}

/// A vacant position at the back of a batch being filled.
pub struct Vacant<'a, T, const N: usize> {
    pub batch: &'a mut Inline<T, N>,
}

/// The position vacated by a reserved front pop.
///
/// Holding the exclusive borrow keeps the batch unchanged until the value is
/// either given up or put back at the front.
pub struct FrontVacant<'a, T, const N: usize> {
    pub batch: &'a mut Inline<T, N>,
}

impl<T, const N: usize> View for Inline<T, N> {
    /// The retained values, front first.
    type V = Seq<T>;

    closed spec fn view(&self) -> Seq<T> {
        Seq::new((self.tail - self.head) as nat, |k: int| self.slots@[self.head + k]->0)
    }
}

impl<T, const N: usize> Inline<T, N> {
    /// Positions `head..tail` hold the retained values.
    pub closed spec fn wf(&self) -> bool {
        &&& self.slots@.len() == N
        &&& self.head <= self.tail <= N
        &&& forall|k: int| self.head <= k < self.tail ==> (#[trigger] self.slots@[k]) is Some
    }

    /// The number of values consumed from the current fill.
    pub closed spec fn consumed(&self) -> nat {
        self.head as nat
    }

    /// The number of positions used by the current fill.
    pub closed spec fn filled(&self) -> nat {
        self.tail as nat
    }

    pub fn new() -> (b: Self)
        ensures
            b.wf(),
            b@ == Seq::<T>::empty(),
            b.filled() == 0,
    {
        let mut slots: Vec<Option<T>> = Vec::new();
        let mut i: usize = 0;
        while i < N
            invariant
                i <= N,
                slots@.len() == i,
            decreases N - i,
        {
            slots.push(None);
            i = i + 1;
        }
        let b = Inline { slots, head: 0, tail: 0 };
        proof {
            assert(b@ =~= Seq::<T>::empty());
        }
        b
    }

    /// Borrows this batch for production only when no retained value remains.
    pub fn fill(&mut self) -> (r: Option<Fill<'_, T, N>>)
        requires
            old(self).wf(),
        ensures
            old(self)@.len() > 0 <==> r is None,
            r is None ==> *final(self) == *old(self),
            r is Some ==> r->0.batch.wf() && (*r->0.batch)@ == Seq::<T>::empty() && r->0.batch.filled() == 0
                && *final(r->0.batch) == *final(self),
    {
        if !self.is_empty() {
            return None;
        }
        self.head = 0;
        self.tail = 0;
        proof {
            assert(self@ =~= Seq::<T>::empty());
        }
        Some(Fill { batch: self })
    }

    /// Removes the front value.
    pub fn pop_front(&mut self) -> (r: Option<T>)
        requires
            old(self).wf(),
        ensures
            final(self).wf(),
            final(self).filled() == old(self).filled(),
            old(self)@.len() == 0 ==> r is None && *final(self) == *old(self),
            old(self)@.len() > 0 ==> r == Some(old(self)@[0]) && final(self)@ == old(self)@.drop_first()
                && final(self).consumed() == old(self).consumed() + 1,
    {
        if self.head == self.tail {
            return None;
        }
        let index = self.head;
        self.head = self.head + 1;
        let r = self.slots[index].take();
        proof {
            assert(self@ =~= old(self)@.drop_first());
        }
        r
    }

    /// Pops the front value while exclusively reserving its position.
    ///
    /// Dropping the vacancy commits the pop; [`FrontVacant::restore`] rolls
    /// it back without changing the order of the remaining values.
    pub fn pop_front_reserved(&mut self) -> (r: Option<(T, FrontVacant<'_, T, N>)>)
        requires
            old(self).wf(),
        ensures
            old(self)@.len() == 0 ==> r is None && *final(self) == *old(self),
            old(self)@.len() > 0 ==> (r matches Some((v, fv)) && v == old(self)@[0]
                && fv.batch.wf()
                && (*fv.batch)@ == old(self)@.drop_first()
                && fv.batch.consumed() == old(self).consumed() + 1
                && fv.batch.filled() == old(self).filled()
                && *final(fv.batch) == *final(self)),
    {
        match self.pop_front() {
            Some(value) => Some((value, FrontVacant { batch: self })),
            None => None,
        }
    }

    /// Releases every retained value and forgets the current fill.
    pub fn clear(&mut self)
        requires
            old(self).wf(),
        ensures
            final(self).wf(),
            final(self)@ == Seq::<T>::empty(),
            final(self).filled() == 0,
    {
        while self.head < self.tail
            invariant
                self.wf(),
            decreases self.tail - self.head,
        {
            let _ = self.pop_front();
        }
        self.head = 0;
        self.tail = 0;
        proof {
            assert(self@ =~= Seq::<T>::empty());
        }
    }

    pub fn capacity(&self) -> (n: usize)
        ensures
            n == N,
    {
        N
    }

    pub fn len(&self) -> (n: usize)
        requires
            self.wf(),
        ensures
            n == self@.len(),
    {
        self.tail - self.head
    }

    pub fn is_empty(&self) -> (b: bool)
        requires
            self.wf(),
        ensures
            b == (self@.len() == 0),
    {
        self.head == self.tail
    }
}

impl<'a, T, const N: usize> Fill<'a, T, N> {
    /// The next vacant position, unless the batch is full.
    pub fn vacant_entry(&mut self) -> (r: Option<Vacant<'_, T, N>>)
        requires
            old(self).batch.wf(),
        ensures
            *final(final(self).batch) == *final(old(self).batch),
            old(self).batch.filled() == N ==> r is None && *final(self).batch == *old(self).batch,
            old(self).batch.filled() < N ==> r is Some && *r->0.batch == *old(self).batch
                && *final(r->0.batch) == *final(self).batch,
    {
        if self.batch.tail == N {
            None
        } else {
            Some(Vacant { batch: &mut *self.batch })
        }
    }
}

impl<'a, T, const N: usize> Vacant<'a, T, N> {
    /// Appends `value` at the vacant position.
    pub fn insert(self, value: T)
        requires
            self.batch.wf(),
            self.batch.filled() < N,
        ensures
            final(self.batch).wf(),
            final(self.batch)@ == (*old(self.batch))@.push(value),
            final(self.batch).filled() == old(self.batch).filled() + 1,
            final(self.batch).consumed() == old(self.batch).consumed(),
    {
        let index = self.batch.tail;
        self.batch.slots[index] = Some(value);
        self.batch.tail = index + 1;
        proof {
            assert((*self.batch)@ =~= (*old(self.batch))@.push(value));
        }
    }
}

impl<'a, T, const N: usize> FrontVacant<'a, T, N> {
    /// Puts `value` back at the front position it was popped from.
    pub fn restore(self, value: T)
        requires
            self.batch.wf(),
            self.batch.consumed() > 0,
        ensures
            final(self.batch).wf(),
            final(self.batch)@ == seq![value] + (*old(self.batch))@,
            final(self.batch).consumed() == old(self.batch).consumed() - 1,
            final(self.batch).filled() == old(self.batch).filled(),
    {
        self.batch.head = self.batch.head - 1;
        let head = self.batch.head;
        self.batch.slots[head] = Some(value);
        proof {
            assert((*self.batch)@ =~= seq![value] + (*old(self.batch))@);
        }
    }
}

impl<T, const N: usize> Default for Inline<T, N> {
    fn default() -> (b: Self)
        ensures
            b.wf(),
            b@ == Seq::<T>::empty(),
    {
        Self::new()
    }
}

} // verus!
