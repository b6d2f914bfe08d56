//! Fixed-capacity values addressed directly by caller-provided indices.
pub mod pool;

use vstd::prelude::*;

verus! {

/// The number of occupied slots of `s`.
pub open spec fn occupied_count<T>(s: Seq<Option<T>>) -> nat
    decreases s.len(),
{
    if s.len() == 0 {
        0
    } else {
        occupied_count(s.drop_last()) + if s.last() is Some { 1nat } else { 0nat }
    }
}

/// The values of the occupied slots of `s`, in slot order.
pub open spec fn present<T>(s: Seq<Option<T>>) -> Seq<T>
    decreases s.len(),
{
    if s.len() == 0 {
        Seq::empty()
    } else if s.last() is Some {
        present(s.drop_last()).push(s.last()->0)
    } else {
        present(s.drop_last())
    }
}

/// The slots of `before` that are empty in `after`.
pub open spec fn emptied<T>(before: Seq<Option<T>>, after: Seq<Option<T>>) -> Seq<Option<T>> {
    Seq::new(before.len(), |i: int| if after[i] is None { before[i] } else { None })
}

proof fn lemma_occupied_count_update<T>(s: Seq<Option<T>>, i: int, o: Option<T>)
    requires
        0 <= i < s.len(),
    ensures
        occupied_count(s.update(i, o)) + (if s[i] is Some { 1int } else { 0int }) == occupied_count(s) + (
        if o is Some { 1int } else { 0int }),
    decreases s.len(),
{
    if i < s.len() - 1 {
        assert(s.update(i, o).drop_last() =~= s.drop_last().update(i, o));
        lemma_occupied_count_update(s.drop_last(), i, o);
    } else {
        assert(s.update(i, o).drop_last() =~= s.drop_last());
    }
}

proof fn lemma_occupied_count_bound<T>(s: Seq<Option<T>>)
    ensures
        occupied_count(s) <= s.len(),
    decreases s.len(),
{
    if s.len() > 0 {
        lemma_occupied_count_bound(s.drop_last());
    }
}

proof fn lemma_occupied_count_none<T>(n: nat)
    ensures
        occupied_count(Seq::<Option<T>>::new(n, |i: int| None::<T>)) == 0,
    decreases n,
{
    if n > 0 {
        let s = Seq::<Option<T>>::new(n, |i: int| None::<T>);
        assert(s.drop_last() =~= Seq::<Option<T>>::new((n - 1) as nat, |i: int| None::<T>));
        lemma_occupied_count_none::<T>((n - 1) as nat);
    }
}

/// `s` with the value of each occupied slot replaced by the next of `v`,
/// in slot order.
pub open spec fn refill<T>(s: Seq<Option<T>>, v: Seq<T>) -> Seq<Option<T>>
    decreases s.len(),
{
    if s.len() == 0 {
        s
    } else if s.last() is Some {
        refill(s.drop_last(), v.drop_last()).push(Some(v.last()))
    } else {
        refill(s.drop_last(), v).push(None)
    }
}

proof fn lemma_refill_count<T>(s: Seq<Option<T>>, v: Seq<T>)
    requires
        v.len() == present(s).len(),
    ensures
        occupied_count(refill(s, v)) == occupied_count(s),
        refill(s, v).len() == s.len(),
    decreases s.len(),
{
    if s.len() > 0 {
        if s.last() is Some {
            lemma_refill_count(s.drop_last(), v.drop_last());
            assert(refill(s, v).drop_last() =~= refill(s.drop_last(), v.drop_last()));
        } else {
            lemma_refill_count(s.drop_last(), v);
            assert(refill(s, v).drop_last() =~= refill(s.drop_last(), v));
        }
    }
}

/// Lends out the values of the occupied slots of `s`, in slot order.
fn lend_present<'a, T>(s: &'a mut [Option<T>]) -> (r: Vec<&'a mut T>)
    ensures
        r@.map_values(|x: &mut T| *x) == present(old(s)@),
        final(s)@ == refill(old(s)@, r@.map_values(|x: &mut T| *final(x))),
    decreases old(s)@.len(),
{
    let n = s.len();
    if n == 0 {
        let r: Vec<&'a mut T> = Vec::new();
        proof {
            assert(r@.map_values(|x: &mut T| *x) =~= present(old(s)@));
        }
        return r;
    }
    let ghost whole = s@;
    let (front, back) = s.split_at_mut(n - 1);
    let ghost rest_in = front@;
    let mut r = lend_present(front);
    let ghost lent = r@;
    let cell = back.first_mut().unwrap();
    proof {
        assert(rest_in =~= whole.drop_last());
        assert(*cell == whole.last());
    }
    match cell.as_mut() {
        Some(x) => {
            r.push(x);
            proof {
                assert(r@.map_values(|y: &mut T| *y) =~= lent.map_values(|y: &mut T| *y).push(*r@.last()));
                assert(r@.map_values(|y: &mut T| *final(y)) =~= lent.map_values(|y: &mut T| *final(y)).push(*final(r@.last())));
                assert(r@.map_values(|y: &mut T| *final(y)).drop_last() =~= lent.map_values(|y: &mut T| *final(y)));
            }
        },
        None => {},
    }
    r
}

/// Fixed-capacity values addressed directly by caller-provided indices.
pub struct Slots<T> {
    values: Vec<Option<T>>,
    len: usize,
}

impl<T> Slots<T> {
    /// The value at each index, if any.
    pub closed spec fn view_slots(&self) -> Seq<Option<T>> {
        self.values@
    }

    pub closed spec fn wf(&self) -> bool {
        self.len == occupied_count(self.values@)
    }

    pub fn with_capacity(capacity: usize) -> (s: Self)
        ensures
            s.wf(),
            s.view_slots() == Seq::<Option<T>>::new(capacity as nat, |i: int| None::<T>),
    {
        let mut values: Vec<Option<T>> = Vec::with_capacity(capacity);
        let mut i: usize = 0;
        while i < capacity
            invariant
                i <= capacity,
                values@ == Seq::<Option<T>>::new(i as nat, |k: int| None::<T>),
            decreases capacity - i,
        {
            values.push(None);
            i = i + 1;
            proof {
                assert(values@ =~= Seq::<Option<T>>::new(i as nat, |k: int| None::<T>));
            }
        }
        proof {
            lemma_occupied_count_none::<T>(capacity as nat);
        }
        Slots { values, len: 0 }
    }

    pub fn capacity(&self) -> (n: usize)
        ensures
            n == self.view_slots().len(),
    {
        self.values.len()
    }

    /// The number of occupied indices.
    pub fn len(&self) -> (n: usize)
        requires
            self.wf(),
        ensures
            n == occupied_count(self.view_slots()),
    {
        self.len
    }

    pub fn is_empty(&self) -> (b: bool)
        requires
            self.wf(),
        ensures
            b == (occupied_count(self.view_slots()) == 0),
    {
        self.len == 0
    }

    pub fn contains(&self, index: usize) -> (b: bool)
        ensures
            b == (index < self.view_slots().len() && self.view_slots()[index as int] is Some),
    {
        index < self.values.len() && self.values[index].is_some()
    }

    /// Whether `index` is within the capacity and holds no value.
    pub fn vacant(&self, index: usize) -> (b: bool)
        ensures
            b == (index < self.view_slots().len() && self.view_slots()[index as int] is None),
    {
        index < self.values.len() && !self.contains(index)
    }

    pub fn get(&self, index: usize) -> (r: Option<&T>)
        ensures
            index < self.view_slots().len() && self.view_slots()[index as int] is Some ==> r == Some(
                &self.view_slots()[index as int]->0,
            ),
            !(index < self.view_slots().len() && self.view_slots()[index as int] is Some) ==> r is None,
    {
        if index >= self.values.len() {
            return None;
        }
        self.values[index].as_ref()
    }

    /// Stores `value` at a vacant `index`, or hands it back.
    pub fn try_insert(&mut self, index: usize, value: T) -> (r: Result<(), T>)
        requires
            old(self).wf(),
        ensures
            final(self).wf(),
            (index < old(self).view_slots().len() && old(self).view_slots()[index as int] is None) ==> r is Ok
                && final(self).view_slots() == old(self).view_slots().update(index as int, Some(value)),
            !(index < old(self).view_slots().len() && old(self).view_slots()[index as int] is None) ==> r
                == Err::<(), T>(value) && *final(self) == *old(self),
    {
        if index >= self.values.len() || self.values[index].is_some() {
            return Err(value);
        }
        proof {
            lemma_occupied_count_update(self.values@, index as int, Some(value));
            lemma_occupied_count_bound(self.values@.update(index as int, Some(value)));
        }
        self.values[index] = Some(value);
        self.len = self.len + 1;
        Ok(())
    }

    /// Takes the value at `index`, if any.
    pub fn remove(&mut self, index: usize) -> (r: Option<T>)
        requires
            old(self).wf(),
        ensures
            final(self).wf(),
            index < old(self).view_slots().len() ==> r == old(self).view_slots()[index as int]
                && final(self).view_slots() == old(self).view_slots().update(index as int, None),
            index >= old(self).view_slots().len() ==> r is None && *final(self) == *old(self),
    {
        if index >= self.values.len() || self.values[index].is_none() {
            return None;
        }
        Some(self.take_occupied(index))
    }

    fn take_occupied(&mut self, index: usize) -> (r: T)
        requires
            old(self).wf(),
            index < old(self).view_slots().len(),
            old(self).view_slots()[index as int] is Some,
        ensures
            final(self).wf(),
            r == old(self).view_slots()[index as int]->0,
            final(self).view_slots() == old(self).view_slots().update(index as int, None),
    {
        proof {
            lemma_occupied_count_update(self.values@, index as int, None);
        }
        let r = self.values[index].take();
        self.len = self.len - 1;
        r.unwrap()
    }

    /// The stored values in index order, lent out for change.
    pub fn values_mut(&mut self) -> (r: Vec<&mut T>)
        requires
            old(self).wf(),
        ensures
            final(self).wf(),
            r@.map_values(|x: &mut T| *x) == present(old(self).view_slots()),
            final(self).view_slots() == refill(old(self).view_slots(), r@.map_values(|x: &mut T| *final(x))),
    {
        let ghost before = self.values@;
        let r = lend_present(self.values.as_mut_slice());
        proof {
            let lent = r@.map_values(|x: &mut T| *final(x));
            assert(lent.len() == r@.map_values(|x: &mut T| *x).len());
            lemma_refill_count(before, lent);
        }
        r
    }

    /// The stored values in index order.
    pub fn values(&self) -> (r: Vec<&T>)
        ensures
            r@.map_values(|x: &T| *x) == present(self.view_slots()),
    {
        let mut r: Vec<&T> = Vec::new();
        let mut i: usize = 0;
        while i < self.values.len()
            invariant
                i <= self.values@.len(),
                r@.map_values(|x: &T| *x) == present(self.values@.subrange(0, i as int)),
            decreases self.values@.len() - i,
        {
            proof {
                assert(self.values@.subrange(0, i + 1).drop_last() =~= self.values@.subrange(0, i as int));
            }
            let ghost before = r@;
            match self.values[i].as_ref() {
                Some(v) => {
                    r.push(v);
                    proof {
                        assert(r@.map_values(|x: &T| *x) =~= before.map_values(|x: &T| *x).push(*v));
                    }
                },
                None => {},
            }
            i = i + 1;
        }
        proof {
            assert(self.values@.subrange(0, i as int) =~= self.values@);
        }
        r
    }

    /// Removes, in index order, every value that `predicate` accepts, and
    /// returns them in that order.
    pub fn drain_where<F: Fn(&T) -> bool>(&mut self, predicate: F) -> (r: Vec<T>)
        requires
            old(self).wf(),
            forall|v: &T| predicate.requires((v,)),
        ensures
            final(self).wf(),
            final(self).view_slots().len() == old(self).view_slots().len(),
            forall|i: int| 0 <= i < old(self).view_slots().len() && #[trigger] old(self).view_slots()[i] is Some ==> (
                final(self).view_slots()[i] is None ==> predicate.ensures((&old(self).view_slots()[i]->0,), true)),
            forall|i: int| 0 <= i < old(self).view_slots().len() && #[trigger] old(self).view_slots()[i] is Some ==> (
                final(self).view_slots()[i] is Some ==> final(self).view_slots()[i] == old(self).view_slots()[i]
                && predicate.ensures((&old(self).view_slots()[i]->0,), false)),
            forall|i: int| 0 <= i < old(self).view_slots().len() && #[trigger] old(self).view_slots()[i] is None ==> final(self).view_slots()[i] is None,
            r@ == present(emptied(old(self).view_slots(), final(self).view_slots())),
    {
        let mut r: Vec<T> = Vec::new();
        let mut i: usize = 0;
        let len = self.values.len();
        while i < len
            invariant
                self.wf(),
                len == self.values@.len(),
                len == old(self).values@.len(),
                i <= len,
                forall|v: &T| predicate.requires((v,)),
                forall|j: int| i <= j < len ==> self.values@[j] == old(self).values@[j],
                forall|j: int| 0 <= j < i && #[trigger] old(self).values@[j] is Some ==> (
                    self.values@[j] is None ==> predicate.ensures((&old(self).values@[j]->0,), true)),
                forall|j: int| 0 <= j < i && #[trigger] old(self).values@[j] is Some ==> (
                    self.values@[j] is Some ==> self.values@[j] == old(self).values@[j]
                    && predicate.ensures((&old(self).values@[j]->0,), false)),
                forall|j: int| 0 <= j < i && #[trigger] old(self).values@[j] is None ==> self.values@[j] is None,
                r@ == present(emptied(old(self).values@.subrange(0, i as int), self.values@.subrange(0, i as int))),
            decreases len - i,
        {
            let ghost prefix_before = emptied(old(self).values@.subrange(0, i as int), self.values@.subrange(0, i as int));
            let take = match self.values[i].as_ref() {
                Some(v) => predicate(v),
                None => false,
            };
            if take {
                let v = self.take_occupied(i);
                r.push(v);
            }
            proof {
                let e = emptied(old(self).values@.subrange(0, i + 1), self.values@.subrange(0, i + 1));
                assert(e.drop_last() =~= prefix_before);
                assert(e.last() == (if take { old(self).values@[i as int] } else { None }));
            }
            i = i + 1;
        }
        proof {
            assert(old(self).values@.subrange(0, len as int) =~= old(self).values@);
            assert(self.values@.subrange(0, len as int) =~= self.values@);
        }
        r
    }

    /// Drops every value.
    pub fn clear(&mut self)
        requires
            old(self).wf(),
        ensures
            final(self).wf(),
            final(self).view_slots() == Seq::<Option<T>>::new(old(self).view_slots().len(), |i: int| None::<T>),
    {
        let len = self.values.len();
        let mut i: usize = 0;
        while i < len
            invariant
                self.wf(),
                len == self.values@.len(),
                i <= len,
                forall|j: int| 0 <= j < i ==> self.values@[j] is None,
            decreases len - i,
        {
            if self.values[i].is_some() {
                let _ = self.take_occupied(i);
            }
            i = i + 1;
        }
        proof {
            assert(self.values@ =~= Seq::<Option<T>>::new(len as nat, |i: int| None::<T>));
        }
    }
}

} // verus!
