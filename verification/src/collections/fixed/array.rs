//! Inline vectors with a fixed capacity `N`.
use vstd::prelude::*;

verus! {

/// The values of a fixed-capacity vector, oldest first.
pub(crate) struct Storage<T, const N: usize> {
    entries: Vec<T>,
}

impl<T, const N: usize> View for Storage<T, N> {
    type V = Seq<T>;

    closed spec fn view(&self) -> Seq<T> {
        self.entries@
    }
}

impl<T, const N: usize> Storage<T, N> {
    pub(crate) fn new() -> (s: Self)
        ensures
            s@ == Seq::<T>::empty(),
    {
        Storage { entries: Vec::new() }
    }

    /// The first `len` values produced by `f`, in index order.
    pub(crate) fn from_fn<F: Fn(usize) -> T>(len: usize, f: F) -> (s: Self)
        requires
            len <= N,
            forall|i: usize| i < len ==> f.requires((i,)),
        ensures
            s@.len() == len,
            forall|i: int| 0 <= i < len ==> f.ensures((i as usize,), #[trigger] s@[i]),
    {
        let mut entries: Vec<T> = Vec::new();
        let mut i: usize = 0;
        while i < len
            invariant
                i <= len,
                entries@.len() == i,
                forall|k: usize| k < len ==> f.requires((k,)),
                forall|k: int| 0 <= k < i ==> f.ensures((k as usize,), #[trigger] entries@[k]),
            decreases len - i,
        {
            let value = f(i);
            entries.push(value);
            i = i + 1;
        }
        Storage { entries }
    }

    pub(crate) fn push(&mut self, value: T) -> (r: Result<(), T>)
        ensures
            old(self)@.len() >= N ==> r == Err::<(), T>(value) && final(self)@ == old(self)@,
            old(self)@.len() < N ==> r is Ok && final(self)@ == old(self)@.push(value),
    {
        if self.entries.len() >= N {
            return Err(value);
        }
        self.entries.push(value);
        Ok(())
    }

    pub(crate) fn insert(&mut self, index: usize, value: T) -> (r: Result<(), T>)
        ensures
            (index > old(self)@.len() || old(self)@.len() >= N) ==> r == Err::<(), T>(value)
                && final(self)@ == old(self)@,
            (index <= old(self)@.len() && old(self)@.len() < N) ==> r is Ok && final(self)@
                == old(self)@.insert(index as int, value),
    {
        if index > self.entries.len() || self.entries.len() >= N {
            return Err(value);
        }
        self.entries.insert(index, value);
        Ok(())
    }

    pub(crate) fn pop(&mut self) -> (r: Option<T>)
        ensures
            old(self)@.len() == 0 ==> r is None && final(self)@ == old(self)@,
            old(self)@.len() > 0 ==> r == Some(old(self)@.last()) && final(self)@
                == old(self)@.drop_last(),
    {
        self.entries.pop()
    }

    /// Keeps the first `len` values.
    pub(crate) fn truncate(&mut self, len: usize)
        ensures
            len >= old(self)@.len() ==> final(self)@ == old(self)@,
            len < old(self)@.len() ==> final(self)@ == old(self)@.subrange(0, len as int),
    {
        self.entries.truncate(len);
    }

    pub(crate) fn try_extend_from_slice<'a>(&mut self, values: &'a [T]) -> (r: Result<(), &'a [T]>)
        where
            T: Copy,
        ensures
            old(self)@.len() + values@.len() > N ==> r == Err::<(), &[T]>(values) && final(self)@
                == old(self)@,
            old(self)@.len() + values@.len() <= N ==> r is Ok && final(self)@ == old(self)@
                + values@,
    {
        let start = self.entries.len();
        if values.len() > N || start > N - values.len() {
            return Err(values);
        }
        let mut i: usize = 0;
        while i < values.len()
            invariant
                i <= values@.len(),
                self.entries@ == old(self)@ + values@.subrange(0, i as int),
            decreases values@.len() - i,
        {
            self.entries.push(values[i]);
            i = i + 1;
            proof {
                assert(values@.subrange(0, i as int) =~= values@.subrange(0, i - 1).push(
                    values@[i - 1],
                ));
            }
        }
        proof {
            assert(values@.subrange(0, values@.len() as int) =~= values@);
        }
        Ok(())
    }

    pub(crate) fn len(&self) -> (n: usize)
        ensures
            n == self@.len(),
    {
        self.entries.len()
    }

    pub(crate) fn as_slice(&self) -> (s: &[T])
        ensures
            s@ == self@,
    {
        self.entries.as_slice()
    }

    pub(crate) fn as_mut_slice(&mut self) -> (s: &mut [T])
        ensures
            s@ == old(self)@,
            final(s)@ == final(self)@,
    {
        self.entries.as_mut_slice()
    }

    /// Moves every value into a consuming iterator.
    pub(crate) fn into_iter(self) -> (it: IntoIter<T, N>)
        ensures
            it.wf(),
            it@ == self@,
    {
        let mut entries = self.entries;
        let len = entries.len();
        let mut slots: Vec<Option<T>> = Vec::new();
        let mut i: usize = 0;
        while i < len
            invariant
                i <= len,
                slots@.len() == i,
                forall|k: int| 0 <= k < i ==> slots@[k] is None,
            decreases len - i,
        {
            slots.push(None);
            i = i + 1;
        }
        let ghost initial = entries@;
        while entries.len() > 0
            invariant
                slots@.len() == len,
                initial.len() == len,
                entries@.len() <= len,
                entries@ == initial.subrange(0, entries@.len() as int),
                forall|k: int| 0 <= k < entries@.len() ==> slots@[k] is None,
                forall|k: int| entries@.len() <= k < len ==> slots@[k] == Some(initial[k]),
            decreases entries@.len(),
        {
            let k = entries.len() - 1;
            let value = entries.pop().unwrap();
            slots[k] = Some(value);
        }
        let it = IntoIter { entries: slots, index: 0, len };
        proof {
            assert(it@ =~= initial);
        }
        it
    }
}

/// An inline vector with a fixed capacity for values that require destruction.
///
/// The initialized prefix owns its values and is released exactly once.
pub struct Inline<T, const N: usize> {
    storage: Storage<T, N>,
}

/// An inline vector with a fixed capacity for [`Copy`] values.
pub struct CopyInline<T: Copy, const N: usize> {
    storage: Storage<T, N>,
}

/// A consuming iterator over an [`Inline`] or [`CopyInline`].
pub struct IntoIter<T, const N: usize> {
    entries: Vec<Option<T>>,
    index: usize,
    len: usize,
}

impl<T, const N: usize> View for IntoIter<T, N> {
    /// The values not yet yielded, front first.
    type V = Seq<T>;

    closed spec fn view(&self) -> Seq<T> {
        Seq::new(
            (self.len - self.index) as nat,
            |k: int| self.entries@[self.index + k]->0,
        )
    }
}

impl<T, const N: usize> IntoIter<T, N> {
    /// The remaining slots hold their values.
    pub closed spec fn wf(&self) -> bool {
        &&& self.index <= self.len <= self.entries@.len()
        &&& forall|k: int| self.index <= k < self.len ==> self.entries@[k] is Some
    }

    /// Yields the front value.
    pub fn next(&mut self) -> (r: Option<T>)
        requires
            old(self).wf(),
        ensures
            final(self).wf(),
            old(self)@.len() == 0 ==> r is None && final(self)@ == old(self)@,
            old(self)@.len() > 0 ==> r == Some(old(self)@[0]) && final(self)@ == old(self)@.drop_first(),
    {
        if self.index == self.len {
            return None;
        }
        let index = self.index;
        self.index = self.index + 1;
        let r = self.entries[index].take();
        proof {
            assert(self@ =~= old(self)@.drop_first());
        }
        r
    }

    /// Yields the back value.
    pub fn next_back(&mut self) -> (r: Option<T>)
        requires
            old(self).wf(),
        ensures
            final(self).wf(),
            old(self)@.len() == 0 ==> r is None && final(self)@ == old(self)@,
            old(self)@.len() > 0 ==> r == Some(old(self)@.last()) && final(self)@
                == old(self)@.drop_last(),
    {
        if self.index == self.len {
            return None;
        }
        self.len = self.len - 1;
        let last = self.len;
        let r = self.entries[last].take();
        proof {
            assert(self@ =~= old(self)@.drop_last());
        }
        r
    }

    /// The exact number of values left, as a lower and an upper bound.
    pub fn size_hint(&self) -> (r: (usize, Option<usize>))
        requires
            self.wf(),
        ensures
            r == (self@.len() as usize, Some(self@.len() as usize)),
    {
        let remaining = self.len - self.index;
        (remaining, Some(remaining))
    }
}

impl<T, const N: usize> View for Inline<T, N> {
    type V = Seq<T>;

    closed spec fn view(&self) -> Seq<T> {
        self.storage@
    }
}

impl<T, const N: usize> Inline<T, N> {
    /// Holds at most `N` values.
    pub open spec fn wf(&self) -> bool {
        self@.len() <= N
    }

    pub fn new() -> (v: Self)
        ensures
            v.wf(),
            v@ == Seq::<T>::empty(),
    {
        Inline { storage: Storage::new() }
    }

    /// The values `f(0), .., f(len - 1)`.
    pub fn from_fn<F: Fn(usize) -> T>(len: usize, f: F) -> (v: Self)
        requires
            len <= N,
            forall|i: usize| i < len ==> f.requires((i,)),
        ensures
            v.wf(),
            v@.len() == len,
            forall|i: int| 0 <= i < len ==> f.ensures((i as usize,), #[trigger] v@[i]),
    {
        Inline { storage: Storage::from_fn(len, f) }
    }

    /// Appends `value`, or returns it when the vector is full.
    pub fn push(&mut self, value: T) -> (r: Result<(), T>)
        ensures
            old(self).wf() ==> final(self).wf() && (r is Err <==> old(self)@.len() == N),
            old(self)@.len() >= N ==> r == Err::<(), T>(value) && final(self)@ == old(self)@,
            old(self)@.len() < N ==> r is Ok && final(self)@ == old(self)@.push(value),
    {
        self.storage.push(value)
    }

    pub fn pop(&mut self) -> (r: Option<T>)
        ensures
            old(self).wf() ==> final(self).wf(),
            old(self)@.len() == 0 ==> r is None && final(self)@ == old(self)@,
            old(self)@.len() > 0 ==> r == Some(old(self)@.last()) && final(self)@
                == old(self)@.drop_last(),
    {
        self.storage.pop()
    }

    pub fn clear(&mut self)
        ensures
            old(self).wf() ==> final(self).wf(),
            final(self)@ == Seq::<T>::empty(),
    {
        self.storage.truncate(0);
        proof {
            assert(self@ =~= Seq::<T>::empty());
        }
    }

    /// Keeps the first `len` values, releasing the rest.
    pub fn truncate(&mut self, len: usize)
        ensures
            old(self).wf() ==> final(self).wf(),
            len >= old(self)@.len() ==> final(self)@ == old(self)@,
            len < old(self)@.len() ==> final(self)@ == old(self)@.subrange(0, len as int),
    {
        self.storage.truncate(len);
    }

    pub fn len(&self) -> (n: usize)
        ensures
            n == self@.len(),
    {
        self.storage.len()
    }

    pub fn capacity(&self) -> (n: usize)
        ensures
            n == N,
    {
        N
    }

    pub fn is_empty(&self) -> (b: bool)
        ensures
            b == (self@.len() == 0),
    {
        self.storage.len() == 0
    }

    pub fn is_full(&self) -> (b: bool)
        ensures
            b == (self@.len() == N),
    {
        self.storage.len() == N
    }

    pub fn as_slice(&self) -> (s: &[T])
        ensures
            s@ == self@,
    {
        self.storage.as_slice()
    }

    pub fn as_mut_slice(&mut self) -> (s: &mut [T])
        ensures
            s@ == old(self)@,
            final(s)@ == final(self)@,
    {
        self.storage.as_mut_slice()
    }

    pub fn into_iter(self) -> (it: IntoIter<T, N>)
        ensures
            it.wf(),
            it@ == self@,
    {
        self.storage.into_iter()
    }

    /// Appends every value of `values`, or none of them when they do not fit.
    pub fn try_extend_from_slice<'a>(&mut self, values: &'a [T]) -> (r: Result<(), &'a [T]>)
        where
            T: Copy,
        ensures
            old(self)@.len() + values@.len() > N ==> r == Err::<(), &[T]>(values) && final(self)@
                == old(self)@,
            old(self)@.len() + values@.len() <= N ==> r is Ok && final(self)@ == old(self)@
                + values@,
    {
        self.storage.try_extend_from_slice(values)
    }

    /// A vector holding a copy of `values`, if they fit.
    pub fn try_from_slice(values: &[T]) -> (r: Result<Self, &[T]>)
        where
            T: Copy,
        ensures
            values@.len() > N ==> r == Err::<Self, &[T]>(values),
            values@.len() <= N ==> r is Ok && r->Ok_0@ == values@,
    {
        let mut inline = Self::new();
        match inline.try_extend_from_slice(values) {
            Ok(()) => Ok(inline),
            Err(rest) => Err(rest),
        }
    }
}

impl<T, const N: usize> View for CopyInline<T, N> where T: Copy {
    type V = Seq<T>;

    closed spec fn view(&self) -> Seq<T> {
        self.storage@
    }
}

impl<T: Copy, const N: usize> CopyInline<T, N> {
    /// Holds at most `N` values.
    pub open spec fn wf(&self) -> bool {
        self@.len() <= N
    }

    pub fn new() -> (v: Self)
        ensures
            v.wf(),
            v@ == Seq::<T>::empty(),
    {
        CopyInline { storage: Storage::new() }
    }

    /// The values `f(0), .., f(len - 1)`.
    pub fn from_fn<F: Fn(usize) -> T>(len: usize, f: F) -> (v: Self)
        requires
            len <= N,
            forall|i: usize| i < len ==> f.requires((i,)),
        ensures
            v.wf(),
            v@.len() == len,
            forall|i: int| 0 <= i < len ==> f.ensures((i as usize,), #[trigger] v@[i]),
    {
        CopyInline { storage: Storage::from_fn(len, f) }
    }

    /// A full vector holding `values`.
    pub fn from_array(values: [T; N]) -> (v: Self)
        ensures
            v.wf(),
            v@ == values@,
    {
        let mut storage: Storage<T, N> = Storage::new();
        let mut i: usize = 0;
        while i < N
            invariant
                i <= N,
                values@.len() == N,
                storage@ == values@.subrange(0, i as int),
            decreases N - i,
        {
            let r = storage.push(values[i]);
            i = i + 1;
            proof {
                assert(values@.subrange(0, i as int) =~= values@.subrange(0, i - 1).push(
                    values@[i - 1],
                ));
            }
        }
        proof {
            assert(values@.subrange(0, N as int) =~= values@);
        }
        CopyInline { storage }
    }

    /// A vector holding a copy of `values`, if they fit.
    pub fn try_from_slice(values: &[T]) -> (r: Result<Self, &[T]>)
        ensures
            values@.len() > N ==> r == Err::<Self, &[T]>(values),
            values@.len() <= N ==> r is Ok && r->Ok_0@ == values@,
    {
        let mut inline = Self::new();
        match inline.try_extend_from_slice(values) {
            Ok(()) => Ok(inline),
            Err(rest) => Err(rest),
        }
    }

    /// Appends `value`, or returns it when the vector is full.
    pub fn push(&mut self, value: T) -> (r: Result<(), T>)
        ensures
            old(self).wf() ==> final(self).wf() && (r is Err <==> old(self)@.len() == N),
            old(self)@.len() >= N ==> r == Err::<(), T>(value) && final(self)@ == old(self)@,
            old(self)@.len() < N ==> r is Ok && final(self)@ == old(self)@.push(value),
    {
        self.storage.push(value)
    }

    /// Inserts `value` before position `index`, or returns it when the
    /// position is past the end or the vector is full.
    pub fn insert(&mut self, index: usize, value: T) -> (r: Result<(), T>)
        ensures
            old(self).wf() ==> final(self).wf(),
            (index > old(self)@.len() || old(self)@.len() >= N) ==> r == Err::<(), T>(value)
                && final(self)@ == old(self)@,
            (index <= old(self)@.len() && old(self)@.len() < N) ==> r is Ok && final(self)@
                == old(self)@.insert(index as int, value),
    {
        self.storage.insert(index, value)
    }

    pub fn pop(&mut self) -> (r: Option<T>)
        ensures
            old(self).wf() ==> final(self).wf(),
            old(self)@.len() == 0 ==> r is None && final(self)@ == old(self)@,
            old(self)@.len() > 0 ==> r == Some(old(self)@.last()) && final(self)@
                == old(self)@.drop_last(),
    {
        self.storage.pop()
    }

    pub fn clear(&mut self)
        ensures
            old(self).wf() ==> final(self).wf(),
            final(self)@ == Seq::<T>::empty(),
    {
        self.storage.truncate(0);
        proof {
            assert(self@ =~= Seq::<T>::empty());
        }
    }

    /// Keeps the first `len` values.
    pub fn truncate(&mut self, len: usize)
        ensures
            old(self).wf() ==> final(self).wf(),
            len >= old(self)@.len() ==> final(self)@ == old(self)@,
            len < old(self)@.len() ==> final(self)@ == old(self)@.subrange(0, len as int),
    {
        self.storage.truncate(len);
    }

    /// Appends every value of `values`, or none of them when they do not fit.
    pub fn try_extend_from_slice<'a>(&mut self, values: &'a [T]) -> (r: Result<(), &'a [T]>)
        ensures
            old(self).wf() ==> final(self).wf(),
            old(self)@.len() + values@.len() > N ==> r == Err::<(), &[T]>(values) && final(self)@
                == old(self)@,
            old(self)@.len() + values@.len() <= N ==> r is Ok && final(self)@ == old(self)@
                + values@,
    {
        self.storage.try_extend_from_slice(values)
    }

    pub fn len(&self) -> (n: usize)
        ensures
            n == self@.len(),
    {
        self.storage.len()
    }

    pub fn capacity(&self) -> (n: usize)
        ensures
            n == N,
    {
        N
    }

    pub fn is_empty(&self) -> (b: bool)
        ensures
            b == (self@.len() == 0),
    {
        self.storage.len() == 0
    }

    pub fn is_full(&self) -> (b: bool)
        ensures
            b == (self@.len() == N),
    {
        self.storage.len() == N
    }

    pub fn as_slice(&self) -> (s: &[T])
        ensures
            s@ == self@,
    {
        self.storage.as_slice()
    }

    pub fn as_mut_slice(&mut self) -> (s: &mut [T])
        ensures
            s@ == old(self)@,
            final(s)@ == final(self)@,
    {
        self.storage.as_mut_slice()
    }

    pub fn into_iter(self) -> (it: IntoIter<T, N>)
        ensures
            it.wf(),
            it@ == self@,
    {
        self.storage.into_iter()
    }
}

impl<T, const N: usize> Default for Inline<T, N> {
    fn default() -> (v: Self)
        ensures
            v.wf(),
            v@ == Seq::<T>::empty(),
    {
        Self::new()
    }
}

impl<T: Copy, const N: usize> Default for CopyInline<T, N> {
    fn default() -> (v: Self)
        ensures
            v.wf(),
            v@ == Seq::<T>::empty(),
    {
        Self::new()
    }
}

} // verus!
