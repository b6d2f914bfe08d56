//! Inline vectors with a fixed capacity.
use vstd::prelude::*;

use crate::collections::fixed::array::{IntoIter, Storage};

verus! {

/// An inline vector with a fixed capacity.
///
/// The prefix `0..len` is initialized and owns its values.
pub struct ArrayVec<T, const N: usize> {
    storage: Storage<T, N>,
}

/// An inline vector for copyable values with no destructor.
pub struct CopyArrayVec<T: Copy, const N: usize> {
    storage: Storage<T, N>,
}

/// A consuming iterator over an [`ArrayVec`].
pub struct ArrayVecIntoIter<T, const N: usize> {
    inner: IntoIter<T, N>,
}

impl<T, const N: usize> View for ArrayVec<T, N> {
    type V = Seq<T>;

    closed spec fn view(&self) -> Seq<T> {
        self.storage@
    }
}

impl<T, const N: usize> ArrayVec<T, N> {
    /// Holds at most `N` values.
    pub open spec fn wf(&self) -> bool {
        self@.len() <= N
    }

    pub fn new() -> (v: Self)
        ensures
            v.wf(),
            v@ == Seq::<T>::empty(),
    {
        ArrayVec { storage: Storage::new() }
    }

    /// The values `f(0), .., f(len - 1)`.
    pub fn from_fn<F: Fn(usize) -> T>(len: usize, f: F) -> (v: Self)
        requires
            len <= N,
            forall|i: usize| i < len ==> f.requires((i,)),
        ensures
            v.wf(),
            v@.len() == len,
            forall|i: int| 0 <= i < len ==> f.ensures((i as usize,), #[trigger] v@[i]),
    {
        ArrayVec { storage: Storage::from_fn(len, f) }
    }

    /// Appends `value`, or returns it when the vector is full.
    pub fn push(&mut self, value: T) -> (r: Result<(), T>)
        ensures
            old(self).wf() ==> final(self).wf() && (r is Err <==> old(self)@.len() == N),
            old(self)@.len() >= N ==> r == Err::<(), T>(value) && final(self)@ == old(self)@,
            old(self)@.len() < N ==> r is Ok && final(self)@ == old(self)@.push(value),
    {
        self.storage.push(value)
    }

    pub fn pop(&mut self) -> (r: Option<T>)
        ensures
            old(self).wf() ==> final(self).wf(),
            old(self)@.len() == 0 ==> r is None && final(self)@ == old(self)@,
            old(self)@.len() > 0 ==> r == Some(old(self)@.last()) && final(self)@
                == old(self)@.drop_last(),
    {
        self.storage.pop()
    }

    pub fn len(&self) -> (n: usize)
        ensures
            n == self@.len(),
    {
        self.storage.len()
    }

    pub fn capacity(&self) -> (n: usize)
        ensures
            n == N,
    {
        N
    }

    pub fn is_empty(&self) -> (b: bool)
        ensures
            b == (self@.len() == 0),
    {
        self.storage.len() == 0
    }

    pub fn is_full(&self) -> (b: bool)
        ensures
            b == (self@.len() == N),
    {
        self.storage.len() == N
    }

    pub fn as_slice(&self) -> (s: &[T])
        ensures
            s@ == self@,
    {
        self.storage.as_slice()
    }

    pub fn as_mut_slice(&mut self) -> (s: &mut [T])
        ensures
            s@ == old(self)@,
            final(s)@ == final(self)@,
    {
        self.storage.as_mut_slice()
    }

    pub fn into_iter(self) -> (it: ArrayVecIntoIter<T, N>)
        ensures
            it.wf(),
            it@ == self@,
    {
        ArrayVecIntoIter { inner: self.storage.into_iter() }
    }
}

impl<T, const N: usize> View for CopyArrayVec<T, N> where T: Copy {
    type V = Seq<T>;

    closed spec fn view(&self) -> Seq<T> {
        self.storage@
    }
}

impl<T: Copy, const N: usize> CopyArrayVec<T, N> {
    /// Holds at most `N` values.
    pub open spec fn wf(&self) -> bool {
        self@.len() <= N
    }

    pub fn new() -> (v: Self)
        ensures
            v.wf(),
            v@ == Seq::<T>::empty(),
    {
        CopyArrayVec { storage: Storage::new() }
    }

    /// The values `f(0), .., f(len - 1)`.
    pub fn from_fn<F: Fn(usize) -> T>(len: usize, f: F) -> (v: Self)
        requires
            len <= N,
            forall|i: usize| i < len ==> f.requires((i,)),
        ensures
            v.wf(),
            v@.len() == len,
            forall|i: int| 0 <= i < len ==> f.ensures((i as usize,), #[trigger] v@[i]),
    {
        CopyArrayVec { storage: Storage::from_fn(len, f) }
    }

    /// Appends `value`, or returns it when the vector is full.
    pub fn push(&mut self, value: T) -> (r: Result<(), T>)
        ensures
            old(self).wf() ==> final(self).wf() && (r is Err <==> old(self)@.len() == N),
            old(self)@.len() >= N ==> r == Err::<(), T>(value) && final(self)@ == old(self)@,
            old(self)@.len() < N ==> r is Ok && final(self)@ == old(self)@.push(value),
    {
        self.storage.push(value)
    }

    pub fn pop(&mut self) -> (r: Option<T>)
        ensures
            old(self).wf() ==> final(self).wf(),
            old(self)@.len() == 0 ==> r is None && final(self)@ == old(self)@,
            old(self)@.len() > 0 ==> r == Some(old(self)@.last()) && final(self)@
                == old(self)@.drop_last(),
    {
        self.storage.pop()
    }

    pub fn len(&self) -> (n: usize)
        ensures
            n == self@.len(),
    {
        self.storage.len()
    }

    pub fn capacity(&self) -> (n: usize)
        ensures
            n == N,
    {
        N
    }

    pub fn is_empty(&self) -> (b: bool)
        ensures
            b == (self@.len() == 0),
    {
        self.storage.len() == 0
    }

    pub fn is_full(&self) -> (b: bool)
        ensures
            b == (self@.len() == N),
    {
        self.storage.len() == N
    }

    pub fn as_slice(&self) -> (s: &[T])
        ensures
            s@ == self@,
    {
        self.storage.as_slice()
    }

    pub fn as_mut_slice(&mut self) -> (s: &mut [T])
        ensures
            s@ == old(self)@,
            final(s)@ == final(self)@,
    {
        self.storage.as_mut_slice()
    }
}

impl<T, const N: usize> Default for ArrayVec<T, N> {
    fn default() -> (v: Self)
        ensures
            v.wf(),
            v@ == Seq::<T>::empty(),
    {
        Self::new()
    }
}

impl<T: Copy, const N: usize> Default for CopyArrayVec<T, N> {
    fn default() -> (v: Self)
        ensures
            v.wf(),
            v@ == Seq::<T>::empty(),
    {
        Self::new()
    }
}

impl<T, const N: usize> View for ArrayVecIntoIter<T, N> {
    /// The values not yet yielded, front first.
    type V = Seq<T>;

    closed spec fn view(&self) -> Seq<T> {
        self.inner@
    }
}

impl<T, const N: usize> ArrayVecIntoIter<T, N> {
    /// The remaining slots hold their values.
    pub closed spec fn wf(&self) -> bool {
        self.inner.wf()
    }

    /// Yields the front value.
    pub fn next(&mut self) -> (r: Option<T>)
        requires
            old(self).wf(),
        ensures
            final(self).wf(),
            old(self)@.len() == 0 ==> r is None && final(self)@ == old(self)@,
            old(self)@.len() > 0 ==> r == Some(old(self)@[0]) && final(self)@ == old(self)@.drop_first(),
    {
        self.inner.next()
    }

    /// Yields the back value.
    pub fn next_back(&mut self) -> (r: Option<T>)
        requires
            old(self).wf(),
        ensures
            final(self).wf(),
            old(self)@.len() == 0 ==> r is None && final(self)@ == old(self)@,
            old(self)@.len() > 0 ==> r == Some(old(self)@.last()) && final(self)@
                == old(self)@.drop_last(),
    {
        self.inner.next_back()
    }

    /// The exact number of values left, as a lower and an upper bound.
    pub fn size_hint(&self) -> (r: (usize, Option<usize>))
        requires
            self.wf(),
        ensures
            r == (self@.len() as usize, Some(self@.len() as usize)),
    {
        self.inner.size_hint()
    }
}

} // verus!
