//! Batches: sets of indices drained in isolated generations, and inline FIFO
//! batches filled only while empty.
pub(crate) mod bitmap;
pub mod inline;

pub use inline::{Fill, FrontVacant, Inline, Vacant};

use vstd::prelude::*;

use crate::collections::batch::bitmap::{first_at_or_after, none_at_or_after, Tree};
use crate::collections::AllocationError;

verus! {

/// One of the two generations of a [`RawSet`].
#[derive(Clone, Copy, PartialEq, Eq, Structural)]
pub enum Side {
    A,
    B,
}

/// Whether a batch of a [`RawSet`] is being drained.
#[derive(Clone, Copy, PartialEq, Eq, Structural)]
pub enum DrainState {
    Idle,
    Active(Side),
    Paused(Side),
}

impl Side {
    pub open spec fn other_spec(self) -> Side {
        match self {
            Side::A => Side::B,
            Side::B => Side::A,
        }
    }

    pub fn other(self) -> (r: Side)
        ensures
            r == self.other_spec(),
    {
        match self {
            Side::A => Side::B,
            Side::B => Side::A,
        }
    }
}

/// `i` is what a cursor-based pop from `s` at cursor `c` yields: the first
/// member at or after `c`, or, when there is none, the first member.
pub open spec fn next_from(s: Set<int>, c: int, i: int) -> bool {
    if !none_at_or_after(s, c) {
        first_at_or_after(s, c, i)
    } else {
        first_at_or_after(s, 0, i)
    }
}

/// Where a search from `start` begins: `start` itself, or the first index
/// when `start` lies past the capacity, so that the search wraps at once.
pub open spec fn start_at(start: int, capacity: nat) -> int {
    if start < capacity {
        start
    } else {
        0
    }
}

/// The cursor after yielding `i` from a set of the given capacity.
pub open spec fn cursor_after(i: int, capacity: nat) -> nat {
    if i + 1 == capacity {
        0
    } else {
        (i + 1) as nat
    }
}

/// A single-threaded set of indices drained in isolated batches.
///
/// Every index below the capacity is in at most one of two generations. New
/// indices enter the active generation; a drain takes the other one, so
/// indices inserted during a drain wait for the next batch.
pub struct RawSet {
    a: Tree,
    b: Tree,
    capacity: usize,
    active: Side,
    draining: DrainState,
}

impl RawSet {
    /// Both generations are consistent bitmaps over the same capacity, and no
    /// index is in both.
    pub closed spec fn wf(&self) -> bool {
        &&& self.a.wf()
        &&& self.b.wf()
        &&& self.a.cap() == self.capacity
        &&& self.b.cap() == self.capacity
        &&& self.a@.disjoint(self.b@)
    }

    /// The members of generation `side`.
    pub closed spec fn side_view(&self, side: Side) -> Set<int> {
        match side {
            Side::A => self.a@,
            Side::B => self.b@,
        }
    }

    /// The position generation `side` resumes popping from.
    pub closed spec fn cursor_of(&self, side: Side) -> nat {
        match side {
            Side::A => self.a.cursor_spec(),
            Side::B => self.b.cursor_spec(),
        }
    }

    /// The generation that receives insertions.
    pub closed spec fn active_spec(&self) -> Side {
        self.active
    }

    pub closed spec fn draining_spec(&self) -> DrainState {
        self.draining
    }

    pub closed spec fn cap(&self) -> nat {
        self.capacity as nat
    }

    /// The members of either generation.
    pub open spec fn members(&self) -> Set<int> {
        self.side_view(Side::A).union(self.side_view(Side::B))
    }

    /// The other generation is unchanged, and so are the capacity, the active
    /// generation and the drain state.
    pub open spec fn same_frame(&self, other: &RawSet) -> bool {
        &&& self.cap() == other.cap()
        &&& self.active_spec() == other.active_spec()
        &&& self.draining_spec() == other.draining_spec()
    }

    pub proof fn lemma_wf(&self)
        requires
            self.wf(),
        ensures
            self.side_view(Side::A).disjoint(self.side_view(Side::B)),
            self.side_view(Side::A).finite(),
            self.side_view(Side::B).finite(),
            forall|i: int| #[trigger] self.members().contains(i) ==> 0 <= i < self.cap(),
            forall|s: Side| self.cursor_of(s) < self.cap() || (self.cursor_of(s) == 0 && self.cap() == 0),
    {
        self.a.lemma_cursor_bound();
        self.b.lemma_cursor_bound();
    }

    pub(crate) fn with_capacity(capacity: usize) -> (s: Self)
        ensures
            s.wf(),
            s.cap() == capacity,
            s.side_view(Side::A) == Set::<int>::empty(),
            s.side_view(Side::B) == Set::<int>::empty(),
            s.cursor_of(Side::A) == 0,
            s.cursor_of(Side::B) == 0,
            s.active_spec() == Side::A,
            s.draining_spec() == DrainState::Idle,
    {
        RawSet {
            a: Tree::with_capacity(capacity),
            b: Tree::with_capacity(capacity),
            capacity,
            active: Side::A,
            draining: DrainState::Idle,
        }
    }

    fn try_with_capacity(capacity: usize) -> (r: Result<Self, AllocationError>)
        ensures
            r is Ok ==> {
                let s = r->Ok_0;
                &&& s.wf()
                &&& s.cap() == capacity
                &&& s.side_view(Side::A) == Set::<int>::empty()
                &&& s.side_view(Side::B) == Set::<int>::empty()
                &&& s.cursor_of(Side::A) == 0
                &&& s.cursor_of(Side::B) == 0
                &&& s.active_spec() == Side::A
                &&& s.draining_spec() == DrainState::Idle
            },
            r is Err ==> r->Err_0 == AllocationError::Exhausted,
    {
        let a = match Tree::try_with_capacity(capacity) {
            Ok(t) => t,
            Err(e) => return Err(e),
        };
        let b = match Tree::try_with_capacity(capacity) {
            Ok(t) => t,
            Err(e) => return Err(e),
        };
        Ok(RawSet { a, b, capacity, active: Side::A, draining: DrainState::Idle })
    }

    /// Inserts an index into the pending batch.
    ///
    /// Returns `false` outside capacity or when either batch already contains it.
    pub fn insert(&mut self, index: usize) -> (r: bool)
        requires
            old(self).wf(),
        ensures
            final(self).wf(),
            final(self).same_frame(&*old(self)),
            r == (index < old(self).cap() && !old(self).members().contains(index as int)),
            final(self).side_view(old(self).active_spec()) == (if r {
                old(self).side_view(old(self).active_spec()).insert(index as int)
            } else {
                old(self).side_view(old(self).active_spec())
            }),
            final(self).side_view(old(self).active_spec().other_spec()) == old(self).side_view(
                old(self).active_spec().other_spec(),
            ),
            forall|s: Side| final(self).cursor_of(s) == old(self).cursor_of(s),
    {
        if index >= self.capacity {
            return false;
        }
        if self.a.contains(index) || self.b.contains(index) {
            return false;
        }
        match self.active {
            Side::A => {
                let _ = self.a.insert(index);
            },
            Side::B => {
                let _ = self.b.insert(index);
            },
        }
        true
    }

    /// Returns whether either batch contains `index`.
    pub fn contains(&self, index: usize) -> (r: bool)
        requires
            self.wf(),
        ensures
            r == self.members().contains(index as int),
    {
        self.a.contains(index) || self.b.contains(index)
    }

    /// Removes an index from either batch.
    pub fn remove(&mut self, index: usize) -> (r: bool)
        requires
            old(self).wf(),
        ensures
            final(self).wf(),
            final(self).same_frame(&*old(self)),
            r == old(self).members().contains(index as int),
            forall|s: Side| final(self).side_view(s) == old(self).side_view(s).remove(index as int),
            forall|s: Side| final(self).cursor_of(s) == old(self).cursor_of(s),
    {
        let ra = self.a.remove(index);
        let rb = self.b.remove(index);
        ra || rb
    }

    /// Removes the next index from the pending batch.
    pub fn pop(&mut self) -> (r: Option<usize>)
        requires
            old(self).wf(),
        ensures
            final(self).wf(),
            final(self).same_frame(&*old(self)),
            old(self).pops(&*final(self), old(self).active_spec(), old(self).cursor_of(old(self).active_spec()) as int, r),
    {
        let side = self.active;
        self.pop_side(side)
    }

    /// Removes the first pending index at or after `start`, wrapping once;
    /// a `start` past the capacity wraps at once to the first pending index.
    pub fn pop_from(&mut self, start: usize) -> (r: Option<usize>)
        requires
            old(self).wf(),
        ensures
            final(self).wf(),
            final(self).same_frame(&*old(self)),
            old(self).cap() == 0 ==> r is None && *final(self) == *old(self),
            old(self).cap() > 0 ==> old(self).pops(&*final(self), old(self).active_spec(), start_at(start as int, old(self).cap()), r),
    {
        let side = self.active;
        self.pop_side_from(side, start)
    }

    /// `after` is this set once generation `side` yielded `r`, chosen from
    /// cursor position `c`.
    pub open spec fn pops(&self, after: &RawSet, side: Side, c: int, r: Option<usize>) -> bool {
        &&& self.side_view(side).len() == 0 ==> r is None && after.side_view(side) == self.side_view(side)
            && after.cursor_of(side) == self.cursor_of(side)
        &&& self.side_view(side).len() > 0 ==> r is Some && next_from(self.side_view(side), c, r->0 as int)
            && after.side_view(side) == self.side_view(side).remove(r->0 as int)
            && after.cursor_of(side) == cursor_after(r->0 as int, self.cap())
        &&& after.side_view(side.other_spec()) == self.side_view(side.other_spec())
        &&& after.cursor_of(side.other_spec()) == self.cursor_of(side.other_spec())
    }

    pub fn capacity(&self) -> (n: usize)
        ensures
            n == self.cap(),
    {
        self.capacity
    }

    pub fn len(&self) -> (n: usize)
        requires
            self.wf(),
        ensures
            n == self.members().len(),
    {
        proof {
            self.a.lemma_cursor_bound();
            self.b.lemma_cursor_bound();
            vstd::set_lib::lemma_set_disjoint_lens(self.a@, self.b@);
            self.lemma_len_bound();
        }
        self.a.len() + self.b.len()
    }

    pub fn is_empty(&self) -> (b: bool)
        requires
            self.wf(),
        ensures
            b == (self.members().len() == 0),
    {
        self.len() == 0
    }

    proof fn lemma_len_bound(&self)
        requires
            self.wf(),
        ensures
            self.a@.len() + self.b@.len() <= self.capacity,
    {
        self.a.lemma_cursor_bound();
        self.b.lemma_cursor_bound();
        let r = vstd::set_lib::set_int_range(0, self.capacity as int);
        vstd::set_lib::lemma_int_range(0, self.capacity as int);
        vstd::set_lib::lemma_set_disjoint_lens(self.a@, self.b@);
        assert(self.a@.union(self.b@).subset_of(r));
        vstd::set_lib::lemma_len_subset(self.a@.union(self.b@), r);
    }

    pub(crate) fn side_len(&self, side: Side) -> (n: usize)
        requires
            self.wf(),
        ensures
            n == self.side_view(side).len(),
    {
        match side {
            Side::A => self.a.len(),
            Side::B => self.b.len(),
        }
    }

    fn find_at_or_after(&self, side: Side, start: usize) -> (r: Option<usize>)
        requires
            self.wf(),
        ensures
            r is None ==> none_at_or_after(self.side_view(side), start as int),
            r is Some ==> first_at_or_after(self.side_view(side), start as int, r->0 as int),
    {
        match side {
            Side::A => self.a.find_at_or_after(start),
            Side::B => self.b.find_at_or_after(start),
        }
    }

    /// The index a pop from generation `side` at cursor `c` yields.
    fn peek_from(&self, side: Side, c: usize) -> (r: Option<usize>)
        requires
            self.wf(),
        ensures
            self.side_view(side).len() == 0 ==> r is None,
            self.side_view(side).len() > 0 ==> r is Some && next_from(self.side_view(side), c as int, r->0 as int),
    {
        if self.side_len(side) == 0 {
            return None;
        }
        match self.find_at_or_after(side, c) {
            Some(i) => Some(i),
            None => {
                let r = self.find_at_or_after(side, 0);
                proof {
                    if r is None {
                        let s = self.side_view(side);
                        self.lemma_wf();
                        assert(s =~= Set::<int>::empty()) by {
                            assert forall|j: int| !s.contains(j) by {
                                if s.contains(j) {
                                    assert(self.members().contains(j));
                                }
                            }
                        }
                    }
                }
                r
            },
        }
    }

    pub(crate) fn peek_side(&self, side: Side) -> (r: Option<usize>)
        requires
            self.wf(),
        ensures
            self.side_view(side).len() == 0 ==> r is None,
            self.side_view(side).len() > 0 ==> r is Some && next_from(self.side_view(side), self.cursor_of(side) as int, r->0 as int),
    {
        let c = match side {
            Side::A => self.a.cursor(),
            Side::B => self.b.cursor(),
        };
        self.peek_from(side, c)
    }

    /// Removes `index`, a member of generation `side`, and moves that
    /// generation's cursor past it.
    pub(crate) fn take(&mut self, side: Side, index: usize)
        requires
            old(self).wf(),
            old(self).side_view(side).contains(index as int),
        ensures
            final(self).wf(),
            final(self).same_frame(&*old(self)),
            final(self).side_view(side) == old(self).side_view(side).remove(index as int),
            final(self).cursor_of(side) == cursor_after(index as int, old(self).cap()),
            final(self).side_view(side.other_spec()) == old(self).side_view(side.other_spec()),
            final(self).cursor_of(side.other_spec()) == old(self).cursor_of(side.other_spec()),
    {
        match side {
            Side::A => self.a.take_at(index),
            Side::B => self.b.take_at(index),
        }
    }

    pub(crate) fn pop_side(&mut self, side: Side) -> (r: Option<usize>)
        requires
            old(self).wf(),
        ensures
            final(self).wf(),
            final(self).same_frame(&*old(self)),
            old(self).pops(&*final(self), side, old(self).cursor_of(side) as int, r),
    {
        match self.peek_side(side) {
            Some(index) => {
                self.take(side, index);
                Some(index)
            },
            None => None,
        }
    }

    fn pop_side_from(&mut self, side: Side, start: usize) -> (r: Option<usize>)
        requires
            old(self).wf(),
        ensures
            final(self).wf(),
            final(self).same_frame(&*old(self)),
            old(self).cap() == 0 ==> r is None && *final(self) == *old(self),
            old(self).cap() > 0 ==> old(self).pops(&*final(self), side, start_at(start as int, old(self).cap()), r),
    {
        if self.capacity == 0 {
            return None;
        }
        let start = if start < self.capacity {
            start
        } else {
            0
        };
        match self.peek_from(side, start) {
            Some(index) => {
                self.take(side, index);
                Some(index)
            },
            None => None,
        }
    }

    /// Moves every member of generation `source` into the other generation.
    pub(crate) fn return_remaining(&mut self, source: Side)
        requires
            old(self).wf(),
        ensures
            final(self).wf(),
            final(self).same_frame(&*old(self)),
            final(self).side_view(source) == Set::<int>::empty(),
            final(self).side_view(source.other_spec()) == old(self).side_view(source.other_spec()).union(
                old(self).side_view(source),
            ),
            final(self).cursor_of(source) == (if old(self).side_view(source).len() == 0 {
                old(self).cursor_of(source)
            } else {
                0
            }),
            final(self).cursor_of(source.other_spec()) == (if old(self).side_view(source).len() != 0
                && old(self).side_view(source.other_spec()).len() == 0 {
                old(self).cursor_of(source)
            } else {
                old(self).cursor_of(source.other_spec())
            }),
    {
        if self.side_len(source) == 0 {
            proof {
                self.lemma_wf();
                let s = self.side_view(source);
                assert(s =~= Set::<int>::empty()) by {
                    assert forall|j: int| !s.contains(j) by {
                        if s.contains(j) {
                            vstd::set::axiom_set_remove_len(s, j);
                        }
                    }
                }
                assert(self.side_view(source.other_spec()).union(s) =~= self.side_view(source.other_spec()));
            }
            return;
        }
        self.return_remaining_slow(source);
    }

    fn return_remaining_slow(&mut self, source: Side)
        requires
            old(self).wf(),
            old(self).side_view(source).len() != 0,
        ensures
            final(self).wf(),
            final(self).same_frame(&*old(self)),
            final(self).side_view(source) == Set::<int>::empty(),
            final(self).side_view(source.other_spec()) == old(self).side_view(source.other_spec()).union(
                old(self).side_view(source),
            ),
            final(self).cursor_of(source) == 0,
            final(self).cursor_of(source.other_spec()) == (if old(self).side_view(source.other_spec()).len() == 0 {
                old(self).cursor_of(source)
            } else {
                old(self).cursor_of(source.other_spec())
            }),
    {
        let destination = source.other();
        let destination_was_empty = self.side_len(destination) == 0;
        let source_cursor = match source {
            Side::A => self.a.cursor(),
            Side::B => self.b.cursor(),
        };
        let destination_cursor = match destination {
            Side::A => self.a.cursor(),
            Side::B => self.b.cursor(),
        };
        let ghost old_self = *self;
        loop
            invariant
                self.wf(),
                self.same_frame(&old_self),
                destination == source.other_spec(),
                self.side_view(source).subset_of(old_self.side_view(source)),
                self.side_view(destination) == old_self.side_view(destination).union(
                    old_self.side_view(source).difference(self.side_view(source)),
                ),
                self.cursor_of(destination) == old_self.cursor_of(destination),
                source_cursor == old_self.cursor_of(source),
                destination_cursor == old_self.cursor_of(destination),
                destination_was_empty == (old_self.side_view(destination).len() == 0),
            ensures
                self.side_view(source) == Set::<int>::empty(),
            decreases self.side_view(source).len(),
        {
            let found = self.find_at_or_after(source, 0);
            match found {
                None => {
                    proof {
                        let s = self.side_view(source);
                        self.lemma_wf();
                        assert(s =~= Set::<int>::empty()) by {
                            assert forall|j: int| !s.contains(j) by {
                                if s.contains(j) {
                                    assert(self.members().contains(j));
                                }
                            }
                        }
                    }
                    break;
                },
                Some(index) => {
                    let ghost before = *self;
                    proof {
                        self.lemma_wf();
                        vstd::set::axiom_set_remove_len(self.side_view(source), index as int);
                    }
                    match source {
                        Side::A => {
                            let _ = self.a.remove(index);
                            let _ = self.b.insert(index);
                        },
                        Side::B => {
                            let _ = self.b.remove(index);
                            let _ = self.a.insert(index);
                        },
                    }
                    proof {
                        assert(before.side_view(source).contains(index as int));
                        assert(!before.side_view(destination).contains(index as int));
                        assert(before.members().contains(index as int));
                        assert(self.side_view(destination) == before.side_view(destination).insert(index as int));
                        assert(self.side_view(source) == before.side_view(source).remove(index as int));
                        assert(self.side_view(destination) =~= old_self.side_view(destination).union(
                            old_self.side_view(source).difference(self.side_view(source)),
                        ));
                    }
                },
            }
        }
        proof {
            self.lemma_wf();
            old_self.lemma_wf();
            assert(old_self.side_view(source).difference(Set::<int>::empty()) =~= old_self.side_view(source));
        }
        match source {
            Side::A => {
                self.a.set_cursor(0);
                if destination_was_empty {
                    self.b.set_cursor(source_cursor);
                }
            },
            Side::B => {
                self.b.set_cursor(0);
                if destination_was_empty {
                    self.a.set_cursor(source_cursor);
                }
            },
        }
    }

    /// Marks the set as not draining.
    pub(crate) fn set_idle(&mut self)
        requires
            old(self).wf(),
        ensures
            final(self).wf(),
            final(self).cap() == old(self).cap(),
            final(self).active_spec() == old(self).active_spec(),
            final(self).draining_spec() == DrainState::Idle,
            forall|s: Side| final(self).side_view(s) == old(self).side_view(s),
            forall|s: Side| final(self).cursor_of(s) == old(self).cursor_of(s),
    {
        self.draining = DrainState::Idle;
    }

    /// Raises the capacity of both generations to `capacity`, keeping their
    /// members and cursors. A smaller `capacity` changes nothing.
    pub(crate) fn grow_to(&mut self, capacity: usize)
        requires
            old(self).wf(),
        ensures
            final(self).wf(),
            final(self).cap() == (if capacity > old(self).cap() { capacity as nat } else { old(self).cap() }),
            final(self).active_spec() == old(self).active_spec(),
            final(self).draining_spec() == old(self).draining_spec(),
            forall|s: Side| final(self).side_view(s) == old(self).side_view(s),
            forall|s: Side| final(self).cursor_of(s) == old(self).cursor_of(s),
    {
        if capacity <= self.capacity {
            return;
        }
        self.a.grow_to(capacity);
        self.b.grow_to(capacity);
        self.capacity = capacity;
    }

    /// Starts or resumes draining a stable batch.
    ///
    /// Returns `None` during another drain; later inserts enter the next batch.
    pub(crate) fn drain_batch(&mut self) -> (r: Option<Side>)
        requires
            old(self).wf(),
        ensures
            final(self).wf(),
            final(self).cap() == old(self).cap(),
            forall|s: Side| final(self).side_view(s) == old(self).side_view(s),
            forall|s: Side| final(self).cursor_of(s) == old(self).cursor_of(s),
            old(self).draining_spec() is Active ==> r is None && *final(self) == *old(self),
            (old(self).draining_spec() matches DrainState::Paused(p) && old(self).side_view(p).len() != 0)
                ==> r == Some(old(self).draining_spec()->Paused_0) && final(self).active_spec()
                == old(self).active_spec(),
            !(old(self).draining_spec() is Active) && !(old(self).draining_spec() matches DrainState::Paused(p)
                && old(self).side_view(p).len() != 0) ==> r == Some(old(self).active_spec())
                && final(self).active_spec() == old(self).active_spec().other_spec(),
            r is Some ==> final(self).draining_spec() == DrainState::Active(r->0),
    {
        let side = match self.draining {
            DrainState::Active(_) => return None,
            DrainState::Paused(side) => {
                if self.side_len(side) != 0 {
                    side
                } else {
                    let side = self.active;
                    self.active = side.other();
                    side
                }
            },
            DrainState::Idle => {
                let side = self.active;
                self.active = side.other();
                side
            },
        };
        self.draining = DrainState::Active(side);
        Some(side)
    }
}


/// A stable dense index accepted and yielded by an [`IndexSet`].
///
/// `into_usize` and `from_usize` are the conversions `as` performs.
pub trait DenseIndex: Copy + Sized {
    spec fn dense(self) -> int;

    spec fn from_dense(raw: int) -> Self;

    fn into_usize(self) -> (r: usize)
        ensures
            r == self.dense(),
    ;

    fn from_usize(raw: usize) -> (r: Self)
        ensures
            r == Self::from_dense(raw as int),
    ;
}

impl DenseIndex for usize {
    open spec fn dense(self) -> int {
        self as int
    }

    open spec fn from_dense(raw: int) -> Self {
        raw as usize
    }

    fn into_usize(self) -> (r: usize) {
        self
    }

    fn from_usize(raw: usize) -> (r: Self) {
        raw
    }
}

impl DenseIndex for u8 {
    open spec fn dense(self) -> int {
        (self as usize) as int
    }

    open spec fn from_dense(raw: int) -> Self {
        raw as u8
    }

    fn into_usize(self) -> (r: usize) {
        self as usize
    }

    fn from_usize(raw: usize) -> (r: Self) {
        raw as u8
    }
}

impl DenseIndex for u16 {
    open spec fn dense(self) -> int {
        (self as usize) as int
    }

    open spec fn from_dense(raw: int) -> Self {
        raw as u16
    }

    fn into_usize(self) -> (r: usize) {
        self as usize
    }

    fn from_usize(raw: usize) -> (r: Self) {
        raw as u16
    }
}

impl DenseIndex for u32 {
    open spec fn dense(self) -> int {
        (self as usize) as int
    }

    open spec fn from_dense(raw: int) -> Self {
        raw as u32
    }

    fn into_usize(self) -> (r: usize) {
        self as usize
    }

    fn from_usize(raw: usize) -> (r: Self) {
        raw as u32
    }
}

impl DenseIndex for u64 {
    open spec fn dense(self) -> int {
        (self as usize) as int
    }

    open spec fn from_dense(raw: int) -> Self {
        raw as u64
    }

    fn into_usize(self) -> (r: usize) {
        self as usize
    }

    fn from_usize(raw: usize) -> (r: Self) {
        raw as u64
    }
}

impl DenseIndex for i8 {
    open spec fn dense(self) -> int {
        (self as usize) as int
    }

    open spec fn from_dense(raw: int) -> Self {
        raw as i8
    }

    fn into_usize(self) -> (r: usize) {
        self as usize
    }

    fn from_usize(raw: usize) -> (r: Self) {
        raw as i8
    }
}

impl DenseIndex for i16 {
    open spec fn dense(self) -> int {
        (self as usize) as int
    }

    open spec fn from_dense(raw: int) -> Self {
        raw as i16
    }

    fn into_usize(self) -> (r: usize) {
        self as usize
    }

    fn from_usize(raw: usize) -> (r: Self) {
        raw as i16
    }
}

impl DenseIndex for i32 {
    open spec fn dense(self) -> int {
        (self as usize) as int
    }

    open spec fn from_dense(raw: int) -> Self {
        raw as i32
    }

    fn into_usize(self) -> (r: usize) {
        self as usize
    }

    fn from_usize(raw: usize) -> (r: Self) {
        raw as i32
    }
}

impl DenseIndex for i64 {
    open spec fn dense(self) -> int {
        (self as usize) as int
    }

    open spec fn from_dense(raw: int) -> Self {
        raw as i64
    }

    fn into_usize(self) -> (r: usize) {
        self as usize
    }

    fn from_usize(raw: usize) -> (r: Self) {
        raw as i64
    }
}

impl DenseIndex for isize {
    open spec fn dense(self) -> int {
        (self as usize) as int
    }

    open spec fn from_dense(raw: int) -> Self {
        raw as isize
    }

    fn into_usize(self) -> (r: usize) {
        self as usize
    }

    fn from_usize(raw: usize) -> (r: Self) {
        raw as isize
    }
}

/// The index that a raw result stands for.
pub open spec fn lift<I: DenseIndex>(r: Option<usize>) -> Option<I> {
    match r {
        Some(i) => Some(I::from_dense(i as int)),
        None => None,
    }
}

/// A single-threaded set of indices drained in isolated batches.
///
/// Duplicates coalesce; reinserting a drained index defers it to the next batch.
pub struct IndexSet<I> {
    raw: RawSet,
    index: core::marker::PhantomData<I>,
}

/// A located front entry which leaves its set unchanged until consumed.
pub struct Front<'a, I> {
    pub set: &'a mut IndexSet<I>,
    pub side: Side,
    pub raw: usize,
}

/// Authority over one stable batch of an [`IndexSet`] while it is drained.
///
/// The set itself stays usable; indices inserted meanwhile enter the next
/// batch. [`Drain::finish`] returns what was not drained to the pending
/// batch, [`Drain::pause`] keeps it for the next drain.
pub struct Drain<I> {
    pub side: Side,
    pub index: core::marker::PhantomData<I>,
}

/// The outcome of [`Drain::next_with_quota`].
pub enum Next<I> {
    Item(I),
    Empty,
    Exhausted(I),
}

impl<I> IndexSet<I> {
    /// The set's generations.
    pub closed spec fn raw_spec(&self) -> RawSet {
        self.raw
    }

    pub open spec fn wf(&self) -> bool {
        self.raw_spec().wf()
    }

    pub fn with_capacity(capacity: usize) -> (s: Self)
        ensures
            s.wf(),
            s.raw_spec().cap() == capacity,
            s.raw_spec().members() == Set::<int>::empty(),
            s.raw_spec().active_spec() == Side::A,
            s.raw_spec().draining_spec() == DrainState::Idle,
            s.raw_spec().cursor_of(Side::A) == 0,
            s.raw_spec().cursor_of(Side::B) == 0,
    {
        let s = IndexSet { raw: RawSet::with_capacity(capacity), index: core::marker::PhantomData };
        proof {
            assert(s.raw_spec().members() =~= Set::<int>::empty());
        }
        s
    }

    pub fn try_with_capacity(capacity: usize) -> (r: Result<Self, AllocationError>)
        ensures
            r is Ok ==> {
                let s = r->Ok_0;
                &&& s.wf()
                &&& s.raw_spec().cap() == capacity
                &&& s.raw_spec().members() == Set::<int>::empty()
                &&& s.raw_spec().active_spec() == Side::A
                &&& s.raw_spec().draining_spec() == DrainState::Idle
            },
            r is Err ==> r->Err_0 == AllocationError::Exhausted,
    {
        match RawSet::try_with_capacity(capacity) {
            Ok(raw) => {
                let s = IndexSet { raw, index: core::marker::PhantomData };
                proof {
                    assert(s.raw_spec().members() =~= Set::<int>::empty());
                }
                Ok(s)
            },
            Err(e) => Err(e),
        }
    }

    pub fn capacity(&self) -> (n: usize)
        ensures
            n == self.raw_spec().cap(),
    {
        self.raw.capacity()
    }

    pub fn len(&self) -> (n: usize)
        requires
            self.wf(),
        ensures
            n == self.raw_spec().members().len(),
    {
        self.raw.len()
    }

    pub fn is_empty(&self) -> (b: bool)
        requires
            self.wf(),
        ensures
            b == (self.raw_spec().members().len() == 0),
    {
        self.raw.is_empty()
    }
}

impl<I: DenseIndex> IndexSet<I> {
    /// Inserts an index into the pending batch.
    ///
    /// Returns `false` outside capacity or when either batch already contains it.
    pub fn insert(&mut self, index: I) -> (r: bool)
        requires
            old(self).wf(),
        ensures
            final(self).wf(),
            ({
                let before = old(self).raw_spec();
                let after = final(self).raw_spec();
                let i = index.dense();
                &&& after.same_frame(&before)
                &&& r == (i < before.cap() && !before.members().contains(i))
                &&& after.side_view(before.active_spec()) == (if r {
                    before.side_view(before.active_spec()).insert(i)
                } else {
                    before.side_view(before.active_spec())
                })
                &&& after.side_view(before.active_spec().other_spec()) == before.side_view(before.active_spec().other_spec())
                &&& forall|s: Side| after.cursor_of(s) == before.cursor_of(s)
            }),
    {
        self.raw.insert(index.into_usize())
    }

    /// Returns whether either batch contains `index`.
    pub fn contains(&self, index: I) -> (r: bool)
        requires
            self.wf(),
        ensures
            r == self.raw_spec().members().contains(index.dense()),
    {
        self.raw.contains(index.into_usize())
    }

    /// Removes an index from either batch.
    pub fn remove(&mut self, index: I) -> (r: bool)
        requires
            old(self).wf(),
        ensures
            final(self).wf(),
            final(self).raw_spec().same_frame(&old(self).raw_spec()),
            r == old(self).raw_spec().members().contains(index.dense()),
            forall|s: Side| final(self).raw_spec().side_view(s) == old(self).raw_spec().side_view(s).remove(index.dense()),
            forall|s: Side| final(self).raw_spec().cursor_of(s) == old(self).raw_spec().cursor_of(s),
    {
        self.raw.remove(index.into_usize())
    }

    /// Removes the next index from the pending batch.
    pub fn pop(&mut self) -> (r: Option<I>)
        requires
            old(self).wf(),
        ensures
            final(self).wf(),
            final(self).raw_spec().same_frame(&old(self).raw_spec()),
            exists|ri: Option<usize>|
                old(self).raw_spec().pops(
                    &final(self).raw_spec(),
                    old(self).raw_spec().active_spec(),
                    old(self).raw_spec().cursor_of(old(self).raw_spec().active_spec()) as int,
                    ri,
                ) && r == lift::<I>(ri),
    {
        let raw = self.raw.pop();
        let r = match raw {
            Some(i) => Some(I::from_usize(i)),
            None => None,
        };
        proof {
            assert(old(self).raw_spec().pops(
                &self.raw_spec(),
                old(self).raw_spec().active_spec(),
                old(self).raw_spec().cursor_of(old(self).raw_spec().active_spec()) as int,
                raw,
            ) && r == lift::<I>(raw));
        }
        r
    }

    /// Locates the next pending index without removing it.
    pub fn front(&mut self) -> (r: Option<Front<'_, I>>)
        requires
            old(self).wf(),
        ensures
            ({
                let before = old(self).raw_spec();
                let side = before.active_spec();
                &&& before.side_view(side).len() == 0 ==> r is None && *final(self) == *old(self)
                &&& before.side_view(side).len() > 0 ==> r is Some && r->0.side == side
                    && next_from(before.side_view(side), before.cursor_of(side) as int, r->0.raw as int)
                    && *r->0.set == *old(self) && *final(r->0.set) == *final(self)
            }),
    {
        let side = self.raw.active;
        match self.raw.peek_side(side) {
            Some(raw) => Some(Front { set: self, side, raw }),
            None => None,
        }
    }

    /// Removes the first pending index at or after `start`, wrapping once;
    /// a `start` past the capacity wraps at once to the first pending index.
    pub fn pop_from(&mut self, start: I) -> (r: Option<I>)
        requires
            old(self).wf(),
        ensures
            final(self).wf(),
            final(self).raw_spec().same_frame(&old(self).raw_spec()),
            old(self).raw_spec().cap() == 0 ==> r is None && *final(self) == *old(self),
            old(self).raw_spec().cap() > 0 ==> exists|ri: Option<usize>|
                old(self).raw_spec().pops(
                    &final(self).raw_spec(),
                    old(self).raw_spec().active_spec(),
                    start_at(start.dense(), old(self).raw_spec().cap()),
                    ri,
                ) && r == lift::<I>(ri),
    {
        let raw = self.raw.pop_from(start.into_usize());
        let r = match raw {
            Some(i) => Some(I::from_usize(i)),
            None => None,
        };
        proof {
            if old(self).raw_spec().cap() > 0 {
                assert(old(self).raw_spec().pops(
                    &self.raw_spec(),
                    old(self).raw_spec().active_spec(),
                    start_at(start.dense(), old(self).raw_spec().cap()),
                    raw,
                ) && r == lift::<I>(raw));
            }
        }
        r
    }

    /// Starts or resumes draining a stable batch.
    ///
    /// Returns `None` during another drain.
    pub fn drain_batch(&mut self) -> (r: Option<Drain<I>>)
        requires
            old(self).wf(),
        ensures
            ({
                let before = old(self).raw_spec();
                let after = final(self).raw_spec();
                &&& after.wf()
                &&& after.cap() == before.cap()
                &&& forall|s: Side| after.side_view(s) == before.side_view(s)
                &&& forall|s: Side| after.cursor_of(s) == before.cursor_of(s)
                &&& before.draining_spec() is Active ==> r is None && after == before
                &&& (before.draining_spec() matches DrainState::Paused(p) && before.side_view(p).len() != 0)
                    ==> r is Some && r->0.side == before.draining_spec()->Paused_0
                    && after.active_spec() == before.active_spec()
                &&& !(before.draining_spec() is Active) && !(before.draining_spec() matches DrainState::Paused(p)
                    && before.side_view(p).len() != 0) ==> r is Some && r->0.side == before.active_spec()
                    && after.active_spec() == before.active_spec().other_spec()
                &&& r is Some ==> after.draining_spec() == DrainState::Active(r->0.side)
            }),
    {
        match self.raw.drain_batch() {
            Some(side) => Some(Drain { side, index: core::marker::PhantomData }),
            None => None,
        }
    }
}

impl<'a, I: DenseIndex> Front<'a, I> {
    /// The located index.
    pub fn get(&self) -> (r: I)
        ensures
            r == I::from_dense(self.raw as int),
    {
        I::from_usize(self.raw)
    }

    /// Removes the located index and returns it.
    pub fn take(self) -> (r: I)
        requires
            self.set.wf(),
            self.set.raw_spec().side_view(self.side).contains(self.raw as int),
        ensures
            r == I::from_dense(self.raw as int),
            final(self.set).wf(),
            final(self.set).raw_spec().same_frame(&old(self.set).raw_spec()),
            final(self.set).raw_spec().side_view(self.side) == old(self.set).raw_spec().side_view(self.side).remove(self.raw as int),
            final(self.set).raw_spec().cursor_of(self.side) == cursor_after(self.raw as int, old(self.set).raw_spec().cap()),
            final(self.set).raw_spec().side_view(self.side.other_spec()) == old(self.set).raw_spec().side_view(self.side.other_spec()),
            final(self.set).raw_spec().cursor_of(self.side.other_spec()) == old(self.set).raw_spec().cursor_of(self.side.other_spec()),
    {
        self.set.raw.take(self.side, self.raw);
        I::from_usize(self.raw)
    }
}

impl<I: DenseIndex> Drain<I> {
    /// This drain is the live drain of `set`.
    pub open spec fn live_in(&self, set: &IndexSet<I>) -> bool {
        &&& set.wf()
        &&& set.raw_spec().draining_spec() == DrainState::Active(self.side)
        &&& set.raw_spec().active_spec() == self.side.other_spec()
    }

    /// Returns the next index without removing it from this batch.
    pub fn peek(&self, set: &IndexSet<I>) -> (r: Option<I>)
        requires
            self.live_in(set),
        ensures
            exists|ri: Option<usize>| {
                let s = set.raw_spec().side_view(self.side);
                &&& s.len() == 0 ==> ri is None
                &&& s.len() > 0 ==> ri is Some && next_from(s, set.raw_spec().cursor_of(self.side) as int, ri->0 as int)
                &&& r == #[trigger] lift::<I>(ri)
            },
    {
        let raw = set.raw.peek_side(self.side);
        let r = match raw {
            Some(i) => Some(I::from_usize(i)),
            None => None,
        };
        proof {
            assert(r == lift::<I>(raw));
        }
        r
    }

    /// Removes and returns the next index of this batch.
    pub fn next(&mut self, set: &mut IndexSet<I>) -> (r: Option<I>)
        requires
            old(self).live_in(&*old(set)),
        ensures
            *final(self) == *old(self),
            final(self).live_in(&*final(set)),
            final(set).raw_spec().same_frame(&old(set).raw_spec()),
            exists|ri: Option<usize>|
                old(set).raw_spec().pops(
                    &final(set).raw_spec(),
                    old(self).side,
                    old(set).raw_spec().cursor_of(old(self).side) as int,
                    ri,
                ) && r == lift::<I>(ri),
    {
        let raw = set.raw.pop_side(self.side);
        let r = match raw {
            Some(i) => Some(I::from_usize(i)),
            None => None,
        };
        proof {
            assert(old(set).raw_spec().pops(
                &set.raw_spec(),
                old(self).side,
                old(set).raw_spec().cursor_of(old(self).side) as int,
                raw,
            ) && r == lift::<I>(raw));
        }
        r
    }

    /// Takes the next index only when `quota` has a unit left, which it uses.
    pub fn next_with_quota(&mut self, set: &mut IndexSet<I>, quota: &mut usize) -> (r: Next<I>)
        requires
            old(self).live_in(&*old(set)),
        ensures
            *final(self) == *old(self),
            final(self).live_in(&*final(set)),
            final(set).raw_spec().same_frame(&old(set).raw_spec()),
            ({
                let s = old(set).raw_spec().side_view(old(self).side);
                let c = old(set).raw_spec().cursor_of(old(self).side) as int;
                &&& s.len() == 0 ==> r is Empty && *final(set) == *old(set) && *final(quota) == *old(quota)
                &&& (s.len() > 0 && *old(quota) == 0) ==> (r matches Next::Exhausted(v)
                    && exists|i: int| next_from(s, c, i) && v == I::from_dense(i)
                    && *final(set) == *old(set) && *final(quota) == 0)
                &&& (s.len() > 0 && *old(quota) > 0) ==> (r matches Next::Item(v)
                    && *final(quota) == *old(quota) - 1
                    && exists|i: int| next_from(s, c, i) && v == I::from_dense(i)
                    && final(set).raw_spec().side_view(old(self).side) == s.remove(i)
                    && final(set).raw_spec().cursor_of(old(self).side) == cursor_after(i, old(set).raw_spec().cap())
                    && final(set).raw_spec().side_view(old(self).side.other_spec()) == old(set).raw_spec().side_view(old(self).side.other_spec()))
            }),
    {
        let raw = match set.raw.peek_side(self.side) {
            Some(raw) => raw,
            None => return Next::Empty,
        };
        if *quota == 0 {
            return Next::Exhausted(I::from_usize(raw));
        }
        *quota = *quota - 1;
        set.raw.take(self.side, raw);
        Next::Item(I::from_usize(raw))
    }

    /// Preserves the unconsumed part of this batch for the next drain.
    pub fn pause(self, set: &mut IndexSet<I>)
        requires
            self.live_in(&*old(set)),
        ensures
            final(set).wf(),
            final(set).raw_spec().cap() == old(set).raw_spec().cap(),
            final(set).raw_spec().active_spec() == old(set).raw_spec().active_spec(),
            forall|s: Side| final(set).raw_spec().side_view(s) == old(set).raw_spec().side_view(s),
            forall|s: Side| final(set).raw_spec().cursor_of(s) == old(set).raw_spec().cursor_of(s),
            final(set).raw_spec().draining_spec() == (if old(set).raw_spec().side_view(self.side).len() == 0 {
                DrainState::Idle
            } else {
                DrainState::Paused(self.side)
            }),
    {
        let state = if set.raw.side_len(self.side) == 0 {
            DrainState::Idle
        } else {
            DrainState::Paused(self.side)
        };
        set.raw.draining = state;
    }

    /// Ends this drain, returning every index not drained to the pending batch.
    pub fn finish(self, set: &mut IndexSet<I>)
        requires
            self.live_in(&*old(set)),
        ensures
            final(set).wf(),
            final(set).raw_spec().cap() == old(set).raw_spec().cap(),
            final(set).raw_spec().active_spec() == old(set).raw_spec().active_spec(),
            final(set).raw_spec().draining_spec() == DrainState::Idle,
            final(set).raw_spec().side_view(self.side) == Set::<int>::empty(),
            final(set).raw_spec().side_view(self.side.other_spec()) == old(set).raw_spec().side_view(
                self.side.other_spec(),
            ).union(old(set).raw_spec().side_view(self.side)),
            final(set).raw_spec().cursor_of(self.side) == (if old(set).raw_spec().side_view(self.side).len() == 0 {
                old(set).raw_spec().cursor_of(self.side)
            } else {
                0
            }),
            final(set).raw_spec().cursor_of(self.side.other_spec()) == (if old(set).raw_spec().side_view(self.side).len()
                != 0 && old(set).raw_spec().side_view(self.side.other_spec()).len() == 0 {
                old(set).raw_spec().cursor_of(self.side)
            } else {
                old(set).raw_spec().cursor_of(self.side.other_spec())
            }),
    {
        set.raw.return_remaining(self.side);
        set.raw.draining = DrainState::Idle;
    }
}

/// A batch drain yields only what its batch held: an index inserted while
/// the batch drains joins the pending batch, so the drain's next index is
/// never it.
pub proof fn law_insert_during_drain(a: RawSet, b: RawSet, c: RawSet, drained: Side, index: usize, cursor: int, r: Option<usize>)
    requires
        a.active_spec() == drained.other_spec(),
        !a.members().contains(index as int),
        b.side_view(drained) == a.side_view(drained),
        b.pops(&c, drained, cursor, r),
    ensures
        r != Some(index),
{
    if r == Some(index) {
        assert(b.side_view(drained).len() > 0);
        assert(b.side_view(drained).contains(index as int));
        assert(a.members().contains(index as int));
    }
}

} // verus!
