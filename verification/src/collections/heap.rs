//! Fixed-capacity binary heaps: a max-heap of values, and a min-heap of keys
//! addressed by a dense index.
pub mod sealed;

use vstd::prelude::*;
use vstd::multiset::Multiset;

use crate::collections::AllocationError;

verus! {

broadcast use {
    vstd::seq_lib::group_to_multiset_ensures,
    vstd::multiset::group_multiset_axioms,
};

/// A value ordered by an integer priority.
///
/// `outranks` decides whether one value comes out of a max-heap before
/// another; for the integer types it is `>`.
pub trait Priority: Sized {
    spec fn priority(&self) -> int;

    fn outranks(&self, other: &Self) -> (r: bool)
        ensures
            r == (self.priority() > other.priority()),
    ;
}

impl Priority for u8 {
    open spec fn priority(&self) -> int {
        *self as int
    }

    fn outranks(&self, other: &Self) -> (r: bool) {
        *self > *other
    }
}

impl Priority for u16 {
    open spec fn priority(&self) -> int {
        *self as int
    }

    fn outranks(&self, other: &Self) -> (r: bool) {
        *self > *other
    }
}

impl Priority for u32 {
    open spec fn priority(&self) -> int {
        *self as int
    }

    fn outranks(&self, other: &Self) -> (r: bool) {
        *self > *other
    }
}

impl Priority for u64 {
    open spec fn priority(&self) -> int {
        *self as int
    }

    fn outranks(&self, other: &Self) -> (r: bool) {
        *self > *other
    }
}

impl Priority for usize {
    open spec fn priority(&self) -> int {
        *self as int
    }

    fn outranks(&self, other: &Self) -> (r: bool) {
        *self > *other
    }
}

impl Priority for i8 {
    open spec fn priority(&self) -> int {
        *self as int
    }

    fn outranks(&self, other: &Self) -> (r: bool) {
        *self > *other
    }
}

impl Priority for i16 {
    open spec fn priority(&self) -> int {
        *self as int
    }

    fn outranks(&self, other: &Self) -> (r: bool) {
        *self > *other
    }
}

impl Priority for i32 {
    open spec fn priority(&self) -> int {
        *self as int
    }

    fn outranks(&self, other: &Self) -> (r: bool) {
        *self > *other
    }
}

impl Priority for i64 {
    open spec fn priority(&self) -> int {
        *self as int
    }

    fn outranks(&self, other: &Self) -> (r: bool) {
        *self > *other
    }
}

impl Priority for isize {
    open spec fn priority(&self) -> int {
        *self as int
    }

    fn outranks(&self, other: &Self) -> (r: bool) {
        *self > *other
    }
}

/// The position of the parent of position `c` in an implicit binary tree.
pub open spec fn parent(c: int) -> int {
    (c - 1) / 2
}

/// No entry outranks its parent.
pub open spec fn heap_ordered<T: Priority>(s: Seq<T>) -> bool {
    forall|c: int, p: int|
        #![trigger s[c], s[p]]
        0 < c < s.len() && p == parent(c) ==> s[c].priority() <= s[p].priority()
}

/// `x` ranks at least as high as every member of `m`.
pub open spec fn is_greatest<T: Priority>(m: Multiset<T>, x: T) -> bool {
    &&& m.contains(x)
    &&& forall|y: T| #[trigger] m.contains(y) ==> y.priority() <= x.priority()
}

/// The heap is ordered everywhere except between `h` and its parent, and
/// `h`'s children do not outrank that parent.
spec fn ordered_above<T: Priority>(s: Seq<T>, h: int) -> bool {
    &&& forall|c: int, p: int|
        #![trigger s[c], s[p]]
        0 < c < s.len() && p == parent(c) && c != h ==> s[c].priority() <= s[p].priority()
    &&& forall|c: int|
        0 < h && 0 < c < s.len() && parent(c) == h ==> #[trigger] s[c].priority() <= s[parent(h)].priority()
}

/// The heap is ordered everywhere except between `h` and its children, and
/// those children do not outrank `h`'s parent.
spec fn ordered_below<T: Priority>(s: Seq<T>, h: int) -> bool {
    &&& forall|c: int, p: int|
        #![trigger s[c], s[p]]
        0 < c < s.len() && p == parent(c) && p != h ==> s[c].priority() <= s[p].priority()
    &&& forall|c: int|
        0 < h && 0 < c < s.len() && parent(c) == h ==> #[trigger] s[c].priority() <= s[parent(h)].priority()
}

proof fn lemma_root_greatest<T: Priority>(s: Seq<T>, i: int)
    requires
        heap_ordered(s),
        0 <= i < s.len(),
    ensures
        s[i].priority() <= s[0].priority(),
    decreases i,
{
    if i > 0 {
        let p = parent(i);
        lemma_root_greatest(s, p);
        assert(s[i].priority() <= s[p].priority());
    }
}

proof fn lemma_first_greatest<T: Priority>(s: Seq<T>)
    requires
        heap_ordered(s),
        s.len() > 0,
    ensures
        is_greatest(s.to_multiset(), s[0]),
{
    assert(s.contains(s[0]));
    assert forall|y: T| #[trigger] s.to_multiset().contains(y) implies y.priority() <= s[0].priority() by {
        assert(s.contains(y));
        let i = choose|i: int| 0 <= i < s.len() && s[i] == y;
        lemma_root_greatest(s, i);
    }
}

proof fn lemma_swap_multiset<T>(s: Seq<T>, a: int, b: int)
    requires
        0 <= a < s.len(),
        0 <= b < s.len(),
    ensures
        s.update(a, s[b]).update(b, s[a]).to_multiset() == s.to_multiset(),
{
    broadcast use vstd::seq_lib::to_multiset_update;
    broadcast use vstd::multiset::group_multiset_properties;
    if a != b {
        let s1 = s.update(a, s[b]);
        assert(s1[b] == s[b]);
        assert(s1.update(b, s[a]).to_multiset() =~= s.to_multiset());
    } else {
        assert(s.update(a, s[b]).update(b, s[a]) =~= s);
    }
}

proof fn lemma_above_root<T: Priority>(s: Seq<T>)
    requires
        ordered_above(s, 0),
    ensures
        heap_ordered(s),
{
    assert forall|c: int, q: int| #![trigger s[c], s[q]] 0 < c < s.len() && q == parent(c) implies s[c].priority() <= s[q].priority() by {
    }
}

/// Sifting up stops where the held entry does not outrank its parent.
proof fn lemma_sift_up_done<T: Priority>(s: Seq<T>, h: int)
    requires
        ordered_above(s, h),
        0 < h < s.len(),
        s[h].priority() <= s[parent(h)].priority(),
    ensures
        heap_ordered(s),
{
    assert forall|c: int, q: int| #![trigger s[c], s[q]] 0 < c < s.len() && q == parent(c) implies s[c].priority() <= s[q].priority() by {
    }
}

/// Swapping an entry with a parent it outranks moves the disorder one level up.
proof fn lemma_sift_up_step<T: Priority>(s: Seq<T>, h: int)
    requires
        ordered_above(s, h),
        0 < h < s.len(),
        s[h].priority() > s[parent(h)].priority(),
    ensures
        ordered_above(s.update(h, s[parent(h)]).update(parent(h), s[h]), parent(h)),
{
    let p = parent(h);
    let t = s.update(h, s[p]).update(p, s[h]);
    assert(t[p] == s[h]);
    assert(t[h] == s[p]);
    assert forall|c: int, q: int| #![trigger t[c], t[q]] 0 < c < t.len() && q == parent(c) && c != p implies t[c].priority() <= t[q].priority() by {
        if c == h {
        } else if q == p {
            assert(s[c].priority() <= s[p].priority());
        } else if q == h {
            assert(s[c].priority() <= s[parent(h)].priority());
        } else {
            assert(t[c] == s[c]);
            assert(t[q] == s[q]);
            assert(s[c].priority() <= s[q].priority());
        }
    }
    assert forall|c: int| 0 < p && 0 < c < t.len() && parent(c) == p implies #[trigger] t[c].priority() <= t[parent(p)].priority() by {
        let g = parent(p);
        assert(t[g] == s[g]);
        assert(s[p].priority() <= s[g].priority());
        if c != h {
            assert(t[c] == s[c]);
            assert(s[c].priority() <= s[p].priority());
        }
    }
}

/// Sifting down stops where no child outranks the held entry.
proof fn lemma_sift_down_done<T: Priority>(s: Seq<T>, h: int)
    requires
        ordered_below(s, h),
        0 <= h < s.len(),
        2 * h + 1 < s.len() ==> s[2 * h + 1].priority() <= s[h].priority(),
        2 * h + 2 < s.len() ==> s[2 * h + 2].priority() <= s[h].priority(),
    ensures
        heap_ordered(s),
{
    assert forall|c: int, q: int| #![trigger s[c], s[q]] 0 < c < s.len() && q == parent(c) implies s[c].priority() <= s[q].priority() by {
        if q == h {
            assert(c == 2 * h + 1 || c == 2 * h + 2);
        }
    }
}

/// Swapping an entry with its highest child, which outranks it, moves the
/// disorder one level down.
proof fn lemma_sift_down_step<T: Priority>(s: Seq<T>, h: int, child: int)
    requires
        ordered_below(s, h),
        0 <= h,
        child == 2 * h + 1 || child == 2 * h + 2,
        child < s.len(),
        2 * h + 1 < s.len() ==> s[2 * h + 1].priority() <= s[child].priority(),
        2 * h + 2 < s.len() ==> s[2 * h + 2].priority() <= s[child].priority(),
        s[child].priority() > s[h].priority(),
    ensures
        ordered_below(s.update(h, s[child]).update(child, s[h]), child),
{
    let t = s.update(h, s[child]).update(child, s[h]);
    assert(parent(child) == h);
    assert(t[h] == s[child]);
    assert(t[child] == s[h]);
    assert forall|c: int, q: int| #![trigger t[c], t[q]] 0 < c < t.len() && q == parent(c) && q != child implies t[c].priority() <= t[q].priority() by {
        if q == h {
            assert(c == 2 * h + 1 || c == 2 * h + 2);
            if c != child {
                assert(t[c] == s[c]);
            }
        } else if c == h {
            assert(s[child].priority() <= s[parent(h)].priority());
        } else {
            assert(t[c] == s[c]);
            assert(t[q] == s[q]);
            assert(s[c].priority() <= s[q].priority());
        }
    }
    assert forall|c: int| 0 < child && 0 < c < t.len() && parent(c) == child implies #[trigger] t[c].priority() <= t[parent(child)].priority() by {
        assert(t[c] == s[c]);
        assert(s[c].priority() <= s[child].priority());
    }
}

/// After the entry at `pos` of an ordered heap is replaced, and possibly the
/// last entry dropped, the disorder is confined to `pos`: above it when the
/// new entry outranks its parent, below it otherwise.
proof fn lemma_repair_start<T: Priority>(before: Seq<T>, s: Seq<T>, pos: int)
    requires
        heap_ordered(before),
        s.len() <= before.len(),
        0 <= pos < s.len(),
        forall|i: int| 0 <= i < s.len() && i != pos ==> s[i] == before[i],
    ensures
        pos > 0 && s[pos].priority() > s[parent(pos)].priority() ==> ordered_above(s, pos),
        !(pos > 0 && s[pos].priority() > s[parent(pos)].priority()) ==> ordered_below(s, pos),
{
    assert forall|c: int, q: int| #![trigger s[c], s[q]] 0 < c < s.len() && q == parent(c) && c != pos && q != pos implies s[c].priority() <= s[q].priority() by {
        assert(s[c] == before[c]);
        assert(s[q] == before[q]);
        assert(before[c].priority() <= before[q].priority());
    }
    if pos > 0 {
        let g = parent(pos);
        assert(s[g] == before[g]);
        assert(before[pos].priority() <= before[g].priority());
        assert forall|c: int| 0 < c < s.len() && parent(c) == pos implies #[trigger] s[c].priority() <= s[parent(pos)].priority() by {
            assert(s[c] == before[c]);
            assert(before[c].priority() <= before[pos].priority());
        }
        if s[pos].priority() > s[g].priority() {
            assert forall|c: int, q: int| #![trigger s[c], s[q]] 0 < c < s.len() && q == parent(c) && c != pos implies s[c].priority() <= s[q].priority() by {
                if q == pos {
                    assert(s[c] == before[c]);
                    assert(before[c].priority() <= before[pos].priority());
                } else {
                    assert(s[c] == before[c]);
                    assert(s[q] == before[q]);
                    assert(before[c].priority() <= before[q].priority());
                }
            }
        } else {
            assert forall|c: int, q: int| #![trigger s[c], s[q]] 0 < c < s.len() && q == parent(c) && q != pos implies s[c].priority() <= s[q].priority() by {
                if c != pos {
                    assert(s[c] == before[c]);
                    assert(s[q] == before[q]);
                    assert(before[c].priority() <= before[q].priority());
                }
            }
        }
    } else {
        assert forall|c: int, q: int| #![trigger s[c], s[q]] 0 < c < s.len() && q == parent(c) && q != pos implies s[c].priority() <= s[q].priority() by {
            assert(s[c] == before[c]);
            assert(s[q] == before[q]);
            assert(before[c].priority() <= before[q].priority());
        }
    }
}

/// A fixed-capacity max-heap.
///
/// `push` refuses a value once the heap is full; `pop` yields a value of the
/// highest priority.
pub struct FixedHeap<T> {
    entries: Vec<Option<T>>,
    capacity: usize,
}

impl<T> FixedHeap<T> {
    /// The values in heap layout.
    pub closed spec fn layout(&self) -> Seq<T> {
        Seq::new(self.entries@.len(), |i: int| self.entries@[i]->0)
    }

    /// The values held.
    pub open spec fn contents(&self) -> Multiset<T> {
        self.layout().to_multiset()
    }

    pub closed spec fn cap(&self) -> nat {
        self.capacity as nat
    }

    /// The value a `peek` shows and a `pop` takes.
    pub closed spec fn top(&self) -> T {
        self.layout()[0]
    }

    pub closed spec fn slots_filled(&self) -> bool {
        &&& self.entries@.len() <= self.capacity
        &&& forall|i: int| 0 <= i < self.entries@.len() ==> #[trigger] self.entries@[i] is Some
    }

    pub fn with_capacity(capacity: usize) -> (h: Self)
        ensures
            h.slots_filled(),
            h.cap() == capacity,
            h.layout() == Seq::<T>::empty(),
            h.contents() == Multiset::<T>::empty(),
    {
        let h = FixedHeap { entries: Vec::new(), capacity };
        proof {
            assert(h.layout() =~= Seq::<T>::empty());
        }
        h
    }

    pub fn capacity(&self) -> (n: usize)
        ensures
            n == self.cap(),
    {
        self.capacity
    }

    pub fn len(&self) -> (n: usize)
        ensures
            n == self.contents().len(),
    {
        proof {
            vstd::seq_lib::to_multiset_len(self.layout());
        }
        self.entries.len()
    }

    pub fn is_empty(&self) -> (b: bool)
        ensures
            b == (self.contents().len() == 0),
    {
        self.len() == 0
    }

    /// Drops every value.
    pub fn clear(&mut self)
        ensures
            final(self).slots_filled(),
            final(self).cap() == old(self).cap(),
            final(self).contents() == Multiset::<T>::empty(),
    {
        self.entries.clear();
        proof {
            assert(self.layout() =~= Seq::<T>::empty());
        }
    }

    fn swap(&mut self, a: usize, b: usize)
        requires
            old(self).slots_filled(),
            a < old(self).entries@.len(),
            b < old(self).entries@.len(),
        ensures
            final(self).slots_filled(),
            final(self).cap() == old(self).cap(),
            final(self).entries@.len() == old(self).entries@.len(),
            final(self).layout() == old(self).layout().update(a as int, old(self).layout()[b as int]).update(
                b as int,
                old(self).layout()[a as int],
            ),
    {
        let x = self.entries[a].take();
        let y = self.entries[b].take();
        self.entries[a] = y;
        self.entries[b] = x;
        proof {
            let l = old(self).layout().update(a as int, old(self).layout()[b as int]).update(
                b as int,
                old(self).layout()[a as int],
            );
            assert(self.layout() =~= l);
        }
    }
}

impl<T: Priority> FixedHeap<T> {
    pub open spec fn wf(&self) -> bool {
        &&& self.slots_filled()
        &&& heap_ordered(self.layout())
    }

    proof fn lemma_top(&self)
        requires
            self.wf(),
            self.contents().len() > 0,
        ensures
            is_greatest(self.contents(), self.top()),
    {
        vstd::seq_lib::to_multiset_len(self.layout());
        lemma_first_greatest(self.layout());
    }

    /// Adds `value`, or hands it back when the heap is full.
    pub fn push(&mut self, value: T) -> (r: Result<(), T>)
        requires
            old(self).wf(),
        ensures
            final(self).wf(),
            final(self).cap() == old(self).cap(),
            old(self).contents().len() == old(self).cap() ==> r == Err::<(), T>(value) && *final(self)
                == *old(self),
            old(self).contents().len() < old(self).cap() ==> r is Ok && final(self).contents()
                == old(self).contents().insert(value),
    {
        proof {
            vstd::seq_lib::to_multiset_len(self.layout());
        }
        if self.entries.len() == self.capacity {
            return Err(value);
        }
        let ghost before = self.layout();
        self.entries.push(Some(value));
        proof {
            assert(self.layout() =~= before.push(value));
            vstd::seq_lib::to_multiset_build(before, value);
        }
        let ghost pushed = self.contents();
        let mut h = self.entries.len() - 1;
        loop
            invariant
                self.slots_filled(),
                self.cap() == old(self).cap(),
                h < self.entries@.len(),
                self.contents() == pushed,
                ordered_above(self.layout(), h as int),
            ensures
                self.slots_filled(),
                self.cap() == old(self).cap(),
                self.contents() == pushed,
                heap_ordered(self.layout()),
            decreases h,
        {
            if h == 0 {
                proof {
                    let s = self.layout();
                    assert forall|c: int, q: int| #![trigger s[c], s[q]] 0 < c < s.len() && q == parent(c) implies s[c].priority() <= s[q].priority() by {
                    }
                }
                break;
            }
            let p = (h - 1) / 2;
            let rises = self.entries[h].as_ref().unwrap().outranks(self.entries[p].as_ref().unwrap());
            if !rises {
                proof {
                    let s = self.layout();
                    assert(s[h as int].priority() <= s[p as int].priority());
                    assert forall|c: int, q: int| #![trigger s[c], s[q]] 0 < c < s.len() && q == parent(c) implies s[c].priority() <= s[q].priority() by {
                        if c == h {
                            assert(q == p);
                        }
                    }
                }
                break;
            }
            let ghost s = self.layout();
            self.swap(h, p);
            proof {
                let t = self.layout();
                lemma_swap_multiset(s, h as int, p as int);
                assert(t[p as int] == s[h as int]);
                assert(t[h as int] == s[p as int]);
                assert forall|c: int, q: int| #![trigger t[c], t[q]] 0 < c < t.len() && q == parent(c) && c != p implies t[c].priority() <= t[q].priority() by {
                    if c == h {
                    } else if q == p {
                        assert(s[c].priority() <= s[p as int].priority());
                    } else if q == h {
                        assert(s[c].priority() <= s[parent(h as int)].priority());
                    } else {
                        assert(t[c] == s[c]);
                        assert(t[q] == s[q]);
                        assert(s[c].priority() <= s[q].priority());
                    }
                }
                assert forall|c: int| 0 < p && 0 < c < t.len() && parent(c) == p implies #[trigger] t[c].priority() <= t[parent(p as int)].priority() by {
                    let g = parent(p as int);
                    assert(t[g] == s[g]);
                    assert(s[p as int].priority() <= s[g].priority());
                    if c != h {
                        assert(t[c] == s[c]);
                        assert(s[c].priority() <= s[p as int].priority());
                    }
                }
            }
            h = p;
        }
        Ok(())
    }

    /// A value of the highest priority.
    pub fn peek(&self) -> (r: Option<&T>)
        requires
            self.wf(),
        ensures
            self.contents().len() == 0 ==> r is None,
            self.contents().len() > 0 ==> r == Some(&self.top()) && is_greatest(self.contents(), self.top()),
    {
        proof {
            vstd::seq_lib::to_multiset_len(self.layout());
        }
        if self.entries.len() == 0 {
            None
        } else {
            proof {
                self.lemma_top();
            }
            self.entries[0].as_ref()
        }
    }

    /// Removes and returns a value of the highest priority.
    pub fn pop(&mut self) -> (r: Option<T>)
        requires
            old(self).wf(),
        ensures
            final(self).wf(),
            final(self).cap() == old(self).cap(),
            old(self).contents().len() == 0 ==> r is None && *final(self) == *old(self),
            old(self).contents().len() > 0 ==> r == Some(old(self).top()) && is_greatest(
                old(self).contents(),
                old(self).top(),
            ) && final(self).contents() == old(self).contents().remove(old(self).top()),
    {
        proof {
            vstd::seq_lib::to_multiset_len(self.layout());
        }
        if self.entries.len() == 0 {
            return None;
        }
        proof {
            self.lemma_top();
        }
        let last = self.entries.len() - 1;
        let ghost before = self.layout();
        self.swap(0, last);
        proof {
            lemma_swap_multiset(before, 0, last as int);
        }
        let ghost swapped = self.layout();
        let top = self.entries.pop().unwrap().unwrap();
        proof {
            assert(self.layout() =~= swapped.remove(last as int));
            vstd::seq_lib::to_multiset_remove(swapped, last as int);
            assert(top == before[0]);
        }
        let ghost popped = self.contents();
        let len = self.entries.len();
        let mut h: usize = 0;
        proof {
            let s = self.layout();
            assert forall|c: int, q: int| #![trigger s[c], s[q]] 0 < c < s.len() && q == parent(c) && q != 0 implies s[c].priority() <= s[q].priority() by {
                assert(s[c] == before[c]);
                assert(s[q] == before[q]);
            }
        }
        loop
            invariant
                self.slots_filled(),
                self.cap() == old(self).cap(),
                len == self.entries@.len(),
                h < len || len == 0,
                self.contents() == popped,
                ordered_below(self.layout(), h as int),
            ensures
                self.slots_filled(),
                self.cap() == old(self).cap(),
                self.contents() == popped,
                heap_ordered(self.layout()),
            decreases len - h,
        {
            if len == 0 || len - h <= h + 1 {
                proof {
                    let s = self.layout();
                    assert forall|c: int, q: int| #![trigger s[c], s[q]] 0 < c < s.len() && q == parent(c) implies s[c].priority() <= s[q].priority() by {
                        if q == h {
                            assert(c >= 2 * h + 1);
                        }
                    }
                }
                break;
            }
            let left = 2 * h + 1;
            let right = left + 1;
            let child = if right < len && self.entries[right].as_ref().unwrap().outranks(
                self.entries[left].as_ref().unwrap(),
            ) {
                right
            } else {
                left
            };
            let ghost s = self.layout();
            proof {
                assert(parent(left as int) == h);
                assert(parent(right as int) == h);
                assert(right < len ==> s[right as int].priority() <= s[child as int].priority());
                assert(s[left as int].priority() <= s[child as int].priority());
            }
            let sinks = self.entries[child].as_ref().unwrap().outranks(self.entries[h].as_ref().unwrap());
            if !sinks {
                proof {
                    assert forall|c: int, q: int| #![trigger s[c], s[q]] 0 < c < s.len() && q == parent(c) implies s[c].priority() <= s[q].priority() by {
                        if q == h {
                            assert(c == left || c == right);
                        }
                    }
                }
                break;
            }
            self.swap(h, child);
            proof {
                let t = self.layout();
                lemma_swap_multiset(s, h as int, child as int);
                assert(t[h as int] == s[child as int]);
                assert(t[child as int] == s[h as int]);
                assert forall|c: int, q: int| #![trigger t[c], t[q]] 0 < c < t.len() && q == parent(c) && q != child implies t[c].priority() <= t[q].priority() by {
                    if q == h {
                        assert(c == left || c == right);
                        if c != child {
                            assert(t[c] == s[c]);
                        }
                    } else if c == h {
                        assert(s[child as int].priority() <= s[parent(h as int)].priority());
                    } else {
                        assert(t[c] == s[c]);
                        assert(t[q] == s[q]);
                        assert(s[c].priority() <= s[q].priority());
                    }
                }
                assert forall|c: int| 0 < child && 0 < c < t.len() && parent(c) == child implies #[trigger] t[c].priority() <= t[parent(child as int)].priority() by {
                    assert(t[c] == s[c]);
                    assert(s[c].priority() <= s[child as int].priority());
                }
            }
            h = child;
        }
        Some(top)
    }

    /// Removes the highest-priority value only when `predicate` accepts it.
    pub fn pop_if<F: FnOnce(&T) -> bool>(&mut self, predicate: F) -> (r: Option<T>)
        requires
            old(self).wf(),
            old(self).contents().len() > 0 ==> predicate.requires((&old(self).top(),)),
        ensures
            final(self).wf(),
            final(self).cap() == old(self).cap(),
            old(self).contents().len() == 0 ==> r is None && *final(self) == *old(self),
            old(self).contents().len() > 0 && r is Some ==> predicate.ensures((&old(self).top(),), true)
                && r == Some(old(self).top()) && final(self).contents() == old(self).contents().remove(
                old(self).top(),
            ),
            old(self).contents().len() > 0 && r is None ==> predicate.ensures((&old(self).top(),), false)
                && *final(self) == *old(self),
    {
        let first = match self.peek() {
            Some(first) => first,
            None => return None,
        };
        if predicate(first) {
            self.pop()
        } else {
            None
        }
    }
}


/// The position value of an index that is not in the heap.
pub const NONE: u32 = 0xffff_ffff;

/// An index and its key, as an indexed min-heap stores them.
struct HeapEntry<K> {
    index: usize,
    key: K,
}

impl<K: Priority> Priority for HeapEntry<K> {
    closed spec fn priority(&self) -> int {
        -self.key.priority()
    }

    fn outranks(&self, other: &Self) -> (r: bool) {
        other.key.outranks(&self.key)
    }
}

/// A min-heap of keys addressed by dense indices below its capacity.
///
/// Each index holds at most one key; `pop` yields an index whose key has the
/// lowest priority.
pub struct IndexedMinHeap<K> {
    entries: Vec<Option<HeapEntry<K>>>,
    positions: Vec<u32>,
}

/// A vacant index of an [`IndexedMinHeap`], found by `vacant_entry`.
pub struct IndexedMinHeapVacantEntry<'a, K> {
    pub heap: &'a mut IndexedMinHeap<K>,
    pub index: usize,
}

impl<K> IndexedMinHeap<K> {
    closed spec fn layout(&self) -> Seq<HeapEntry<K>> {
        Seq::new(self.entries@.len(), |i: int| self.entries@[i]->0)
    }

    /// The number of indices.
    pub closed spec fn cap(&self) -> nat {
        self.positions@.len()
    }

    /// The key held at each index in the heap.
    pub closed spec fn keys(&self) -> Map<int, K> {
        Map::new(
            |i: int| 0 <= i < self.positions@.len() && self.positions@[i] != NONE,
            |i: int| self.layout()[self.positions@[i] as int].key,
        )
    }

    /// The index a `peek` shows and a `pop` takes.
    pub closed spec fn top_index(&self) -> int {
        self.layout()[0].index as int
    }

    pub closed spec fn top_key(&self) -> K {
        self.layout()[0].key
    }

    /// Every stored entry is recorded at its position, and every recorded
    /// position holds its index.
    pub closed spec fn linked(&self) -> bool {
        &&& self.positions@.len() <= NONE
        &&& self.entries@.len() <= self.positions@.len()
        &&& forall|p: int| 0 <= p < self.entries@.len() ==> #[trigger] self.entries@[p] is Some
        &&& forall|p: int|
            0 <= p < self.entries@.len() ==> #[trigger] self.entries@[p]->0.index < self.positions@.len()
                && self.positions@[self.entries@[p]->0.index as int] == p
        &&& forall|i: int|
            0 <= i < self.positions@.len() && #[trigger] self.positions@[i] != NONE ==> self.positions@[i]
                < self.entries@.len() && self.entries@[self.positions@[i] as int]->0.index == i
    }

    proof fn lemma_len(&self)
        requires
            self.linked(),
        ensures
            self.keys().dom().finite(),
            self.keys().dom().len() == self.entries@.len(),
            self.entries@.len() <= self.cap(),
            forall|v: int| 0 <= v < self.cap() && !self.keys().dom().contains(v) ==> self.entries@.len() < self.cap(),
    {
        let d = self.keys().dom();
        let r = vstd::set_lib::set_int_range(0, self.entries@.len() as int);
        let all = vstd::set_lib::set_int_range(0, self.cap() as int);
        vstd::set_lib::lemma_int_range(0, self.entries@.len() as int);
        vstd::set_lib::lemma_int_range(0, self.cap() as int);
        assert(d.subset_of(all));
        vstd::set_lib::lemma_len_subset(d, all);
        let f = |i: int| self.positions@[i] as int;
        assert(vstd::relations::injective_on(f, d)) by {
            assert forall|x: int, y: int| d.contains(x) && d.contains(y) && #[trigger] f(x) == #[trigger] f(y) implies x == y by {
                assert(self.positions@[x] != NONE);
                assert(self.positions@[y] != NONE);
            }
        }
        assert(d.map(f) =~= r) by {
            assert forall|p: int| r.contains(p) implies #[trigger] d.map(f).contains(p) by {
                let i = self.entries@[p]->0.index as int;
                assert(self.entries@[p] is Some);
                assert(d.contains(i));
                assert(f(i) == p);
            }
            assert forall|p: int| #[trigger] d.map(f).contains(p) implies r.contains(p) by {
                let i = choose|i: int| d.contains(i) && f(i) == p;
                assert(self.positions@[i] != NONE);
            }
        }
        vstd::set_lib::lemma_map_size(d, r, f);
        assert forall|v: int| 0 <= v < self.cap() && !self.keys().dom().contains(v) implies self.entries@.len() < self.cap() by {
            assert(d.subset_of(all.remove(v)));
            vstd::set_lib::lemma_len_subset(d, all.remove(v));
        }
    }

    pub fn capacity(&self) -> (n: usize)
        ensures
            n == self.cap(),
    {
        self.positions.len()
    }

    /// Swaps the entries at positions `a` and `b`, keeping their positions recorded.
    fn swap(&mut self, a: usize, b: usize)
        requires
            old(self).linked(),
            a < old(self).entries@.len(),
            b < old(self).entries@.len(),
        ensures
            final(self).linked(),
            final(self).cap() == old(self).cap(),
            final(self).entries@.len() == old(self).entries@.len(),
            final(self).keys() == old(self).keys(),
            final(self).layout() == old(self).layout().update(a as int, old(self).layout()[b as int]).update(
                b as int,
                old(self).layout()[a as int],
            ),
    {
        proof {
            self.lemma_len();
            assert(old(self).entries@[a as int]->0.index < old(self).positions@.len());
            assert(old(self).entries@[b as int]->0.index < old(self).positions@.len());
        }
        let x = self.entries[a].take();
        let y = self.entries[b].take();
        self.entries[a] = y;
        self.entries[b] = x;
        let ia = self.entries[a].as_ref().unwrap().index;
        self.positions[ia] = a as u32;
        let ib = self.entries[b].as_ref().unwrap().index;
        self.positions[ib] = b as u32;
        proof {
            let l = old(self).layout().update(a as int, old(self).layout()[b as int]).update(
                b as int,
                old(self).layout()[a as int],
            );
            assert(self.layout() =~= l);
            assert forall|p: int| 0 <= p < self.entries@.len() implies #[trigger] self.entries@[p]->0.index < self.positions@.len()
                && self.positions@[self.entries@[p]->0.index as int] == p by {
                if p != a && p != b {
                    assert(self.entries@[p] == old(self).entries@[p]);
                    let i = self.entries@[p]->0.index as int;
                    assert(old(self).positions@[i] == p);
                    assert(i != ia && i != ib);
                }
            }
            assert forall|i: int| 0 <= i < self.positions@.len() && #[trigger] self.positions@[i] != NONE implies self.positions@[i]
                < self.entries@.len() && self.entries@[self.positions@[i] as int]->0.index == i by {
                if i != ia && i != ib {
                    assert(self.positions@[i] == old(self).positions@[i]);
                    let p = old(self).positions@[i] as int;
                    assert(old(self).entries@[p]->0.index == i);
                    assert(p != a && p != b);
                }
            }
            assert(self.keys() =~= old(self).keys()) by {
                assert forall|i: int| #[trigger] self.keys().dom().contains(i) == old(self).keys().dom().contains(i) by {
                    if 0 <= i < self.positions@.len() && i != ia && i != ib {
                        assert(self.positions@[i] == old(self).positions@[i]);
                    }
                    if i == ia {
                        assert(old(self).positions@[i] == b);
                    }
                    if i == ib {
                        assert(old(self).positions@[i] == a);
                    }
                }
                assert forall|i: int| #[trigger] self.keys().dom().contains(i) implies self.keys()[i] == old(self).keys()[i] by {
                    if i != ia && i != ib {
                        let p = old(self).positions@[i] as int;
                        assert(self.positions@[i] == old(self).positions@[i]);
                        assert(old(self).entries@[p]->0.index == i);
                        assert(p != a && p != b);
                    } else if i == ia {
                        assert(old(self).positions@[i] == b);
                    } else {
                        assert(old(self).positions@[i] == a);
                    }
                }
            }
        }
    }
}

impl<K: Priority> IndexedMinHeap<K> {
    pub closed spec fn wf(&self) -> bool {
        &&& self.linked()
        &&& heap_ordered(self.layout())
    }

    /// No key has a lower priority than `k`.
    pub open spec fn is_least(m: Map<int, K>, k: K) -> bool {
        forall|j: int| #[trigger] m.dom().contains(j) ==> k.priority() <= m[j].priority()
    }

    proof fn lemma_wf(&self)
        requires
            self.wf(),
        ensures
            self.linked(),
            self.keys().len() > 0 ==> self.keys().dom().contains(self.top_index()) && self.keys()[self.top_index()]
                == self.top_key() && Self::is_least(self.keys(), self.top_key()),
    {
        self.lemma_len();
        if self.entries@.len() > 0 {
            let s = self.layout();
            assert(self.entries@[0] is Some);
            assert forall|j: int| #[trigger] self.keys().dom().contains(j) implies self.top_key().priority() <= self.keys()[j].priority() by {
                let p = self.positions@[j] as int;
                lemma_root_greatest(s, p);
            }
        }
    }

    pub fn len(&self) -> (n: usize)
        requires
            self.wf(),
        ensures
            n == self.keys().len(),
    {
        proof {
            self.lemma_wf();
            self.lemma_len();
        }
        self.entries.len()
    }

    pub fn is_empty(&self) -> (b: bool)
        requires
            self.wf(),
        ensures
            b == (self.keys().len() == 0),
    {
        self.len() == 0
    }

    /// Whether `index` holds a key.
    pub fn contains_key(&self, index: usize) -> (b: bool)
        requires
            self.wf(),
        ensures
            b == self.keys().dom().contains(index as int),
    {
        proof {
            self.lemma_wf();
        }
        if index >= self.positions.len() {
            return false;
        }
        let position = self.positions[index];
        position != NONE && self.entries[position as usize].as_ref().unwrap().index == index
    }

    pub fn with_capacity(capacity: usize) -> (h: Self)
        requires
            capacity <= NONE,
        ensures
            h.wf(),
            h.cap() == capacity,
            h.keys() == Map::<int, K>::empty(),
    {
        let mut positions: Vec<u32> = Vec::with_capacity(capacity);
        let mut i: usize = 0;
        while i < capacity
            invariant
                i <= capacity,
                positions@.len() == i,
                forall|k: int| 0 <= k < i ==> positions@[k] == NONE,
            decreases capacity - i,
        {
            positions.push(NONE);
            i = i + 1;
        }
        let h = IndexedMinHeap { entries: Vec::new(), positions };
        proof {
            assert(h.keys() =~= Map::<int, K>::empty());
        }
        h
    }

    /// Like `with_capacity`, but reports a failed reservation.
    pub fn try_with_capacity(capacity: usize) -> (r: Result<Self, AllocationError>)
        requires
            capacity <= NONE,
        ensures
            r is Ok ==> r->Ok_0.wf() && r->Ok_0.cap() == capacity && r->Ok_0.keys() == Map::<int, K>::empty(),
            r is Err ==> r->Err_0 == AllocationError::Exhausted,
    {
        let mut entries: Vec<Option<HeapEntry<K>>> = Vec::new();
        if entries.try_reserve(capacity).is_err() {
            return Err(AllocationError::Exhausted);
        }
        let mut positions: Vec<u32> = Vec::new();
        if positions.try_reserve(capacity).is_err() {
            return Err(AllocationError::Exhausted);
        }
        let mut i: usize = 0;
        while i < capacity
            invariant
                i <= capacity,
                positions@.len() == i,
                entries@.len() == 0,
                forall|k: int| 0 <= k < i ==> positions@[k] == NONE,
            decreases capacity - i,
        {
            positions.push(NONE);
            i = i + 1;
        }
        let h = IndexedMinHeap { entries, positions };
        proof {
            assert(h.keys() =~= Map::<int, K>::empty());
        }
        Ok(h)
    }

    /// Finds `index` vacant, so that a key can be inserted there.
    pub fn vacant_entry(&mut self, index: usize) -> (r: Option<IndexedMinHeapVacantEntry<'_, K>>)
        requires
            old(self).wf(),
        ensures
            (index < old(self).cap() && !old(self).keys().dom().contains(index as int)) ==> r is Some
                && r->0.index == index && *r->0.heap == *old(self) && *final(r->0.heap) == *final(self),
            !(index < old(self).cap() && !old(self).keys().dom().contains(index as int)) ==> r is None
                && *final(self) == *old(self),
    {
        if index < self.positions.len() && self.positions[index] == NONE {
            Some(IndexedMinHeapVacantEntry { heap: self, index })
        } else {
            None
        }
    }

    /// Inserts `key` at `index`, or hands it back when `index` is outside the
    /// capacity or already holds a key.
    pub fn insert(&mut self, index: usize, key: K) -> (r: Result<(), K>)
        requires
            old(self).wf(),
        ensures
            final(self).wf(),
            final(self).cap() == old(self).cap(),
            (index < old(self).cap() && !old(self).keys().dom().contains(index as int)) ==> r is Ok
                && final(self).keys() == old(self).keys().insert(index as int, key),
            !(index < old(self).cap() && !old(self).keys().dom().contains(index as int)) ==> r == Err::<(), K>(key)
                && *final(self) == *old(self),
    {
        if index >= self.positions.len() || self.positions[index] != NONE {
            return Err(key);
        }
        self.insert_unchecked(index, key);
        Ok(())
    }

    pub(crate) fn insert_unchecked(&mut self, index: usize, key: K)
        requires
            old(self).wf(),
            index < old(self).cap(),
            !old(self).keys().dom().contains(index as int),
        ensures
            final(self).wf(),
            final(self).cap() == old(self).cap(),
            final(self).keys() == old(self).keys().insert(index as int, key),
    {
        proof {
            self.lemma_len();
        }
        let position = self.entries.len();
        let ghost before = self.layout();
        self.entries.push(Some(HeapEntry { index, key }));
        self.positions[index] = position as u32;
        proof {
            assert(self.layout() =~= before.push(HeapEntry { index, key }));
            assert forall|p: int| 0 <= p < self.entries@.len() implies #[trigger] self.entries@[p]->0.index < self.positions@.len()
                && self.positions@[self.entries@[p]->0.index as int] == p by {
                if p < position {
                    assert(self.entries@[p] == old(self).entries@[p]);
                    assert(old(self).entries@[p]->0.index != index);
                }
            }
            assert forall|i: int| 0 <= i < self.positions@.len() && #[trigger] self.positions@[i] != NONE implies self.positions@[i]
                < self.entries@.len() && self.entries@[self.positions@[i] as int]->0.index == i by {
                if i != index {
                    assert(self.positions@[i] == old(self).positions@[i]);
                }
            }
            assert(self.keys() =~= old(self).keys().insert(index as int, key)) by {
                assert forall|i: int| #[trigger] self.keys().dom().contains(i) implies self.keys()[i] == old(self).keys().insert(index as int, key)[i] by {
                    if i != index {
                        assert(self.positions@[i] == old(self).positions@[i]);
                    }
                }
            }
            assert forall|c: int| 0 < position && 0 < c < self.layout().len() && parent(c) == position implies #[trigger] self.layout()[c].priority() <= self.layout()[parent(position as int)].priority() by {
            }
            assert forall|c: int, q: int| #![trigger self.layout()[c], self.layout()[q]] 0 < c < self.layout().len() && q == parent(c) && c != position implies self.layout()[c].priority() <= self.layout()[q].priority() by {
                assert(self.layout()[c] == before[c]);
                assert(self.layout()[q] == before[q]);
            }
        }
        let ghost keys = self.keys();
        let mut h = position;
        loop
            invariant
                self.linked(),
                self.cap() == old(self).cap(),
                h < self.entries@.len(),
                self.keys() == keys,
                ordered_above(self.layout(), h as int),
            ensures
                self.linked(),
                self.cap() == old(self).cap(),
                self.keys() == keys,
                heap_ordered(self.layout()),
            decreases h,
        {
            if h == 0 {
                proof {
                    lemma_above_root(self.layout());
                }
                break;
            }
            let p = (h - 1) / 2;
            let rises = self.entries[h].as_ref().unwrap().outranks(self.entries[p].as_ref().unwrap());
            if !rises {
                proof {
                    lemma_sift_up_done(self.layout(), h as int);
                }
                break;
            }
            proof {
                lemma_sift_up_step(self.layout(), h as int);
            }
            self.swap(h, p);
            h = p;
        }
    }

    /// Restores heap order after the entry at `position` changed.
    fn repair(&mut self, position: usize, Ghost(before): Ghost<Seq<HeapEntry<K>>>)
        requires
            old(self).linked(),
            heap_ordered(before),
            old(self).layout().len() <= before.len(),
            position < old(self).layout().len(),
            forall|i: int| 0 <= i < old(self).layout().len() && i != position ==> old(self).layout()[i] == before[i],
        ensures
            final(self).wf(),
            final(self).cap() == old(self).cap(),
            final(self).keys() == old(self).keys(),
    {
        proof {
            lemma_repair_start(before, self.layout(), position as int);
        }
        let len = self.entries.len();
        if position > 0 && self.entries[position].as_ref().unwrap().outranks(
            self.entries[(position - 1) / 2].as_ref().unwrap(),
        ) {
            let ghost keys = self.keys();
            let mut h = position;
            loop
                invariant
                    self.linked(),
                    self.cap() == old(self).cap(),
                    h < self.entries@.len(),
                    self.keys() == keys,
                    keys == old(self).keys(),
                    ordered_above(self.layout(), h as int),
                ensures
                    self.linked(),
                    self.cap() == old(self).cap(),
                    self.keys() == old(self).keys(),
                    heap_ordered(self.layout()),
                decreases h,
            {
                if h == 0 {
                    proof {
                        lemma_above_root(self.layout());
                    }
                    break;
                }
                let p = (h - 1) / 2;
                let rises = self.entries[h].as_ref().unwrap().outranks(self.entries[p].as_ref().unwrap());
                if !rises {
                    proof {
                        lemma_sift_up_done(self.layout(), h as int);
                    }
                    break;
                }
                proof {
                    lemma_sift_up_step(self.layout(), h as int);
                }
                self.swap(h, p);
                h = p;
            }
        } else {
            self.sift_down(position);
        }
    }

    fn sift_down(&mut self, position: usize)
        requires
            old(self).linked(),
            position < old(self).entries@.len(),
            ordered_below(old(self).layout(), position as int),
        ensures
            final(self).wf(),
            final(self).cap() == old(self).cap(),
            final(self).keys() == old(self).keys(),
    {
        let len = self.entries.len();
        let mut h = position;
        loop
            invariant
                self.linked(),
                self.cap() == old(self).cap(),
                len == self.entries@.len(),
                h < len,
                self.keys() == old(self).keys(),
                ordered_below(self.layout(), h as int),
            ensures
                self.linked(),
                self.cap() == old(self).cap(),
                self.keys() == old(self).keys(),
                heap_ordered(self.layout()),
            decreases len - h,
        {
            if len - h <= h + 1 {
                proof {
                    lemma_sift_down_done(self.layout(), h as int);
                }
                break;
            }
            let left = 2 * h + 1;
            let right = left + 1;
            let child = if right < len && self.entries[right].as_ref().unwrap().outranks(
                self.entries[left].as_ref().unwrap(),
            ) {
                right
            } else {
                left
            };
            let sinks = self.entries[child].as_ref().unwrap().outranks(self.entries[h].as_ref().unwrap());
            if !sinks {
                proof {
                    lemma_sift_down_done(self.layout(), h as int);
                }
                break;
            }
            proof {
                lemma_sift_down_step(self.layout(), h as int, child as int);
            }
            self.swap(h, child);
            h = child;
        }
    }

    /// The index with the lowest-priority key, and that key.
    pub fn peek(&self) -> (r: Option<(usize, &K)>)
        requires
            self.wf(),
        ensures
            self.keys().len() == 0 ==> r is None,
            self.keys().len() > 0 ==> (r matches Some((i, k)) && i == self.top_index() && *k == self.top_key())
                && self.keys().dom().contains(self.top_index()) && self.keys()[self.top_index()] == self.top_key()
                && Self::is_least(self.keys(), self.top_key()),
    {
        proof {
            self.lemma_wf();
            self.lemma_len();
        }
        if self.entries.len() == 0 {
            return None;
        }
        let entry = self.entries[0].as_ref().unwrap();
        Some((entry.index, &entry.key))
    }

    /// Removes the index with the lowest-priority key, returning it with its key.
    pub fn pop(&mut self) -> (r: Option<(usize, K)>)
        requires
            old(self).wf(),
        ensures
            final(self).wf(),
            final(self).cap() == old(self).cap(),
            old(self).keys().len() == 0 ==> r is None && *final(self) == *old(self),
            old(self).keys().len() > 0 ==> r == Some((old(self).top_index() as usize, old(self).top_key()))
                && old(self).keys().dom().contains(old(self).top_index())
                && old(self).keys()[old(self).top_index()] == old(self).top_key()
                && Self::is_least(old(self).keys(), old(self).top_key())
                && final(self).keys() == old(self).keys().remove(old(self).top_index()),
    {
        proof {
            self.lemma_wf();
            self.lemma_len();
        }
        if self.entries.len() == 0 {
            return None;
        }
        Some(self.remove_position(0))
    }

    /// Removes the key at `index`, if there is one.
    pub fn remove(&mut self, index: usize) -> (r: Option<K>)
        requires
            old(self).wf(),
        ensures
            final(self).wf(),
            final(self).cap() == old(self).cap(),
            !old(self).keys().dom().contains(index as int) ==> r is None && *final(self) == *old(self),
            old(self).keys().dom().contains(index as int) ==> r == Some(old(self).keys()[index as int])
                && final(self).keys() == old(self).keys().remove(index as int),
    {
        if index >= self.positions.len() {
            return None;
        }
        let position = self.positions[index];
        if position == NONE || self.entries[position as usize].as_ref().unwrap().index != index {
            return None;
        }
        let (_, key) = self.remove_position(position as usize);
        Some(key)
    }

    /// Gives `index`, which holds a key, the key `key`.
    pub(crate) fn update_key(&mut self, index: usize, key: K)
        requires
            old(self).wf(),
            old(self).keys().dom().contains(index as int),
        ensures
            final(self).wf(),
            final(self).cap() == old(self).cap(),
            final(self).keys() == old(self).keys().insert(index as int, key),
    {
        let position = self.positions[index] as usize;
        let ghost before = self.layout();
        self.entries[position] = Some(HeapEntry { index, key });
        proof {
            assert(self.layout() =~= before.update(position as int, HeapEntry { index, key }));
            assert forall|p: int| 0 <= p < self.entries@.len() implies #[trigger] self.entries@[p]->0.index < self.positions@.len()
                && self.positions@[self.entries@[p]->0.index as int] == p by {
                if p != position {
                    assert(self.entries@[p] == old(self).entries@[p]);
                }
            }
            assert forall|i: int| 0 <= i < self.positions@.len() && #[trigger] self.positions@[i] != NONE implies self.positions@[i]
                < self.entries@.len() && self.entries@[self.positions@[i] as int]->0.index == i by {
                assert(old(self).entries@[old(self).positions@[i] as int]->0.index == i);
            }
            assert(self.keys() =~= old(self).keys().insert(index as int, key));
        }
        self.repair(position, Ghost(before));
    }

    /// Raises the number of indices to `capacity`, keeping every key.
    pub fn grow_to(&mut self, capacity: usize)
        requires
            old(self).wf(),
            old(self).cap() <= capacity <= NONE,
        ensures
            final(self).wf(),
            final(self).cap() == capacity,
            final(self).keys() == old(self).keys(),
    {
        if capacity == self.positions.len() {
            return;
        }
        let additional = capacity - self.positions.len();
        self.entries.reserve(additional);
        while self.positions.len() < capacity
            invariant
                self.entries@ == old(self).entries@,
                old(self).positions@.len() <= self.positions@.len() <= capacity,
                capacity <= NONE,
                forall|i: int| 0 <= i < old(self).positions@.len() ==> self.positions@[i] == old(self).positions@[i],
                forall|i: int| old(self).positions@.len() <= i < self.positions@.len() ==> self.positions@[i] == NONE,
            decreases capacity - self.positions@.len(),
        {
            self.positions.push(NONE);
        }
        proof {
            assert forall|p: int| 0 <= p < self.entries@.len() implies #[trigger] self.entries@[p]->0.index < self.positions@.len()
                && self.positions@[self.entries@[p]->0.index as int] == p by {
                assert(old(self).entries@[p]->0.index < old(self).positions@.len());
            }
            assert forall|i: int| 0 <= i < self.positions@.len() && #[trigger] self.positions@[i] != NONE implies self.positions@[i]
                < self.entries@.len() && self.entries@[self.positions@[i] as int]->0.index == i by {
                assert(i < old(self).positions@.len());
                assert(old(self).positions@[i] != NONE);
            }
            assert(self.layout() =~= old(self).layout());
            assert(self.keys() =~= old(self).keys()) by {
                assert forall|i: int| #[trigger] self.keys().dom().contains(i) == old(self).keys().dom().contains(i) by {
                    if old(self).positions@.len() <= i < self.positions@.len() {
                        assert(self.positions@[i] == NONE);
                    }
                }
            }
        }
    }

    /// Removes every key.
    pub fn clear(&mut self)
        requires
            old(self).wf(),
        ensures
            final(self).wf(),
            final(self).cap() == old(self).cap(),
            final(self).keys() == Map::<int, K>::empty(),
    {
        while self.entries.len() > 0
            invariant
                self.wf(),
                self.cap() == old(self).cap(),
            decreases self.keys().dom().len(),
        {
            proof {
                self.lemma_len();
            }
            let last = self.entries.len() - 1;
            let _ = self.remove_position(last);
        }
        proof {
            self.lemma_len();
            assert(self.keys().dom() =~= Set::<int>::empty()) by {
                assert forall|i: int| !self.keys().dom().contains(i) by {
                    if self.keys().dom().contains(i) {
                        assert(self.positions@[i] < self.entries@.len());
                    }
                }
            }
            assert(self.keys() =~= Map::<int, K>::empty());
        }
    }

    /// Removes the entry at `position` and returns its index and key.
    fn remove_position(&mut self, position: usize) -> (r: (usize, K))
        requires
            old(self).wf(),
            position < old(self).entries@.len(),
        ensures
            final(self).wf(),
            final(self).cap() == old(self).cap(),
            r.0 == old(self).layout()[position as int].index,
            r.1 == old(self).layout()[position as int].key,
            old(self).keys().dom().contains(r.0 as int),
            old(self).keys()[r.0 as int] == r.1,
            final(self).keys() == old(self).keys().remove(r.0 as int),
    {
        proof {
            self.lemma_len();
        }
        let last = self.entries.len() - 1;
        let ghost before = self.layout();
        self.swap(position, last);
        let ghost mid = *self;
        let entry = self.entries.pop().unwrap().unwrap();
        self.positions[entry.index] = NONE;
        proof {
            assert(self.layout() =~= mid.layout().remove(last as int));
            assert(mid.layout()[last as int] == mid.entries@[last as int]->0);
            assert(mid.entries@[last as int]->0 == entry);
            assert(entry == before[position as int]);
            assert(mid.positions@[entry.index as int] == last);
            assert forall|p: int| 0 <= p < self.entries@.len() implies #[trigger] self.entries@[p]->0.index < self.positions@.len()
                && self.positions@[self.entries@[p]->0.index as int] == p by {
                assert(self.entries@[p] == mid.entries@[p]);
                assert(mid.positions@[mid.entries@[p]->0.index as int] == p);
            }
            assert forall|i: int| 0 <= i < self.positions@.len() && #[trigger] self.positions@[i] != NONE implies self.positions@[i]
                < self.entries@.len() && self.entries@[self.positions@[i] as int]->0.index == i by {
                assert(self.positions@[i] == mid.positions@[i]);
                assert(mid.entries@[mid.positions@[i] as int]->0.index == i);
            }
            assert(self.keys() =~= old(self).keys().remove(entry.index as int)) by {
                assert forall|i: int| #[trigger] self.keys().dom().contains(i) implies self.keys()[i] == mid.keys()[i] by {
                    assert(self.positions@[i] == mid.positions@[i]);
                }
                assert forall|i: int| #[trigger] self.keys().dom().contains(i) == old(self).keys().remove(entry.index as int).dom().contains(i) by {
                    if 0 <= i < self.positions@.len() && i != entry.index {
                        assert(self.positions@[i] == mid.positions@[i]);
                    }
                }
            }
            assert(old(self).positions@[entry.index as int] == position);
            if position == last {
                let t = self.layout();
                assert forall|c: int, q: int| #![trigger t[c], t[q]] 0 < c < t.len() && q == parent(c) implies t[c].priority() <= t[q].priority() by {
                    assert(t[c] == before[c]);
                    assert(t[q] == before[q]);
                }
            }
        }
        if position < last {
            self.repair(position, Ghost(before));
        }
        (entry.index, entry.key)
    }
}


impl<'a, K: Priority> IndexedMinHeapVacantEntry<'a, K> {
    /// Inserts `key` at the vacant index.
    pub fn insert(self, key: K)
        requires
            self.heap.wf(),
            self.index < self.heap.cap(),
            !self.heap.keys().dom().contains(self.index as int),
        ensures
            final(self.heap).wf(),
            final(self.heap).cap() == old(self.heap).cap(),
            final(self.heap).keys() == old(self.heap).keys().insert(self.index as int, key),
    {
        self.heap.insert_unchecked(self.index, key);
    }
}

/// Values leave a max-heap in non-increasing priority: once the greatest
/// value is taken, the greatest of what is left ranks no higher.
pub proof fn law_pop_order<T: Priority>(m: Multiset<T>, x: T, y: T)
    requires
        is_greatest(m, x),
        is_greatest(m.remove(x), y),
    ensures
        y.priority() <= x.priority(),
{
    assert(m.contains(y));
}

/// After a value is pushed, the greatest value ranks at least as high as it.
pub proof fn law_push_peek<T: Priority>(m: Multiset<T>, v: T, x: T)
    requires
        is_greatest(m.insert(v), x),
    ensures
        v.priority() <= x.priority(),
{
    assert(m.insert(v).contains(v));
}

/// Indices leave an indexed min-heap in non-decreasing key order: once the
/// least key is taken, the least of what is left is no lower.
pub proof fn law_min_pop_order<K: Priority>(m: Map<int, K>, i: int, j: int)
    requires
        m.dom().contains(i),
        IndexedMinHeap::<K>::is_least(m, m[i]),
        m.remove(i).dom().contains(j),
        IndexedMinHeap::<K>::is_least(m.remove(i), m.remove(i)[j]),
    ensures
        m[i].priority() <= m[j].priority(),
{
    assert(m.dom().contains(j));
}



/// By the integer order of `u8`: the value a max-heap peeks and pops is at
/// least every value it holds, and the key an indexed min-heap peeks and pops
/// is at most every key it holds.
pub proof fn law_u8_heaps_follow_integer_order(h: FixedHeap<u8>, m: IndexedMinHeap<u8>)
    ensures
        h.wf() && h.contents().len() > 0 ==> h.contents().contains(h.top()) && forall|y: u8|
            #[trigger] h.contents().contains(y) ==> y <= h.top(),
        m.wf() && m.keys().len() > 0 ==> m.keys().dom().contains(m.top_index()) && m.keys()[m.top_index()]
            == m.top_key() && forall|j: int| #[trigger] m.keys().dom().contains(j) ==> m.top_key() <= m.keys()[j],
{
    if h.wf() && h.contents().len() > 0 {
        h.lemma_top();
    }
    if m.wf() && m.keys().len() > 0 {
        m.lemma_wf();
    }
}

/// By the integer order of `u16`: the value a max-heap peeks and pops is at
/// least every value it holds, and the key an indexed min-heap peeks and pops
/// is at most every key it holds.
pub proof fn law_u16_heaps_follow_integer_order(h: FixedHeap<u16>, m: IndexedMinHeap<u16>)
    ensures
        h.wf() && h.contents().len() > 0 ==> h.contents().contains(h.top()) && forall|y: u16|
            #[trigger] h.contents().contains(y) ==> y <= h.top(),
        m.wf() && m.keys().len() > 0 ==> m.keys().dom().contains(m.top_index()) && m.keys()[m.top_index()]
            == m.top_key() && forall|j: int| #[trigger] m.keys().dom().contains(j) ==> m.top_key() <= m.keys()[j],
{
    if h.wf() && h.contents().len() > 0 {
        h.lemma_top();
    }
    if m.wf() && m.keys().len() > 0 {
        m.lemma_wf();
    }
}

/// By the integer order of `u32`: the value a max-heap peeks and pops is at
/// least every value it holds, and the key an indexed min-heap peeks and pops
/// is at most every key it holds.
pub proof fn law_u32_heaps_follow_integer_order(h: FixedHeap<u32>, m: IndexedMinHeap<u32>)
    ensures
        h.wf() && h.contents().len() > 0 ==> h.contents().contains(h.top()) && forall|y: u32|
            #[trigger] h.contents().contains(y) ==> y <= h.top(),
        m.wf() && m.keys().len() > 0 ==> m.keys().dom().contains(m.top_index()) && m.keys()[m.top_index()]
            == m.top_key() && forall|j: int| #[trigger] m.keys().dom().contains(j) ==> m.top_key() <= m.keys()[j],
{
    if h.wf() && h.contents().len() > 0 {
        h.lemma_top();
    }
    if m.wf() && m.keys().len() > 0 {
        m.lemma_wf();
    }
}

/// By the integer order of `u64`: the value a max-heap peeks and pops is at
/// least every value it holds, and the key an indexed min-heap peeks and pops
/// is at most every key it holds.
pub proof fn law_u64_heaps_follow_integer_order(h: FixedHeap<u64>, m: IndexedMinHeap<u64>)
    ensures
        h.wf() && h.contents().len() > 0 ==> h.contents().contains(h.top()) && forall|y: u64|
            #[trigger] h.contents().contains(y) ==> y <= h.top(),
        m.wf() && m.keys().len() > 0 ==> m.keys().dom().contains(m.top_index()) && m.keys()[m.top_index()]
            == m.top_key() && forall|j: int| #[trigger] m.keys().dom().contains(j) ==> m.top_key() <= m.keys()[j],
{
    if h.wf() && h.contents().len() > 0 {
        h.lemma_top();
    }
    if m.wf() && m.keys().len() > 0 {
        m.lemma_wf();
    }
}

/// By the integer order of `usize`: the value a max-heap peeks and pops is at
/// least every value it holds, and the key an indexed min-heap peeks and pops
/// is at most every key it holds.
pub proof fn law_usize_heaps_follow_integer_order(h: FixedHeap<usize>, m: IndexedMinHeap<usize>)
    ensures
        h.wf() && h.contents().len() > 0 ==> h.contents().contains(h.top()) && forall|y: usize|
            #[trigger] h.contents().contains(y) ==> y <= h.top(),
        m.wf() && m.keys().len() > 0 ==> m.keys().dom().contains(m.top_index()) && m.keys()[m.top_index()]
            == m.top_key() && forall|j: int| #[trigger] m.keys().dom().contains(j) ==> m.top_key() <= m.keys()[j],
{
    if h.wf() && h.contents().len() > 0 {
        h.lemma_top();
    }
    if m.wf() && m.keys().len() > 0 {
        m.lemma_wf();
    }
}

/// By the integer order of `i8`: the value a max-heap peeks and pops is at
/// least every value it holds, and the key an indexed min-heap peeks and pops
/// is at most every key it holds.
pub proof fn law_i8_heaps_follow_integer_order(h: FixedHeap<i8>, m: IndexedMinHeap<i8>)
    ensures
        h.wf() && h.contents().len() > 0 ==> h.contents().contains(h.top()) && forall|y: i8|
            #[trigger] h.contents().contains(y) ==> y <= h.top(),
        m.wf() && m.keys().len() > 0 ==> m.keys().dom().contains(m.top_index()) && m.keys()[m.top_index()]
            == m.top_key() && forall|j: int| #[trigger] m.keys().dom().contains(j) ==> m.top_key() <= m.keys()[j],
{
    if h.wf() && h.contents().len() > 0 {
        h.lemma_top();
    }
    if m.wf() && m.keys().len() > 0 {
        m.lemma_wf();
    }
}

/// By the integer order of `i16`: the value a max-heap peeks and pops is at
/// least every value it holds, and the key an indexed min-heap peeks and pops
/// is at most every key it holds.
pub proof fn law_i16_heaps_follow_integer_order(h: FixedHeap<i16>, m: IndexedMinHeap<i16>)
    ensures
        h.wf() && h.contents().len() > 0 ==> h.contents().contains(h.top()) && forall|y: i16|
            #[trigger] h.contents().contains(y) ==> y <= h.top(),
        m.wf() && m.keys().len() > 0 ==> m.keys().dom().contains(m.top_index()) && m.keys()[m.top_index()]
            == m.top_key() && forall|j: int| #[trigger] m.keys().dom().contains(j) ==> m.top_key() <= m.keys()[j],
{
    if h.wf() && h.contents().len() > 0 {
        h.lemma_top();
    }
    if m.wf() && m.keys().len() > 0 {
        m.lemma_wf();
    }
}

/// By the integer order of `i32`: the value a max-heap peeks and pops is at
/// least every value it holds, and the key an indexed min-heap peeks and pops
/// is at most every key it holds.
pub proof fn law_i32_heaps_follow_integer_order(h: FixedHeap<i32>, m: IndexedMinHeap<i32>)
    ensures
        h.wf() && h.contents().len() > 0 ==> h.contents().contains(h.top()) && forall|y: i32|
            #[trigger] h.contents().contains(y) ==> y <= h.top(),
        m.wf() && m.keys().len() > 0 ==> m.keys().dom().contains(m.top_index()) && m.keys()[m.top_index()]
            == m.top_key() && forall|j: int| #[trigger] m.keys().dom().contains(j) ==> m.top_key() <= m.keys()[j],
{
    if h.wf() && h.contents().len() > 0 {
        h.lemma_top();
    }
    if m.wf() && m.keys().len() > 0 {
        m.lemma_wf();
    }
}

/// By the integer order of `i64`: the value a max-heap peeks and pops is at
/// least every value it holds, and the key an indexed min-heap peeks and pops
/// is at most every key it holds.
pub proof fn law_i64_heaps_follow_integer_order(h: FixedHeap<i64>, m: IndexedMinHeap<i64>)
    ensures
        h.wf() && h.contents().len() > 0 ==> h.contents().contains(h.top()) && forall|y: i64|
            #[trigger] h.contents().contains(y) ==> y <= h.top(),
        m.wf() && m.keys().len() > 0 ==> m.keys().dom().contains(m.top_index()) && m.keys()[m.top_index()]
            == m.top_key() && forall|j: int| #[trigger] m.keys().dom().contains(j) ==> m.top_key() <= m.keys()[j],
{
    if h.wf() && h.contents().len() > 0 {
        h.lemma_top();
    }
    if m.wf() && m.keys().len() > 0 {
        m.lemma_wf();
    }
}

/// By the integer order of `isize`: the value a max-heap peeks and pops is at
/// least every value it holds, and the key an indexed min-heap peeks and pops
/// is at most every key it holds.
pub proof fn law_isize_heaps_follow_integer_order(h: FixedHeap<isize>, m: IndexedMinHeap<isize>)
    ensures
        h.wf() && h.contents().len() > 0 ==> h.contents().contains(h.top()) && forall|y: isize|
            #[trigger] h.contents().contains(y) ==> y <= h.top(),
        m.wf() && m.keys().len() > 0 ==> m.keys().dom().contains(m.top_index()) && m.keys()[m.top_index()]
            == m.top_key() && forall|j: int| #[trigger] m.keys().dom().contains(j) ==> m.top_key() <= m.keys()[j],
{
    if h.wf() && h.contents().len() > 0 {
        h.lemma_top();
    }
    if m.wf() && m.keys().len() > 0 {
        m.lemma_wf();
    }
}

} // verus!
