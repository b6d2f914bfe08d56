//! A hierarchical bitmap: a set of indices below a fixed capacity, with a
//! summary bitmap of its nonzero words so that lookups skip empty words.
use vstd::prelude::*;
use vstd::std_specs::bits::u64_trailing_zeros;

use crate::collections::bits::{
    bit, lemma_bit_and_not_one, lemma_bit_high_mask, lemma_bit_low_mask, lemma_bit_or_one,
    lemma_bit_test, lemma_bit_zero, lemma_trailing_zeros,
};
use crate::collections::AllocationError;

verus! {

/// The number of indices one word holds.
pub const WORD_BITS: usize = 64;

/// The number of words needed for `capacity` indices.
pub open spec fn word_count(capacity: nat) -> nat {
    (capacity + 63) / 64
}

/// `i` is the smallest member of `s` at or after `start`.
pub open spec fn first_at_or_after(s: Set<int>, start: int, i: int) -> bool {
    &&& s.contains(i)
    &&& start <= i
    &&& forall|j: int| start <= j < i ==> !#[trigger] s.contains(j)
}

/// `s` has no member at or after `start`.
pub open spec fn none_at_or_after(s: Set<int>, start: int) -> bool {
    forall|j: int| start <= j ==> !#[trigger] s.contains(j)
}

pub(crate) fn words_for(capacity: usize) -> (n: usize)
    ensures
        n == word_count(capacity as nat),
{
    capacity / WORD_BITS + if capacity % WORD_BITS != 0 { 1 } else { 0 }
}

pub(crate) struct Tree {
    words: Vec<u64>,
    summary: Option<Box<Tree>>,
    capacity: usize,
    len: usize,
    cursor: usize,
    members: Ghost<Set<int>>,
}

impl View for Tree {
    type V = Set<int>;

    closed spec fn view(&self) -> Set<int> {
        self.members@
    }
}

impl Tree {
    pub(crate) closed spec fn cap(&self) -> nat {
        self.capacity as nat
    }

    pub(crate) closed spec fn cursor_spec(&self) -> nat {
        self.cursor as nat
    }

    closed spec fn bits_match(&self) -> bool {
        forall|w: int, b: u64|
            0 <= w < self.words@.len() && b < 64 ==> (#[trigger] bit(self.words@[w], b)
                <==> self.members@.contains(w * 64 + b))
    }

    pub(crate) closed spec fn wf(&self) -> bool
        decreases self,
    {
        &&& self.words@.len() == word_count(self.capacity as nat)
        &&& self.bits_match()
        &&& forall|i: int| #[trigger] self.members@.contains(i) ==> 0 <= i < self.capacity
        &&& self.members@.finite()
        &&& self.len == self.members@.len()
        &&& self.capacity == 0 ==> self.cursor == 0
        &&& self.capacity > 0 ==> self.cursor < self.capacity
        &&& match &self.summary {
            None => self.words@.len() <= 1,
            Some(s) => {
                &&& self.words@.len() > 1
                &&& s.wf()
                &&& s.capacity == self.words@.len()
                &&& forall|w: int|
                    0 <= w < self.words@.len() ==> (#[trigger] s.members@.contains(w) <==> self.words@[w]
                        != 0)
            },
        }
    }

    proof fn lemma_index(&self, i: int)
        requires
            self.wf(),
            0 <= i < self.capacity,
        ensures
            0 <= i / 64 < self.words@.len(),
            i == (i / 64) * 64 + (i % 64),
            0 <= i % 64 < 64,
            self.members@.contains(i) == bit(self.words@[i / 64], (i % 64) as u64),
    {
        let w = i / 64;
        let b = (i % 64) as u64;
        assert(bit(self.words@[w], b) <==> self.members@.contains(w * 64 + b));
    }

    proof fn lemma_word(&self, w: int)
        requires
            self.wf(),
            0 <= w < self.words@.len(),
        ensures
            forall|b: u64| b < 64 ==> (#[trigger] bit(self.words@[w], b) <==> self.members@.contains(w * 64 + b)),
            forall|i: int| w * 64 <= i < w * 64 + 64 ==> (self.members@.contains(i) <==> #[trigger] bit(self.words@[w], (i - w * 64) as u64)),
            (self.words@[w] == 0) == (forall|i: int| w * 64 <= i < w * 64 + 64 ==> !#[trigger] self.members@.contains(i)),
    {
        assert forall|i: int| w * 64 <= i < w * 64 + 64 implies (self.members@.contains(i) <==> #[trigger] bit(self.words@[w], (i - w * 64) as u64)) by {
            let b = (i - w * 64) as u64;
            assert(bit(self.words@[w], b) <==> self.members@.contains(w * 64 + b));
        }
        lemma_bit_zero(self.words@[w]);
        if self.words@[w] != 0 {
            let b = choose|b: u64| b < 64 && !!bit(self.words@[w], b);
            assert(self.members@.contains(w * 64 + b));
        } else {
            assert forall|i: int| w * 64 <= i < w * 64 + 64 implies !#[trigger] self.members@.contains(i) by {
                assert(!bit(self.words@[w], (i - w * 64) as u64));
            }
        }
    }

    proof fn lemma_len_bound(&self)
        requires
            self.wf(),
        ensures
            self.len <= self.capacity,
    {
        let r = vstd::set_lib::set_int_range(0, self.capacity as int);
        vstd::set_lib::lemma_int_range(0, self.capacity as int);
        assert(self.members@.subset_of(r));
        vstd::set_lib::lemma_len_subset(self.members@, r);
    }

    proof fn lemma_members_bound(&self)
        requires
            self.wf(),
        ensures
            forall|i: int| #[trigger] self@.contains(i) ==> 0 <= i < self.cap(),
    {
    }

    proof fn lemma_summary_smaller(&self)
        requires
            self.wf(),
            self.summary is Some,
        ensures
            self.summary->0.capacity < self.capacity,
            self.words@.len() > 1,
    {
    }

    pub(crate) fn with_capacity(capacity: usize) -> (t: Self)
        ensures
            t.wf(),
            t.cap() == capacity,
            t@ == Set::<int>::empty(),
            t.cursor_spec() == 0,
        decreases capacity,
    {
        let count = words_for(capacity);
        let mut words: Vec<u64> = Vec::with_capacity(count);
        let mut i: usize = 0;
        while i < count
            invariant
                i <= count,
                words@.len() == i,
                forall|k: int| 0 <= k < i ==> words@[k] == 0,
            decreases count - i,
        {
            words.push(0);
            i = i + 1;
        }
        let summary = if count > 1 {
            Some(Box::new(Tree::with_capacity(count)))
        } else {
            None
        };
        let t = Tree { words, summary, capacity, len: 0, cursor: 0, members: Ghost(Set::empty()) };
        proof {
            assert forall|w: int, b: u64| 0 <= w < t.words@.len() && b < 64 implies (#[trigger] bit(t.words@[w], b)
                <==> t.members@.contains(w * 64 + b)) by {
                lemma_bit_zero(0);
            }
        }
        t
    }

    /// Like `with_capacity`, but reports a failed reservation.
    pub(crate) fn try_with_capacity(capacity: usize) -> (r: Result<Self, AllocationError>)
        ensures
            r is Ok ==> r->Ok_0.wf() && r->Ok_0.cap() == capacity && r->Ok_0@ == Set::<int>::empty()
                && r->Ok_0.cursor_spec() == 0,
            r is Err ==> r->Err_0 == AllocationError::Exhausted,
        decreases capacity,
    {
        let count = words_for(capacity);
        let mut words: Vec<u64> = Vec::new();
        if words.try_reserve(count).is_err() {
            return Err(AllocationError::Exhausted);
        }
        let mut i: usize = 0;
        while i < count
            invariant
                i <= count,
                words@.len() == i,
                forall|k: int| 0 <= k < i ==> words@[k] == 0,
            decreases count - i,
        {
            words.push(0);
            i = i + 1;
        }
        let summary = if count > 1 {
            match Tree::try_with_capacity(count) {
                Ok(s) => Some(Box::new(s)),
                Err(e) => return Err(e),
            }
        } else {
            None
        };
        let t = Tree { words, summary, capacity, len: 0, cursor: 0, members: Ghost(Set::empty()) };
        proof {
            assert forall|w: int, b: u64| 0 <= w < t.words@.len() && b < 64 implies (#[trigger] bit(t.words@[w], b)
                <==> t.members@.contains(w * 64 + b)) by {
                lemma_bit_zero(0);
            }
        }
        Ok(t)
    }

    pub(crate) fn capacity(&self) -> (n: usize)
        ensures
            n == self.cap(),
    {
        self.capacity
    }

    pub(crate) fn len(&self) -> (n: usize)
        requires
            self.wf(),
        ensures
            n == self@.len(),
    {
        self.len
    }

    pub(crate) fn contains(&self, index: usize) -> (b: bool)
        requires
            self.wf(),
        ensures
            b == self@.contains(index as int),
    {
        if index >= self.capacity {
            return false;
        }
        let w = index / WORD_BITS;
        let b = (index % WORD_BITS) as u64;
        proof {
            self.lemma_index(index as int);
            lemma_bit_test(self.words@[w as int], b);
        }
        self.words[w] & (1u64 << b) != 0
    }

    /// Adds `index`; returns whether it was absent and below the capacity.
    pub(crate) fn insert(&mut self, index: usize) -> (r: bool)
        requires
            old(self).wf(),
        ensures
            final(self).wf(),
            final(self).cap() == old(self).cap(),
            final(self).cursor_spec() == old(self).cursor_spec(),
            r == (index < old(self).cap() && !old(self)@.contains(index as int)),
            final(self)@ == (if r { old(self)@.insert(index as int) } else { old(self)@ }),
        decreases old(self).cap(),
    {
        if index >= self.capacity {
            return false;
        }
        let w = index / WORD_BITS;
        let b = (index % WORD_BITS) as u64;
        proof {
            self.lemma_index(index as int);
            lemma_bit_test(self.words@[w as int], b);
        }
        let current = self.words[w];
        if current & (1u64 << b) != 0 {
            return false;
        }
        let ghost old_self = *self;
        proof {
            self.lemma_len_bound();
            if self.len == self.capacity {
                let r = vstd::set_lib::set_int_range(0, self.capacity as int);
                vstd::set_lib::lemma_int_range(0, self.capacity as int);
                assert(self.members@.insert(index as int).subset_of(r));
                vstd::set::axiom_set_insert_len(self.members@, index as int);
                vstd::set_lib::lemma_len_subset(self.members@.insert(index as int), r);
            }
        }
        self.words[w] = current | (1u64 << b);
        if current == 0 {
            match self.summary.take() {
                Some(mut s) => {
                    proof {
                        old_self.lemma_word(w as int);
                        old_self.lemma_summary_smaller();
                    }
                    let inserted = s.insert(w);
                    self.summary = Some(s);
                },
                None => {},
            }
        }
        self.len = self.len + 1;
        proof {
            self.members = Ghost(old_self.members@.insert(index as int));
            lemma_bit_or_one(current, b);
            lemma_bit_zero(current | (1u64 << b));
            assert(bit(current | (1u64 << b), b));
            assert forall|v: int, c: u64| 0 <= v < self.words@.len() && c < 64 implies (#[trigger] bit(self.words@[v], c)
                <==> self.members@.contains(v * 64 + c)) by {
                if v != w {
                    assert(bit(old_self.words@[v], c) <==> old_self.members@.contains(v * 64 + c));
                    assert(v * 64 + c != index);
                } else {
                    assert(bit(old_self.words@[v], c) <==> old_self.members@.contains(v * 64 + c));
                }
            }
            vstd::set::axiom_set_insert_len(old_self.members@, index as int);
            vstd::set::axiom_set_insert_finite(old_self.members@, index as int);
            match &self.summary {
                Some(s) => {
                    assert forall|v: int| 0 <= v < self.words@.len() implies (#[trigger] s.members@.contains(v) <==> self.words@[v]
                        != 0) by {
                        if v == w {
                            if self.words@[v] == 0 {
                                assert(!bit(self.words@[v], b));
                            }
                        }
                    }
                },
                None => {},
            }
        }
        true
    }

    /// Removes `index`; returns whether it was present.
    pub(crate) fn remove(&mut self, index: usize) -> (r: bool)
        requires
            old(self).wf(),
        ensures
            final(self).wf(),
            final(self).cap() == old(self).cap(),
            final(self).cursor_spec() == old(self).cursor_spec(),
            r == old(self)@.contains(index as int),
            final(self)@ == old(self)@.remove(index as int),
        decreases old(self).cap(),
    {
        if index >= self.capacity {
            proof {
                assert(self@.remove(index as int) =~= self@);
            }
            return false;
        }
        let w = index / WORD_BITS;
        let b = (index % WORD_BITS) as u64;
        proof {
            self.lemma_index(index as int);
            lemma_bit_test(self.words@[w as int], b);
        }
        let current = self.words[w];
        if current & (1u64 << b) == 0 {
            proof {
                assert(self@.remove(index as int) =~= self@);
            }
            return false;
        }
        let ghost old_self = *self;
        let next = current & !(1u64 << b);
        self.words[w] = next;
        proof {
            lemma_bit_and_not_one(current, b);
            lemma_bit_zero(next);
            lemma_bit_zero(current);
        }
        if next == 0 {
            match self.summary.take() {
                Some(mut s) => {
                    proof {
                        old_self.lemma_word(w as int);
                        old_self.lemma_summary_smaller();
                    }
                    let removed = s.remove(w);
                    self.summary = Some(s);
                },
                None => {},
            }
        }
        self.len = self.len - 1;
        proof {
            self.members = Ghost(old_self.members@.remove(index as int));
            assert forall|v: int, c: u64| 0 <= v < self.words@.len() && c < 64 implies (#[trigger] bit(self.words@[v], c)
                <==> self.members@.contains(v * 64 + c)) by {
                assert(bit(old_self.words@[v], c) <==> old_self.members@.contains(v * 64 + c));
                if v != w {
                    assert(v * 64 + c != index);
                }
            }
            vstd::set::axiom_set_remove_len(old_self.members@, index as int);
            vstd::set::axiom_set_remove_finite(old_self.members@, index as int);
            match &self.summary {
                Some(s) => {
                    assert forall|v: int| 0 <= v < self.words@.len() implies (#[trigger] s.members@.contains(v) <==> self.words@[v]
                        != 0) by {
                        if v == w && next != 0 {
                            assert(bit(current, b));
                            assert(current != 0);
                        }
                    }
                },
                None => {},
            }
        }
        true
    }

    /// The smallest index at or after `start`, if any.
    pub(crate) fn find_at_or_after(&self, start: usize) -> (r: Option<usize>)
        requires
            self.wf(),
        ensures
            r is None ==> none_at_or_after(self@, start as int),
            r is Some ==> first_at_or_after(self@, start as int, r->0 as int),
        decreases self.cap(),
    {
        if self.len == 0 || start >= self.capacity {
            proof {
                if self.len == 0 {
                    assert(self.members@ =~= Set::<int>::empty()) by {
                        if exists|i: int| self.members@.contains(i) {
                            let i = choose|i: int| self.members@.contains(i);
                            vstd::set::axiom_set_remove_len(self.members@, i);
                        }
                    }
                }
            }
            return None;
        }
        let w = start / WORD_BITS;
        let sb = (start % WORD_BITS) as u64;
        proof {
            self.lemma_index(start as int);
            self.lemma_word(w as int);
            lemma_bit_high_mask(self.words@[w as int], sb);
        }
        let bits = self.words[w] & (0xffff_ffff_ffff_ffffu64 << sb);
        if bits != 0 {
            proof {
                lemma_trailing_zeros(bits);
            }
            let t = bits.trailing_zeros() as usize;
            let i = w * WORD_BITS + t;
            proof {
                assert(bit(self.words@[w as int], t as u64));
                assert forall|j: int| start <= j < i implies !#[trigger] self.members@.contains(j) by {
                    assert(!bit(bits, (j - w * 64) as u64));
                }
            }
            return Some(i);
        }
        proof {
            lemma_bit_zero(bits);
            assert forall|j: int| start <= j < w * 64 + 64 implies !#[trigger] self.members@.contains(j) by {
                assert(!bit(bits, (j - w * 64) as u64));
            }
        }
        match &self.summary {
            None => {
                proof {
                    assert forall|j: int| start <= j implies !#[trigger] self.members@.contains(j) by {
                        if self.members@.contains(j) {
                            self.lemma_index(j);
                        }
                    }
                }
                None
            },
            Some(s) => {
                proof {
                    self.lemma_summary_smaller();
                }
                match s.find_at_or_after(w + 1) {
                    None => {
                        proof {
                            assert forall|j: int| start <= j implies !#[trigger] self.members@.contains(j) by {
                                if self.members@.contains(j) && j >= w * 64 + 64 {
                                    self.lemma_index(j);
                                    let v = j / 64;
                                    self.lemma_word(v);
                                    assert(s.members@.contains(v));
                                }
                            }
                        }
                        None
                    },
                    Some(nw) => {
                        proof {
                            assert(s.members@.contains(nw as int));
                            s.lemma_members_bound();
                            assert(s@.contains(nw as int));
                            self.lemma_word(nw as int);
                            lemma_trailing_zeros(self.words@[nw as int]);
                        }
                        let t = self.words[nw].trailing_zeros() as usize;
                        let i = nw * WORD_BITS + t;
                        proof {
                            assert forall|j: int| start <= j < i implies !#[trigger] self.members@.contains(j) by {
                                if self.members@.contains(j) && j >= w * 64 + 64 {
                                    self.lemma_index(j);
                                    let v = j / 64;
                                    self.lemma_word(v);
                                    if v < nw {
                                        assert(s.members@.contains(v));
                                    } else {
                                        assert(!bit(self.words@[nw as int], (j - nw * 64) as u64));
                                    }
                                }
                            }
                        }
                        Some(i)
                    },
                }
            },
        }
    }

    /// Removes the lowest index of word `word_index` among `bits`, which are
    /// set in that word, and moves the cursor past it.
    fn take_bit(&mut self, word_index: usize, bits: u64) -> (i: usize)
        requires
            old(self).wf(),
            word_index < old(self).words@.len(),
            bits != 0,
            forall|j: u64| j < 64 && #[trigger] bit(bits, j) ==> bit(old(self).words@[word_index as int], j),
        ensures
            final(self).wf(),
            final(self).cap() == old(self).cap(),
            i == word_index * 64 + u64_trailing_zeros(bits),
            old(self)@.contains(i as int),
            final(self)@ == old(self)@.remove(i as int),
            final(self).cursor_spec() == (if i + 1 == old(self).cap() { 0 } else { i + 1 }),
    {
        proof {
            lemma_trailing_zeros(bits);
            self.lemma_word(word_index as int);
            self.lemma_members_bound();
        }
        let t = bits.trailing_zeros() as usize;
        let index = word_index * WORD_BITS + t;
        proof {
            assert(bit(self.words@[word_index as int], t as u64));
            assert(self.members@.contains(index as int));
        }
        let removed = self.remove(index);
        self.cursor = if index + 1 == self.capacity {
            0
        } else {
            index + 1
        };
        index
    }

    /// Removes the first index at or after the cursor, wrapping around once.
    pub(crate) fn pop_next(&mut self) -> (r: Option<usize>)
        requires
            old(self).wf(),
        ensures
            final(self).wf(),
            final(self).cap() == old(self).cap(),
            old(self)@.len() == 0 ==> r is None && *final(self) == *old(self),
            old(self)@.len() > 0 ==> r is Some && {
                let i = r->0 as int;
                let c = old(self).cursor_spec() as int;
                &&& !none_at_or_after(old(self)@, c) ==> first_at_or_after(old(self)@, c, i)
                &&& none_at_or_after(old(self)@, c) ==> first_at_or_after(old(self)@, 0, i)
                &&& final(self)@ == old(self)@.remove(i)
                &&& final(self).cursor_spec() == (if i + 1 == old(self).cap() { 0 } else { i + 1 })
            },
    {
        if self.len == 0 {
            return None;
        }
        proof {
            self.lemma_members_bound();
            self.lemma_nonempty();
        }
        let start = self.cursor;
        let sw = start / WORD_BITS;
        let sb = (start % WORD_BITS) as u64;
        proof {
            self.lemma_index(start as int);
            self.lemma_word(sw as int);
            lemma_bit_high_mask(self.words@[sw as int], sb);
            lemma_bit_low_mask(self.words@[sw as int], sb);
        }
        let first = self.words[sw] & (0xffff_ffff_ffff_ffffu64 << sb);
        if first != 0 {
            proof {
                lemma_trailing_zeros(first);
                assert forall|j: int| start <= j < sw * 64 + u64_trailing_zeros(first) implies !#[trigger] self.members@.contains(j) by {
                    assert(!bit(first, (j - sw * 64) as u64));
                }
            }
            let i = self.take_bit(sw, first);
            return Some(i);
        }
        proof {
            lemma_bit_zero(first);
            assert forall|j: int| start <= j < sw * 64 + 64 implies !#[trigger] self.members@.contains(j) by {
                assert(!bit(first, (j - sw * 64) as u64));
            }
        }
        let ghost old_self = *self;
        let mut found: Option<usize> = None;
        match &self.summary {
            Some(s) => {
                proof {
                    self.lemma_summary_smaller();
                    s.lemma_members_bound();
                }
                match s.find_at_or_after(sw + 1) {
                    Some(word) => {
                        proof {
                            assert(s@.contains(word as int));
                            self.lemma_word(word as int);
                            assert forall|j: int| start <= j < word * 64 implies !#[trigger] self.members@.contains(j) by {
                                if self.members@.contains(j) && j >= sw * 64 + 64 {
                                    self.lemma_index(j);
                                    let v = j / 64;
                                    self.lemma_word(v);
                                    assert(s.members@.contains(v));
                                }
                            }
                        }
                        found = Some(word);
                    },
                    None => {
                        proof {
                            assert forall|j: int| start <= j implies !#[trigger] self.members@.contains(j) by {
                                if self.members@.contains(j) && j >= sw * 64 + 64 {
                                    self.lemma_index(j);
                                    let v = j / 64;
                                    self.lemma_word(v);
                                    assert(s.members@.contains(v));
                                }
                            }
                        }
                        match s.find_at_or_after(0) {
                            Some(word) => {
                                proof {
                                    assert(s@.contains(word as int));
                                    self.lemma_word(word as int);
                                    assert forall|j: int| 0 <= j < word * 64 implies !#[trigger] self.members@.contains(j) by {
                                        if self.members@.contains(j) {
                                            self.lemma_index(j);
                                            let v = j / 64;
                                            self.lemma_word(v);
                                            assert(s.members@.contains(v));
                                        }
                                    }
                                }
                                if word < sw {
                                    found = Some(word);
                                }
                            },
                            None => {
                                proof {
                                    assert(self.members@.contains(self.members@.choose()));
                                    let j = self.members@.choose();
                                    self.lemma_index(j);
                                    self.lemma_word(j / 64);
                                    assert(s.members@.contains(j / 64));
                                }
                            },
                        }
                    },
                }
            },
            None => {
                proof {
                    assert forall|j: int| start <= j implies !#[trigger] self.members@.contains(j) by {
                        if self.members@.contains(j) {
                            self.lemma_index(j);
                        }
                    }
                }
            },
        }
        match found {
            Some(word) => {
                proof {
                    lemma_trailing_zeros(self.words@[word as int]);
                    assert forall|j: int| word * 64 <= j < word * 64 + u64_trailing_zeros(self.words@[word as int]) implies !#[trigger] self.members@.contains(j) by {
                        assert(!bit(self.words@[word as int], (j - word * 64) as u64));
                    }
                }
                let bits = self.words[word];
                let i = self.take_bit(word, bits);
                Some(i)
            },
            None => {
                let low = self.words[sw] & ((1u64 << sb) - 1);
                proof {
                    // every member lies before the cursor, and none in an earlier word
                    let j0 = self.members@.choose();
                    assert(self.members@.contains(j0));
                    self.lemma_index(j0);
                    assert forall|j: int| 0 <= j < sw * 64 implies !#[trigger] self.members@.contains(j) by {
                        if self.members@.contains(j) {
                            self.lemma_index(j);
                        }
                    }
                    assert(j0 / 64 == sw);
                    assert(bit(low, (j0 - sw * 64) as u64));
                    lemma_bit_zero(low);
                    lemma_trailing_zeros(low);
                    assert forall|j: int| 0 <= j < sw * 64 + u64_trailing_zeros(low) implies !#[trigger] self.members@.contains(j) by {
                        if j >= sw * 64 {
                            assert(!bit(low, (j - sw * 64) as u64));
                        }
                    }
                }
                let i = self.take_bit(sw, low);
                Some(i)
            },
        }
    }

    proof fn lemma_nonempty(&self)
        requires
            self.wf(),
            self@.len() > 0,
        ensures
            self@.contains(self@.choose()),
    {
        if !self@.contains(self@.choose()) {
            assert(self@ =~= Set::<int>::empty());
        }
    }

    /// Removes `index`, a member, and moves the cursor past it.
    pub(crate) fn take_at(&mut self, index: usize)
        requires
            old(self).wf(),
            old(self)@.contains(index as int),
        ensures
            final(self).wf(),
            final(self).cap() == old(self).cap(),
            final(self)@ == old(self)@.remove(index as int),
            final(self).cursor_spec() == (if index + 1 == old(self).cap() { 0 } else { index + 1 }),
    {
        proof {
            self.lemma_members_bound();
        }
        let removed = self.remove(index);
        self.cursor = if index + 1 == self.capacity {
            0
        } else {
            index + 1
        };
    }

    /// Moves the cursor to `cursor`, a position below the capacity.
    pub(crate) fn set_cursor(&mut self, cursor: usize)
        requires
            old(self).wf(),
            cursor < old(self).cap() || cursor == 0,
        ensures
            final(self).wf(),
            final(self).cap() == old(self).cap(),
            final(self)@ == old(self)@,
            final(self).cursor_spec() == cursor,
    {
        self.cursor = cursor;
    }

    /// Raises the capacity to `capacity`, keeping the members and the cursor.
    /// A smaller `capacity` changes nothing.
    pub(crate) fn grow_to(&mut self, capacity: usize)
        requires
            old(self).wf(),
        ensures
            final(self).wf(),
            final(self)@ == old(self)@,
            final(self).cap() == (if capacity > old(self).cap() { capacity as nat } else { old(self).cap() }),
            final(self).cursor_spec() == old(self).cursor_spec(),
        decreases capacity,
    {
        if capacity <= self.capacity {
            return;
        }
        let count = words_for(capacity);
        let old_count = self.words.len();
        proof {
            assert(word_count(self.capacity as nat) <= word_count(capacity as nat));
        }
        while self.words.len() < count
            invariant
                old_count == old(self).words@.len(),
                old_count <= self.words@.len() <= count,
                self.words@.subrange(0, old_count as int) == old(self).words@,
                forall|k: int| old_count <= k < self.words@.len() ==> self.words@[k] == 0,
                self.summary == old(self).summary,
                self.capacity == old(self).capacity,
                self.len == old(self).len,
                self.cursor == old(self).cursor,
                self.members == old(self).members,
            decreases count - self.words@.len(),
        {
            self.words.push(0);
        }
        proof {
            assert forall|w: int| 0 <= w < old_count implies self.words@[w] == old(self).words@[w] by {
                assert(self.words@.subrange(0, old_count as int)[w] == self.words@[w]);
            }
        }
        if count > 1 {
            let taken = self.summary.take();
            let summary = match taken {
                Some(mut boxed) => {
                    boxed.grow_to(count);
                    boxed
                },
                None => {
                    let mut fresh = Tree::with_capacity(count);
                    if old_count == 1 && self.words[0] != 0 {
                        let _ = fresh.insert(0);
                    }
                    Box::new(fresh)
                },
            };
            self.summary = Some(summary);
        }
        self.capacity = capacity;
        proof {
            lemma_bit_zero(0);
            assert forall|w: int, b: u64| 0 <= w < self.words@.len() && b < 64 implies (#[trigger] bit(self.words@[w], b)
                <==> self.members@.contains(w * 64 + b)) by {
                if w < old_count {
                    assert(bit(old(self).words@[w], b) <==> old(self).members@.contains(w * 64 + b));
                } else {
                    assert(self.words@[w] == 0);
                    assert(!bit(0u64, b));
                    if self.members@.contains(w * 64 + b) {
                        assert(w * 64 + b < old(self).capacity);
                    }
                }
            }
            match &self.summary {
                None => {},
                Some(sm) => {
                    assert forall|w: int| 0 <= w < self.words@.len() implies (#[trigger] sm.members@.contains(w) <==> self.words@[w] != 0) by {
                        match &old(self).summary {
                            Some(os) => {
                                if w < old_count {
                                    assert(os.members@.contains(w) <==> old(self).words@[w] != 0);
                                } else {
                                    assert(os.wf());
                                    if os.members@.contains(w) {
                                        assert(0 <= w < os.capacity);
                                    }
                                }
                            },
                            None => {},
                        }
                    }
                },
            }
        }
    }

    pub(crate) fn cursor(&self) -> (c: usize)
        ensures
            c == self.cursor_spec(),
    {
        self.cursor
    }

    pub(crate) proof fn lemma_cursor_bound(&self)
        requires
            self.wf(),
        ensures
            self.cursor_spec() < self.cap() || (self.cursor_spec() == 0 && self.cap() == 0),
            forall|i: int| #[trigger] self@.contains(i) ==> 0 <= i < self.cap(),
            self@.finite(),
    {
    }
}

} // verus!