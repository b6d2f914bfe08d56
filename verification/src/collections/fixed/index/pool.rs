//! A fixed-capacity allocator of detached dense indices.
use vstd::prelude::*;

use crate::collections::AllocationError;

verus! {

/// The link of the last free index.
pub const NONE: u32 = 0xffff_ffff;

/// The link of an index that is out of the pool.
pub const ALLOCATED: u32 = 0xffff_fffe;

/// Fixed-capacity allocator for detached dense indices.
///
/// An allocated index does not borrow the pool, allowing the authority that
/// carries it to outlive later allocations from the same pool. Indices come
/// back out in the reverse order in which they were returned.
pub struct Pool {
    links: Vec<u32>,
    free: u32,
    available: u32,
    chain: Ghost<Seq<u32>>,
}

impl Pool {
    /// The available indices, the next one to be taken first.
    pub closed spec fn free_list(&self) -> Seq<u32> {
        self.chain@
    }

    pub closed spec fn cap(&self) -> nat {
        self.links@.len()
    }

    pub closed spec fn wf(&self) -> bool {
        let c = self.chain@;
        &&& self.links@.len() <= NONE
        &&& self.available == c.len()
        &&& self.free == (if c.len() == 0 { NONE } else { c[0] })
        &&& forall|k: int| 0 <= k < c.len() ==> #[trigger] c[k] < self.links@.len()
        &&& forall|k: int| 0 <= k < c.len() ==> self.links@[#[trigger] c[k] as int] == (if k + 1 < c.len() {
            c[k + 1]
        } else {
            NONE
        })
        &&& c.no_duplicates()
    }

    pub fn try_with_capacity(capacity: u32) -> (r: Result<Self, AllocationError>)
        ensures
            r is Ok ==> r->Ok_0.wf() && r->Ok_0.cap() == capacity && r->Ok_0.free_list() == Seq::new(
                capacity as nat,
                |k: int| k as u32,
            ),
            r is Err ==> r->Err_0 == AllocationError::Exhausted,
    {
        let mut links: Vec<u32> = Vec::new();
        if links.try_reserve(capacity as usize).is_err() {
            return Err(AllocationError::Exhausted);
        }
        let mut i: u32 = 0;
        while i < capacity
            invariant
                i <= capacity,
                links@.len() == i,
                forall|k: int| 0 <= k < i ==> links@[k] == (if k + 1 == capacity { NONE } else { (k + 1) as u32 }),
            decreases capacity - i,
        {
            let next = if i + 1 == capacity {
                NONE
            } else {
                i + 1
            };
            links.push(next);
            i = i + 1;
        }
        let ghost chain = Seq::new(capacity as nat, |k: int| k as u32);
        let pool = Pool {
            links,
            free: if capacity == 0 {
                NONE
            } else {
                0
            },
            available: capacity,
            chain: Ghost(chain),
        };
        proof {
            assert forall|k: int| 0 <= k < chain.len() implies pool.links@[#[trigger] chain[k] as int] == (if k + 1
                < chain.len() {
                chain[k + 1]
            } else {
                NONE
            }) by {
                assert(chain[k] as int == k);
            }
            assert forall|a: int, b: int| 0 <= a < chain.len() && 0 <= b < chain.len() && a != b implies chain[a]
                != chain[b] by {
            }
        }
        Ok(pool)
    }

    pub fn capacity(&self) -> (n: u32)
        requires
            self.wf(),
        ensures
            n == self.cap(),
    {
        self.links.len() as u32
    }

    /// The number of indices that can still be taken.
    pub fn available(&self) -> (n: u32)
        requires
            self.wf(),
        ensures
            n == self.free_list().len(),
    {
        self.available
    }

    pub fn is_exhausted(&self) -> (b: bool)
        requires
            self.wf(),
        ensures
            b == (self.free_list().len() == 0),
    {
        proof {
            if self.chain@.len() > 0 {
                assert(self.chain@[0] < self.links@.len());
            }
        }
        self.free == NONE
    }

    /// Detaches one available index from the pool.
    pub fn take(&mut self) -> (r: Option<u32>)
        requires
            old(self).wf(),
        ensures
            final(self).wf(),
            final(self).cap() == old(self).cap(),
            old(self).free_list().len() == 0 ==> r is None && final(self).free_list() == old(self).free_list(),
            old(self).free_list().len() > 0 ==> r == Some(old(self).free_list()[0]) && final(self).free_list()
                == old(self).free_list().drop_first(),
    {
        if self.is_exhausted() {
            return None;
        }
        Some(self.take_available())
    }

    /// Detaches an index known to be available.
    pub fn take_available(&mut self) -> (r: u32)
        requires
            old(self).wf(),
            old(self).free_list().len() > 0,
        ensures
            final(self).wf(),
            final(self).cap() == old(self).cap(),
            r == old(self).free_list()[0],
            final(self).free_list() == old(self).free_list().drop_first(),
    {
        let ghost c = self.chain@;
        proof {
            assert(c[0] < self.links@.len());
        }
        let index = self.free;
        self.free = self.links[index as usize];
        self.links[index as usize] = ALLOCATED;
        self.available = self.available - 1;
        self.chain = Ghost(c.drop_first());
        proof {
            let d = c.drop_first();
            assert forall|k: int| 0 <= k < d.len() implies self.links@[#[trigger] d[k] as int] == (if k + 1
                < d.len() {
                d[k + 1]
            } else {
                NONE
            }) by {
                assert(d[k] == c[k + 1]);
                assert(c[k + 1] != c[0]);
            }
        }
        index
    }

    /// Returns a detached index to this pool; it is the next one taken.
    pub fn release(&mut self, index: u32)
        requires
            old(self).wf(),
            index < old(self).cap(),
            !old(self).free_list().contains(index),
        ensures
            final(self).wf(),
            final(self).cap() == old(self).cap(),
            final(self).free_list() == seq![index] + old(self).free_list(),
    {
        let ghost c = self.chain@;
        proof {
            vstd::seq_lib::lemma_no_dup_in_concat(seq![index], c);
            assert(c.len() < self.links@.len()) by {
                let all = vstd::set_lib::set_int_range(0, self.links@.len() as int);
                vstd::set_lib::lemma_int_range(0, self.links@.len() as int);
                let cs = c.to_set().map(|x: u32| x as int);
                c.unique_seq_to_set();
                assert(cs.insert(index as int).subset_of(all));
                vstd::set_lib::lemma_len_subset(cs.insert(index as int), all);
                vstd::set_lib::lemma_map_size(c.to_set(), cs, |x: u32| x as int);
            }
        }
        self.links[index as usize] = self.free;
        self.free = index;
        self.available = self.available + 1;
        self.chain = Ghost(seq![index] + c);
        proof {
            let d = seq![index] + c;
            assert forall|k: int| 0 <= k < d.len() implies self.links@[#[trigger] d[k] as int] == (if k + 1
                < d.len() {
                d[k + 1]
            } else {
                NONE
            }) by {
                if k > 0 {
                    assert(d[k] == c[k - 1]);
                    assert(c[k - 1] != index);
                }
            }
            assert forall|k: int| 0 <= k < d.len() implies #[trigger] d[k] < self.links@.len() by {
                if k > 0 {
                    assert(d[k] == c[k - 1]);
                }
            }
        }
    }
}

} // verus!
