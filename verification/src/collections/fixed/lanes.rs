//! Node storage shared by several persistent lanes.
//!
//! Every lane is a singly linked chain of node indices inside one pool. Nodes
//! are initialized the first time they are used; released nodes are kept on a
//! free list and reused before fresh nodes.
use vstd::prelude::*;

use crate::collections::AllocationError;

verus! {

/// The link value that marks the end of a chain.
pub const NONE: u32 = 0xffff_ffff;

pub(crate) struct Node<T> {
    pub(crate) value: Option<T>,
    pub(crate) next: u32,
}

/// The head, tail and length of one lane.
#[derive(Clone, Copy)]
pub(crate) struct ChainState {
    pub(crate) head: u32,
    pub(crate) tail: u32,
    pub(crate) len: u32,
}

/// Sum of the lengths of the sequences in `s`.
pub open spec fn total_len<A>(s: Seq<Seq<A>>) -> int
    decreases s.len(),
{
    if s.len() == 0 {
        0
    } else {
        total_len(s.drop_last()) + s.last().len()
    }
}

pub proof fn lemma_total_len_update<A>(s: Seq<Seq<A>>, i: int, c: Seq<A>)
    requires
        0 <= i < s.len(),
    ensures
        total_len(s.update(i, c)) == total_len(s) - s[i].len() + c.len(),
    decreases s.len(),
{
    if i == s.len() - 1 {
        assert(s.update(i, c).drop_last() =~= s.drop_last());
    } else {
        lemma_total_len_update(s.drop_last(), i, c);
        assert(s.update(i, c).drop_last() =~= s.drop_last().update(i, c));
    }
}

pub proof fn lemma_total_len_nonneg<A>(s: Seq<Seq<A>>)
    ensures
        total_len(s) >= 0,
        forall|i: int| 0 <= i < s.len() ==> s[i].len() <= total_len(s),
    decreases s.len(),
{
    if s.len() > 0 {
        lemma_total_len_nonneg(s.drop_last());
        assert forall|i: int| 0 <= i < s.len() implies s[i].len() <= total_len(s) by {
            if i < s.len() - 1 {
                assert(s[i] == s.drop_last()[i]);
            }
        }
    }
}

pub proof fn lemma_total_len_empty<A>(n: nat)
    ensures
        total_len(Seq::new(n, |l: int| Seq::<A>::empty())) == 0,
    decreases n,
{
    if n > 0 {
        lemma_total_len_empty::<A>((n - 1) as nat);
        assert(Seq::new(n, |l: int| Seq::<A>::empty()).drop_last() =~= Seq::new(
            (n - 1) as nat,
            |l: int| Seq::<A>::empty(),
        ));
    }
}

/// Fixed node storage with a number of lanes, each an ordered chain of values.
pub(crate) struct Lanes<T> {
    nodes: Vec<Node<T>>,
    capacity: usize,
    free: u32,
    live: u32,
    lanes: Vec<ChainState>,
    chains: Ghost<Seq<Seq<u32>>>,
    free_list: Ghost<Seq<u32>>,
    owner: Ghost<Map<u32, int>>,
}

/// The chain `c` is linked through `nodes`, starting at `head` and ending at
/// `tail`, and each of its nodes holds a value exactly when `live` holds.
#[verifier::opaque]
pub(crate) open spec fn linked<T>(nodes: Seq<Node<T>>, c: Seq<u32>, head: u32, live: bool) -> bool {
    &&& c.len() == 0 ==> head == NONE
    &&& c.len() > 0 ==> head == c[0]
    &&& forall|k: int| 0 <= k < c.len() ==> (#[trigger] c[k]) < nodes.len()
    &&& forall|k: int| 0 <= k < c.len() ==> (nodes[c[k] as int].value is Some <==> live)
    &&& forall|k: int| 0 <= k < c.len() - 1 ==> nodes[#[trigger] c[k] as int].next == c[k + 1]
    &&& c.len() > 0 ==> nodes[c.last() as int].next == NONE
    &&& c.no_duplicates()
}

#[verifier::opaque]
pub(crate) open spec fn lane_ok<T>(nodes: Seq<Node<T>>, c: Seq<u32>, st: ChainState) -> bool {
    &&& linked(nodes, c, st.head, true)
    &&& st.len == c.len()
    &&& c.len() == 0 ==> st.tail == NONE
    &&& c.len() > 0 ==> st.tail == c.last()
}

impl<T> Lanes<T> {
    #[verifier::opaque]
    pub(crate) closed spec fn wf(&self) -> bool {
        &&& self.capacity <= NONE
        &&& self.nodes.len() <= self.capacity
        &&& self.live + self.free_list@.len() == self.nodes.len()
        &&& self.chains@.len() == self.lanes.len()
        &&& self.live == total_len(self.chains@)
        &&& linked(self.nodes@, self.free_list@, self.free, false)
        &&& forall|l: int|
            0 <= l < self.lanes.len() ==> lane_ok(
                self.nodes@,
                #[trigger] self.chains@[l],
                self.lanes@[l],
            )
        &&& forall|l: int, k: int|
            0 <= l < self.chains@.len() && 0 <= k < self.chains@[l].len() ==> self.owner@.contains_key(
                #[trigger] self.chains@[l][k],
            ) && self.owner@[self.chains@[l][k]] == l
        &&& forall|k: int|
            0 <= k < self.free_list@.len() ==> self.owner@.contains_key(#[trigger] self.free_list@[k])
                && self.owner@[self.free_list@[k]] == -1
    }

    /// The values of every lane, front first.
    #[verifier::opaque]
    pub(crate) closed spec fn lanes_view(&self) -> Seq<Seq<T>> {
        Seq::new(
            self.chains@.len(),
            |l: int|
                Seq::new(
                    self.chains@[l].len(),
                    |k: int| self.nodes@[self.chains@[l][k] as int].value->0,
                ),
        )
    }

    pub(crate) closed spec fn capacity_spec(&self) -> nat {
        self.capacity as nat
    }

    pub(crate) closed spec fn live_spec(&self) -> nat {
        self.live as nat
    }

    pub(crate) proof fn lemma_live(&self)
        requires
            self.wf(),
        ensures
            self.live_spec() == total_len(self.lanes_view()),
            self.live_spec() <= self.capacity_spec(),
            forall|l: int| 0 <= l < self.lanes_view().len() ==> #[trigger] self.lanes_view()[l].len() <= self.live_spec(),
    {
        reveal(Lanes::wf); reveal(Lanes::lanes_view); reveal(linked); reveal(lane_ok);
        let v = self.lanes_view();
        lemma_total_len_nonneg(self.chains@);
        lemma_total_len_same_lengths(self.chains@, v);
    }

    pub(crate) fn new(capacity: usize, lane_count: usize) -> (r: Self)
        requires
            capacity <= NONE,
        ensures
            r.wf(),
            r.capacity_spec() == capacity,
            r.lanes_view() == Seq::new(lane_count as nat, |l: int| Seq::<T>::empty()),
    {
        proof { reveal(Lanes::wf); reveal(Lanes::lanes_view); reveal(linked); reveal(lane_ok); }
        let mut lanes: Vec<ChainState> = Vec::new();
        let mut i: usize = 0;
        while i < lane_count
            invariant
                i <= lane_count,
                lanes@.len() == i,
                forall|l: int| 0 <= l < i ==> lanes@[l] == (ChainState { head: NONE, tail: NONE, len: 0 }),
            decreases lane_count - i,
        {
            lanes.push(ChainState { head: NONE, tail: NONE, len: 0 });
            i = i + 1;
        }
        let ghost chains = Seq::new(lane_count as nat, |l: int| Seq::<u32>::empty());
        proof {
            lemma_total_len_empty::<u32>(lane_count as nat);
        }
        let r = Lanes {
            nodes: Vec::with_capacity(capacity),
            capacity,
            free: NONE,
            live: 0,
            lanes,
            chains: Ghost(chains),
            free_list: Ghost(Seq::empty()),
            owner: Ghost(Map::empty()),
        };
        proof {
            assert forall|l: int| 0 <= l < r.lanes.len() implies lane_ok(
                r.nodes@,
                #[trigger] r.chains@[l],
                r.lanes@[l],
            ) by {
                assert(r.chains@[l] =~= Seq::<u32>::empty());
            }
            assert forall|l: int| 0 <= l < lane_count implies #[trigger] r.lanes_view()[l] =~= Seq::<T>::empty() by {}
            assert(r.lanes_view() =~= Seq::new(lane_count as nat, |l: int| Seq::<T>::empty()));
        }
        r
    }

    /// Like `new`, but reports a failure to reserve the node storage.
    pub(crate) fn try_new(capacity: usize, lane_count: usize) -> (r: Result<Self, AllocationError>)
        requires
            capacity <= NONE,
        ensures
            r is Ok ==> r->Ok_0.wf() && r->Ok_0.capacity_spec() == capacity
                && r->Ok_0.lanes_view() == Seq::new(lane_count as nat, |l: int| Seq::<T>::empty()),
            r is Err ==> r->Err_0 == AllocationError::Exhausted,
    {
        let mut lanes = Self::new(0, lane_count);
        match lanes.nodes.try_reserve(capacity) {
            Ok(()) => {
                lanes.capacity = capacity;
                proof {
                    reveal(Lanes::wf);
                    reveal(Lanes::lanes_view);
                }
                Ok(lanes)
            },
            Err(_) => Err(AllocationError::Exhausted),
        }
    }

    pub(crate) fn lane_count(&self) -> (n: usize)
        requires
            self.wf(),
        ensures
            n == self.lanes_view().len(),
    {
        proof { reveal(Lanes::wf); reveal(Lanes::lanes_view); reveal(linked); reveal(lane_ok); }
        self.lanes.len()
    }

    pub(crate) fn capacity(&self) -> (n: usize)
        ensures
            n == self.capacity_spec(),
    {
        proof { reveal(Lanes::wf); reveal(Lanes::lanes_view); reveal(linked); reveal(lane_ok); }
        self.capacity
    }

    pub(crate) fn is_full(&self) -> (b: bool)
        requires
            self.wf(),
        ensures
            b == (self.live_spec() == self.capacity_spec()),
    {
        proof { reveal(Lanes::wf); reveal(Lanes::lanes_view); reveal(linked); reveal(lane_ok); }
        self.live as usize == self.capacity
    }

    pub(crate) fn available(&self) -> (n: usize)
        requires
            self.wf(),
        ensures
            n == self.capacity_spec() - self.live_spec(),
    {
        proof { reveal(Lanes::wf); reveal(Lanes::lanes_view); reveal(linked); reveal(lane_ok); }
        self.capacity - self.live as usize
    }

    pub(crate) fn lane_len(&self, lane: usize) -> (n: usize)
        requires
            self.wf(),
            lane < self.lanes_view().len(),
        ensures
            n == self.lanes_view()[lane as int].len(),
    {
        proof { reveal(Lanes::wf); reveal(Lanes::lanes_view); reveal(linked); reveal(lane_ok); }
        self.lanes[lane].len as usize
    }

    pub(crate) fn front(&self, lane: usize) -> (r: Option<&T>)
        requires
            self.wf(),
            lane < self.lanes_view().len(),
        ensures
            self.lanes_view()[lane as int].len() == 0 ==> r is None,
            self.lanes_view()[lane as int].len() > 0 ==> r == Some(&self.lanes_view()[lane as int][0]),
    {
        proof { reveal(Lanes::wf); reveal(Lanes::lanes_view); reveal(linked); reveal(lane_ok); }
        let head = self.lanes[lane].head;
        proof {
            assert(lane_ok(self.nodes@, self.chains@[lane as int], self.lanes@[lane as int]));
        }
        if head == NONE {
            proof {
                if self.chains@[lane as int].len() > 0 {
                    assert(self.chains@[lane as int][0] < self.nodes.len());
                }
            }
            None
        } else {
            proof {
                let c = self.chains@[lane as int];
                assert(c[0] < self.nodes.len());
                assert(self.nodes@[c[0] as int].value is Some);
            }
            self.nodes[head as usize].value.as_ref()
        }
    }

    pub(crate) fn front_mut(&mut self, lane: usize) -> (r: Option<&mut T>)
        requires
            old(self).wf(),
            lane < old(self).lanes_view().len(),
        ensures
            old(self).lanes_view()[lane as int].len() == 0 ==> r is None && *final(self) == *old(self),
            old(self).lanes_view()[lane as int].len() > 0 ==> r is Some
                && *r->0 == old(self).lanes_view()[lane as int][0]
                && final(self).wf()
                && final(self).capacity_spec() == old(self).capacity_spec()
                && final(self).live_spec() == old(self).live_spec()
                && final(self).lanes_view() =~~= old(self).lanes_view().update(
                    lane as int,
                    old(self).lanes_view()[lane as int].update(0, *final(r->0)),
                ),
    {
        proof { reveal(Lanes::wf); reveal(Lanes::lanes_view); reveal(linked); reveal(lane_ok); }
        let head = self.lanes[lane].head;
        proof {
            assert(lane_ok(self.nodes@, self.chains@[lane as int], self.lanes@[lane as int]));
        }
        if head == NONE {
            proof {
                if self.chains@[lane as int].len() > 0 {
                    assert(self.chains@[lane as int][0] < self.nodes.len());
                }
            }
            None
        } else {
            proof {
                let c = self.chains@[lane as int];
                assert(c[0] < self.nodes.len());
                assert(self.nodes@[c[0] as int].value is Some);
            }
            let ghost old_self = *self;
            let node = &mut self.nodes[head as usize];
            let r = node.value.as_mut();
            r
        }
    }
}

impl<T> Lanes<T> {
    /// Takes a node off the free list, or initializes a fresh one, and stores
    /// `value` in it. The node belongs to no lane yet.
    fn allocate(&mut self, value: T) -> (x: u32)
        requires
            old(self).wf(),
            old(self).live < old(self).capacity,
        ensures
            x < final(self).nodes.len(),
            final(self).nodes@[x as int] == (Node { value: Some(value), next: NONE }),
            final(self).nodes.len() >= old(self).nodes.len(),
            final(self).nodes.len() <= final(self).capacity,
            forall|j: int|
                0 <= j < old(self).nodes.len() && j != x ==> final(self).nodes@[j] == old(self).nodes@[j],
            old(self).free_list@.len() == 0 ==> final(self).free_list@ == old(self).free_list@
                && x == old(self).nodes.len(),
            old(self).free_list@.len() > 0 ==> final(self).free_list@ == old(self).free_list@.drop_first()
                && x == old(self).free_list@[0] && final(self).nodes.len() == old(self).nodes.len(),
            linked(final(self).nodes@, final(self).free_list@, final(self).free, false),
            !final(self).free_list@.contains(x),
            forall|l: int, k: int|
                0 <= l < old(self).chains@.len() && 0 <= k < old(self).chains@[l].len() ==> #[trigger] old(self).chains@[l][k] != x,
            final(self).live == old(self).live + 1,
            final(self).live + final(self).free_list@.len() == final(self).nodes.len(),
            final(self).capacity == old(self).capacity,
            final(self).lanes == old(self).lanes,
            final(self).chains == old(self).chains,
            final(self).owner == old(self).owner,
    {
        proof { reveal(Lanes::wf); reveal(Lanes::lanes_view); reveal(linked); reveal(lane_ok); }
        let ghost old_self = *self;
        let x;
        if self.free == NONE {
            proof {
                if self.free_list@.len() > 0 {
                    assert(self.free_list@[0] < self.nodes.len());
                }
            }
            x = self.nodes.len() as u32;
            self.nodes.push(Node { value: Some(value), next: NONE });
        } else {
            proof {
                assert(self.free_list@.len() > 0);
                assert(self.free_list@[0] < self.nodes.len());
            }
            x = self.free;
            let next = self.nodes[x as usize].next;
            self.free = next;
            self.nodes[x as usize] = Node { value: Some(value), next: NONE };
            proof {
                let f = old_self.free_list@;
                self.free_list = Ghost(f.drop_first());
                assert forall|k: int| 0 <= k < f.len() - 1 implies #[trigger] f.drop_first()[k] != x by {
                    assert(f.drop_first()[k] == f[k + 1]);
                }
            }
        }
        self.live = self.live + 1;
        proof {
            let f = self.free_list@;
            assert forall|l: int, k: int|
                0 <= l < old_self.chains@.len() && 0 <= k < old_self.chains@[l].len() implies #[trigger] old_self.chains@[l][k] != x by {
                assert(lane_ok(old_self.nodes@, old_self.chains@[l], old_self.lanes@[l]));
                if old_self.free_list@.len() > 0 {
                    assert(old_self.owner@[old_self.chains@[l][k]] == l);
                    assert(old_self.owner@[old_self.free_list@[0]] == -1);
                }
            }
            assert forall|k: int| 0 <= k < f.len() implies (#[trigger] f[k]) != x by {
                if old_self.free_list@.len() > 0 {
                    assert(f[k] == old_self.free_list@[k + 1]);
                }
            }
            assert forall|k: int| 0 <= k < f.len() - 1 implies self.nodes@[#[trigger] f[k] as int].next == f[k + 1] by {
                if old_self.free_list@.len() > 0 {
                    assert(f[k] == old_self.free_list@[k + 1]);
                }
            }
            assert forall|k: int| 0 <= k < f.len() implies (self.nodes@[(#[trigger] f[k]) as int].value is Some <==> false) by {
                if old_self.free_list@.len() > 0 {
                    assert(f[k] == old_self.free_list@[k + 1]);
                }
            }
            if f.len() > 0 {
                assert(f.last() == old_self.free_list@.last());
            }
        }
        x
    }

    /// A chain stays linked when only nodes outside it change.
    proof fn lemma_linked_frame(nodes: Seq<Node<T>>, nodes2: Seq<Node<T>>, c: Seq<u32>, head: u32, live: bool, changed: Set<u32>)
        requires
            linked(nodes, c, head, live),
            nodes2.len() >= nodes.len(),
            forall|k: int| 0 <= k < c.len() ==> !changed.contains(#[trigger] c[k]),
            forall|j: int| 0 <= j < nodes.len() && !changed.contains(j as u32) ==> nodes2[j] == nodes[j],
        ensures
            linked(nodes2, c, head, live),
    {
        reveal(linked);
        assert forall|k: int| 0 <= k < c.len() implies nodes2[(#[trigger] c[k]) as int] == nodes[c[k] as int] by {
            assert(!changed.contains(c[k]));
        }
        if c.len() > 0 {
            assert(nodes2[c.last() as int] == nodes[c.last() as int]);
        }
    }

    proof fn lemma_basic(&self)
        requires
            self.wf(),
        ensures
            self.chains@.len() == self.lanes.len(),
            self.lanes_view().len() == self.lanes.len(),
            self.live + self.free_list@.len() == self.nodes.len(),
            self.nodes.len() <= self.capacity <= NONE,
    {
        reveal(Lanes::wf); reveal(Lanes::lanes_view); reveal(linked); reveal(lane_ok);
    }

    proof fn lemma_lane(&self, lane: int)
        requires
            self.wf(),
            0 <= lane < self.lanes.len(),
        ensures
            lane_ok(self.nodes@, self.chains@[lane], self.lanes@[lane]),
            self.chains@.len() == self.lanes.len(),
            self.nodes.len() <= self.capacity <= NONE,
            self.lanes@[lane].len == self.chains@[lane].len(),
            self.chains@[lane].len() <= self.live,
            (self.lanes@[lane].tail == NONE) == (self.chains@[lane].len() == 0),
            (self.lanes@[lane].head == NONE) == (self.chains@[lane].len() == 0),
            self.chains@[lane].len() > 0 ==> self.lanes@[lane].tail == self.chains@[lane].last()
                && self.lanes@[lane].head == self.chains@[lane][0]
                && self.chains@[lane].last() < self.nodes.len()
                && self.chains@[lane][0] < self.nodes.len()
                && self.nodes@[self.chains@[lane][0] as int].value is Some
                && self.nodes@[self.chains@[lane][0] as int].next == (if self.chains@[lane].len() > 1 { self.chains@[lane][1] } else { NONE }),
            self.chains@[lane].len() > 1 ==> self.chains@[lane][1] < self.nodes.len(),
    {
        lemma_total_len_nonneg(self.chains@); reveal(Lanes::wf); reveal(Lanes::lanes_view); reveal(linked); reveal(lane_ok);
    }

    proof fn lemma_push_back(old_self: Self, mid: Self, new: Self, lane: int, x: u32, value: T)
        requires
            old_self.wf(),
            0 <= lane < old_self.lanes.len(),
            x < mid.nodes.len(),
            mid.nodes@[x as int] == (Node { value: Some(value), next: NONE }),
            mid.nodes.len() >= old_self.nodes.len(),
            mid.nodes.len() <= mid.capacity,
            forall|j: int|
                0 <= j < old_self.nodes.len() && j != x ==> mid.nodes@[j] == old_self.nodes@[j],
            old_self.free_list@.len() == 0 ==> mid.free_list@ == old_self.free_list@,
            old_self.free_list@.len() > 0 ==> mid.free_list@ == old_self.free_list@.drop_first()
                && x == old_self.free_list@[0],
            linked(mid.nodes@, mid.free_list@, mid.free, false),
            !mid.free_list@.contains(x),
            forall|l: int, k: int|
                0 <= l < old_self.chains@.len() && 0 <= k < old_self.chains@[l].len() ==> #[trigger] old_self.chains@[l][k] != x,
            mid.live == old_self.live + 1,
            mid.live + mid.free_list@.len() == mid.nodes.len(),
            mid.capacity == old_self.capacity,
            new.capacity == mid.capacity,
            new.live == mid.live,
            new.free == mid.free,
            new.free_list == mid.free_list,
            new.chains@ == old_self.chains@.update(lane, old_self.chains@[lane].push(x)),
            new.owner@ == old_self.owner@.insert(x, lane),
            new.lanes@.len() == old_self.lanes@.len(),
            forall|l: int| 0 <= l < new.lanes@.len() && l != lane ==> new.lanes@[l] == old_self.lanes@[l],
            new.lanes@[lane].head == (if old_self.chains@[lane].len() == 0 { x } else { old_self.lanes@[lane].head }),
            new.lanes@[lane].tail == x,
            new.lanes@[lane].len == old_self.lanes@[lane].len + 1,
            new.nodes.len() == mid.nodes.len(),
            old_self.chains@[lane].len() == 0 ==> new.nodes@ == mid.nodes@,
            old_self.chains@[lane].len() > 0 ==> new.nodes@ == mid.nodes@.update(
                old_self.chains@[lane].last() as int,
                Node { value: mid.nodes@[old_self.chains@[lane].last() as int].value, next: x },
            ),
        ensures
            new.wf(),
            new.lanes_view() =~~= old_self.lanes_view().update(lane, old_self.lanes_view()[lane].push(value)),
            {
            let c = old_self.chains@[lane];
            let c2 = c.push(x);
            let st = new.lanes@[lane];
            reveal(Lanes::wf); reveal(Lanes::lanes_view); reveal(linked); reveal(lane_ok);
            lemma_total_len_update(old_self.chains@, lane, c2);
            let n2 = new.nodes@;
            let changed = if c.len() > 0 { set![x, c.last()] } else { set![x] };
            assert forall|j: int| 0 <= j < mid.nodes.len() && !changed.contains(j as u32) implies n2[j] == mid.nodes@[j] by {}
            assert forall|j: int| 0 <= j < old_self.nodes.len() && !changed.contains(j as u32) implies n2[j] == old_self.nodes@[j] by {}
            assert(linked(n2, c2, st.head, true)) by {
                assert forall|k: int| 0 <= k < c2.len() implies (#[trigger] c2[k]) < n2.len() by {}
                assert forall|k: int| 0 <= k < c.len() implies n2[(#[trigger] c[k]) as int].value == old_self.nodes@[c[k] as int].value by {
                    assert(c[k] != x);
                }
                assert forall|k: int| 0 <= k < c2.len() implies (n2[(#[trigger] c2[k]) as int].value is Some) by {
                    if k < c.len() {
                        assert(c2[k] == c[k]);
                    }
                }
                assert forall|k: int| 0 <= k < c2.len() - 1 implies n2[(#[trigger] c2[k]) as int].next == c2[k + 1] by {
                    if k < c.len() - 1 {
                        assert(c2[k] == c[k]);
                        assert(c[k] != c.last());
                        assert(c[k] != x);
                    }
                }
                assert(c2.no_duplicates()) by {
                    assert forall|i: int, j: int| 0 <= i < c2.len() && 0 <= j < c2.len() && i != j implies c2[i] != c2[j] by {
                        if i < c.len() { assert(c[i] != x); }
                        if j < c.len() { assert(c[j] != x); }
                    }
                }
            }
            assert(lane_ok(n2, c2, st));
            assert forall|l: int| 0 <= l < new.lanes.len() implies lane_ok(n2, #[trigger] new.chains@[l], new.lanes@[l]) by {
                if l != lane {
                    let cm = old_self.chains@[l];
                    assert(lane_ok(old_self.nodes@, cm, old_self.lanes@[l]));
                    assert forall|k: int| 0 <= k < cm.len() implies !changed.contains(#[trigger] cm[k]) by {
                        assert(old_self.owner@[cm[k]] == l);
                        if c.len() > 0 {
                            assert(old_self.owner@[c.last()] == lane);
                        }
                    }
                    Self::lemma_linked_frame(old_self.nodes@, n2, cm, old_self.lanes@[l].head, true, changed);
                }
            }
            assert(linked(n2, new.free_list@, new.free, false)) by {
                let f = new.free_list@;
                assert forall|k: int| 0 <= k < f.len() implies !changed.contains(#[trigger] f[k]) by {
                    if old_self.free_list@.len() > 0 {
                        assert(f[k] == old_self.free_list@[k + 1]);
                    }
                    assert(old_self.owner@[f[k]] == -1);
                    if c.len() > 0 {
                        assert(old_self.owner@[c.last()] == lane);
                    }
                }
                Self::lemma_linked_frame(mid.nodes@, n2, f, new.free, false, changed);
            }
            assert forall|l: int, k: int|
                0 <= l < new.chains@.len() && 0 <= k < new.chains@[l].len() implies new.owner@.contains_key(
                    #[trigger] new.chains@[l][k],
                ) && new.owner@[new.chains@[l][k]] == l by {
                if l == lane && k == c.len() {
                } else {
                    assert(old_self.chains@[l][k] != x);
                }
            }
            assert forall|k: int|
                0 <= k < new.free_list@.len() implies new.owner@.contains_key(#[trigger] new.free_list@[k])
                    && new.owner@[new.free_list@[k]] == -1 by {
                let f = new.free_list@;
                if old_self.free_list@.len() > 0 {
                    assert(f[k] == old_self.free_list@[k + 1]);
                }
            }
            
            assert(new.lanes_view() =~~= old_self.lanes_view().update(
                lane,
                old_self.lanes_view()[lane].push(value),
            )) by {
                assert forall|l: int, k: int| 0 <= l < new.chains@.len() && 0 <= k < new.chains@[l].len() && !(l == lane && k == c.len())
                    implies n2[new.chains@[l][k] as int].value == old_self.nodes@[new.chains@[l][k] as int].value by {
                    let e = new.chains@[l][k];
                    assert(old_self.chains@[l][k] == e);
                    assert(lane_ok(old_self.nodes@, old_self.chains@[l], old_self.lanes@[l]));
                    assert(e != x);
                }
            }
    }

    proof fn lemma_push_front(old_self: Self, mid: Self, new: Self, lane: int, x: u32, value: T)
        requires
            old_self.wf(),
            0 <= lane < old_self.lanes.len(),
            x < mid.nodes.len(),
            mid.nodes@[x as int] == (Node { value: Some(value), next: NONE }),
            mid.nodes.len() >= old_self.nodes.len(),
            mid.nodes.len() <= mid.capacity,
            forall|j: int|
                0 <= j < old_self.nodes.len() && j != x ==> mid.nodes@[j] == old_self.nodes@[j],
            old_self.free_list@.len() == 0 ==> mid.free_list@ == old_self.free_list@,
            old_self.free_list@.len() > 0 ==> mid.free_list@ == old_self.free_list@.drop_first()
                && x == old_self.free_list@[0],
            linked(mid.nodes@, mid.free_list@, mid.free, false),
            !mid.free_list@.contains(x),
            forall|l: int, k: int|
                0 <= l < old_self.chains@.len() && 0 <= k < old_self.chains@[l].len() ==> #[trigger] old_self.chains@[l][k] != x,
            mid.live == old_self.live + 1,
            mid.live + mid.free_list@.len() == mid.nodes.len(),
            mid.capacity == old_self.capacity,
            new.capacity == mid.capacity,
            new.live == mid.live,
            new.free == mid.free,
            new.free_list == mid.free_list,
            new.chains@ == old_self.chains@.update(lane, seq![x] + old_self.chains@[lane]),
            new.owner@ == old_self.owner@.insert(x, lane),
            new.lanes@.len() == old_self.lanes@.len(),
            forall|l: int| 0 <= l < new.lanes@.len() && l != lane ==> new.lanes@[l] == old_self.lanes@[l],
            new.lanes@[lane].head == x,
            new.lanes@[lane].tail == (if old_self.chains@[lane].len() == 0 { x } else { old_self.lanes@[lane].tail }),
            new.lanes@[lane].len == old_self.lanes@[lane].len + 1,
            new.nodes.len() == mid.nodes.len(),
            new.nodes@ == mid.nodes@.update(x as int, Node { value: Some(value), next: old_self.lanes@[lane].head }),
        ensures
            new.wf(),
            new.lanes_view() =~~= old_self.lanes_view().update(lane, seq![value] + old_self.lanes_view()[lane]),
            {
            let c = old_self.chains@[lane];
            let c2 = seq![x] + c;
            let st = new.lanes@[lane];
            reveal(Lanes::wf); reveal(Lanes::lanes_view); reveal(linked); reveal(lane_ok);
            lemma_total_len_update(old_self.chains@, lane, c2);
            let n2 = new.nodes@;
            let changed = set![x];
            assert forall|j: int| 0 <= j < mid.nodes.len() && !changed.contains(j as u32) implies n2[j] == mid.nodes@[j] by {}
            assert forall|j: int| 0 <= j < old_self.nodes.len() && !changed.contains(j as u32) implies n2[j] == old_self.nodes@[j] by {}
            assert(linked(n2, c2, st.head, true)) by {
                assert forall|k: int| 0 <= k < c.len() implies n2[(#[trigger] c[k]) as int] == old_self.nodes@[c[k] as int] by {
                    assert(c[k] != x);
                }
                assert forall|k: int| 0 <= k < c2.len() implies (#[trigger] c2[k]) < n2.len() && (n2[c2[k] as int].value is Some) by {
                    if k > 0 {
                        assert(c2[k] == c[k - 1]);
                    }
                }
                assert forall|k: int| 0 <= k < c2.len() - 1 implies n2[(#[trigger] c2[k]) as int].next == c2[k + 1] by {
                    if k > 0 {
                        assert(c2[k] == c[k - 1]);
                    }
                }
                if c.len() > 0 {
                    assert(c2.last() == c.last());
                }
                assert(c2.no_duplicates()) by {
                    assert forall|i: int, j: int| 0 <= i < c2.len() && 0 <= j < c2.len() && i != j implies c2[i] != c2[j] by {
                        if i > 0 { assert(c2[i] == c[i - 1]); assert(c[i - 1] != x); }
                        if j > 0 { assert(c2[j] == c[j - 1]); assert(c[j - 1] != x); }
                    }
                }
            }
            assert(lane_ok(n2, c2, st));
            assert forall|l: int| 0 <= l < new.lanes.len() implies lane_ok(n2, #[trigger] new.chains@[l], new.lanes@[l]) by {
                if l != lane {
                    let cm = old_self.chains@[l];
                    assert(lane_ok(old_self.nodes@, cm, old_self.lanes@[l]));
                    assert forall|k: int| 0 <= k < cm.len() implies !changed.contains(#[trigger] cm[k]) by {}
                    Self::lemma_linked_frame(old_self.nodes@, n2, cm, old_self.lanes@[l].head, true, changed);
                }
            }
            assert(linked(n2, new.free_list@, new.free, false)) by {
                let f = new.free_list@;
                assert forall|k: int| 0 <= k < f.len() implies !changed.contains(#[trigger] f[k]) by {
                    if old_self.free_list@.len() > 0 {
                        assert(f[k] == old_self.free_list@[k + 1]);
                    }
                    assert(f[k] != x);
                }
                Self::lemma_linked_frame(mid.nodes@, n2, f, new.free, false, changed);
            }
            assert forall|l: int, k: int|
                0 <= l < new.chains@.len() && 0 <= k < new.chains@[l].len() implies new.owner@.contains_key(
                    #[trigger] new.chains@[l][k],
                ) && new.owner@[new.chains@[l][k]] == l by {
                if l == lane {
                    if k > 0 {
                        assert(new.chains@[l][k] == c[k - 1]);
                        assert(c[k - 1] != x);
                    }
                } else {
                    assert(old_self.chains@[l][k] != x);
                }
            }
            assert forall|k: int|
                0 <= k < new.free_list@.len() implies new.owner@.contains_key(#[trigger] new.free_list@[k])
                    && new.owner@[new.free_list@[k]] == -1 by {
                let f = new.free_list@;
                if old_self.free_list@.len() > 0 {
                    assert(f[k] == old_self.free_list@[k + 1]);
                }
            }
            
            assert(new.lanes_view() =~~= old_self.lanes_view().update(
                lane,
                seq![value] + old_self.lanes_view()[lane],
            )) by {
                assert forall|l: int, k: int| 0 <= l < new.chains@.len() && 0 <= k < new.chains@[l].len() && !(l == lane && k == 0)
                    implies n2[new.chains@[l][k] as int].value == old_self.nodes@[new.chains@[l][k] as int].value by {
                    let e = new.chains@[l][k];
                    if l == lane {
                        assert(e == c[k - 1]);
                        assert(old_self.chains@[l][k - 1] == e);
                    } else {
                        assert(old_self.chains@[l][k] == e);
                    }
                    assert(lane_ok(old_self.nodes@, old_self.chains@[l], old_self.lanes@[l]));
                    assert(e != x);
                }
            }
    }

    #[verifier::rlimit(60)]
    pub(crate) fn push_back(&mut self, lane: usize, value: T) -> (r: Result<(), T>)
        requires
            old(self).wf(),
            lane < old(self).lanes_view().len(),
        ensures
            final(self).wf(),
            final(self).capacity_spec() == old(self).capacity_spec(),
            old(self).live_spec() == old(self).capacity_spec() ==> r == Err::<(), T>(value)
                && *final(self) == *old(self),
            old(self).live_spec() < old(self).capacity_spec() ==> r is Ok
                && final(self).live_spec() == old(self).live_spec() + 1
                && final(self).lanes_view() =~~= old(self).lanes_view().update(
                    lane as int,
                    old(self).lanes_view()[lane as int].push(value),
                ),
    {
        
        proof {
            self.lemma_basic();
        }
        if self.live as usize == self.capacity {
            return Err(value);
        }
        let ghost old_self = *self;
        proof {
            self.lemma_lane(lane as int);
        }
        let x = self.allocate(value);
        let ghost mid = *self;
        let mut st = self.lanes[lane];
        let ghost c = old_self.chains@[lane as int];
        if st.tail == NONE {
            st.head = x;
        } else {
            proof {
                assert(c.len() > 0);
                assert(c.last() < old_self.nodes.len());
            }
            let t = st.tail as usize;
            self.nodes[t].next = x;
        }
        st.tail = x;
        st.len = st.len + 1;
        self.lanes[lane] = st;
        proof {
            let c2 = c.push(x);
            self.chains = Ghost(old_self.chains@.update(lane as int, c2));
            self.owner = Ghost(old_self.owner@.insert(x, lane as int));
            Self::lemma_push_back(old_self, mid, *self, lane as int, x, value);
        }
        Ok(())
    }

    pub(crate) fn push_front(&mut self, lane: usize, value: T) -> (r: Result<(), T>)
        requires
            old(self).wf(),
            lane < old(self).lanes_view().len(),
        ensures
            final(self).wf(),
            final(self).capacity_spec() == old(self).capacity_spec(),
            old(self).live_spec() == old(self).capacity_spec() ==> r == Err::<(), T>(value)
                && *final(self) == *old(self),
            old(self).live_spec() < old(self).capacity_spec() ==> r is Ok
                && final(self).live_spec() == old(self).live_spec() + 1
                && final(self).lanes_view() =~~= old(self).lanes_view().update(
                    lane as int,
                    seq![value] + old(self).lanes_view()[lane as int],
                ),
    {
        proof {
            self.lemma_basic();
        }
        if self.live as usize == self.capacity {
            return Err(value);
        }
        let ghost old_self = *self;
        proof {
            self.lemma_lane(lane as int);
        }
        let x = self.allocate(value);
        let ghost mid = *self;
        let mut st = self.lanes[lane];
        self.nodes[x as usize].next = st.head;
        st.head = x;
        if st.tail == NONE {
            st.tail = x;
        }
        st.len = st.len + 1;
        self.lanes[lane] = st;
        proof {
            let c = old_self.chains@[lane as int];
            self.chains = Ghost(old_self.chains@.update(lane as int, seq![x] + c));
            self.owner = Ghost(old_self.owner@.insert(x, lane as int));
            Self::lemma_push_front(old_self, mid, *self, lane as int, x, value);
        }
        Ok(())
    }

    proof fn lemma_pop_front(old_self: Self, new: Self, lane: int)
        requires
            old_self.wf(),
            0 <= lane < old_self.lanes.len(),
            old_self.chains@[lane].len() > 0,
            new.nodes@ == old_self.nodes@.update(
                old_self.chains@[lane][0] as int,
                Node { value: None, next: old_self.free },
            ),
            new.capacity == old_self.capacity,
            new.live == old_self.live - 1,
            new.free == old_self.chains@[lane][0],
            new.free_list@ == seq![old_self.chains@[lane][0]] + old_self.free_list@,
            new.chains@ == old_self.chains@.update(lane, old_self.chains@[lane].drop_first()),
            new.owner@ == old_self.owner@.insert(old_self.chains@[lane][0], -1),
            new.lanes@.len() == old_self.lanes@.len(),
            forall|l: int| 0 <= l < new.lanes@.len() && l != lane ==> new.lanes@[l] == old_self.lanes@[l],
            new.lanes@[lane].head == old_self.nodes@[old_self.chains@[lane][0] as int].next,
            new.lanes@[lane].tail == (if old_self.chains@[lane].len() == 1 { NONE } else { old_self.lanes@[lane].tail }),
            new.lanes@[lane].len == old_self.lanes@[lane].len - 1,
        ensures
            new.wf(),
            new.lanes_view() =~~= old_self.lanes_view().update(lane, old_self.lanes_view()[lane].drop_first()),
    {
        reveal(Lanes::wf); reveal(Lanes::lanes_view); reveal(linked); reveal(lane_ok);
        let c = old_self.chains@[lane];
        let x = c[0];
        let c2 = c.drop_first();
        let n2 = new.nodes@;
        let st = new.lanes@[lane];
        let f = old_self.free_list@;
        let f2 = new.free_list@;
        lemma_total_len_update(old_self.chains@, lane, c2);
        let changed = set![x];
        assert(old_self.owner@[x] == lane);
        assert(linked(n2, c2, st.head, true)) by {
            assert forall|k: int| 0 <= k < c2.len() implies (#[trigger] c2[k]) == c[k + 1] && c2[k] != x by {}
            assert forall|k: int| 0 <= k < c2.len() implies n2[(#[trigger] c2[k]) as int] == old_self.nodes@[c2[k] as int] by {
                assert(c2[k] == c[k + 1]);
            }
            assert forall|k: int| 0 <= k < c2.len() - 1 implies n2[(#[trigger] c2[k]) as int].next == c2[k + 1] by {
                assert(c2[k] == c[k + 1]);
            }
            if c2.len() > 0 {
                assert(c2.last() == c.last());
                assert(c2[0] == c[1]);
            }
        }
        assert(lane_ok(n2, c2, st));
        assert forall|l: int| 0 <= l < new.lanes.len() implies lane_ok(n2, #[trigger] new.chains@[l], new.lanes@[l]) by {
            if l != lane {
                let cm = old_self.chains@[l];
                assert(lane_ok(old_self.nodes@, cm, old_self.lanes@[l]));
                assert forall|k: int| 0 <= k < cm.len() implies !changed.contains(#[trigger] cm[k]) by {
                    assert(old_self.owner@[cm[k]] == l);
                }
                Self::lemma_linked_frame(old_self.nodes@, n2, cm, old_self.lanes@[l].head, true, changed);
            }
        }
        assert(linked(n2, f2, new.free, false)) by {
            assert forall|k: int| 0 <= k < f.len() implies (#[trigger] f[k]) != x by {
                assert(old_self.owner@[f[k]] == -1);
            }
            assert forall|k: int| 0 < k < f2.len() implies (#[trigger] f2[k]) == f[k - 1] by {}
            assert forall|k: int| 0 <= k < f.len() implies n2[(#[trigger] f[k]) as int] == old_self.nodes@[f[k] as int] by {}
            assert forall|k: int| 0 <= k < f2.len() implies (#[trigger] f2[k]) < n2.len() && (n2[f2[k] as int].value is Some <==> false) by {
                if k > 0 { assert(f2[k] == f[k - 1]); }
            }
            assert forall|k: int| 0 <= k < f2.len() - 1 implies n2[(#[trigger] f2[k]) as int].next == f2[k + 1] by {
                if k > 0 { assert(f2[k] == f[k - 1]); }
            }
            if f.len() > 0 {
                assert(f2.last() == f.last());
            }
            assert(f2.no_duplicates()) by {
                assert forall|i: int, j: int| 0 <= i < f2.len() && 0 <= j < f2.len() && i != j implies f2[i] != f2[j] by {
                    if i > 0 { assert(f2[i] == f[i - 1]); }
                    if j > 0 { assert(f2[j] == f[j - 1]); }
                }
            }
        }
        assert forall|l: int, k: int|
            0 <= l < new.chains@.len() && 0 <= k < new.chains@[l].len() implies new.owner@.contains_key(
                #[trigger] new.chains@[l][k],
            ) && new.owner@[new.chains@[l][k]] == l by {
            if l == lane {
                assert(new.chains@[l][k] == c[k + 1]);
            } else {
                assert(old_self.owner@[old_self.chains@[l][k]] == l);
            }
        }
        assert forall|k: int|
            0 <= k < f2.len() implies new.owner@.contains_key(#[trigger] f2[k]) && new.owner@[f2[k]] == -1 by {
            if k > 0 {
                assert(f2[k] == f[k - 1]);
            }
        }
        assert(new.lanes_view() =~~= old_self.lanes_view().update(lane, old_self.lanes_view()[lane].drop_first())) by {
            assert forall|l: int, k: int| 0 <= l < new.chains@.len() && 0 <= k < new.chains@[l].len()
                implies n2[new.chains@[l][k] as int] == old_self.nodes@[new.chains@[l][k] as int] by {
                let e = new.chains@[l][k];
                if l == lane {
                    assert(e == c[k + 1]);
                } else {
                    assert(old_self.owner@[old_self.chains@[l][k]] == l);
                }
            }
        }
    }

    pub(crate) fn pop_front(&mut self, lane: usize) -> (r: Option<T>)
        requires
            old(self).wf(),
            lane < old(self).lanes_view().len(),
        ensures
            final(self).wf(),
            final(self).capacity_spec() == old(self).capacity_spec(),
            old(self).lanes_view()[lane as int].len() == 0 ==> r is None && *final(self) == *old(self),
            old(self).lanes_view()[lane as int].len() > 0 ==> r == Some(old(self).lanes_view()[lane as int][0])
                && final(self).live_spec() == old(self).live_spec() - 1
                && final(self).lanes_view() =~~= old(self).lanes_view().update(
                    lane as int,
                    old(self).lanes_view()[lane as int].drop_first(),
                ),
    {
        proof {
            self.lemma_basic();
            self.lemma_lane(lane as int);
            self.lemma_view_lane(lane as int);
        }
        let mut st = self.lanes[lane];
        if st.head == NONE {
            return None;
        }
        let ghost old_self = *self;
        let x = st.head;
        let next = self.nodes[x as usize].next;
        st.head = next;
        st.len = st.len - 1;
        if next == NONE {
            st.tail = NONE;
        }
        self.lanes[lane] = st;
        let value = self.nodes[x as usize].value.take();
        self.nodes[x as usize].next = self.free;
        self.free = x;
        self.live = self.live - 1;
        proof {
            let c = old_self.chains@[lane as int];
            self.free_list = Ghost(seq![x] + old_self.free_list@);
            self.chains = Ghost(old_self.chains@.update(lane as int, c.drop_first()));
            self.owner = Ghost(old_self.owner@.insert(x, -1));
            assert(self.nodes@ =~= old_self.nodes@.update(x as int, Node { value: None, next: old_self.free }));
            Self::lemma_pop_front(old_self, *self, lane as int);
        }
        value
    }

    proof fn lemma_view_lane(&self, lane: int)
        requires
            self.wf(),
            0 <= lane < self.lanes.len(),
        ensures
            self.lanes_view()[lane].len() == self.chains@[lane].len(),
            self.chains@[lane].len() > 0 ==> self.nodes@[self.chains@[lane][0] as int].value == Some(self.lanes_view()[lane][0]),
            self.live >= self.chains@[lane].len(),
    {
        reveal(Lanes::wf); reveal(Lanes::lanes_view); reveal(linked); reveal(lane_ok);
        lemma_total_len_nonneg(self.chains@);
        if self.chains@[lane].len() > 0 {
            assert(self.chains@[lane][0] < self.nodes.len());
        }
    }
}

pub proof fn lemma_total_len_same_lengths<A, B>(s: Seq<Seq<A>>, t: Seq<Seq<B>>)
    requires
        s.len() == t.len(),
        forall|i: int| 0 <= i < s.len() ==> (#[trigger] s[i]).len() == t[i].len(),
    ensures
        total_len(s) == total_len(t),
    decreases s.len(),
{
    if s.len() > 0 {
        lemma_total_len_same_lengths(s.drop_last(), t.drop_last());
    }
}

} // verus!
