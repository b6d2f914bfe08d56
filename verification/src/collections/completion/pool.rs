//! The state shared by the completion arenas: groups of entries leased to one
//! owner at a time, each entry filled by a reservation and released once both
//! its owner and the external source are done with it.
use vstd::prelude::*;

use crate::collections::AllocationError;

verus! {

/// The most entry identities, and the most groups, an arena can name: each
/// is an address-sized index.
pub const ENTRY_LIMIT: usize = usize::MAX;

/// Where an entry lives: its group and its position there.
#[derive(Clone, Copy, PartialEq, Eq, Structural)]
pub struct Place {
    pub group: usize,
    pub entry: usize,
}

/// One completion entry.
pub struct EntryCell<T> {
    pub value: Option<T>,
    pub occupied: bool,
    /// The owner let go before the external completion arrived.
    pub detached: bool,
    /// The external source reported its final completion.
    pub terminal: bool,
    /// The next free entry of the group, while this one is free.
    pub next: Option<usize>,
    pub serial: u64,
    pub generation: u32,
}

/// A group of entries, leased to at most one owner at a time.
pub struct Group<T> {
    pub entries: Vec<EntryCell<T>>,
    /// The identity of the first entry.
    pub base: usize,
    pub free: Option<usize>,
    pub leased: bool,
    pub serial: u64,
}

/// The groups of an arena, the order in which they are scanned, and the
/// identity of every entry.
pub struct Pool<T> {
    groups: Vec<Option<Group<T>>>,
    order: Vec<usize>,
    directory: Vec<Option<Place>>,
    chains: Ghost<Map<int, Seq<usize>>>,
}

/// The group holds no occupied entry and no lease.
pub open spec fn quiescent_spec<T>(g: Group<T>) -> bool {
    &&& !g.leased
    &&& forall|e: int| 0 <= e < g.entries@.len() ==> !(#[trigger] g.entries@[e]).occupied
}

/// The number of entries of `s` whose generation is below `max`.
pub open spec fn count_below<T>(s: Seq<EntryCell<T>>, max: u32) -> nat
    decreases s.len(),
{
    if s.len() == 0 {
        0
    } else {
        count_below(s.drop_last(), max) + if s.last().generation < max { 1nat } else { 0nat }
    }
}

/// How a reservation marks the entry it fills.
#[derive(Clone, Copy, PartialEq, Eq, Structural)]
pub enum Stamp {
    /// No mark.
    Plain,
    /// The group's next nonzero serial.
    Serial,
    /// The entry's next generation; none is left after `u32::MAX`.
    Generation,
}

/// The serial after `s`, skipping zero.
pub open spec fn next_serial(s: u64) -> u64 {
    if s == u64::MAX {
        1
    } else {
        (s + 1) as u64
    }
}

/// An entry as a new group creates it.
pub open spec fn fresh_entry<T>() -> EntryCell<T> {
    EntryCell {
        value: None,
        occupied: false,
        detached: false,
        terminal: false,
        next: None,
        serial: 0,
        generation: 0,
    }
}

/// Scanning the groups `s` in order for a quiescent group of at least
/// `capacity` entries, preferring the smallest and the earliest among equals:
/// the group selected, the groups kept because they are busy, and the other
/// quiescent groups, both lists with the last scanned first.
pub open spec fn scan<T: Copy>(pool: Pool<T>, s: Seq<usize>, capacity: nat) -> (Option<usize>, Seq<usize>, Seq<usize>)
    decreases s.len(),
{
    if s.len() == 0 {
        (None, Seq::empty(), Seq::empty())
    } else {
        let (sel, ret, qui) = scan(pool, s.drop_last(), capacity);
        let g = s.last();
        if !quiescent_spec(pool.group(g as int)) {
            (sel, seq![g] + ret, qui)
        } else {
            let len = pool.group(g as int).entries@.len();
            let better = match sel {
                None => true,
                Some(h) => len < pool.group(h as int).entries@.len(),
            };
            if len >= capacity && better {
                (Some(g), ret, match sel {
                    None => qui,
                    Some(h) => seq![h] + qui,
                })
            } else {
                (sel, ret, seq![g] + qui)
            }
        }
    }
}

proof fn lemma_cons_contains(g: usize, s: Seq<usize>)
    ensures
        forall|x: usize| #[trigger] (seq![g] + s).contains(x) <==> (x == g || s.contains(x)),
{
    assert forall|x: usize| #[trigger] (seq![g] + s).contains(x) <==> (x == g || s.contains(x)) by {
        let t = seq![g] + s;
        if t.contains(x) {
            let k = choose|k: int| 0 <= k < t.len() && t[k] == x;
            if k > 0 {
                assert(s[k - 1] == x);
            }
        }
        if x == g {
            assert(t[0] == x);
        }
        if s.contains(x) {
            let k = choose|k: int| 0 <= k < s.len() && s[k] == x;
            assert(t[k + 1] == x);
        }
    }
}

proof fn lemma_cons_no_dup(g: usize, s: Seq<usize>)
    requires
        s.no_duplicates(),
        !s.contains(g),
    ensures
        (seq![g] + s).no_duplicates(),
{
    vstd::seq_lib::lemma_no_dup_in_concat(seq![g], s);
}

pub proof fn lemma_scan<T: Copy>(pool: Pool<T>, s: Seq<usize>, capacity: nat)
    requires
        s.no_duplicates(),
    ensures
        ({
            let (sel, ret, qui) = scan(pool, s, capacity);
            &&& forall|x: usize| s.contains(x) <==> (ret.contains(x) || qui.contains(x) || sel == Some(x))
            &&& ret.no_duplicates()
            &&& qui.no_duplicates()
            &&& forall|x: usize| ret.contains(x) ==> !qui.contains(x) && sel != Some(x)
            &&& forall|x: usize| qui.contains(x) ==> sel != Some(x)
            &&& forall|x: usize| ret.contains(x) ==> !quiescent_spec(pool.group(x as int))
            &&& forall|x: usize| qui.contains(x) ==> quiescent_spec(pool.group(x as int))
            &&& sel matches Some(h) ==> quiescent_spec(pool.group(h as int)) && pool.group(h as int).entries@.len() >= capacity
        }),
    decreases s.len(),
{
    if s.len() > 0 {
        let t = s.drop_last();
        let g = s.last();
        assert(t.no_duplicates());
        lemma_scan(pool, t, capacity);
        let (sel, ret, qui) = scan(pool, t, capacity);
        assert(!t.contains(g)) by {
            if t.contains(g) {
                let k = choose|k: int| 0 <= k < t.len() && t[k] == g;
                assert(s[k] == s[s.len() - 1]);
            }
        }
        assert forall|x: usize| s.contains(x) <==> (t.contains(x) || x == g) by {
            if s.contains(x) {
                let k = choose|k: int| 0 <= k < s.len() && s[k] == x;
                if k < s.len() - 1 {
                    assert(t[k] == x);
                }
            }
            if t.contains(x) {
                let k = choose|k: int| 0 <= k < t.len() && t[k] == x;
                assert(s[k] == x);
            }
        }
        lemma_cons_contains(g, ret);
        lemma_cons_contains(g, qui);
        if let Some(h) = sel {
            lemma_cons_contains(h, qui);
        }
        if !quiescent_spec(pool.group(g as int)) {
            lemma_cons_no_dup(g, ret);
        } else {
            let len = pool.group(g as int).entries@.len();
            let better = match sel {
                None => true,
                Some(h) => len < pool.group(h as int).entries@.len(),
            };
            if len >= capacity && better {
                if let Some(h) = sel {
                    lemma_cons_no_dup(h, qui);
                }
            } else {
                lemma_cons_no_dup(g, qui);
            }
        }
    }
}

proof fn lemma_reverse_concat_contains(q: Seq<usize>, r: Seq<usize>, x: usize)
    ensures
        (q.reverse() + r).contains(x) <==> (q.contains(x) || r.contains(x)),
{
    let t = q.reverse() + r;
    if t.contains(x) {
        let k = choose|k: int| 0 <= k < t.len() && t[k] == x;
        if k < q.len() {
            assert(q[q.len() - 1 - k] == x);
        } else {
            assert(r[k - q.len()] == x);
        }
    }
    if q.contains(x) {
        let k = choose|k: int| 0 <= k < q.len() && q[k] == x;
        assert(t[q.len() - 1 - k] == x);
    }
    if r.contains(x) {
        let k = choose|k: int| 0 <= k < r.len() && r[k] == x;
        assert(t[q.len() + k] == x);
    }
}

proof fn lemma_reverse_concat_no_dup(q: Seq<usize>, r: Seq<usize>)
    requires
        q.no_duplicates(),
        r.no_duplicates(),
        forall|x: usize| q.contains(x) ==> !r.contains(x),
    ensures
        (q.reverse() + r).no_duplicates(),
{
    let t = q.reverse() + r;
    assert forall|a: int, b: int| 0 <= a < t.len() && 0 <= b < t.len() && a != b implies t[a] != t[b] by {
        if a < q.len() && b < q.len() {
            assert(t[a] == q[q.len() - 1 - a]);
            assert(t[b] == q[q.len() - 1 - b]);
        } else if a >= q.len() && b >= q.len() {
            assert(t[a] == r[a - q.len()]);
            assert(t[b] == r[b - q.len()]);
        } else if a < q.len() {
            assert(q.contains(t[a]));
            assert(r.contains(t[b]));
        } else {
            assert(r.contains(t[a]));
            assert(q.contains(t[b]));
        }
    }
}

/// The group among `s` that a narrow arena leases for `capacity` entries: the
/// quiescent group with the fewest entries below generation `max` that has at
/// least `capacity` of them, the earliest among equals.
pub open spec fn pick_available<T: Copy>(pool: Pool<T>, s: Seq<usize>, capacity: nat, max: u32) -> Option<usize>
    decreases s.len(),
{
    if s.len() == 0 {
        None
    } else {
        let prev = pick_available(pool, s.drop_last(), capacity, max);
        let g = s.last();
        let avail = count_below(pool.group(g as int).entries@, max);
        let better = match prev {
            None => true,
            Some(h) => avail < count_below(pool.group(h as int).entries@, max),
        };
        if quiescent_spec(pool.group(g as int)) && avail >= capacity && better {
            Some(g)
        } else {
            prev
        }
    }
}

/// The group picked is one of `s`, quiescent, with enough entries left.
pub proof fn lemma_pick_available<T: Copy>(pool: Pool<T>, s: Seq<usize>, capacity: nat, max: u32)
    ensures
        pick_available(pool, s, capacity, max) matches Some(h) ==> s.contains(h) && quiescent_spec(pool.group(h as int))
            && count_below(pool.group(h as int).entries@, max) >= capacity,
    decreases s.len(),
{
    if s.len() > 0 {
        lemma_pick_available(pool, s.drop_last(), capacity, max);
        if let Some(h) = pick_available(pool, s.drop_last(), capacity, max) {
            let k = choose|k: int| 0 <= k < s.drop_last().len() && s.drop_last()[k] == h;
            assert(s[k] == h);
        }
        assert(s[s.len() - 1] == s.last());
    }
}

/// The free list a narrow arena gives a leased group: the last `remaining`
/// entries among the first `i` whose generation is below `max`, in index order.
pub open spec fn tail_pick<T>(s: Seq<EntryCell<T>>, i: int, remaining: nat, max: u32) -> Seq<usize>
    decreases i,
{
    if i <= 0 || remaining == 0 {
        Seq::empty()
    } else if s[i - 1].generation < max {
        tail_pick(s, i - 1, (remaining - 1) as nat, max).push((i - 1) as usize)
    } else {
        tail_pick(s, i - 1, remaining, max)
    }
}

proof fn lemma_tail_pick_bounds<T>(s: Seq<EntryCell<T>>, i: int, remaining: nat, max: u32)
    requires
        0 <= i <= s.len() <= usize::MAX,
    ensures
        forall|k: int| 0 <= k < tail_pick(s, i, remaining, max).len() ==> #[trigger] tail_pick(s, i, remaining, max)[k] < i
            && s[tail_pick(s, i, remaining, max)[k] as int].generation < max,
        forall|a: int, b: int| 0 <= a < b < tail_pick(s, i, remaining, max).len() ==> tail_pick(s, i, remaining, max)[a]
            < tail_pick(s, i, remaining, max)[b],
        tail_pick(s, i, remaining, max).len() == (if remaining <= count_below(s.subrange(0, i), max) {
            remaining
        } else {
            count_below(s.subrange(0, i), max)
        }),
    decreases i,
{
    if i > 0 {
        assert(s.subrange(0, i).drop_last() =~= s.subrange(0, i - 1));
        assert(s.subrange(0, i).last() == s[i - 1]);
    } else {
        assert(s.subrange(0, i).len() == 0);
    }
    if i > 0 && remaining > 0 {
        if s[i - 1].generation < max {
            lemma_tail_pick_bounds(s, i - 1, (remaining - 1) as nat, max);
            let t = tail_pick(s, i - 1, (remaining - 1) as nat, max);
            assert(tail_pick(s, i, remaining, max) == t.push((i - 1) as usize));
            assert forall|k: int| 0 <= k < t.len() + 1 implies #[trigger] t.push((i - 1) as usize)[k] < i
                && s[t.push((i - 1) as usize)[k] as int].generation < max by {
                if k < t.len() {
                    assert(t.push((i - 1) as usize)[k] == t[k]);
                }
            }
            assert forall|a: int, b: int| 0 <= a < b < t.len() + 1 implies #[trigger] t.push((i - 1) as usize)[a]
                < #[trigger] t.push((i - 1) as usize)[b] by {
                assert(t.push((i - 1) as usize)[a] == t[a]);
                if b < t.len() {
                    assert(t.push((i - 1) as usize)[b] == t[b]);
                }
            }
        } else {
            lemma_tail_pick_bounds(s, i - 1, remaining, max);
        }
    } else if i > 0 {
        lemma_tail_pick_bounds(s, i - 1, remaining, max);
    }
}

proof fn lemma_count_below_fresh<T>(n: nat, max: u32)
    requires
        max > 0,
    ensures
        count_below(Seq::new(n, |e: int| fresh_entry::<T>()), max) == n,
    decreases n,
{
    if n > 0 {
        assert(Seq::new(n, |e: int| fresh_entry::<T>()).drop_last() =~= Seq::new((n - 1) as nat, |e: int| fresh_entry::<T>()));
        lemma_count_below_fresh::<T>((n - 1) as nat, max);
    }
}

/// `after` is `before` with only entry `id` changed within its group: the
/// group stays live with its base, lease and serial, and every other group,
/// every free list but its group's, the directory and the scanning order
/// are as they were.
pub open spec fn changed_entry<T: Copy>(after: Pool<T>, before: Pool<T>, id: int) -> bool {
    let p = before.directory_view()[id]->0;
    let g = p.group as int;
    &&& after.order_view() == before.order_view()
    &&& after.directory_view() == before.directory_view()
    &&& after.groups_view().len() == before.groups_view().len()
    &&& forall|h: int| 0 <= h < before.groups_view().len() && h != g ==> #[trigger] after.groups_view()[h]
        == before.groups_view()[h]
    &&& forall|h: int| h != g ==> #[trigger] after.chain(h) == before.chain(h)
    &&& after.live(g)
    &&& after.group(g).entries@ == before.group(g).entries@.update(p.entry as int, after.entry_at(id))
    &&& after.group(g).base == before.group(g).base
    &&& after.group(g).leased == before.group(g).leased
    &&& after.group(g).serial == before.group(g).serial
}

/// `after` is `before` once the occupied entry `id` was released: emptied,
/// its serial and generation kept, and back at the front of its group's free
/// list, unless `retire_at` is its generation and it retires.
pub open spec fn released_from<T: Copy>(after: Pool<T>, before: Pool<T>, id: int, retire_at: Option<u32>) -> bool {
    let p = before.directory_view()[id]->0;
    let cell = before.entry_at(id);
    &&& changed_entry(after, before, id)
    &&& after.entry_at(id) == (EntryCell {
        value: None,
        occupied: false,
        detached: false,
        terminal: false,
        next: after.entry_at(id).next,
        ..cell
    })
    &&& retire_at == Some(cell.generation) ==> after.chain(p.group as int) == before.chain(p.group as int)
    &&& retire_at != Some(cell.generation) ==> after.chain(p.group as int) == seq![p.entry] + before.chain(
        p.group as int,
    )
}

/// A release after a change of the same entry, with the free lists, serial
/// and generation kept, is a release of the entry as it first was.
pub proof fn lemma_release_after_change<T: Copy>(a: Pool<T>, b: Pool<T>, c: Pool<T>, id: int, retire_at: Option<u32>)
    requires
        a.wf(),
        a.named(id),
        changed_entry(b, a, id),
        forall|h: int| #[trigger] b.chain(h) == a.chain(h),
        b.entry_at(id).serial == a.entry_at(id).serial,
        b.entry_at(id).generation == a.entry_at(id).generation,
        released_from(c, b, id, retire_at),
    ensures
        released_from(c, a, id, retire_at),
{
    let p = a.directory_view()[id]->0;
    let g = p.group as int;
    a.lemma_wf();
    assert(c.group(g).entries@ =~= a.group(g).entries@.update(p.entry as int, c.entry_at(id)));
    assert forall|h: int| 0 <= h < a.groups_view().len() && h != g implies #[trigger] c.groups_view()[h] == a.groups_view()[h] by {
        assert(b.groups_view()[h] == a.groups_view()[h]);
    }
    assert forall|h: int| h != g implies #[trigger] c.chain(h) == a.chain(h) by {
        assert(b.chain(h) == a.chain(h));
    }
}

/// An entry just released: free, with no value or flags.
pub open spec fn cleared<T>(e: EntryCell<T>, next: Option<usize>) -> EntryCell<T> {
    EntryCell { value: None, occupied: false, detached: false, terminal: false, next, ..e }
}

impl<T: Copy> Pool<T> {
    pub closed spec fn groups_view(&self) -> Seq<Option<Group<T>>> {
        self.groups@
    }

    /// The live groups, in scanning order.
    pub closed spec fn order_view(&self) -> Seq<usize> {
        self.order@
    }

    /// Where each entry identity lives, while its group does.
    pub closed spec fn directory_view(&self) -> Seq<Option<Place>> {
        self.directory@
    }

    /// The free entries of group `g`, the next one reserved first.
    pub closed spec fn chain(&self, g: int) -> Seq<usize> {
        self.chains@[g]
    }

    pub open spec fn live(&self, g: int) -> bool {
        0 <= g < self.groups_view().len() && self.groups_view()[g] is Some
    }

    pub open spec fn group(&self, g: int) -> Group<T> {
        self.groups_view()[g]->0
    }

    /// The entry an identity names, when its group is live.
    pub open spec fn entry_at(&self, id: int) -> EntryCell<T> {
        let p = self.directory_view()[id]->0;
        self.group(p.group as int).entries@[p.entry as int]
    }

    pub open spec fn named(&self, id: int) -> bool {
        0 <= id < self.directory_view().len() && self.directory_view()[id] is Some
    }

    pub closed spec fn wf(&self) -> bool {
        let d = self.directory@;
        &&& d.len() <= ENTRY_LIMIT
        &&& self.groups@.len() <= ENTRY_LIMIT
        &&& forall|f: int|
            0 <= f < d.len() && #[trigger] d[f] is Some ==> {
                let p = d[f]->0;
                &&& self.live(p.group as int)
                &&& p.entry < self.group(p.group as int).entries@.len()
                &&& self.group(p.group as int).base + p.entry == f
            }
        &&& forall|g: int| #[trigger] self.live(g) ==> self.group(g).base + self.group(g).entries@.len() <= d.len()
        &&& forall|g: int, e: int|
            self.live(g) && 0 <= e < self.group(g).entries@.len() ==> self.group(g).base + e < d.len()
                && #[trigger] d[self.group(g).base + e] == Some(Place { group: g as usize, entry: e as usize })
        &&& self.order@.no_duplicates()
        &&& forall|k: int| 0 <= k < self.order@.len() ==> self.live(#[trigger] self.order@[k] as int)
        &&& forall|g: int| self.live(g) ==> self.order@.contains(g as usize)
        &&& forall|g: int, e: int|
            self.live(g) && 0 <= e < self.group(g).entries@.len() && (#[trigger] self.group(g).entries@[e]).occupied
                ==> self.group(g).entries@[e].value is Some
        &&& forall|g: int| self.live(g) ==> #[trigger] self.chain_ok(g)
    }

    closed spec fn chain_ok(&self, g: int) -> bool {
        let c = self.chains@[g];
        let grp = self.group(g);
        &&& self.chains@.dom().contains(g)
        &&& c.no_duplicates()
        &&& grp.free == (if c.len() == 0 { None } else { Some(c[0]) })
        &&& forall|k: int| 0 <= k < c.len() ==> #[trigger] c[k] < grp.entries@.len()
        &&& forall|k: int| 0 <= k < c.len() ==> !grp.entries@[#[trigger] c[k] as int].occupied
        &&& forall|k: int| 0 <= k < c.len() ==> grp.entries@[#[trigger] c[k] as int].next == (if k + 1 < c.len() {
            Some(c[k + 1])
        } else {
            None
        })
    }

    pub fn new() -> (p: Self)
        ensures
            p.wf(),
            p.groups_view().len() == 0,
            p.order_view().len() == 0,
            p.directory_view().len() == 0,
    {
        Pool { groups: Vec::new(), order: Vec::new(), directory: Vec::new(), chains: Ghost(Map::empty()) }
    }

    pub fn group_len(&self, g: usize) -> (n: usize)
        requires
            self.live(g as int),
        ensures
            n == self.group(g as int).entries@.len(),
    {
        self.groups[g].as_ref().unwrap().entries.len()
    }

    pub fn order_len(&self) -> (n: usize)
        ensures
            n == self.order_view().len(),
    {
        self.order.len()
    }

    pub fn order_at(&self, k: usize) -> (g: usize)
        requires
            k < self.order_view().len(),
        ensures
            g == self.order_view()[k as int],
    {
        self.order[k]
    }

    /// Whether group `g` holds no occupied entry and no lease.
    pub fn is_quiescent(&self, g: usize) -> (b: bool)
        requires
            self.live(g as int),
        ensures
            b == quiescent_spec(self.group(g as int)),
    {
        let group = self.groups[g].as_ref().unwrap();
        if group.leased {
            return false;
        }
        let mut i: usize = 0;
        while i < group.entries.len()
            invariant
                group == self.group(g as int),
                !group.leased,
                i <= group.entries@.len(),
                forall|e: int| 0 <= e < i ==> !(#[trigger] group.entries@[e]).occupied,
            decreases group.entries@.len() - i,
        {
            if group.entries[i].occupied {
                return false;
            }
            i = i + 1;
        }
        true
    }

    /// The number of entries of group `g` whose generation is below `max`.
    pub fn available(&self, g: usize, max: u32) -> (n: usize)
        requires
            self.live(g as int),
        ensures
            n == count_below(self.group(g as int).entries@, max),
    {
        let group = self.groups[g].as_ref().unwrap();
        let mut n: usize = 0;
        let mut i: usize = 0;
        while i < group.entries.len()
            invariant
                group == self.group(g as int),
                i <= group.entries@.len(),
                n == count_below(group.entries@.subrange(0, i as int), max),
                n <= i,
            decreases group.entries@.len() - i,
        {
            proof {
                assert(group.entries@.subrange(0, i + 1).drop_last() =~= group.entries@.subrange(0, i as int));
            }
            if group.entries[i].generation < max {
                n = n + 1;
            }
            i = i + 1;
        }
        proof {
            assert(group.entries@.subrange(0, i as int) =~= group.entries@);
        }
        n
    }

    /// Adds a group of `capacity` new entries at the front of the scanning
    /// order, naming them with the next identities.
    pub fn new_group(&mut self, capacity: usize) -> (r: Result<usize, AllocationError>)
        requires
            old(self).wf(),
        ensures
            final(self).wf(),
            r is Err ==> *final(self) == *old(self),
            r matches Err(e) ==> (e == AllocationError::Overflow <==> (old(self).directory_view().len() + capacity
                > ENTRY_LIMIT || old(self).groups_view().len() >= ENTRY_LIMIT)),
            r matches Ok(g) ==> {
                &&& old(self).directory_view().len() + capacity <= ENTRY_LIMIT
                &&& old(self).groups_view().len() < ENTRY_LIMIT
                &&& g == old(self).groups_view().len()
                &&& final(self).groups_view().len() == g + 1
                &&& forall|h: int| 0 <= h < g ==> #[trigger] final(self).groups_view()[h] == old(self).groups_view()[h]
                &&& final(self).live(g as int)
                &&& final(self).group(g as int).entries@ == Seq::new(capacity as nat, |e: int| fresh_entry::<T>())
                &&& final(self).group(g as int).base == old(self).directory_view().len()
                &&& final(self).group(g as int).free is None
                &&& !final(self).group(g as int).leased
                &&& final(self).group(g as int).serial == 0
                &&& final(self).order_view() == seq![g] + old(self).order_view()
                &&& final(self).directory_view().len() == old(self).directory_view().len() + capacity
                &&& forall|f: int| 0 <= f < old(self).directory_view().len() ==> #[trigger] final(self).directory_view()[f]
                    == old(self).directory_view()[f]
                &&& forall|h: int| old(self).live(h) ==> #[trigger] final(self).chain(h) == old(self).chain(h)
                &&& final(self).chain(g as int) == Seq::<usize>::empty()
            },
    {
        let required = match self.directory.len().checked_add(capacity) {
            Some(n) => n,
            None => return Err(AllocationError::Overflow),
        };
        if required > ENTRY_LIMIT || self.groups.len() >= ENTRY_LIMIT {
            return Err(AllocationError::Overflow);
        }
        let mut entries: Vec<EntryCell<T>> = Vec::new();
        if entries.try_reserve(capacity).is_err() {
            return Err(AllocationError::Exhausted);
        }
        let mut i: usize = 0;
        while i < capacity
            invariant
                i <= capacity,
                entries@ == Seq::new(i as nat, |e: int| fresh_entry::<T>()),
            decreases capacity - i,
        {
            entries.push(EntryCell {
                value: None,
                occupied: false,
                detached: false,
                terminal: false,
                next: None,
                serial: 0,
                generation: 0,
            });
            i = i + 1;
            proof {
                assert(entries@ =~= Seq::new(i as nat, |e: int| fresh_entry::<T>()));
            }
        }
        let g = self.groups.len();
        let base = self.directory.len();
        let ghost old_directory = self.directory@;
        let mut j: usize = 0;
        while j < capacity
            invariant
                j <= capacity,
                base == old_directory.len(),
                base + capacity <= ENTRY_LIMIT,
                self.directory@.len() == base + j,
                forall|f: int| 0 <= f < base ==> #[trigger] self.directory@[f] == old_directory[f],
                forall|e: int| 0 <= e < j ==> #[trigger] self.directory@[base + e] == Some(Place { group: g, entry: e as usize }),
                self.groups == old(self).groups,
                self.order == old(self).order,
                self.chains == old(self).chains,
                old_directory == old(self).directory@,
            decreases capacity - j,
        {
            self.directory.push(Some(Place { group: g, entry: j }));
            j = j + 1;
        }
        self.groups.push(Some(Group { entries, base, free: None, leased: false, serial: 0 }));
        self.order.insert(0, g);
        self.chains = Ghost(self.chains@.insert(g as int, Seq::empty()));
        proof {
            assert(self.group(g as int).entries@ == Seq::new(capacity as nat, |e: int| fresh_entry::<T>()));
            assert forall|e: int| 0 <= e < capacity implies !(#[trigger] self.group(g as int).entries@[e]).occupied by {
                assert(self.group(g as int).entries@[e] == fresh_entry::<T>());
            }
            let d = self.directory@;
            assert forall|f: int| 0 <= f < d.len() && #[trigger] d[f] is Some implies ({
                let p = d[f]->0;
                &&& self.live(p.group as int)
                &&& p.entry < self.group(p.group as int).entries@.len()
                &&& self.group(p.group as int).base + p.entry == f
            }) by {
                if f < base {
                    assert(old(self).directory@[f] is Some);
                    assert(d[f] == old(self).directory@[f]);
                } else {
                    assert(d[base + (f - base)] == Some(Place { group: g, entry: (f - base) as usize }));
                }
            }
            assert forall|h: int, e: int| self.live(h) && 0 <= e < self.group(h).entries@.len() implies self.group(h).base + e
                < d.len() && #[trigger] d[self.group(h).base + e] == Some(Place { group: h as usize, entry: e as usize }) by {
                if h < g {
                    assert(old(self).live(h));
                    assert(old(self).directory@[old(self).group(h).base + e] == Some(Place { group: h as usize, entry: e as usize }));
                } else {
                    assert(d[base + e] == Some(Place { group: g, entry: e as usize }));
                }
            }
            assert(!old(self).order@.contains(g)) by {
                if old(self).order@.contains(g) {
                    let k = choose|k: int| 0 <= k < old(self).order@.len() && old(self).order@[k] == g;
                    assert(old(self).live(old(self).order@[k] as int));
                }
            }
            assert(self.order@ =~= seq![g] + old(self).order@);
            vstd::seq_lib::lemma_no_dup_in_concat(seq![g], old(self).order@);
            assert forall|k: int| 0 <= k < self.order@.len() implies self.live(#[trigger] self.order@[k] as int) by {
                if k > 0 {
                    assert(self.order@[k] == old(self).order@[k - 1]);
                    assert(old(self).live(old(self).order@[k - 1] as int));
                }
            }
            assert forall|h: int| self.live(h) implies self.order@.contains(h as usize) by {
                if h < g {
                    assert(old(self).live(h));
                    assert(old(self).order@.contains(h as usize));
                    let k = choose|k: int| 0 <= k < old(self).order@.len() && old(self).order@[k] == h as usize;
                    assert(self.order@[k + 1] == h as usize);
                } else {
                    assert(self.order@[0] == g);
                }
            }
            assert forall|h: int, e: int| self.live(h) && 0 <= e < self.group(h).entries@.len() && (#[trigger] self.group(h).entries@[e]).occupied
                implies self.group(h).entries@[e].value is Some by {
                if h < g {
                    assert(old(self).live(h));
                    assert(self.groups@[h] == old(self).groups@[h]);
                    assert(old(self).group(h).entries@[e].occupied);
                } else {
                    assert(self.group(h).entries@ == Seq::new(capacity as nat, |e: int| fresh_entry::<T>()));
                    assert(self.group(h).entries@[e] == fresh_entry::<T>());
                }
            }
            assert forall|h: int| self.live(h) implies #[trigger] self.chain_ok(h) by {
                if h < g {
                    assert(old(self).live(h));
                    assert(old(self).chain_ok(h));
                }
            }
        }
        Ok(g)
    }

    /// Frees group `g`, forgetting its entries' identities.
    pub fn drop_group(&mut self, g: usize)
        requires
            old(self).wf(),
            old(self).live(g as int),
        ensures
            final(self).wf(),
            !final(self).live(g as int),
            final(self).groups_view().len() == old(self).groups_view().len(),
            forall|h: int| 0 <= h < old(self).groups_view().len() && h != g ==> #[trigger] final(self).groups_view()[h]
                == old(self).groups_view()[h],
            forall|h: int| old(self).live(h) && h != g ==> #[trigger] final(self).chain(h) == old(self).chain(h),
            forall|x: usize| #[trigger] final(self).order_view().contains(x) <==> (old(self).order_view().contains(x) && x != g),
            final(self).directory_view().len() == old(self).directory_view().len(),
            forall|f: int| 0 <= f < old(self).directory_view().len() ==> #[trigger] final(self).directory_view()[f] == (
            if old(self).directory_view()[f] is Some && old(self).directory_view()[f]->0.group == g {
                None
            } else {
                old(self).directory_view()[f]
            }),
    {
        proof {
            assert(self.order@.contains(g));
        }
        let n = self.order.len();
        let mut k: usize = 0;
        while self.order[k] != g
            invariant
                *self == *old(self),
                n == self.order@.len(),
                0 <= k < self.order@.len(),
                self.order@.contains(g),
                forall|j: int| 0 <= j < k ==> self.order@[j] != g,
            decreases self.order@.len() - k,
        {
            k = k + 1;
            proof {
                if k == self.order@.len() {
                    let j = choose|j: int| 0 <= j < self.order@.len() && self.order@[j] == g;
                    assert(false);
                }
            }
        }
        let ghost old_order = self.order@;
        self.order.remove(k);
        let ghost order_after = self.order@;
        proof {
            assert forall|x: usize| #[trigger] order_after.contains(x) <==> (old_order.contains(x) && x != g) by {
                if self.order@.contains(x) {
                    let j = choose|j: int| 0 <= j < self.order@.len() && self.order@[j] == x;
                    if j < k {
                        assert(old_order[j] == x);
                    } else {
                        assert(old_order[j + 1] == x);
                    }
                    assert(old_order.no_duplicates());
                }
                if old_order.contains(x) && x != g {
                    let j = choose|j: int| 0 <= j < old_order.len() && old_order[j] == x;
                    if j < k {
                        assert(self.order@[j] == x);
                    } else {
                        assert(j != k);
                        assert(self.order@[j - 1] == x);
                    }
                }
            }
            assert(self.order@.no_duplicates()) by {
                assert forall|a: int, b: int| 0 <= a < self.order@.len() && 0 <= b < self.order@.len() && a != b implies self.order@[a]
                    != self.order@[b] by {
                    let a2 = if a < k { a } else { a + 1 };
                    let b2 = if b < k { b } else { b + 1 };
                    assert(self.order@[a] == old_order[a2]);
                    assert(self.order@[b] == old_order[b2]);
                }
            }
        }
        let group = self.groups[g].take().unwrap();
        proof {
            assert(self.groups@ =~= old(self).groups@.update(g as int, None));
        }
        let base = group.base;
        let len = group.entries.len();
        let mut e: usize = 0;
        while e < len
            invariant
                e <= len,
                self.directory@.len() <= ENTRY_LIMIT,
                self.groups@ == old(self).groups@.update(g as int, None),
                self.order@ == order_after,
                self.chains == old(self).chains,
                len == group.entries@.len(),
                base == group.base,
                base + len <= self.directory@.len(),
                self.directory@.len() == old(self).directory@.len(),
                group == old(self).group(g as int),
                forall|f: int| 0 <= f < self.directory@.len() ==> #[trigger] self.directory@[f] == (
                if base <= f < base + e { None } else { old(self).directory@[f] }),
            decreases len - e,
        {
            self.directory[base + e] = None;
            e = e + 1;
        }
        proof {
            let d = self.directory@;
            let od = old(self).directory@;
            assert forall|f: int| 0 <= f < od.len() implies #[trigger] d[f] == (if od[f] is Some && od[f]->0.group == g {
                None
            } else {
                od[f]
            }) by {
                if base <= f < base + len {
                    assert(od[base + (f - base)] == Some(Place { group: g, entry: (f - base) as usize }));
                } else if od[f] is Some && od[f]->0.group == g {
                    let p = od[f]->0;
                    assert(old(self).group(g as int).base + p.entry == f);
                }
            }
            assert forall|f: int| 0 <= f < d.len() && #[trigger] d[f] is Some implies ({
                let p = d[f]->0;
                &&& self.live(p.group as int)
                &&& p.entry < self.group(p.group as int).entries@.len()
                &&& self.group(p.group as int).base + p.entry == f
            }) by {
                assert(od[f] is Some);
                let p = od[f]->0;
                assert(p.group != g);
                assert(old(self).live(p.group as int));
                assert(self.groups@[p.group as int] == old(self).groups@[p.group as int]);
            }
            assert forall|h: int, e2: int| self.live(h) && 0 <= e2 < self.group(h).entries@.len() implies self.group(h).base + e2
                < d.len() && #[trigger] d[self.group(h).base + e2] == Some(Place { group: h as usize, entry: e2 as usize }) by {
                assert(h != g);
                assert(old(self).live(h));
                assert(self.groups@[h] == old(self).groups@[h]);
                let f = old(self).group(h).base + e2;
                assert(od[f] == Some(Place { group: h as usize, entry: e2 as usize }));
                assert(d[f] == (if od[f] is Some && od[f]->0.group == g { None } else { od[f] }));
            }
            assert forall|h: int| #[trigger] self.live(h) implies self.group(h).base + self.group(h).entries@.len() <= d.len() by {
                assert(old(self).live(h));
                assert(self.groups@[h] == old(self).groups@[h]);
            }
            assert forall|j: int| 0 <= j < self.order@.len() implies self.live(#[trigger] self.order@[j] as int) by {
                assert(self.order@.contains(self.order@[j]));
                let jj = choose|jj: int| 0 <= jj < old_order.len() && old_order[jj] == self.order@[j];
                assert(old_order == old(self).order@);
                assert(old(self).live(old(self).order@[jj] as int));
            }
            assert forall|h: int| self.live(h) implies self.order@.contains(h as usize) by {
                assert(old(self).live(h));
                assert(old_order == old(self).order@);
                assert(old_order.contains(h as usize));
                assert(order_after.contains(h as usize));
            }
            assert forall|h: int, e2: int| self.live(h) && 0 <= e2 < self.group(h).entries@.len() && (#[trigger] self.group(h).entries@[e2]).occupied
                implies self.group(h).entries@[e2].value is Some by {
                assert(old(self).live(h));
                assert(old(self).group(h).entries@[e2].occupied);
            }
            assert forall|h: int| self.live(h) implies #[trigger] self.chain_ok(h) by {
                assert(old(self).live(h));
                assert(old(self).chain_ok(h));
            }
        }
    }

    /// Leases group `g`, making its first `capacity` entries its free list in
    /// index order.
    pub fn prepare_prefix(&mut self, g: usize, capacity: usize)
        requires
            old(self).wf(),
            old(self).live(g as int),
            capacity <= old(self).group(g as int).entries@.len(),
            forall|e: int| 0 <= e < capacity ==> !(#[trigger] old(self).group(g as int).entries@[e]).occupied,
        ensures
            final(self).wf(),
            final(self).groups_view().len() == old(self).groups_view().len(),
            forall|h: int| 0 <= h < old(self).groups_view().len() && h != g ==> #[trigger] final(self).groups_view()[h]
                == old(self).groups_view()[h],
            forall|h: int| old(self).live(h) && h != g ==> #[trigger] final(self).chain(h) == old(self).chain(h),
            final(self).live(g as int),
            final(self).group(g as int).leased,
            final(self).group(g as int).base == old(self).group(g as int).base,
            final(self).group(g as int).serial == old(self).group(g as int).serial,
            final(self).group(g as int).entries@.len() == old(self).group(g as int).entries@.len(),
            forall|e: int| 0 <= e < old(self).group(g as int).entries@.len() ==> #[trigger] final(self).group(g as int).entries@[e]
                == (if e < capacity {
                EntryCell {
                    next: if e + 1 < capacity { Some((e + 1) as usize) } else { None },
                    ..old(self).group(g as int).entries@[e]
                }
            } else {
                old(self).group(g as int).entries@[e]
            }),
            final(self).chain(g as int) == Seq::new(capacity as nat, |i: int| i as usize),
            final(self).order_view() == old(self).order_view(),
            final(self).directory_view() == old(self).directory_view(),
    {
        let mut group = self.groups[g].take().unwrap();
        let ghost before = group;
        let mut i: usize = 0;
        while i < capacity
            invariant
                i <= capacity,
                capacity <= group.entries@.len(),
                group.entries@.len() == before.entries@.len(),
                group.base == before.base,
                group.serial == before.serial,
                group.leased == before.leased,
                forall|e: int| 0 <= e < group.entries@.len() ==> #[trigger] group.entries@[e] == (if e < i {
                    EntryCell { next: if e + 1 < capacity { Some((e + 1) as usize) } else { None }, ..before.entries@[e] }
                } else {
                    before.entries@[e]
                }),
            decreases capacity - i,
        {
            let next = if i + 1 < capacity {
                Some(i + 1)
            } else {
                None
            };
            group.entries[i].next = next;
            i = i + 1;
        }
        group.free = if capacity > 0 {
            Some(0)
        } else {
            None
        };
        group.leased = true;
        self.groups[g] = Some(group);
        let ghost chain = Seq::new(capacity as nat, |i: int| i as usize);
        self.chains = Ghost(self.chains@.insert(g as int, chain));
        proof {
            assert(self.group(g as int) == group);
            assert forall|h: int, e: int| self.live(h) && 0 <= e < self.group(h).entries@.len() && (#[trigger] self.group(h).entries@[e]).occupied
                implies self.group(h).entries@[e].value is Some by {
                assert(old(self).live(h));
                assert(old(self).group(h).entries@[e].occupied);
            }
            assert forall|h: int| self.live(h) implies #[trigger] self.chain_ok(h) by {
                if h != g {
                    assert(old(self).chain_ok(h));
                } else {
                    assert forall|k: int| 0 <= k < chain.len() implies group.entries@[#[trigger] chain[k] as int].next == (if k
                        + 1 < chain.len() {
                        Some(chain[k + 1])
                    } else {
                        None
                    }) by {
                        assert(chain[k] as int == k);
                    }
                    assert forall|k: int| 0 <= k < chain.len() implies !group.entries@[#[trigger] chain[k] as int].occupied by {
                        assert(chain[k] as int == k);
                        assert(!before.entries@[k].occupied);
                    }
                    assert forall|a: int, b: int| 0 <= a < chain.len() && 0 <= b < chain.len() && a != b implies chain[a] != chain[b] by {
                    }
                }
            }
            let d = self.directory@;
            assert forall|f: int| 0 <= f < d.len() && #[trigger] d[f] is Some implies ({
                let p = d[f]->0;
                &&& self.live(p.group as int)
                &&& p.entry < self.group(p.group as int).entries@.len()
                &&& self.group(p.group as int).base + p.entry == f
            }) by {
            }
            assert forall|h: int, e2: int| self.live(h) && 0 <= e2 < self.group(h).entries@.len() implies self.group(h).base + e2
                < d.len() && #[trigger] d[self.group(h).base + e2] == Some(Place { group: h as usize, entry: e2 as usize }) by {
                assert(old(self).live(h));
                assert(old(self).directory@[old(self).group(h).base + e2] == Some(Place { group: h as usize, entry: e2 as usize }));
            }
            assert forall|h: int| #[trigger] self.live(h) implies self.group(h).base + self.group(h).entries@.len() <= d.len() by {
                assert(old(self).live(h));
            }
            assert forall|k: int| 0 <= k < self.order@.len() implies self.live(#[trigger] self.order@[k] as int) by {
                assert(old(self).live(self.order@[k] as int));
            }
            assert forall|h: int| self.live(h) implies self.order@.contains(h as usize) by {
                assert(old(self).live(h));
            }
        }
    }

    /// Leases the quiescent group `g`, making its free list the last
    /// `capacity` entries whose generation is below `max`, in index order.
    pub fn prepare_eligible(&mut self, g: usize, capacity: usize, max: u32)
        requires
            old(self).wf(),
            old(self).live(g as int),
            quiescent_spec(old(self).group(g as int)),
            capacity <= count_below(old(self).group(g as int).entries@, max),
        ensures
            final(self).wf(),
            final(self).groups_view().len() == old(self).groups_view().len(),
            forall|h: int| 0 <= h < old(self).groups_view().len() && h != g ==> #[trigger] final(self).groups_view()[h]
                == old(self).groups_view()[h],
            forall|h: int| old(self).live(h) && h != g ==> #[trigger] final(self).chain(h) == old(self).chain(h),
            final(self).live(g as int),
            final(self).group(g as int).leased,
            final(self).group(g as int).base == old(self).group(g as int).base,
            final(self).group(g as int).serial == old(self).group(g as int).serial,
            final(self).group(g as int).entries@.len() == old(self).group(g as int).entries@.len(),
            ({
                let before = old(self).group(g as int).entries@;
                let c = final(self).chain(g as int);
                &&& c == tail_pick(before, before.len() as int, capacity as nat, max)
                &&& c.len() == capacity
                &&& forall|k: int| 0 <= k < c.len() ==> #[trigger] final(self).group(g as int).entries@[c[k] as int]
                    == (EntryCell { next: if k + 1 < c.len() { Some(c[k + 1]) } else { None }, ..before[c[k] as int] })
                &&& forall|e: int| 0 <= e < before.len() && !c.contains(e as usize) ==> #[trigger] final(self).group(
                    g as int,
                ).entries@[e] == before[e]
            }),
            final(self).order_view() == old(self).order_view(),
            final(self).directory_view() == old(self).directory_view(),
    {
        let mut group = self.groups[g].take().unwrap();
        let ghost before = group;
        let ghost total = tail_pick(before.entries@, before.entries@.len() as int, capacity as nat, max);
        proof {
            lemma_tail_pick_bounds(before.entries@, before.entries@.len() as int, capacity as nat, max);
            assert(before.entries@.subrange(0, before.entries@.len() as int) =~= before.entries@);
        }
        let mut i: usize = group.entries.len();
        let mut remaining: usize = capacity;
        let mut next: Option<usize> = None;
        let ghost mut cur: Seq<usize> = Seq::empty();
        while i > 0
            invariant
                i <= group.entries@.len(),
                group.entries@.len() == before.entries@.len(),
                before.entries@.len() <= usize::MAX,
                group.base == before.base,
                group.serial == before.serial,
                group.leased == before.leased,
                remaining <= capacity,
                total == tail_pick(before.entries@, i as int, remaining as nat, max) + cur,
                next == (if cur.len() == 0 { None } else { Some(cur[0]) }),
                forall|k: int| 0 <= k < cur.len() ==> i <= #[trigger] cur[k] < group.entries@.len(),
                forall|a: int, b: int| 0 <= a < b < cur.len() ==> #[trigger] cur[a] < #[trigger] cur[b],
                forall|k: int| 0 <= k < cur.len() ==> #[trigger] group.entries@[cur[k] as int] == (EntryCell {
                    next: if k + 1 < cur.len() { Some(cur[k + 1]) } else { None },
                    ..before.entries@[cur[k] as int]
                }),
                forall|e: int| 0 <= e < group.entries@.len() && !cur.contains(e as usize) ==> #[trigger] group.entries@[e]
                    == before.entries@[e],
            decreases i,
        {
            let j = i - 1;
            if remaining != 0 && group.entries[j].generation < max {
                proof {
                    let t = tail_pick(before.entries@, j as int, (remaining - 1) as nat, max);
                    assert(tail_pick(before.entries@, i as int, remaining as nat, max) == t.push(j));
                    assert(t.push(j) + cur =~= t + (seq![j] + cur));
                }
                group.entries[j].next = next;
                next = Some(j);
                remaining = remaining - 1;
                proof {
                    let old_cur = cur;
                    cur = seq![j] + cur;
                    assert forall|e: int| 0 <= e < group.entries@.len() && !cur.contains(e as usize) implies #[trigger] group.entries@[e]
                        == before.entries@[e] by {
                        assert(cur[0] == j);
                        assert(e != j);
                        if old_cur.contains(e as usize) {
                            let k = choose|k: int| 0 <= k < old_cur.len() && old_cur[k] == e as usize;
                            assert(cur[k + 1] == e as usize);
                        }
                    }
                    assert forall|k: int| 0 <= k < cur.len() implies #[trigger] group.entries@[cur[k] as int] == (EntryCell {
                        next: if k + 1 < cur.len() { Some(cur[k + 1]) } else { None },
                        ..before.entries@[cur[k] as int]
                    }) by {
                        if k > 0 {
                            assert(cur[k] == old_cur[k - 1]);
                            assert(old_cur[k - 1] > j);
                        } else {
                            assert(!old_cur.contains(j)) by {
                                if old_cur.contains(j) {
                                    let q = choose|q: int| 0 <= q < old_cur.len() && old_cur[q] == j;
                                    assert(old_cur[q] >= i);
                                }
                            }
                        }
                    }
                    assert forall|a: int, b: int| 0 <= a < b < cur.len() implies #[trigger] cur[a] < #[trigger] cur[b] by {
                        if a > 0 {
                            assert(cur[a] == old_cur[a - 1]);
                        }
                        assert(cur[b] == old_cur[b - 1]);
                    }
                }
            } else {
                proof {
                    if remaining == 0 {
                        assert(tail_pick(before.entries@, i as int, 0, max) =~= Seq::<usize>::empty());
                        assert(tail_pick(before.entries@, j as int, 0, max) =~= Seq::<usize>::empty());
                    }
                }
            }
            i = j;
        }
        proof {
            assert(tail_pick(before.entries@, 0, remaining as nat, max) =~= Seq::<usize>::empty());
            assert(total =~= cur);
        }
        group.free = next;
        group.leased = true;
        self.groups[g] = Some(group);
        self.chains = Ghost(self.chains@.insert(g as int, cur));
        proof {
            assert(self.group(g as int) == group);
            assert forall|h: int, e: int| self.live(h) && 0 <= e < self.group(h).entries@.len() && (#[trigger] self.group(h).entries@[e]).occupied
                implies self.group(h).entries@[e].value is Some by {
                assert(old(self).live(h));
                if h == g {
                    assert(!before.entries@[e].occupied);
                    if cur.contains(e as usize) {
                        let k = choose|k: int| 0 <= k < cur.len() && cur[k] == e as usize;
                        assert(group.entries@[cur[k] as int].occupied == before.entries@[cur[k] as int].occupied);
                    }
                } else {
                    assert(old(self).group(h).entries@[e].occupied);
                }
            }
            assert forall|h: int| self.live(h) implies #[trigger] self.chain_ok(h) by {
                if h != g {
                    assert(old(self).chain_ok(h));
                } else {
                    assert forall|k: int| 0 <= k < cur.len() implies !group.entries@[#[trigger] cur[k] as int].occupied by {
                        assert(!before.entries@[cur[k] as int].occupied);
                    }
                    assert forall|a: int, b: int| 0 <= a < cur.len() && 0 <= b < cur.len() && a != b implies cur[a] != cur[b] by {
                        if a < b {
                            assert(cur[a] < cur[b]);
                        } else {
                            assert(cur[b] < cur[a]);
                        }
                    }
                }
            }
            let d = self.directory@;
            assert forall|f: int| 0 <= f < d.len() && #[trigger] d[f] is Some implies ({
                let p = d[f]->0;
                &&& self.live(p.group as int)
                &&& p.entry < self.group(p.group as int).entries@.len()
                &&& self.group(p.group as int).base + p.entry == f
            }) by {
            }
            assert forall|h: int, e2: int| self.live(h) && 0 <= e2 < self.group(h).entries@.len() implies self.group(h).base + e2
                < d.len() && #[trigger] d[self.group(h).base + e2] == Some(Place { group: h as usize, entry: e2 as usize }) by {
                assert(old(self).live(h));
                assert(old(self).directory@[old(self).group(h).base + e2] == Some(Place { group: h as usize, entry: e2 as usize }));
            }
            assert forall|h: int| #[trigger] self.live(h) implies self.group(h).base + self.group(h).entries@.len() <= d.len() by {
                assert(old(self).live(h));
            }
            assert forall|k: int| 0 <= k < self.order@.len() implies self.live(#[trigger] self.order@[k] as int) by {
                assert(old(self).live(self.order@[k] as int));
            }
            assert forall|h: int| self.live(h) implies self.order@.contains(h as usize) by {
                assert(old(self).live(h));
            }
        }
    }

    /// Replaces the scanning order by `order`, which lists every live group once.
    fn set_order(&mut self, order: Vec<usize>)
        requires
            old(self).wf_except_order(),
            order@.no_duplicates(),
            forall|k: int| 0 <= k < order@.len() ==> old(self).live(#[trigger] order@[k] as int),
            forall|g: int| old(self).live(g) ==> order@.contains(g as usize),
        ensures
            final(self).wf(),
            final(self).order_view() == order@,
            final(self).groups_view() == old(self).groups_view(),
            final(self).directory_view() == old(self).directory_view(),
            forall|g: int| #[trigger] final(self).chain(g) == old(self).chain(g),
    {
        self.order = order;
        proof {
            assert forall|h: int| self.live(h) implies self.order@.contains(h as usize) by {
                assert(old(self).live(h));
            }
            assert forall|k: int| 0 <= k < self.order@.len() implies self.live(#[trigger] self.order@[k] as int) by {
                assert(old(self).live(order@[k] as int));
            }
            assert forall|h: int| self.live(h) implies #[trigger] self.chain_ok(h) by {
                assert(old(self).live(h));
                assert(old(self).chain_ok(h));
            }
        }
    }

    /// Everything `wf` asks but of the scanning order.
    closed spec fn wf_except_order(&self) -> bool {
        let d = self.directory@;
        &&& d.len() <= ENTRY_LIMIT
        &&& self.groups@.len() <= ENTRY_LIMIT
        &&& forall|f: int|
            0 <= f < d.len() && #[trigger] d[f] is Some ==> {
                let p = d[f]->0;
                &&& self.live(p.group as int)
                &&& p.entry < self.group(p.group as int).entries@.len()
                &&& self.group(p.group as int).base + p.entry == f
            }
        &&& forall|g: int| #[trigger] self.live(g) ==> self.group(g).base + self.group(g).entries@.len() <= d.len()
        &&& forall|g: int, e: int|
            self.live(g) && 0 <= e < self.group(g).entries@.len() ==> self.group(g).base + e < d.len()
                && #[trigger] d[self.group(g).base + e] == Some(Place { group: g as usize, entry: e as usize })
        &&& forall|g: int, e: int|
            self.live(g) && 0 <= e < self.group(g).entries@.len() && (#[trigger] self.group(g).entries@[e]).occupied
                ==> self.group(g).entries@[e].value is Some
        &&& forall|g: int| self.live(g) ==> #[trigger] self.chain_ok(g)
    }

    proof fn lemma_wf_except_order(&self)
        requires
            self.wf(),
        ensures
            self.wf_except_order(),
    {
    }

    /// Leases a group of at least `capacity` entries: the smallest quiescent
    /// group that is large enough, earliest in scanning order among equals,
    /// or else a new group. Every other quiescent group is freed.
    pub fn acquire(&mut self, capacity: usize) -> (r: Result<usize, AllocationError>)
        requires
            old(self).wf(),
        ensures
            final(self).wf(),
            ({
                let (sel, ret, qui) = scan(*old(self), old(self).order_view(), capacity as nat);
                &&& r matches Ok(g) ==> {
                    &&& sel matches Some(h) ==> g == h
                    &&& sel is None ==> g == old(self).groups_view().len() && final(self).group(g as int).entries@.len()
                        == capacity && final(self).group(g as int).base == old(self).directory_view().len()
                    &&& final(self).live(g as int)
                    &&& final(self).group(g as int).leased
                    &&& final(self).chain(g as int) == Seq::new(capacity as nat, |i: int| i as usize)
                    &&& final(self).order_view() == seq![g] + ret
                    &&& forall|x: usize| #[trigger] qui.contains(x) ==> !final(self).live(x as int)
                    &&& forall|x: usize| #[trigger] ret.contains(x) ==> final(self).groups_view()[x as int]
                        == old(self).groups_view()[x as int] && final(self).chain(x as int) == old(self).chain(x as int)
                    &&& final(self).directory_view().len() >= old(self).directory_view().len()
                    &&& forall|f: int|
                        #![trigger old(self).directory_view()[f]]
                        0 <= f < old(self).directory_view().len() && old(self).directory_view()[f] is Some
                            && !qui.contains(old(self).directory_view()[f]->0.group) ==> final(self).directory_view()[f]
                            == old(self).directory_view()[f]
                }
                &&& r matches Err(e) ==> {
                    &&& sel is None
                    &&& final(self).groups_view() == old(self).groups_view()
                    &&& final(self).directory_view() == old(self).directory_view()
                    &&& final(self).order_view() == qui.reverse() + ret
                    &&& (e == AllocationError::Overflow <==> (old(self).directory_view().len() + capacity > ENTRY_LIMIT
                        || old(self).groups_view().len() >= ENTRY_LIMIT))
                }
            }),
    {
        let ghost start = *self;
        let n = self.order.len();
        let mut selected: Option<usize> = None;
        let mut selected_len: usize = 0;
        let mut retained: Vec<usize> = Vec::new();
        let mut quiescent: Vec<usize> = Vec::new();
        let mut k: usize = 0;
        while k < n
            invariant
                *self == start,
                start.wf(),
                k <= n,
                n == start.order@.len(),
                (selected, retained@, quiescent@) == scan(start, start.order@.take(k as int), capacity as nat),
                selected matches Some(h) ==> selected_len == start.group(h as int).entries@.len(),
            decreases n - k,
        {
            proof {
                assert(start.order@.take(k + 1).drop_last() =~= start.order@.take(k as int));
                assert(start.order@.take(k + 1).last() == start.order@[k as int]);
            }
            let g = self.order[k];
            proof {
                assert(start.live(start.order@[k as int] as int));
            }
            if !self.is_quiescent(g) {
                retained.insert(0, g);
            } else {
                let len = self.group_len(g);
                let better = match selected {
                    None => true,
                    Some(_) => len < selected_len,
                };
                if len >= capacity && better {
                    match selected {
                        Some(prev) => quiescent.insert(0, prev),
                        None => {},
                    }
                    selected = Some(g);
                    selected_len = len;
                } else {
                    quiescent.insert(0, g);
                }
            }
            proof {
                assert(retained@ =~= scan(start, start.order@.take(k + 1), capacity as nat).1);
                assert(quiescent@ =~= scan(start, start.order@.take(k + 1), capacity as nat).2);
            }
            k = k + 1;
        }
        proof {
            assert(start.order@.take(n as int) =~= start.order@);
            lemma_scan(start, start.order@, capacity as nat);
        }
        let g = match selected {
            Some(g) => g,
            None => match self.new_group(capacity) {
                Ok(g) => g,
                Err(e) => {
                    let mut restored: Vec<usize> = Vec::new();
                    let mut j: usize = 0;
                    while j < retained.len()
                        invariant
                            j <= retained@.len(),
                            restored@ == retained@.take(j as int),
                        decreases retained@.len() - j,
                    {
                        restored.push(retained[j]);
                        j = j + 1;
                        proof {
                            assert(restored@ =~= retained@.take(j as int));
                        }
                    }
                    let mut q: usize = 0;
                    while q < quiescent.len()
                        invariant
                            q <= quiescent@.len(),
                            restored@ == quiescent@.take(q as int).reverse() + retained@,
                        decreases quiescent@.len() - q,
                    {
                        restored.insert(0, quiescent[q]);
                        q = q + 1;
                        proof {
                            assert(restored@ =~= quiescent@.take(q as int).reverse() + retained@);
                        }
                    }
                    proof {
                        assert(retained@.take(retained@.len() as int) =~= retained@);
                        assert(quiescent@.take(quiescent@.len() as int) =~= quiescent@);
                        self.lemma_wf_except_order();
                        let o = restored@;
                        assert forall|x: usize| #[trigger] o.contains(x) <==> start.order@.contains(x) by {
                            lemma_reverse_concat_contains(quiescent@, retained@, x);
                        }
                        lemma_reverse_concat_no_dup(quiescent@, retained@);
                        assert forall|i: int| 0 <= i < o.len() implies self.live(#[trigger] o[i] as int) by {
                            assert(o.contains(o[i]));
                            assert(start.order@.contains(o[i]));
                            let kk = choose|kk: int| 0 <= kk < start.order@.len() && start.order@[kk] == o[i];
                            assert(start.live(start.order@[kk] as int));
                        }
                        assert forall|h: int| self.live(h) implies o.contains(h as usize) by {
                            assert(start.order@.contains(h as usize));
                        }
                    }
                    self.set_order(restored);
                    return Err(e);
                },
            },
        };
        let ghost stage = *self;
        proof {
            if let Some(h) = selected {
                assert(start.order@.contains(h));
                let kk = choose|kk: int| 0 <= kk < start.order@.len() && start.order@[kk] == h;
                assert(start.live(start.order@[kk] as int));
                assert(stage == start);
            }
            lemma_cons_contains(g, start.order@);
            assert forall|x: usize| #[trigger] quiescent@.contains(x) implies x != g && stage.live(x as int)
                && stage.groups@[x as int] == start.groups@[x as int] by {
                {
                    assert(start.order@.contains(x));
                    let kk = choose|kk: int| 0 <= kk < start.order@.len() && start.order@[kk] == x;
                    assert(start.live(start.order@[kk] as int));
                }
            }
            assert forall|x: usize| #[trigger] retained@.contains(x) implies x != g && stage.live(x as int)
                && stage.groups@[x as int] == start.groups@[x as int] && stage.chain(x as int) == start.chain(x as int) by {
                {
                    assert(start.order@.contains(x));
                    let kk = choose|kk: int| 0 <= kk < start.order@.len() && start.order@[kk] == x;
                    assert(start.live(start.order@[kk] as int));
                }
            }
        }
        let mut j: usize = 0;
        while j < quiescent.len()
            invariant
                self.wf(),
                stage.wf(),
                j <= quiescent@.len(),
                quiescent@.no_duplicates(),
                stage.live(g as int),
                !quiescent@.contains(g),
                self.groups@.len() == stage.groups@.len(),
                self.directory@.len() == stage.directory@.len(),
                forall|x: usize| #[trigger] quiescent@.contains(x) ==> stage.live(x as int),
                forall|x: int| 0 <= x < stage.groups@.len() && !quiescent@.take(j as int).contains(x as usize)
                    ==> #[trigger] self.groups@[x] == stage.groups@[x],
                forall|x: int| stage.live(x) && !quiescent@.take(j as int).contains(x as usize) ==> #[trigger] self.chain(x)
                    == stage.chain(x),
                forall|x: usize| #[trigger] quiescent@.take(j as int).contains(x) ==> !self.live(x as int),
                forall|f: int|
                    #![trigger stage.directory@[f]]
                    0 <= f < stage.directory@.len() && stage.directory@[f] is Some && !quiescent@.take(j as int).contains(
                        stage.directory@[f]->0.group,
                    ) ==> self.directory@[f] == stage.directory@[f],
            decreases quiescent@.len() - j,
        {
            let q = quiescent[j];
            proof {
                assert(quiescent@.contains(q));
                assert(!quiescent@.take(j as int).contains(q)) by {
                    if quiescent@.take(j as int).contains(q) {
                        let i = choose|i: int| 0 <= i < j && quiescent@[i] == q;
                        assert(quiescent@[i] == quiescent@[j as int]);
                    }
                }
                assert(self.groups@[q as int] == stage.groups@[q as int]);
            }
            self.drop_group(q);
            j = j + 1;
            proof {
                assert forall|x: usize| #[trigger] quiescent@.take(j as int).contains(x) <==> (quiescent@.take(j - 1).contains(x)
                    || x == q) by {
                    let t = quiescent@.take(j as int);
                    if t.contains(x) {
                        let i = choose|i: int| 0 <= i < t.len() && t[i] == x;
                        if i < j - 1 {
                            assert(quiescent@.take(j - 1)[i] == x);
                        }
                    }
                    let t1 = quiescent@.take(j - 1);
                    if t1.contains(x) {
                        let i = choose|i: int| 0 <= i < t1.len() && t1[i] == x;
                        assert(t[i] == x);
                    }
                    if x == q {
                        assert(t[j - 1] == x);
                    }
                }
            }
        }
        proof {
            assert(quiescent@.take(quiescent@.len() as int) =~= quiescent@);
            assert(self.groups@[g as int] == stage.groups@[g as int]);
            assert forall|e: int| 0 <= e < capacity implies !(#[trigger] self.group(g as int).entries@[e]).occupied by {
                match selected {
                    Some(h) => {
                        assert(start.groups@[h as int] == stage.groups@[h as int]);
                    },
                    None => {
                        assert(stage.group(g as int).entries@[e] == fresh_entry::<T>());
                    },
                }
            }
        }
        self.prepare_prefix(g, capacity);
        let mut order: Vec<usize> = Vec::new();
        order.push(g);
        let mut i: usize = 0;
        while i < retained.len()
            invariant
                i <= retained@.len(),
                order@ == seq![g] + retained@.take(i as int),
            decreases retained@.len() - i,
        {
            order.push(retained[i]);
            i = i + 1;
            proof {
                assert(order@ =~= seq![g] + retained@.take(i as int));
            }
        }
        proof {
            assert(retained@.take(retained@.len() as int) =~= retained@);
            self.lemma_wf_except_order();
            lemma_cons_contains(g, retained@);
            lemma_cons_no_dup(g, retained@);
            let o = order@;
            assert forall|x: int| 0 <= x < o.len() implies self.live(#[trigger] o[x] as int) by {
                assert(o.contains(o[x]));
                if o[x] != g {
                    let y = o[x];
                    assert(retained@.contains(y));
                    assert(!quiescent@.contains(y));
                    assert(self.groups@[y as int] == stage.groups@[y as int]);
                }
            }
            assert forall|h: int| self.live(h) implies o.contains(h as usize) by {
                if h != g {
                    assert(self.groups@[h] is Some);
                    assert(stage.live(h)) by {
                        if !quiescent@.contains(h as usize) {
                            assert(self.groups@[h] == stage.groups@[h]);
                        }
                    }
                    assert(stage.order@.contains(h as usize));
                    assert(start.order@.contains(h as usize) || h == g);
                    assert(!quiescent@.contains(h as usize));
                    assert(selected != Some(h as usize) || h == g);
                    assert(retained@.contains(h as usize));
                }
            }
            assert forall|x: usize| #[trigger] retained@.contains(x) implies self.groups@[x as int] == start.groups@[x as int]
                && self.chain(x as int) == start.chain(x as int) by {
                assert(!quiescent@.contains(x));
            }
        }
        self.set_order(order);
        Ok(g)
    }

    /// Leases a group that can take `capacity` reservations whose
    /// generations stay at or below `max`: the quiescent group with the fewest
    /// such entries that has enough, earliest in scanning order among equals,
    /// or else a new group, as long as its identities stay below `limit`.
    /// No group is freed.
    pub fn acquire_available(&mut self, capacity: usize, max: u32, limit: u64) -> (r: Result<usize, AllocationError>)
        requires
            old(self).wf(),
            max > 0,
        ensures
            final(self).wf(),
            ({
                let sel = pick_available(*old(self), old(self).order_view(), capacity as nat, max);
                &&& r matches Ok(g) ==> {
                    let pre = if sel is Some {
                        old(self).group(g as int).entries@
                    } else {
                        Seq::new(capacity as nat, |e: int| fresh_entry::<T>())
                    };
                    &&& sel matches Some(h) ==> g == h && final(self).order_view() == old(self).order_view()
                        && final(self).directory_view() == old(self).directory_view()
                        && final(self).group(g as int).base == old(self).group(g as int).base
                    &&& sel is None ==> g == old(self).groups_view().len() && final(self).group(g as int).base
                        == old(self).directory_view().len() && final(self).order_view() == seq![g] + old(self).order_view()
                        && final(self).directory_view().len() == old(self).directory_view().len() + capacity
                        && old(self).directory_view().len() + capacity <= limit
                    &&& final(self).live(g as int)
                    &&& final(self).group(g as int).leased
                    &&& final(self).group(g as int).entries@.len() == pre.len()
                    &&& final(self).chain(g as int) == tail_pick(pre, pre.len() as int, capacity as nat, max)
                    &&& final(self).chain(g as int).len() == capacity
                    &&& forall|k: int| 0 <= k < final(self).chain(g as int).len() ==> #[trigger] final(self).chain(g as int)[k]
                        < pre.len() && final(self).group(g as int).entries@[final(self).chain(g as int)[k] as int].generation < max
                    &&& forall|e: int| 0 <= e < pre.len() ==> #[trigger] final(self).group(g as int).entries@[e] == (EntryCell {
                        next: final(self).group(g as int).entries@[e].next,
                        ..pre[e]
                    })
                    &&& forall|h: int| old(self).live(h) && h != g ==> #[trigger] final(self).groups_view()[h]
                        == old(self).groups_view()[h] && final(self).chain(h) == old(self).chain(h)
                    &&& forall|f: int| 0 <= f < old(self).directory_view().len() ==> #[trigger] final(self).directory_view()[f]
                        == old(self).directory_view()[f]
                    &&& forall|h: int| #[trigger] final(self).live(h) ==> h == g || old(self).live(h)
                }
                &&& r matches Err(e) ==> {
                    &&& sel is None
                    &&& *final(self) == *old(self)
                    &&& (e == AllocationError::Overflow <==> (old(self).directory_view().len() + capacity > limit
                        || old(self).directory_view().len() + capacity > ENTRY_LIMIT || old(self).groups_view().len()
                        >= ENTRY_LIMIT))
                }
            }),
    {
        let ghost start = *self;
        let n = self.order.len();
        let mut selected: Option<usize> = None;
        let mut selected_available: usize = 0;
        let mut k: usize = 0;
        while k < n
            invariant
                *self == start,
                start.wf(),
                n == start.order@.len(),
                k <= n,
                selected == pick_available(start, start.order@.subrange(0, k as int), capacity as nat, max),
                selected matches Some(h) ==> start.live(h as int) && quiescent_spec(start.group(h as int))
                    && selected_available == count_below(start.group(h as int).entries@, max)
                    && selected_available >= capacity,
            decreases n - k,
        {
            let g = self.order[k];
            proof {
                let s = start.order@.subrange(0, k + 1);
                assert(s.drop_last() =~= start.order@.subrange(0, k as int));
                assert(s.last() == g);
                assert(start.live(g as int));
            }
            if self.is_quiescent(g) {
                let available = self.available(g, max);
                let better = match selected {
                    None => true,
                    Some(_) => available < selected_available,
                };
                if available >= capacity && better {
                    selected = Some(g);
                    selected_available = available;
                }
            }
            k = k + 1;
        }
        proof {
            assert(start.order@.subrange(0, n as int) =~= start.order@);
        }
        match selected {
            Some(g) => {
                let ghost pre = self.group(g as int).entries@;
                self.prepare_eligible(g, capacity, max);
                proof {
                    self.lemma_only_next_changed(g as int, pre, capacity as nat, max);
                    lemma_tail_pick_bounds(pre, pre.len() as int, capacity as nat, max);
                }
                Ok(g)
            },
            None => {
                let required = match self.directory.len().checked_add(capacity) {
                    Some(required) => required,
                    None => return Err(AllocationError::Overflow),
                };
                if required as u64 > limit {
                    return Err(AllocationError::Overflow);
                }
                let g = match self.new_group(capacity) {
                    Ok(g) => g,
                    Err(e) => return Err(e),
                };
                let ghost pre = self.group(g as int).entries@;
                let ghost mid = *self;
                proof {
                    lemma_count_below_fresh::<T>(capacity as nat, max);
                    assert forall|e: int| 0 <= e < pre.len() implies !(#[trigger] pre[e]).occupied by {
                        assert(pre[e] == fresh_entry::<T>());
                    }
                }
                self.prepare_eligible(g, capacity, max);
                proof {
                    self.lemma_only_next_changed(g as int, pre, capacity as nat, max);
                    lemma_tail_pick_bounds(pre, pre.len() as int, capacity as nat, max);
                    assert forall|h: int| old(self).live(h) && h != g implies #[trigger] self.groups_view()[h]
                        == old(self).groups_view()[h] && self.chain(h) == old(self).chain(h) by {
                        assert(mid.live(h));
                        assert(mid.groups_view()[h] == old(self).groups_view()[h]);
                    }
                }
                Ok(g)
            },
        }
    }

    /// After a group's free list is rebuilt, its entries differ from `pre`
    /// in their links alone.
    proof fn lemma_only_next_changed(&self, g: int, pre: Seq<EntryCell<T>>, capacity: nat, max: u32)
        requires
            self.live(g),
            self.group(g).entries@.len() == pre.len(),
            pre.len() <= usize::MAX,
            self.chain(g) == tail_pick(pre, pre.len() as int, capacity, max),
            forall|k: int| 0 <= k < self.chain(g).len() ==> #[trigger] self.group(g).entries@[self.chain(g)[k] as int]
                == (EntryCell {
                next: if k + 1 < self.chain(g).len() { Some(self.chain(g)[k + 1]) } else { None },
                ..pre[self.chain(g)[k] as int]
            }),
            forall|e: int| 0 <= e < pre.len() && !self.chain(g).contains(e as usize) ==> #[trigger] self.group(g).entries@[e]
                == pre[e],
        ensures
            forall|e: int| 0 <= e < pre.len() ==> #[trigger] self.group(g).entries@[e] == (EntryCell {
                next: self.group(g).entries@[e].next,
                ..pre[e]
            }),
    {
        assert forall|e: int| 0 <= e < pre.len() implies #[trigger] self.group(g).entries@[e] == (EntryCell {
            next: self.group(g).entries@[e].next,
            ..pre[e]
        }) by {
            if self.chain(g).contains(e as usize) {
                let k = choose|k: int| 0 <= k < self.chain(g).len() && self.chain(g)[k] == e as usize;
                assert(self.group(g).entries@[self.chain(g)[k] as int] == self.group(g).entries@[e]);
            }
        }
    }

    /// The position of identity `id`.
    pub fn place(&self, id: usize) -> (p: Place)
        requires
            self.wf(),
            self.named(id as int),
        ensures
            p == self.directory_view()[id as int]->0,
            self.live(p.group as int),
            p.entry < self.group(p.group as int).entries@.len(),
            self.group(p.group as int).base + p.entry == id,
    {
        self.directory[id].unwrap()
    }

    /// Whether `id` names an entry of a live group.
    pub fn is_named(&self, id: usize) -> (b: bool)
        ensures
            b == self.named(id as int),
    {
        id < self.directory.len() && self.directory[id].is_some()
    }

    pub fn entry(&self, id: usize) -> (e: &EntryCell<T>)
        requires
            self.wf(),
            self.named(id as int),
        ensures
            *e == self.entry_at(id as int),
    {
        let p = self.place(id);
        &self.groups[p.group].as_ref().unwrap().entries[p.entry]
    }

    /// Replaces the entry `id` names by `cell`, keeping the group's free
    /// list intact.
    fn set_entry(&mut self, id: usize, cell: EntryCell<T>)
        requires
            old(self).wf(),
            old(self).named(id as int),
            cell.occupied ==> cell.value is Some,
            old(self).chain(old(self).directory_view()[id as int]->0.group as int).contains(
                old(self).directory_view()[id as int]->0.entry,
            ) ==> !cell.occupied && cell.next == old(self).entry_at(id as int).next,
        ensures
            final(self).wf(),
            final(self).order_view() == old(self).order_view(),
            final(self).directory_view() == old(self).directory_view(),
            final(self).groups_view().len() == old(self).groups_view().len(),
            forall|h: int| #[trigger] final(self).chain(h) == old(self).chain(h),
            ({
                let p = old(self).directory_view()[id as int]->0;
                &&& forall|h: int| 0 <= h < old(self).groups_view().len() && h != p.group ==> #[trigger] final(self).groups_view()[h]
                    == old(self).groups_view()[h]
                &&& final(self).live(p.group as int)
                &&& final(self).group(p.group as int).entries@ == old(self).group(p.group as int).entries@.update(p.entry as int, cell)
                &&& final(self).group(p.group as int).base == old(self).group(p.group as int).base
                &&& final(self).group(p.group as int).free == old(self).group(p.group as int).free
                &&& final(self).group(p.group as int).leased == old(self).group(p.group as int).leased
                &&& final(self).group(p.group as int).serial == old(self).group(p.group as int).serial
                &&& final(self).group(p.group as int).entries@ == old(self).group(p.group as int).entries@.update(
                    p.entry as int,
                    final(self).entry_at(id as int),
                )
                &&& final(self).group(p.group as int).base == old(self).group(p.group as int).base
            }),
    {
        let p = self.place(id);
        let mut group = self.groups[p.group].take().unwrap();
        group.entries[p.entry] = cell;
        self.groups[p.group] = Some(group);
        proof {
            let g = p.group as int;
            assert(self.groups@ =~= old(self).groups@.update(g, Some(group)));
            assert forall|h: int, e: int| self.live(h) && 0 <= e < self.group(h).entries@.len() && (#[trigger] self.group(h).entries@[e]).occupied
                implies self.group(h).entries@[e].value is Some by {
                if h != g || e != p.entry {
                    assert(old(self).group(h).entries@[e].occupied);
                }
            }
            assert forall|h: int| self.live(h) implies #[trigger] self.chain_ok(h) by {
                assert(old(self).chain_ok(h));
                if h == g {
                    let c = self.chains@[h];
                    assert forall|k: int| 0 <= k < c.len() implies !self.group(h).entries@[#[trigger] c[k] as int].occupied
                        && self.group(h).entries@[c[k] as int].next == (if k + 1 < c.len() { Some(c[k + 1]) } else { None }) by {
                        if c[k] == p.entry {
                            assert(c.contains(p.entry));
                        }
                    }
                }
            }
            let d = self.directory@;
            assert forall|f: int| 0 <= f < d.len() && #[trigger] d[f] is Some implies ({
                let q = d[f]->0;
                &&& self.live(q.group as int)
                &&& q.entry < self.group(q.group as int).entries@.len()
                &&& self.group(q.group as int).base + q.entry == f
            }) by {
            }
            assert forall|h: int, e: int| self.live(h) && 0 <= e < self.group(h).entries@.len() implies self.group(h).base + e
                < d.len() && #[trigger] d[self.group(h).base + e] == Some(Place { group: h as usize, entry: e as usize }) by {
                assert(old(self).live(h));
                assert(old(self).directory@[old(self).group(h).base + e] == Some(Place { group: h as usize, entry: e as usize }));
            }
            assert forall|h: int| #[trigger] self.live(h) implies self.group(h).base + self.group(h).entries@.len() <= d.len() by {
                assert(old(self).live(h));
            }
            assert forall|k: int| 0 <= k < self.order@.len() implies self.live(#[trigger] self.order@[k] as int) by {
                assert(old(self).live(self.order@[k] as int));
            }
            assert forall|h: int| self.live(h) implies self.order@.contains(h as usize) by {
                assert(old(self).live(h));
            }
        }
    }

    /// Marks the occupied entry `id` as let go by its owner.
    pub fn set_detached(&mut self, id: usize)
        requires
            old(self).wf(),
            old(self).named(id as int),
            old(self).entry_at(id as int).occupied,
        ensures
            final(self).wf(),
            final(self).order_view() == old(self).order_view(),
            final(self).directory_view() == old(self).directory_view(),
            forall|h: int| #[trigger] final(self).chain(h) == old(self).chain(h),
            forall|f: int| #[trigger] final(self).named(f) == old(self).named(f),
            forall|f: int| old(self).named(f) && f != id ==> #[trigger] final(self).entry_at(f) == old(self).entry_at(f),
            final(self).entry_at(id as int) == (EntryCell { detached: true, ..old(self).entry_at(id as int) }),
            changed_entry(*final(self), *old(self), id as int),
            ({
                let p = old(self).directory_view()[id as int]->0;
                &&& final(self).groups_view().len() == old(self).groups_view().len()
                &&& forall|h: int| 0 <= h < old(self).groups_view().len() && h != p.group ==> #[trigger] final(self).groups_view()[h]
                    == old(self).groups_view()[h]
                &&& final(self).live(p.group as int)
                &&& final(self).group(p.group as int).entries@ == old(self).group(p.group as int).entries@.update(
                    p.entry as int,
                    final(self).entry_at(id as int),
                )
                &&& final(self).group(p.group as int).base == old(self).group(p.group as int).base
            }),
    {
        let current = self.entry(id);
        let cell = EntryCell {
            value: current.value,
            occupied: current.occupied,
            detached: true,
            terminal: current.terminal,
            next: current.next,
            serial: current.serial,
            generation: current.generation,
        };
        proof {
            self.lemma_not_free(id as int);
        }
        self.set_entry(id, cell);
        proof {
            self.lemma_entries_after_set(old(self), id as int);
        }
    }

    /// An occupied entry is not on its group's free list.
    proof fn lemma_not_free(&self, id: int)
        requires
            self.wf(),
            self.named(id),
            self.entry_at(id).occupied,
        ensures
            !self.chain(self.directory_view()[id]->0.group as int).contains(self.directory_view()[id]->0.entry),
    {
        let p = self.directory@[id]->0;
        let g = p.group as int;
        assert(self.chain_ok(g));
        if self.chains@[g].contains(p.entry) {
            let k = choose|k: int| 0 <= k < self.chains@[g].len() && self.chains@[g][k] == p.entry;
            assert(!self.group(g).entries@[self.chains@[g][k] as int].occupied);
        }
    }

    /// After one entry was replaced, every other identity still names the
    /// same entry.
    proof fn lemma_entries_after_set(&self, before: &Self, id: int)
        requires
            before.wf(),
            before.named(id),
            self.directory_view() == before.directory_view(),
            self.groups_view().len() == before.groups_view().len(),
            ({
                let p = before.directory_view()[id]->0;
                &&& forall|h: int| 0 <= h < before.groups_view().len() && h != p.group ==> #[trigger] self.groups_view()[h]
                    == before.groups_view()[h]
                &&& self.live(p.group as int)
                &&& self.group(p.group as int).entries@.len() == before.group(p.group as int).entries@.len()
                &&& forall|e: int| 0 <= e < before.group(p.group as int).entries@.len() && e != p.entry ==> #[trigger] self.group(p.group as int).entries@[e]
                    == before.group(p.group as int).entries@[e]
            }),
        ensures
            forall|f: int| #[trigger] self.named(f) == before.named(f),
            forall|f: int| before.named(f) && f != id ==> #[trigger] self.entry_at(f) == before.entry_at(f),
    {
        assert forall|f: int| before.named(f) && f != id implies #[trigger] self.entry_at(f) == before.entry_at(f) by {
            let q = before.directory@[f]->0;
            let p = before.directory@[id]->0;
            assert(before.group(q.group as int).base + q.entry == f);
            assert(before.group(p.group as int).base + p.entry == id);
            if q.group == p.group {
                assert(q.entry != p.entry);
            }
        }
    }

    /// Marks the occupied entry `id` as finally completed by its source.
    pub fn set_terminal(&mut self, id: usize)
        requires
            old(self).wf(),
            old(self).named(id as int),
            old(self).entry_at(id as int).occupied,
        ensures
            final(self).wf(),
            final(self).order_view() == old(self).order_view(),
            final(self).directory_view() == old(self).directory_view(),
            forall|h: int| #[trigger] final(self).chain(h) == old(self).chain(h),
            forall|f: int| #[trigger] final(self).named(f) == old(self).named(f),
            forall|f: int| old(self).named(f) && f != id ==> #[trigger] final(self).entry_at(f) == old(self).entry_at(f),
            final(self).entry_at(id as int) == (EntryCell { terminal: true, ..old(self).entry_at(id as int) }),
            changed_entry(*final(self), *old(self), id as int),
            ({
                let p = old(self).directory_view()[id as int]->0;
                &&& final(self).groups_view().len() == old(self).groups_view().len()
                &&& forall|h: int| 0 <= h < old(self).groups_view().len() && h != p.group ==> #[trigger] final(self).groups_view()[h]
                    == old(self).groups_view()[h]
                &&& final(self).live(p.group as int)
                &&& final(self).group(p.group as int).entries@ == old(self).group(p.group as int).entries@.update(
                    p.entry as int,
                    final(self).entry_at(id as int),
                )
                &&& final(self).group(p.group as int).base == old(self).group(p.group as int).base
            }),
    {
        let current = self.entry(id);
        let cell = EntryCell {
            value: current.value,
            occupied: current.occupied,
            detached: current.detached,
            terminal: true,
            next: current.next,
            serial: current.serial,
            generation: current.generation,
        };
        proof {
            self.lemma_not_free(id as int);
        }
        self.set_entry(id, cell);
        proof {
            self.lemma_entries_after_set(old(self), id as int);
        }
    }

    /// Ends the lease of group `g`.
    pub fn end_lease(&mut self, g: usize)
        requires
            old(self).wf(),
            old(self).live(g as int),
        ensures
            final(self).wf(),
            final(self).order_view() == old(self).order_view(),
            final(self).directory_view() == old(self).directory_view(),
            forall|h: int| #[trigger] final(self).chain(h) == old(self).chain(h),
            final(self).groups_view().len() == old(self).groups_view().len(),
            forall|h: int| 0 <= h < old(self).groups_view().len() && h != g ==> #[trigger] final(self).groups_view()[h]
                == old(self).groups_view()[h],
            final(self).live(g as int),
            final(self).group(g as int).entries@ == old(self).group(g as int).entries@,
            !final(self).group(g as int).leased,
            final(self).group(g as int).base == old(self).group(g as int).base,
            final(self).group(g as int).serial == old(self).group(g as int).serial,
            forall|f: int| #[trigger] final(self).named(f) == old(self).named(f),
            forall|f: int| old(self).named(f) ==> #[trigger] final(self).entry_at(f) == old(self).entry_at(f),
    {
        let mut group = self.groups[g].take().unwrap();
        group.leased = false;
        self.groups[g] = Some(group);
        proof {
            assert(self.groups@ =~= old(self).groups@.update(g as int, Some(group)));
            assert forall|h: int| self.live(h) implies #[trigger] self.chain_ok(h) by {
                assert(old(self).chain_ok(h));
            }
            assert forall|h: int, e: int| self.live(h) && 0 <= e < self.group(h).entries@.len() && (#[trigger] self.group(h).entries@[e]).occupied
                implies self.group(h).entries@[e].value is Some by {
                assert(old(self).group(h).entries@[e].occupied);
            }
            self.lemma_same_shape(old(self));
        }
    }

    /// Takes the next free entry of group `g` and fills it with `value`,
    /// marked as `stamp` says. Returns its identity, or `None` when the group
    /// has no free entry or, for a generation stamp, the entry has no
    /// generation left.
    pub fn reserve(&mut self, g: usize, value: T, stamp: Stamp) -> (r: Option<usize>)
        requires
            old(self).wf(),
            old(self).live(g as int),
        ensures
            final(self).wf(),
            final(self).order_view() == old(self).order_view(),
            final(self).directory_view() == old(self).directory_view(),
            forall|f: int| #[trigger] final(self).named(f) == old(self).named(f),
            ({
                let c = old(self).chain(g as int);
                let grp = old(self).group(g as int);
                let e = c[0];
                let cell = grp.entries@[e as int];
                &&& (c.len() == 0 || (stamp == Stamp::Generation && cell.generation == u32::MAX)) ==> r is None
                    && *final(self) == *old(self)
                &&& !(c.len() == 0 || (stamp == Stamp::Generation && cell.generation == u32::MAX)) ==> {
                    &&& r is Some && r->0 == grp.base + e
                    &&& final(self).named(grp.base + e)
                    &&& final(self).chain(g as int) == c.drop_first()
                    &&& forall|h: int| h != g ==> #[trigger] final(self).chain(h) == old(self).chain(h)
                    &&& forall|f: int| old(self).named(f) && f != grp.base + e ==> #[trigger] final(self).entry_at(f)
                        == old(self).entry_at(f)
                    &&& final(self).entry_at(grp.base + e) == (EntryCell {
                        value: Some(value),
                        occupied: true,
                        detached: false,
                        terminal: false,
                        next: None,
                        serial: if stamp == Stamp::Serial { next_serial(grp.serial) } else { cell.serial },
                        generation: if stamp == Stamp::Generation { (cell.generation + 1) as u32 } else { cell.generation },
                    })
                    &&& final(self).live(g as int)
                    &&& final(self).group(g as int).serial == (if stamp == Stamp::Serial { next_serial(grp.serial) } else { grp.serial })
                    &&& final(self).group(g as int).leased == grp.leased
                    &&& final(self).group(g as int).base == grp.base
                    &&& final(self).group(g as int).entries@ == grp.entries@.update(e as int, final(self).entry_at(grp.base + e))
                    &&& forall|h: int| 0 <= h < old(self).groups_view().len() && h != g ==> #[trigger] final(self).groups_view()[h]
                        == old(self).groups_view()[h]
                    &&& final(self).groups_view().len() == old(self).groups_view().len()
                }
            }),
    {
        proof {
            assert(self.chain_ok(g as int));
        }
        let e = match self.groups[g].as_ref().unwrap().free {
            Some(e) => e,
            None => return None,
        };
        proof {
            assert(self.chain_ok(g as int));
            assert(self.chains@[g as int][0] == e);
        }
        let generation = self.groups[g].as_ref().unwrap().entries[e].generation;
        if stamp == Stamp::Generation && generation == u32::MAX {
            return None;
        }
        let mut group = self.groups[g].take().unwrap();
        let next = group.entries[e].next;
        let serial = if stamp == Stamp::Serial {
            let s = if group.serial == u64::MAX {
                1
            } else {
                group.serial + 1
            };
            group.serial = s;
            s
        } else {
            group.entries[e].serial
        };
        let generation = if stamp == Stamp::Generation {
            generation + 1
        } else {
            generation
        };
        group.entries[e] = EntryCell {
            value: Some(value),
            occupied: true,
            detached: false,
            terminal: false,
            next: None,
            serial,
            generation,
        };
        group.free = next;
        self.groups[g] = Some(group);
        let ghost c = self.chains@[g as int];
        self.chains = Ghost(self.chains@.insert(g as int, c.drop_first()));
        proof {
            assert(self.groups@ =~= old(self).groups@.update(g as int, Some(group)));
            let d = c.drop_first();
            assert forall|h: int| self.live(h) implies #[trigger] self.chain_ok(h) by {
                assert(old(self).chain_ok(h));
                if h == g {
                    assert forall|k: int| 0 <= k < d.len() implies #[trigger] d[k] < self.group(h).entries@.len()
                        && !self.group(h).entries@[d[k] as int].occupied
                        && self.group(h).entries@[d[k] as int].next == (if k + 1 < d.len() { Some(d[k + 1]) } else { None }) by {
                        assert(d[k] == c[k + 1]);
                        assert(c[k + 1] != c[0]);
                    }
                    if d.len() > 0 {
                        assert(c[1] == d[0]);
                    }
                }
            }
            assert forall|h: int, e2: int| self.live(h) && 0 <= e2 < self.group(h).entries@.len() && (#[trigger] self.group(h).entries@[e2]).occupied
                implies self.group(h).entries@[e2].value is Some by {
                if h != g || e2 != e {
                    assert(old(self).group(h).entries@[e2].occupied);
                }
            }
            self.lemma_same_shape(old(self));
            assert(old(self).directory@[old(self).group(g as int).base + e] == Some(Place { group: g, entry: e }));
            assert forall|f: int| old(self).named(f) && f != old(self).group(g as int).base + e implies #[trigger] self.entry_at(f) == old(self).entry_at(f) by {
                let q = old(self).directory@[f]->0;
                assert(old(self).group(q.group as int).base + q.entry == f);
            }
        }
        Some(self.groups[g].as_ref().unwrap().base + e)
    }

    /// Empties the occupied entry `id`. Unless `retire_at` is its generation,
    /// it rejoins its group's free list at the front; otherwise it retires.
    pub fn release(&mut self, id: usize, retire_at: Option<u32>)
        requires
            old(self).wf(),
            old(self).named(id as int),
            old(self).entry_at(id as int).occupied,
        ensures
            final(self).wf(),
            final(self).order_view() == old(self).order_view(),
            final(self).directory_view() == old(self).directory_view(),
            forall|f: int| #[trigger] final(self).named(f) == old(self).named(f),
            forall|f: int| old(self).named(f) && f != id ==> #[trigger] final(self).entry_at(f) == old(self).entry_at(f),
            ({
                let p = old(self).directory_view()[id as int]->0;
                let cell = old(self).entry_at(id as int);
                let retired = retire_at == Some(cell.generation);
                &&& !final(self).entry_at(id as int).occupied
                &&& final(self).entry_at(id as int).value is None
                &&& !final(self).entry_at(id as int).detached
                &&& !final(self).entry_at(id as int).terminal
                &&& final(self).entry_at(id as int).serial == cell.serial
                &&& final(self).entry_at(id as int).generation == cell.generation
                &&& retired ==> final(self).chain(p.group as int) == old(self).chain(p.group as int)
                &&& !retired ==> final(self).chain(p.group as int) == seq![p.entry] + old(self).chain(p.group as int)
                &&& forall|h: int| h != p.group ==> #[trigger] final(self).chain(h) == old(self).chain(h)
                &&& final(self).groups_view().len() == old(self).groups_view().len()
                &&& forall|h: int| 0 <= h < old(self).groups_view().len() && h != p.group ==> #[trigger] final(self).groups_view()[h]
                    == old(self).groups_view()[h]
                &&& final(self).live(p.group as int)
                &&& final(self).group(p.group as int).leased == old(self).group(p.group as int).leased
                &&& final(self).group(p.group as int).serial == old(self).group(p.group as int).serial
                &&& final(self).group(p.group as int).entries@ == old(self).group(p.group as int).entries@.update(
                    p.entry as int,
                    final(self).entry_at(id as int),
                )
                &&& final(self).group(p.group as int).base == old(self).group(p.group as int).base
            }),
            released_from(*final(self), *old(self), id as int, retire_at),
    {
        let p = self.place(id);
        proof {
            self.lemma_not_free(id as int);
        }
        let g = p.group;
        let e = p.entry;
        let mut group = self.groups[g].take().unwrap();
        let retired = match retire_at {
            Some(m) => group.entries[e].generation == m,
            None => false,
        };
        let next = if retired {
            None
        } else {
            group.free
        };
        let serial = group.entries[e].serial;
        let generation = group.entries[e].generation;
        group.entries[e] = EntryCell {
            value: None,
            occupied: false,
            detached: false,
            terminal: false,
            next,
            serial,
            generation,
        };
        if !retired {
            group.free = Some(e);
        }
        self.groups[g] = Some(group);
        let ghost c = self.chains@[g as int];
        if !retired {
            proof {
                self.chains = Ghost(self.chains@.insert(g as int, seq![e] + c));
            }
        }
        proof {
            assert(self.groups@ =~= old(self).groups@.update(g as int, Some(group)));
            assert forall|h: int| self.live(h) implies #[trigger] self.chain_ok(h) by {
                assert(old(self).chain_ok(h));
                if h == g && !retired {
                    let d = seq![e] + c;
                    vstd::seq_lib::lemma_no_dup_in_concat(seq![e], c);
                    assert forall|k: int| 0 <= k < d.len() implies #[trigger] d[k] < self.group(h).entries@.len()
                        && !self.group(h).entries@[d[k] as int].occupied
                        && self.group(h).entries@[d[k] as int].next == (if k + 1 < d.len() { Some(d[k + 1]) } else { None }) by {
                        if k > 0 {
                            assert(d[k] == c[k - 1]);
                            assert(c[k - 1] != e);
                        }
                    }
                } else if h == g {
                    assert forall|k: int| 0 <= k < c.len() implies #[trigger] c[k] < self.group(h).entries@.len()
                        && !self.group(h).entries@[c[k] as int].occupied
                        && self.group(h).entries@[c[k] as int].next == (if k + 1 < c.len() { Some(c[k + 1]) } else { None }) by {
                        assert(c[k] != e);
                    }
                }
            }
            assert forall|h: int, e2: int| self.live(h) && 0 <= e2 < self.group(h).entries@.len() && (#[trigger] self.group(h).entries@[e2]).occupied
                implies self.group(h).entries@[e2].value is Some by {
                if h != g || e2 != e {
                    assert(old(self).group(h).entries@[e2].occupied);
                }
            }
            self.lemma_same_shape(old(self));
            assert forall|f: int| old(self).named(f) && f != id implies #[trigger] self.entry_at(f) == old(self).entry_at(f) by {
                let q = old(self).directory@[f]->0;
                assert(old(self).group(q.group as int).base + q.entry == f);
            }
        }
    }

    /// Another pool whose groups have the same bases and sizes, under the same
    /// directory and order, satisfies `wf` once chains and values are.
    proof fn lemma_same_shape(&self, before: &Self)
        requires
            before.wf(),
            self.directory@ == before.directory@,
            self.order@ == before.order@,
            self.groups@.len() == before.groups@.len(),
            forall|h: int| 0 <= h < self.groups@.len() ==> (#[trigger] self.groups@[h] is Some) == (before.groups@[h] is Some),
            forall|h: int| self.live(h) ==> #[trigger] self.group(h).base == before.group(h).base
                && self.group(h).entries@.len() == before.group(h).entries@.len(),
            forall|h: int| self.live(h) ==> #[trigger] self.chain_ok(h),
            forall|h: int, e: int| self.live(h) && 0 <= e < self.group(h).entries@.len() && (#[trigger] self.group(h).entries@[e]).occupied
                ==> self.group(h).entries@[e].value is Some,
        ensures
            self.wf(),
            forall|f: int| #[trigger] self.named(f) == before.named(f),
    {
        let d = self.directory@;
        assert forall|f: int| 0 <= f < d.len() && #[trigger] d[f] is Some implies ({
            let q = d[f]->0;
            &&& self.live(q.group as int)
            &&& q.entry < self.group(q.group as int).entries@.len()
            &&& self.group(q.group as int).base + q.entry == f
        }) by {
            let q = d[f]->0;
            assert(before.live(q.group as int));
            assert(self.groups@[q.group as int] is Some == before.groups@[q.group as int] is Some);
            assert(self.group(q.group as int).base == before.group(q.group as int).base);
        }
        assert forall|h: int, e: int| self.live(h) && 0 <= e < self.group(h).entries@.len() implies self.group(h).base + e
            < d.len() && #[trigger] d[self.group(h).base + e] == Some(Place { group: h as usize, entry: e as usize }) by {
            assert(self.groups@[h] is Some == before.groups@[h] is Some);
            assert(before.live(h));
            assert(self.group(h).base == before.group(h).base);
            assert(before.directory@[before.group(h).base + e] == Some(Place { group: h as usize, entry: e as usize }));
        }
        assert forall|h: int| #[trigger] self.live(h) implies self.group(h).base + self.group(h).entries@.len() <= d.len() by {
            assert(self.groups@[h] is Some == before.groups@[h] is Some);
            assert(before.live(h));
            assert(self.group(h).base == before.group(h).base);
        }
        assert forall|k: int| 0 <= k < self.order@.len() implies self.live(#[trigger] self.order@[k] as int) by {
            assert(before.live(before.order@[k] as int));
            assert(self.groups@[self.order@[k] as int] is Some == before.groups@[before.order@[k] as int] is Some);
        }
        assert forall|h: int| self.live(h) implies self.order@.contains(h as usize) by {
            assert(self.groups@[h] is Some == before.groups@[h] is Some);
            assert(before.live(h));
        }
        assert forall|f: int| #[trigger] self.named(f) == before.named(f) by {
        }
    }

    /// The value of the occupied entry `id`.
    pub fn value(&self, id: usize) -> (v: T)
        requires
            self.wf(),
            self.named(id as int),
            self.entry_at(id as int).occupied,
        ensures
            Some(v) == self.entry_at(id as int).value,
    {
        let p = self.place(id);
        proof {
            assert(self.group(p.group as int).entries@[p.entry as int].occupied);
        }
        self.groups[p.group].as_ref().unwrap().entries[p.entry].value.unwrap()
    }

    /// What a well-formed pool guarantees of its directory, its scanning
    /// order and its free lists.
    pub proof fn lemma_wf(&self)
        requires
            self.wf(),
        ensures
            self.directory_view().len() <= ENTRY_LIMIT,
            forall|f: int| #[trigger] self.named(f) ==> self.live(self.directory_view()[f]->0.group as int)
                && self.directory_view()[f]->0.entry < self.group(self.directory_view()[f]->0.group as int).entries@.len()
                && self.group(self.directory_view()[f]->0.group as int).base + self.directory_view()[f]->0.entry == f,
            forall|g: int| #[trigger] self.live(g) ==> self.group(g).base + self.group(g).entries@.len()
                <= self.directory_view().len(),
            forall|k: int| 0 <= k < self.order_view().len() ==> self.live(#[trigger] self.order_view()[k] as int),
            self.order_view().no_duplicates(),
            forall|g: int| self.live(g) ==> self.order_view().contains(g as usize),
            forall|g: int| #[trigger] self.live(g) ==> self.chain(g).no_duplicates(),
            forall|g: int, k: int| self.live(g) && 0 <= k < self.chain(g).len() ==> #[trigger] self.chain(g)[k]
                < self.group(g).entries@.len() && !self.group(g).entries@[self.chain(g)[k] as int].occupied,
            forall|g: int, e: int| self.live(g) && 0 <= e < self.group(g).entries@.len() ==> #[trigger] self.directory_view()[self.group(g).base + e]
                == Some(Place { group: g as usize, entry: e as usize }) && self.named(self.group(g).base + e),
    {
        assert forall|g: int| #[trigger] self.live(g) implies self.chain(g).no_duplicates() by {
            assert(self.chain_ok(g));
        }
        assert forall|g: int, k: int| self.live(g) && 0 <= k < self.chain(g).len() implies #[trigger] self.chain(g)[k]
            < self.group(g).entries@.len() && !self.group(g).entries@[self.chain(g)[k] as int].occupied by {
            assert(self.chain_ok(g));
        }
    }
}

} // verus!
