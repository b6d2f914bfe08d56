//! Completion arenas whose identities fit one 64-bit word: the low
//! `INDEX_BITS` select an entry and the next `GENERATION_BITS` count how often
//! it was reserved, so that an echo of an earlier reservation is rejected.
//! An entry whose generation is used up retires instead of being reused.
use vstd::prelude::*;

use crate::collections::completion::pool;
use crate::collections::completion::pool::Place;
use crate::collections::completion::pool::{changed_entry, lemma_release_after_change, released_from, fresh_entry, pick_available, tail_pick, EntryCell, Pool, Stamp, ENTRY_LIMIT};
use crate::collections::AllocationError;

verus! {

/// The widths a narrow arena accepts: both nonzero, each at most 32 bits,
/// together at most 64.
pub open spec fn widths_ok(index_bits: u32, generation_bits: u32) -> bool {
    &&& 0 < index_bits <= 32
    &&& 0 < generation_bits <= 32
    &&& index_bits + generation_bits <= 64
}

/// The last generation an entry reaches before it retires.
pub open spec fn generation_max(generation_bits: u32) -> u32 {
    if generation_bits >= 32 {
        u32::MAX
    } else {
        ((1u32 << generation_bits) - 1) as u32
    }
}

/// How many entry identities the index bits can tell apart.
pub open spec fn index_limit(index_bits: u32) -> u64 {
    if index_bits >= 32 {
        0xffff_ffff
    } else {
        1u64 << index_bits
    }
}

/// The bits that select the entry.
pub open spec fn index_mask(index_bits: u32) -> u64 {
    if index_bits >= 32 {
        0xffff_ffff
    } else {
        ((1u64 << index_bits) - 1) as u64
    }
}

/// The identity of entry `index` in generation `generation`.
pub open spec fn compose(generation: u32, index: u32, index_bits: u32) -> u64 {
    ((generation as u64) << index_bits) | (index as u64)
}

/// The entry an identity selects.
pub open spec fn index_of(raw: u64, index_bits: u32) -> u32 {
    (raw & index_mask(index_bits)) as u32
}

/// The generation an identity was issued in.
pub open spec fn generation_of(raw: u64, index_bits: u32) -> u32 {
    (raw >> index_bits) as u32
}

/// Whether `raw` can be an identity: nonzero, within the configured width,
/// with a nonzero generation.
pub open spec fn accepts(raw: u64, index_bits: u32, generation_bits: u32) -> bool {
    &&& raw != 0
    &&& (index_bits + generation_bits >= 64 || raw < (1u64 << ((index_bits + generation_bits) as u32)))
    &&& generation_of(raw, index_bits) != 0
}

/// An identity composed from an index below the limit and a generation
/// between one and the last is accepted, and gives both back.
pub proof fn lemma_compose(generation: u32, index: u32, index_bits: u32, generation_bits: u32)
    requires
        widths_ok(index_bits, generation_bits),
        0 < generation <= generation_max(generation_bits),
        (index as u64) < index_limit(index_bits),
    ensures
        accepts(compose(generation, index, index_bits), index_bits, generation_bits),
        index_of(compose(generation, index, index_bits), index_bits) == index,
        generation_of(compose(generation, index, index_bits), index_bits) == generation,
{
    let ib = index_bits;
    let gb = generation_bits;
    let g = generation;
    let i = index;
    if ib >= 32 {
        assert(ib == 32);
        assert(0xffff_ffffu64 < (1u64 << 32u32) && (1u64 << 32u32) - 1 == 0xffff_ffffu64) by (bit_vector);
    }
    assert((i as u64) < (1u64 << ib));
    assert(index_mask(ib) == ((1u64 << ib) - 1) as u64);
    if gb >= 32 {
        assert(gb == 32);
        assert((g as u64) < (1u64 << 32u32)) by (bit_vector);
    } else {
        assert((g as u64) < (1u64 << gb)) by (bit_vector)
            requires
                gb < 32u32,
                g <= ((1u32 << gb) - 1) as u32,
        ;
    }
    assert((((g as u64) << ib) | (i as u64)) >> ib == g as u64) by (bit_vector)
        requires
            ib <= 32u32,
            (i as u64) < (1u64 << ib),
    ;
    assert((((g as u64) << ib) | (i as u64)) & (((1u64 << ib) - 1) as u64) == i as u64) by (bit_vector)
        requires
            ib <= 32u32,
            (i as u64) < (1u64 << ib),
    ;
    assert((((g as u64) << ib) | (i as u64)) != 0) by (bit_vector)
        requires
            ib <= 32u32,
            g != 0u32,
    ;
    if ib + gb < 64 {
        assert((((g as u64) << ib) | (i as u64)) < (1u64 << ((ib + gb) as u32))) by (bit_vector)
            requires
                ib <= 32u32,
                gb <= 32u32,
                ib + gb < 64,
                (i as u64) < (1u64 << ib),
                (g as u64) < (1u64 << gb),
        ;
    }
}

/// Every entry of `pool` is at most at generation `max`, and every free
/// entry is below it.
pub open spec fn generations_within<T: Copy>(pool: Pool<T>, max: u32) -> bool {
    &&& forall|g: int, e: int| pool.live(g) && 0 <= e < pool.group(g).entries@.len() ==> #[trigger] pool.group(
        g,
    ).entries@[e].generation <= max
    &&& forall|g: int, k: int| pool.live(g) && 0 <= k < pool.chain(g).len() ==> #[trigger] pool.group(g).entries@[pool.chain(
        g,
    )[k] as int].generation < max
}

proof fn lemma_index_limit(index_bits: u32)
    requires
        0 < index_bits <= 32,
    ensures
        0 < index_limit(index_bits) <= 0xffff_ffff,
{
    if index_bits < 32 {
        assert(0 < (1u64 << index_bits) <= 0x8000_0000u64) by (bit_vector)
            requires
                index_bits < 32u32,
        ;
    }
}

/// After one entry of `before` changed, the generations are still within
/// `max` when the new entry is, and the free list of its group gained at
/// most that entry, below `max`.
proof fn lemma_generations_kept<T: Copy>(before: Pool<T>, after: Pool<T>, id: int, max: u32)
    requires
        before.wf(),
        generations_within(before, max),
        before.named(id),
        after.groups_view().len() == before.groups_view().len(),
        ({
            let p = before.directory_view()[id]->0;
            let pg = p.group as int;
            &&& forall|h: int| 0 <= h < before.groups_view().len() && h != pg ==> #[trigger] after.groups_view()[h]
                == before.groups_view()[h]
            &&& forall|h: int| h != pg ==> #[trigger] after.chain(h) == before.chain(h)
            &&& after.live(pg)
            &&& after.group(pg).entries@ == before.group(pg).entries@.update(p.entry as int, after.entry_at(id))
            &&& after.entry_at(id).generation <= max
            &&& forall|k: int| 0 <= k < after.chain(pg).len() ==> {
                let x = #[trigger] after.chain(pg)[k];
                ||| x == p.entry && after.entry_at(id).generation < max
                ||| x != p.entry && before.chain(pg).contains(x)
            }
        }),
    ensures
        generations_within(after, max),
{
    before.lemma_wf();
    let p = before.directory_view()[id]->0;
    let pg = p.group as int;
    assert forall|g: int, e: int| after.live(g) && 0 <= e < after.group(g).entries@.len() implies #[trigger] after.group(
        g,
    ).entries@[e].generation <= max by {
        if g != pg {
            assert(before.live(g));
        } else if e != p.entry {
            assert(after.group(g).entries@[e] == before.group(g).entries@[e]);
        }
    }
    assert forall|g: int, k: int| after.live(g) && 0 <= k < after.chain(g).len() implies #[trigger] after.group(g).entries@[after.chain(
        g,
    )[k] as int].generation < max by {
        if g != pg {
            assert(before.live(g));
            assert(after.chain(g) == before.chain(g));
        } else {
            let x = after.chain(g)[k];
            if x != p.entry {
                let q = choose|q: int| 0 <= q < before.chain(g).len() && before.chain(g)[q] == x;
                assert(before.group(g).entries@[before.chain(g)[q] as int].generation < max);
                assert(after.group(g).entries@[x as int] == before.group(g).entries@[x as int]);
            }
        }
    }
}

/// The index and generation an accepted identity carries give it back.
pub proof fn lemma_decompose(raw: u64, index_bits: u32, generation_bits: u32)
    requires
        widths_ok(index_bits, generation_bits),
        accepts(raw, index_bits, generation_bits),
    ensures
        compose(generation_of(raw, index_bits), index_of(raw, index_bits), index_bits) == raw,
{
    let ib = index_bits;
    let gb = generation_bits;
    if ib >= 32 {
        assert(ib == 32);
        assert((1u64 << 32u32) - 1 == 0xffff_ffffu64) by (bit_vector);
    }
    assert(index_mask(ib) == ((1u64 << ib) - 1) as u64);
    if ib + gb < 64 {
        assert(((((raw >> ib) as u32) as u64) << ib) | ((raw & (((1u64 << ib) - 1) as u64)) as u32) as u64 == raw)
            by (bit_vector)
            requires
                ib <= 32u32,
                gb <= 32u32,
                ib + gb < 64,
                raw < (1u64 << ((ib + gb) as u32)),
        ;
    } else {
        assert(ib == 32 && gb == 32);
        assert(((((raw >> 32u32) as u32) as u64) << 32u32) | ((raw & 0xffff_ffffu64) as u32) as u64 == raw) by (bit_vector);
    }
}

fn generation_limit(generation_bits: u32) -> (m: u32)
    requires
        0 < generation_bits <= 32,
    ensures
        m == generation_max(generation_bits),
        m > 0,
{
    if generation_bits >= 32 {
        u32::MAX
    } else {
        assert((1u32 << generation_bits) >= 2) by (bit_vector)
            requires
                0 < generation_bits < 32u32,
        ;
        (1u32 << generation_bits) - 1
    }
}

fn index_limit_of(index_bits: u32) -> (l: u64)
    requires
        0 < index_bits <= 32,
    ensures
        l == index_limit(index_bits),
{
    if index_bits >= 32 {
        0xffff_ffff
    } else {
        1u64 << index_bits
    }
}

/// Reusable completion entries with one-word identities.
pub struct Arena<T: Copy, const INDEX_BITS: u32, const GENERATION_BITS: u32> {
    pool: Pool<T>,
}

/// A leased group of reusable narrow completion entries.
pub struct Slots<T, const INDEX_BITS: u32, const GENERATION_BITS: u32> {
    pub group: usize,
    pub marker: core::marker::PhantomData<T>,
}

/// A narrow completion entry that rolls back unless committed.
pub struct Reservation<T, const INDEX_BITS: u32, const GENERATION_BITS: u32> {
    pub echo: Echo<T, INDEX_BITS, GENERATION_BITS>,
}

/// The owner's one-word claim on an externally completing entry.
pub struct Lease<T, const INDEX_BITS: u32, const GENERATION_BITS: u32> {
    pub echo: Echo<T, INDEX_BITS, GENERATION_BITS>,
}

/// A one-word completion key tied to its owner.
pub struct Key<T, const INDEX_BITS: u32, const GENERATION_BITS: u32> {
    pub echo: Echo<T, INDEX_BITS, GENERATION_BITS>,
}

/// An inert one-word identity copied through an external completion source.
pub struct Echo<T, const INDEX_BITS: u32, const GENERATION_BITS: u32> {
    raw: u64,
    marker: core::marker::PhantomData<T>,
}

/// Authority to resolve narrow external completion echoes.
pub struct Drain<T, const INDEX_BITS: u32, const GENERATION_BITS: u32> {
    pub marker: core::marker::PhantomData<T>,
}

/// An echo found to name an occupied entry in the generation it was issued
/// in; resolving it checks that again.
pub struct Resolved<T, const INDEX_BITS: u32, const GENERATION_BITS: u32> {
    pub echo: Echo<T, INDEX_BITS, GENERATION_BITS>,
}

impl<T, const INDEX_BITS: u32, const GENERATION_BITS: u32> Echo<T, INDEX_BITS, GENERATION_BITS> {
    #[verifier::type_invariant]
    spec fn inv(self) -> bool {
        &&& widths_ok(INDEX_BITS, GENERATION_BITS)
        &&& accepts(self.raw, INDEX_BITS, GENERATION_BITS)
    }

    /// The identity bits.
    pub closed spec fn bits(&self) -> u64 {
        self.raw
    }

    /// The entry this echo names.
    pub open spec fn entry(&self) -> u32 {
        index_of(self.bits(), INDEX_BITS)
    }

    /// The generation this echo was issued in.
    pub open spec fn issued(&self) -> u32 {
        generation_of(self.bits(), INDEX_BITS)
    }

    /// The identity of entry `index` in generation `generation`.
    fn from_entry(generation: u32, index: u32) -> (e: Self)
        requires
            widths_ok(INDEX_BITS, GENERATION_BITS),
            0 < generation <= generation_max(GENERATION_BITS),
            (index as u64) < index_limit(INDEX_BITS),
        ensures
            e.bits() == compose(generation, index, INDEX_BITS),
            e.entry() == index,
            e.issued() == generation,
    {
        proof {
            lemma_compose(generation, index, INDEX_BITS, GENERATION_BITS);
        }
        Echo { raw: ((generation as u64) << INDEX_BITS) | (index as u64), marker: core::marker::PhantomData }
    }

    /// The identity bits for an external echo field.
    pub fn expose(self) -> (r: u64)
        ensures
            r == self.bits(),
            accepts(r, INDEX_BITS, GENERATION_BITS),
    {
        proof {
            use_type_invariant(&self);
        }
        self.raw
    }

    /// The echo an external producer returned, when `raw` can be one.
    pub fn from_exposed(raw: u64) -> (r: Option<Self>)
        requires
            widths_ok(INDEX_BITS, GENERATION_BITS),
        ensures
            accepts(raw, INDEX_BITS, GENERATION_BITS) ==> (r matches Some(e) && e.bits() == raw),
            !accepts(raw, INDEX_BITS, GENERATION_BITS) ==> r is None,
    {
        let width = INDEX_BITS + GENERATION_BITS;
        let exceeds_width = if width < 64 {
            raw >= (1u64 << width)
        } else {
            false
        };
        if raw == 0 || exceeds_width {
            return None;
        }
        let generation = (raw >> INDEX_BITS) as u32;
        if generation == 0 {
            return None;
        }
        Some(Echo { raw, marker: core::marker::PhantomData })
    }

    /// The entry this echo names.
    pub fn index(self) -> (i: u32)
        ensures
            i == self.entry(),
    {
        proof {
            use_type_invariant(&self);
        }
        let ib: u32 = INDEX_BITS;
        let mask: u64 = if ib >= 32 {
            0xffff_ffff
        } else {
            assert((1u64 << ib) >= 1) by (bit_vector)
                requires
                    ib < 32u32,
            ;
            (1u64 << ib) - 1
        };
        (self.raw & mask) as u32
    }

    /// The generation this echo was issued in.
    pub fn generation(self) -> (g: u32)
        ensures
            g == self.issued(),
    {
        proof {
            use_type_invariant(&self);
        }
        (self.raw >> INDEX_BITS) as u32
    }
}

impl<T, const INDEX_BITS: u32, const GENERATION_BITS: u32> Clone for Echo<T, INDEX_BITS, GENERATION_BITS> {
    fn clone(&self) -> (r: Self)
        ensures
            r == *self,
    {
        *self
    }
}

impl<T, const INDEX_BITS: u32, const GENERATION_BITS: u32> Copy for Echo<T, INDEX_BITS, GENERATION_BITS> {
}

impl<T, const INDEX_BITS: u32, const GENERATION_BITS: u32> Clone for Key<T, INDEX_BITS, GENERATION_BITS> {
    fn clone(&self) -> (r: Self)
        ensures
            r == *self,
    {
        *self
    }
}

impl<T, const INDEX_BITS: u32, const GENERATION_BITS: u32> Copy for Key<T, INDEX_BITS, GENERATION_BITS> {
}

impl<T, const INDEX_BITS: u32, const GENERATION_BITS: u32> Key<T, INDEX_BITS, GENERATION_BITS> {
    /// A copyable identity for an external producer.
    pub fn echo(self) -> (e: Echo<T, INDEX_BITS, GENERATION_BITS>)
        ensures
            e == self.echo,
    {
        self.echo
    }

    /// The identity in the configured bit width.
    pub fn expose(self) -> (r: u64)
        ensures
            r == self.echo.bits(),
    {
        self.echo.expose()
    }
}

impl<T: Copy, const INDEX_BITS: u32, const GENERATION_BITS: u32> Arena<T, INDEX_BITS, GENERATION_BITS> {
    /// The entries and groups.
    pub closed spec fn pool_view(&self) -> Pool<T> {
        self.pool
    }

    pub open spec fn wf(&self) -> bool {
        &&& self.pool_view().wf()
        &&& widths_ok(INDEX_BITS, GENERATION_BITS)
        &&& self.pool_view().directory_view().len() <= index_limit(INDEX_BITS)
        &&& generations_within(self.pool_view(), generation_max(GENERATION_BITS))
    }

    /// The entry `echo` names is occupied in the generation `echo` was
    /// issued in.
    pub open spec fn holds(&self, echo: Echo<T, INDEX_BITS, GENERATION_BITS>) -> bool {
        &&& self.pool_view().named(echo.entry() as int)
        &&& self.pool_view().entry_at(echo.entry() as int).occupied
        &&& self.pool_view().entry_at(echo.entry() as int).generation == echo.issued()
    }

    /// The entry `echo` names.
    pub open spec fn cell(&self, echo: Echo<T, INDEX_BITS, GENERATION_BITS>) -> EntryCell<T> {
        self.pool_view().entry_at(echo.entry() as int)
    }

    pub fn new() -> (a: Self)
        requires
            widths_ok(INDEX_BITS, GENERATION_BITS),
        ensures
            a.wf(),
            a.pool_view().groups_view().len() == 0,
            a.pool_view().order_view().len() == 0,
    {
        Arena { pool: Pool::new() }
    }

    /// Leases a group that can take `capacity` reservations: among the
    /// quiescent groups with at least `capacity` entries left below the last
    /// generation, the one with the fewest, the most recent among equals; or
    /// else a new group, while the identities fit the index bits. No identity
    /// changes place, and every entry still in use keeps its contents.
    pub fn try_slots(&mut self, capacity: usize) -> (r: Result<Slots<T, INDEX_BITS, GENERATION_BITS>, AllocationError>)
        requires
            old(self).wf(),
        ensures
            final(self).wf(),
            ({
                let before = old(self).pool_view();
                let after = final(self).pool_view();
                let sel = pick_available(before, before.order_view(), capacity as nat, generation_max(GENERATION_BITS));
                &&& r matches Ok(s) ==> {
                    let g = s.group as int;
                    let pre = if sel is Some {
                        before.group(g).entries@
                    } else {
                        Seq::new(capacity as nat, |e: int| fresh_entry::<T>())
                    };
                    &&& sel matches Some(h) ==> s.group == h && after.order_view() == before.order_view()
                    &&& sel is None ==> s.group == before.groups_view().len() && after.group(g).base
                        == before.directory_view().len() && after.order_view() == seq![s.group] + before.order_view()
                    &&& after.live(g)
                    &&& after.group(g).leased
                    &&& after.group(g).entries@.len() == pre.len()
                    &&& after.chain(g) == tail_pick(pre, pre.len() as int, capacity as nat, generation_max(GENERATION_BITS))
                    &&& after.chain(g).len() == capacity
                    &&& forall|e: int| 0 <= e < pre.len() ==> #[trigger] after.group(g).entries@[e] == (EntryCell {
                        next: after.group(g).entries@[e].next,
                        ..pre[e]
                    })
                    &&& forall|h: int| before.live(h) && h != g ==> #[trigger] after.groups_view()[h] == before.groups_view()[h]
                        && after.chain(h) == before.chain(h)
                    &&& forall|h: int| #[trigger] after.live(h) ==> h == g || before.live(h)
                    &&& sel is Some ==> after.directory_view() == before.directory_view() && after.group(g).base
                        == before.group(g).base
                    &&& after.directory_view().len() >= before.directory_view().len()
                    &&& forall|f: int| 0 <= f < before.directory_view().len() ==> #[trigger] after.directory_view()[f]
                        == before.directory_view()[f]
                    &&& forall|f: int| #[trigger] before.named(f) && before.entry_at(f).occupied ==> after.named(f)
                        && after.entry_at(f) == before.entry_at(f)
                }
                &&& r matches Err(e) ==> {
                    &&& sel is None
                    &&& *final(self) == *old(self)
                    &&& (e == AllocationError::Overflow <==> (before.directory_view().len() + capacity > index_limit(
                        INDEX_BITS,
                    ) || before.directory_view().len() + capacity > ENTRY_LIMIT || before.groups_view().len() >= ENTRY_LIMIT))
                }
            }),
    {
        let max = generation_limit(GENERATION_BITS);
        let limit = index_limit_of(INDEX_BITS);
        let ghost before = self.pool;
        match self.pool.acquire_available(capacity, max, limit) {
            Ok(group) => {
                proof {
                    let after = self.pool;
                    let g = group as int;
                    let sel = pick_available(before, before.order_view(), capacity as nat, max);
                    let pre = if sel is Some {
                        before.group(g).entries@
                    } else {
                        Seq::new(capacity as nat, |e: int| fresh_entry::<T>())
                    };
                    assert forall|h: int, e: int| after.live(h) && 0 <= e < after.group(h).entries@.len() implies #[trigger] after.group(
                        h,
                    ).entries@[e].generation <= max by {
                        if h == g {
                            assert(after.group(g).entries@[e].generation == pre[e].generation);
                            if sel is Some {
                                pool::lemma_pick_available(before, before.order_view(), capacity as nat, max);
                                before.lemma_wf();
                                let k = choose|k: int| 0 <= k < before.order_view().len() && before.order_view()[k] == g as usize;
                                assert(before.live(before.order_view()[k] as int));
                                assert(before.group(g).entries@[e].generation <= max);
                            }
                            if sel is None {
                                assert(pre[e] == fresh_entry::<T>());
                            }
                        } else {
                            assert(before.live(h));
                            assert(after.group(h).entries@[e] == before.group(h).entries@[e]);
                        }
                    }
                    assert forall|f: int| #[trigger] before.named(f) && before.entry_at(f).occupied implies after.named(f)
                        && after.entry_at(f) == before.entry_at(f) by {
                        before.lemma_wf();
                        let pl = before.directory_view()[f]->0;
                        if pl.group as int == g {
                            pool::lemma_pick_available(before, before.order_view(), capacity as nat, max);
                            assert(before.group(g).entries@[pl.entry as int].occupied);
                        }
                    }
                    assert forall|h: int, k: int| after.live(h) && 0 <= k < after.chain(h).len() implies #[trigger] after.group(
                        h,
                    ).entries@[after.chain(h)[k] as int].generation < max by {
                        if h != g {
                            assert(before.live(h));
                            assert(after.chain(h) == before.chain(h));
                            assert(after.group(h) == before.group(h));
                            assert(before.group(h).entries@[before.chain(h)[k] as int].generation < max);
                        }
                    }
                }
                Ok(Slots { group, marker: core::marker::PhantomData })
            },
            Err(e) => Err(e),
        }
    }

    /// Authority to resolve external completion echoes.
    pub fn drain(&self) -> (d: Drain<T, INDEX_BITS, GENERATION_BITS>) {
        Drain { marker: core::marker::PhantomData }
    }
}

impl<T: Copy, const INDEX_BITS: u32, const GENERATION_BITS: u32> Slots<T, INDEX_BITS, GENERATION_BITS> {
    /// These slots are the lease of a live group of `arena`.
    pub open spec fn leased_in(&self, arena: &Arena<T, INDEX_BITS, GENERATION_BITS>) -> bool {
        &&& arena.wf()
        &&& arena.pool_view().live(self.group as int)
    }

    /// Fills the group's next free entry with `value`, in its next
    /// generation.
    pub fn reserve(&self, arena: &mut Arena<T, INDEX_BITS, GENERATION_BITS>, value: T) -> (r: Option<
        Reservation<T, INDEX_BITS, GENERATION_BITS>,
    >)
        requires
            self.leased_in(&*old(arena)),
        ensures
            final(arena).wf(),
            self.leased_in(&*final(arena)),
            ({
                let before = old(arena).pool_view();
                let c = before.chain(self.group as int);
                let grp = before.group(self.group as int);
                &&& c.len() == 0 ==> r is None && *final(arena) == *old(arena)
                &&& c.len() > 0 ==> (r matches Some(res) && res.echo.entry() == grp.base + c[0]
                    && res.echo.issued() == grp.entries@[c[0] as int].generation + 1
                    && final(arena).holds(res.echo) && final(arena).cell(res.echo).value == Some(value)
                    && !final(arena).cell(res.echo).detached && !final(arena).cell(res.echo).terminal
                    && !old(arena).cell(res.echo).occupied
                    && final(arena).pool_view().directory_view() == before.directory_view()
                    && final(arena).pool_view().order_view() == before.order_view()
                    && final(arena).pool_view().group(self.group as int).base == grp.base
                    && final(arena).pool_view().group(self.group as int).leased == grp.leased
                    && final(arena).pool_view().group(self.group as int).serial == grp.serial
                    && final(arena).pool_view().groups_view().len() == before.groups_view().len()
                    && (forall|h: int| 0 <= h < before.groups_view().len() && h != self.group ==> #[trigger] final(arena).pool_view().groups_view()[h]
                        == before.groups_view()[h])
                    && before.directory_view()[res.echo.entry() as int] == Some(Place { group: self.group, entry: c[0] })
                    && (forall|h: int| h != self.group ==> #[trigger] final(arena).pool_view().chain(h) == before.chain(h))
                    && final(arena).pool_view().chain(self.group as int) == c.drop_first()
                    && forall|f: int| before.named(f) && f != res.echo.entry() ==> #[trigger] final(arena).pool_view().entry_at(f)
                        == before.entry_at(f))
            }),
    {
        let ghost before = arena.pool;
        proof {
            before.lemma_wf();
            let c = before.chain(self.group as int);
            if c.len() > 0 {
                assert(before.group(self.group as int).entries@[c[0] as int].generation < generation_max(GENERATION_BITS));
            }
        }
        match arena.pool.reserve(self.group, value, Stamp::Generation) {
            Some(id) => {
                let generation = arena.pool.entry(id).generation;
                proof {
                    let g = self.group as int;
                    let c = before.chain(g);
                    let after = arena.pool;
                    let max = generation_max(GENERATION_BITS);
                    assert(before.directory_view()[before.group(g).base + c[0]] == Some(
                        pool::Place { group: g as usize, entry: c[0] },
                    ));
                    lemma_generations_kept(before, after, id as int, max);
                    lemma_index_limit(INDEX_BITS);
                }
                let echo = Echo::from_entry(generation, id as u32);
                Some(Reservation { echo })
            },
            None => None,
        }
    }

    /// Ends the lease, as dropping the slots does; entries still in use stay
    /// occupied.
    pub fn close(self, arena: &mut Arena<T, INDEX_BITS, GENERATION_BITS>)
        requires
            self.leased_in(&*old(arena)),
        ensures
            final(arena).wf(),
            !final(arena).pool_view().group(self.group as int).leased,
            final(arena).pool_view().group(self.group as int).entries@ == old(arena).pool_view().group(
                self.group as int,
            ).entries@,
            final(arena).pool_view().live(self.group as int),
            final(arena).pool_view().group(self.group as int).base == old(arena).pool_view().group(self.group as int).base,
            final(arena).pool_view().order_view() == old(arena).pool_view().order_view(),
            final(arena).pool_view().directory_view() == old(arena).pool_view().directory_view(),
            final(arena).pool_view().groups_view().len() == old(arena).pool_view().groups_view().len(),
            forall|h: int| 0 <= h < old(arena).pool_view().groups_view().len() && h != self.group ==> #[trigger] final(arena).pool_view().groups_view()[h]
                == old(arena).pool_view().groups_view()[h],
            forall|h: int| #[trigger] final(arena).pool_view().chain(h) == old(arena).pool_view().chain(h),
    {
        let ghost before = arena.pool;
        arena.pool.end_lease(self.group);
        proof {
            let after = arena.pool;
            assert forall|h: int, e: int| after.live(h) && 0 <= e < after.group(h).entries@.len() implies #[trigger] after.group(
                h,
            ).entries@[e].generation <= generation_max(GENERATION_BITS) by {
                assert(before.live(h));
                assert(after.group(h).entries@ == before.group(h).entries@);
                assert(before.group(h).entries@[e].generation <= generation_max(GENERATION_BITS));
            }
            assert forall|h: int, k: int| after.live(h) && 0 <= k < after.chain(h).len() implies #[trigger] after.group(
                h,
            ).entries@[after.chain(h)[k] as int].generation < generation_max(GENERATION_BITS) by {
                assert(before.live(h));
                assert(after.group(h).entries@ == before.group(h).entries@);
                assert(before.group(h).entries@[before.chain(h)[k] as int].generation < generation_max(GENERATION_BITS));
            }
        }
    }
}

impl<T: Copy, const INDEX_BITS: u32, const GENERATION_BITS: u32> Arena<T, INDEX_BITS, GENERATION_BITS> {
    /// Empties the occupied entry `id`: it rejoins its group's free list
    /// unless its generation is the last, and then it retires.
    fn release_entry(&mut self, id: usize)
        requires
            old(self).wf(),
            old(self).pool_view().named(id as int),
            old(self).pool_view().entry_at(id as int).occupied,
        ensures
            final(self).wf(),
            forall|f: int| #[trigger] final(self).pool_view().named(f) == old(self).pool_view().named(f),
            forall|f: int| old(self).pool_view().named(f) && f != id ==> #[trigger] final(self).pool_view().entry_at(f)
                == old(self).pool_view().entry_at(f),
            final(self).pool_view().entry_at(id as int) == (EntryCell {
                value: None,
                occupied: false,
                detached: false,
                terminal: false,
                next: final(self).pool_view().entry_at(id as int).next,
                ..old(self).pool_view().entry_at(id as int)
            }),
            released_from(final(self).pool_view(), old(self).pool_view(), id as int, Some(generation_max(GENERATION_BITS))),
    {
        let max = generation_limit(GENERATION_BITS);
        let ghost before = self.pool;
        self.pool.release(id, Some(max));
        proof {
            let after = self.pool;
            before.lemma_wf();
            let p = before.directory_view()[id as int]->0;
            let pg = p.group as int;
            assert(before.group(pg).entries@[p.entry as int].generation <= max);
            assert forall|k: int| 0 <= k < after.chain(pg).len() implies ({
                let x = #[trigger] after.chain(pg)[k];
                ||| x == p.entry && after.entry_at(id as int).generation < max
                ||| x != p.entry && before.chain(pg).contains(x)
            }) by {
                let c = before.chain(pg);
                let x = after.chain(pg)[k];
                if before.entry_at(id as int).generation == max {
                    assert(c[k] == x);
                    assert(c[k] < before.group(pg).entries@.len() && !before.group(pg).entries@[c[k] as int].occupied);
                } else if k > 0 {
                    assert(x == c[k - 1]);
                    assert(c[k - 1] < before.group(pg).entries@.len() && !before.group(pg).entries@[c[k - 1] as int].occupied);
                }
            }
            lemma_generations_kept(before, after, id as int, max);
        }
    }

    /// Marks the occupied entry `id` as let go of by its owner.
    fn mark_detached(&mut self, id: usize)
        requires
            old(self).wf(),
            old(self).pool_view().named(id as int),
            old(self).pool_view().entry_at(id as int).occupied,
        ensures
            final(self).wf(),
            forall|f: int| #[trigger] final(self).pool_view().named(f) == old(self).pool_view().named(f),
            forall|f: int| old(self).pool_view().named(f) && f != id ==> #[trigger] final(self).pool_view().entry_at(f)
                == old(self).pool_view().entry_at(f),
            final(self).pool_view().entry_at(id as int) == (EntryCell {
                detached: true,
                ..old(self).pool_view().entry_at(id as int)
            }),
            changed_entry(final(self).pool_view(), old(self).pool_view(), id as int),
            forall|h: int| #[trigger] final(self).pool_view().chain(h) == old(self).pool_view().chain(h),
    {
        let ghost before = self.pool;
        self.pool.set_detached(id);
        proof {
            self.lemma_flag_kept(before, id as int);
        }
    }

    /// Marks the occupied entry `id` as finally completed by its source.
    fn mark_terminal(&mut self, id: usize)
        requires
            old(self).wf(),
            old(self).pool_view().named(id as int),
            old(self).pool_view().entry_at(id as int).occupied,
        ensures
            final(self).wf(),
            forall|f: int| #[trigger] final(self).pool_view().named(f) == old(self).pool_view().named(f),
            forall|f: int| old(self).pool_view().named(f) && f != id ==> #[trigger] final(self).pool_view().entry_at(f)
                == old(self).pool_view().entry_at(f),
            final(self).pool_view().entry_at(id as int) == (EntryCell {
                terminal: true,
                ..old(self).pool_view().entry_at(id as int)
            }),
            changed_entry(final(self).pool_view(), old(self).pool_view(), id as int),
            forall|h: int| #[trigger] final(self).pool_view().chain(h) == old(self).pool_view().chain(h),
    {
        let ghost before = self.pool;
        self.pool.set_terminal(id);
        proof {
            self.lemma_flag_kept(before, id as int);
        }
    }

    /// Setting a flag on an occupied entry keeps every generation and free
    /// list.
    proof fn lemma_flag_kept(&self, before: Pool<T>, id: int)
        requires
            before.wf(),
            self.pool.wf(),
            widths_ok(INDEX_BITS, GENERATION_BITS),
            before.directory_view().len() <= index_limit(INDEX_BITS),
            generations_within(before, generation_max(GENERATION_BITS)),
            before.named(id),
            before.entry_at(id).occupied,
            self.pool.directory_view() == before.directory_view(),
            self.pool.entry_at(id).generation == before.entry_at(id).generation,
            forall|h: int| #[trigger] self.pool.chain(h) == before.chain(h),
            ({
                let p = before.directory_view()[id]->0;
                &&& self.pool.groups_view().len() == before.groups_view().len()
                &&& forall|h: int| 0 <= h < before.groups_view().len() && h != p.group ==> #[trigger] self.pool.groups_view()[h]
                    == before.groups_view()[h]
                &&& self.pool.live(p.group as int)
                &&& self.pool.group(p.group as int).entries@ == before.group(p.group as int).entries@.update(
                    p.entry as int,
                    self.pool.entry_at(id),
                )
            }),
        ensures
            self.wf(),
    {
        let max = generation_max(GENERATION_BITS);
        let after = self.pool;
        before.lemma_wf();
        let p = before.directory_view()[id]->0;
        let pg = p.group as int;
        assert(before.group(pg).entries@[p.entry as int].generation <= max);
        assert forall|k: int| 0 <= k < after.chain(pg).len() implies ({
            let x = #[trigger] after.chain(pg)[k];
            ||| x == p.entry && after.entry_at(id).generation < max
            ||| x != p.entry && before.chain(pg).contains(x)
        }) by {
            let c = before.chain(pg);
            assert(c[k] == after.chain(pg)[k]);
            assert(c[k] < before.group(pg).entries@.len() && !before.group(pg).entries@[c[k] as int].occupied);
        }
        lemma_generations_kept(before, after, id, max);
    }
}

impl<T: Copy, const INDEX_BITS: u32, const GENERATION_BITS: u32> Reservation<T, INDEX_BITS, GENERATION_BITS> {
    pub fn key(&self) -> (k: Key<T, INDEX_BITS, GENERATION_BITS>)
        ensures
            k.echo == self.echo,
    {
        Key { echo: self.echo }
    }

    /// Keeps the entry, handing its claim to a lease.
    pub fn commit(self) -> (l: Lease<T, INDEX_BITS, GENERATION_BITS>)
        ensures
            l.echo == self.echo,
    {
        Lease { echo: self.echo }
    }

    /// Rolls the entry back, as dropping the reservation does.
    pub fn cancel(self, arena: &mut Arena<T, INDEX_BITS, GENERATION_BITS>)
        requires
            old(arena).wf(),
            old(arena).holds(self.echo),
        ensures
            final(arena).wf(),
            !final(arena).cell(self.echo).occupied,
            !final(arena).holds(self.echo),
            final(arena).pool_view().named(self.echo.entry() as int),
            forall|f: int| old(arena).pool_view().named(f) && f != self.echo.entry() ==> #[trigger] final(arena).pool_view().entry_at(f)
                == old(arena).pool_view().entry_at(f),
            released_from(final(arena).pool_view(), old(arena).pool_view(), self.echo.entry() as int, Some(generation_max(GENERATION_BITS))),
    {
        let id = self.echo.index() as usize;
        arena.release_entry(id);
    }
}

impl<T: Copy, const INDEX_BITS: u32, const GENERATION_BITS: u32> Lease<T, INDEX_BITS, GENERATION_BITS> {
    pub fn key(&self) -> (k: Key<T, INDEX_BITS, GENERATION_BITS>)
        ensures
            k.echo == self.echo,
    {
        Key { echo: self.echo }
    }

    /// The value the entry was reserved with.
    pub fn value(&self, arena: &Arena<T, INDEX_BITS, GENERATION_BITS>) -> (v: T)
        requires
            arena.wf(),
            arena.holds(self.echo),
        ensures
            Some(v) == arena.cell(self.echo).value,
    {
        arena.pool.value(self.echo.index() as usize)
    }

    /// Takes the value of an entry whose source has finally completed, and
    /// frees the entry.
    pub fn complete(self, arena: &mut Arena<T, INDEX_BITS, GENERATION_BITS>) -> (v: T)
        requires
            old(arena).wf(),
            old(arena).holds(self.echo),
            old(arena).cell(self.echo).terminal,
        ensures
            Some(v) == old(arena).cell(self.echo).value,
            final(arena).wf(),
            !final(arena).cell(self.echo).occupied,
            final(arena).pool_view().named(self.echo.entry() as int),
            forall|f: int| old(arena).pool_view().named(f) && f != self.echo.entry() ==> #[trigger] final(arena).pool_view().entry_at(f)
                == old(arena).pool_view().entry_at(f),
            released_from(final(arena).pool_view(), old(arena).pool_view(), self.echo.entry() as int, Some(generation_max(GENERATION_BITS))),
    {
        let id = self.echo.index() as usize;
        let value = arena.pool.value(id);
        arena.release_entry(id);
        value
    }

    /// Lets go of the entry, as dropping the lease does: it is freed now if
    /// its source has finally completed, or else when it does.
    pub fn detach(self, arena: &mut Arena<T, INDEX_BITS, GENERATION_BITS>)
        requires
            old(arena).wf(),
            old(arena).holds(self.echo),
        ensures
            final(arena).wf(),
            final(arena).pool_view().named(self.echo.entry() as int),
            old(arena).cell(self.echo).terminal ==> !final(arena).cell(self.echo).occupied,
            !old(arena).cell(self.echo).terminal ==> final(arena).cell(self.echo) == (EntryCell {
                detached: true,
                ..old(arena).cell(self.echo)
            }),
            forall|f: int| old(arena).pool_view().named(f) && f != self.echo.entry() ==> #[trigger] final(arena).pool_view().entry_at(f)
                == old(arena).pool_view().entry_at(f),
            old(arena).cell(self.echo).terminal ==> released_from(final(arena).pool_view(), old(arena).pool_view(), self.echo.entry() as int, Some(generation_max(GENERATION_BITS))),
            !old(arena).cell(self.echo).terminal ==> changed_entry(final(arena).pool_view(), old(arena).pool_view(), self.echo.entry() as int)
                && forall|h: int| #[trigger] final(arena).pool_view().chain(h) == old(arena).pool_view().chain(h),
    {
        let id = self.echo.index() as usize;
        if arena.pool.entry(id).terminal {
            arena.release_entry(id);
        } else {
            arena.mark_detached(id);
        }
    }
}

impl<T: Copy, const INDEX_BITS: u32, const GENERATION_BITS: u32> Drain<T, INDEX_BITS, GENERATION_BITS> {
    /// The echo resolved against `arena`, when it names an occupied entry in
    /// the generation it was issued in.
    pub fn complete(&self, arena: &Arena<T, INDEX_BITS, GENERATION_BITS>, echo: Echo<T, INDEX_BITS, GENERATION_BITS>) -> (r:
        Option<Resolved<T, INDEX_BITS, GENERATION_BITS>>)
        requires
            arena.wf(),
        ensures
            arena.holds(echo) ==> r == Some(Resolved { echo }),
            !arena.holds(echo) ==> r is None,
    {
        let id = echo.index() as usize;
        if !arena.pool.is_named(id) {
            return None;
        }
        let entry = arena.pool.entry(id);
        if entry.occupied && entry.generation == echo.generation() {
            Some(Resolved { echo })
        } else {
            None
        }
    }
}

impl<T: Copy, const INDEX_BITS: u32, const GENERATION_BITS: u32> Resolved<T, INDEX_BITS, GENERATION_BITS> {
    /// Reads the entry's value, when it is still occupied in the echo's
    /// generation. Unless `more` completions are coming, marks the entry as
    /// finally completed, freeing it when its owner has already let go.
    pub fn resolve(self, arena: &mut Arena<T, INDEX_BITS, GENERATION_BITS>, more: bool) -> (r: Option<T>)
        requires
            old(arena).wf(),
        ensures
            final(arena).wf(),
            !old(arena).holds(self.echo) ==> r is None && *final(arena) == *old(arena),
            old(arena).holds(self.echo) ==> {
                &&& r == old(arena).cell(self.echo).value
                &&& r is Some
                &&& final(arena).pool_view().named(self.echo.entry() as int)
                &&& more ==> *final(arena) == *old(arena)
                &&& !more && old(arena).cell(self.echo).detached ==> !final(arena).cell(self.echo).occupied
                &&& !more && !old(arena).cell(self.echo).detached ==> final(arena).cell(self.echo) == (EntryCell {
                    terminal: true,
                    ..old(arena).cell(self.echo)
                })
                &&& forall|f: int| old(arena).pool_view().named(f) && f != self.echo.entry() ==> #[trigger] final(arena).pool_view().entry_at(f)
                    == old(arena).pool_view().entry_at(f)
                &&& !more && old(arena).cell(self.echo).detached ==> released_from(final(arena).pool_view(), old(arena).pool_view(), self.echo.entry() as int, Some(generation_max(GENERATION_BITS)))
                &&& !more && !old(arena).cell(self.echo).detached ==> changed_entry(
                    final(arena).pool_view(),
                    old(arena).pool_view(),
                    self.echo.entry() as int,
                ) && forall|h: int| #[trigger] final(arena).pool_view().chain(h) == old(arena).pool_view().chain(h)
            },
    {
        let id = self.echo.index() as usize;
        if !arena.pool.is_named(id) {
            return None;
        }
        let entry = arena.pool.entry(id);
        if !entry.occupied || entry.generation != self.echo.generation() {
            return None;
        }
        let value = arena.pool.value(id);
        if !more {
            let detached = arena.pool.entry(id).detached;
            let ghost before = arena.pool;
            arena.mark_terminal(id);
            let ghost mid = arena.pool;
            if detached {
                arena.release_entry(id);
                proof {
                    lemma_release_after_change(before, mid, arena.pool, id as int, Some(generation_max(GENERATION_BITS)));
                }
            }
        }
        Some(value)
    }
}

/// An arena holds at most one identity per entry: two held echoes that
/// name the same entry are the same echo.
pub proof fn law_one_identity_per_entry<T: Copy, const INDEX_BITS: u32, const GENERATION_BITS: u32>(
    arena: Arena<T, INDEX_BITS, GENERATION_BITS>,
    a: Echo<T, INDEX_BITS, GENERATION_BITS>,
    b: Echo<T, INDEX_BITS, GENERATION_BITS>,
)
    requires
        widths_ok(INDEX_BITS, GENERATION_BITS),
        accepts(a.bits(), INDEX_BITS, GENERATION_BITS),
        accepts(b.bits(), INDEX_BITS, GENERATION_BITS),
        arena.holds(a),
        arena.holds(b),
        a.entry() == b.entry(),
    ensures
        a.bits() == b.bits(),
{
    lemma_decompose(a.bits(), INDEX_BITS, GENERATION_BITS);
    lemma_decompose(b.bits(), INDEX_BITS, GENERATION_BITS);
}

} // verus!
