//! Completion arenas whose tokens carry the serial their entry was reserved
//! under, so that a stale token is recognized rather than trusted.
use vstd::prelude::*;

use crate::collections::completion::pool;
use crate::collections::completion::pool::{
    changed_entry, lemma_release_after_change, Place, next_serial, released_from, scan, EntryCell, Pool, Stamp, ENTRY_LIMIT,
};
use crate::collections::completion::{entry_align, entry_alignment, entry_of, identity};
use crate::collections::AllocationError;

verus! {

/// The alignment of an entry that holds a `T`, an address and a serial:
/// the larger of `entry_align::<T>()` and a `u64`'s alignment.
pub open spec fn token_align<T>() -> nat {
    let e = entry_align::<T>();
    let s = vstd::layout::align_of::<u64>();
    if e >= s {
        e
    } else {
        s
    }
}

/// The alignment of an entry that holds a `T`, an address and a serial.
pub fn token_alignment<T>() -> (a: usize)
    ensures
        a == token_align::<T>(),
        a > 0,
{
    let e = entry_alignment::<T>();
    let s = core::mem::align_of::<u64>();
    if e >= s {
        e
    } else {
        s
    }
}

/// Reusable storage for operations that may complete after their Rust owner
/// is dropped.
pub struct Arena<T: Copy> {
    pool: Pool<T>,
}

/// A leased group of reusable completion entries.
pub struct Slots<T> {
    pub group: usize,
    pub marker: core::marker::PhantomData<T>,
}

/// A completion entry that rolls back unless committed.
pub struct Reservation<T> {
    pub key: Token<T>,
}

/// The owner's claim on an externally completing entry.
pub struct Lease<T> {
    pub key: Token<T>,
}

/// A completion key: a token tied to its owner.
pub struct Key<T> {
    pub echo: Token<T>,
}

/// A checked identity echoed by an external completion source: the entry
/// and the serial it was reserved under.
pub struct Token<T> {
    pub id: usize,
    pub serial: u64,
    pub marker: core::marker::PhantomData<T>,
}

/// Authority to resolve echoed completion tokens.
pub struct Drain<T> {
    pub marker: core::marker::PhantomData<T>,
}

/// A token found to name an occupied entry under its serial.
pub struct Resolved<T> {
    pub key: Token<T>,
}

impl<T> Clone for Token<T> {
    fn clone(&self) -> (r: Self)
        ensures
            r == *self,
    {
        Token { id: self.id, serial: self.serial, marker: core::marker::PhantomData }
    }
}

impl<T> Copy for Token<T> {
}

impl<T> Clone for Key<T> {
    fn clone(&self) -> (r: Self)
        ensures
            r == *self,
    {
        Key { echo: self.echo }
    }
}

impl<T> Copy for Key<T> {
}

impl<T: Copy> Arena<T> {
    /// The entries and groups.
    pub closed spec fn pool_view(&self) -> Pool<T> {
        self.pool
    }

    pub open spec fn wf(&self) -> bool {
        self.pool_view().wf()
    }

    /// The entry `echo` names is occupied under `echo`'s serial.
    pub open spec fn holds(&self, echo: Token<T>) -> bool {
        &&& self.pool_view().named(echo.id as int)
        &&& self.pool_view().entry_at(echo.id as int).occupied
        &&& self.pool_view().entry_at(echo.id as int).serial == echo.serial
    }

    /// The entry `echo` names.
    pub open spec fn cell(&self, echo: Token<T>) -> EntryCell<T> {
        self.pool_view().entry_at(echo.id as int)
    }

    pub fn new() -> (a: Self)
        ensures
            a.wf(),
            a.pool_view().groups_view().len() == 0,
            a.pool_view().order_view().len() == 0,
    {
        Arena { pool: Pool::new() }
    }

    /// Leases a group of at least `capacity` entries: the smallest quiescent
    /// group that is large enough, the earliest among equals, or else a new
    /// group. Every other quiescent group is freed; every entry still in use
    /// keeps its identity and contents.
    pub fn try_slots(&mut self, capacity: usize) -> (r: Result<Slots<T>, AllocationError>)
        requires
            old(self).wf(),
        ensures
            final(self).wf(),
            ({
                let (sel, ret, qui) = scan(old(self).pool_view(), old(self).pool_view().order_view(), capacity as nat);
                let before = old(self).pool_view();
                let after = final(self).pool_view();
                &&& r matches Ok(s) ==> {
                    &&& sel matches Some(h) ==> s.group == h
                    &&& sel is None ==> s.group == before.groups_view().len() && after.group(s.group as int).entries@.len()
                        == capacity && after.group(s.group as int).base == before.directory_view().len()
                    &&& after.live(s.group as int)
                    &&& after.group(s.group as int).leased
                    &&& after.chain(s.group as int) == Seq::new(capacity as nat, |i: int| i as usize)
                    &&& after.order_view() == seq![s.group] + ret
                    &&& forall|x: usize| #[trigger] qui.contains(x) ==> !after.live(x as int)
                    &&& forall|x: usize| #[trigger] ret.contains(x) ==> after.groups_view()[x as int] == before.groups_view()[x as int]
                    &&& after.directory_view().len() >= before.directory_view().len()
                    &&& forall|f: int| #[trigger] before.named(f) && before.entry_at(f).occupied ==> after.named(f)
                        && after.entry_at(f) == before.entry_at(f)
                    &&& forall|f: int|
                        #![trigger before.directory_view()[f]]
                        0 <= f < before.directory_view().len() && before.directory_view()[f] is Some
                            && !qui.contains(before.directory_view()[f]->0.group) ==> after.directory_view()[f]
                            == before.directory_view()[f]
                }
                &&& r matches Err(e) ==> {
                    &&& sel is None
                    &&& after.groups_view() == before.groups_view()
                    &&& after.order_view() == qui.reverse() + ret
                    &&& (e == AllocationError::Overflow <==> (before.directory_view().len() + capacity > ENTRY_LIMIT
                        || before.groups_view().len() >= ENTRY_LIMIT))
                }
            }),
    {
        let ghost before = self.pool;
        match self.pool.acquire(capacity) {
            Ok(group) => {
                proof {
                    let after = self.pool;
                    before.lemma_wf();
                    pool::lemma_scan(before, before.order_view(), capacity as nat);
                    assert forall|f: int| #[trigger] before.named(f) && before.entry_at(f).occupied implies after.named(f)
                        && after.entry_at(f) == before.entry_at(f) by {
                        let pl = before.directory_view()[f]->0;
                        assert(!pool::quiescent_spec(before.group(pl.group as int))) by {
                            assert(before.group(pl.group as int).entries@[pl.entry as int].occupied);
                        }
                        assert(before.order_view().contains(pl.group));
                    }
                }
                Ok(Slots { group, marker: core::marker::PhantomData })
            },
            Err(e) => Err(e),
        }
    }

    /// Authority to resolve external completions.
    pub fn drain(&self) -> (d: Drain<T>) {
        Drain { marker: core::marker::PhantomData }
    }
}

impl<T: Copy> Default for Arena<T> {
    fn default() -> (a: Self)
        ensures
            a.wf(),
            a.pool_view().groups_view().len() == 0,
    {
        Self::new()
    }
}

impl<T: Copy> Slots<T> {
    /// These slots are the lease of a live group of `arena`.
    pub open spec fn leased_in(&self, arena: &Arena<T>) -> bool {
        &&& arena.wf()
        &&& arena.pool_view().live(self.group as int)
    }

    /// Fills the group's next free entry with `value`.
    pub fn reserve(&self, arena: &mut Arena<T>, value: T) -> (r: Option<Reservation<T>>)
        requires
            self.leased_in(&*old(arena)),
        ensures
            final(arena).wf(),
            self.leased_in(&*final(arena)),
            ({
                let before = old(arena).pool_view();
                let c = before.chain(self.group as int);
                let grp = before.group(self.group as int);
                &&& c.len() == 0 ==> r is None && *final(arena) == *old(arena)
                &&& c.len() > 0 ==> (r matches Some(res) && res.key.id == grp.base + c[0]
                    && res.key.serial == next_serial(grp.serial)
                    && final(arena).pool_view().group(self.group as int).serial == next_serial(grp.serial)
                    && final(arena).holds(res.key) && final(arena).cell(res.key).value == Some(value)
                    && !final(arena).cell(res.key).detached && !final(arena).cell(res.key).terminal
                    && !old(arena).cell(res.key).occupied
                    && final(arena).pool_view().directory_view() == before.directory_view()
                    && final(arena).pool_view().order_view() == before.order_view()
                    && final(arena).pool_view().group(self.group as int).base == grp.base
                    && final(arena).pool_view().group(self.group as int).leased == grp.leased
                    && final(arena).pool_view().groups_view().len() == before.groups_view().len()
                    && (forall|h: int| 0 <= h < before.groups_view().len() && h != self.group ==> #[trigger] final(arena).pool_view().groups_view()[h]
                        == before.groups_view()[h])
                    && before.directory_view()[res.key.id as int] == Some(Place { group: self.group, entry: c[0] })
                    && (forall|h: int| h != self.group ==> #[trigger] final(arena).pool_view().chain(h) == before.chain(h))
                    && final(arena).pool_view().chain(self.group as int) == c.drop_first()
                    && forall|f: int| before.named(f) && f != res.key.id ==> #[trigger] final(arena).pool_view().entry_at(f)
                        == before.entry_at(f))
            }),
    {
        proof {
            arena.pool.lemma_wf();
        }
        match arena.pool.reserve(self.group, value, Stamp::Serial) {
            Some(id) => {
                let serial = arena.pool.entry(id).serial;
                Some(Reservation { key: Token { id, serial, marker: core::marker::PhantomData } })
            },
            None => None,
        }
    }

    /// Ends the lease, as dropping the slots does; entries still in use stay
    /// occupied.
    pub fn close(self, arena: &mut Arena<T>)
        requires
            self.leased_in(&*old(arena)),
        ensures
            final(arena).wf(),
            !final(arena).pool_view().group(self.group as int).leased,
            final(arena).pool_view().group(self.group as int).entries@ == old(arena).pool_view().group(
                self.group as int,
            ).entries@,
            final(arena).pool_view().live(self.group as int),
            final(arena).pool_view().group(self.group as int).base == old(arena).pool_view().group(self.group as int).base,
            final(arena).pool_view().group(self.group as int).serial == old(arena).pool_view().group(self.group as int).serial,
            final(arena).pool_view().order_view() == old(arena).pool_view().order_view(),
            final(arena).pool_view().directory_view() == old(arena).pool_view().directory_view(),
            final(arena).pool_view().groups_view().len() == old(arena).pool_view().groups_view().len(),
            forall|h: int| 0 <= h < old(arena).pool_view().groups_view().len() && h != self.group ==> #[trigger] final(arena).pool_view().groups_view()[h]
                == old(arena).pool_view().groups_view()[h],
            forall|h: int| #[trigger] final(arena).pool_view().chain(h) == old(arena).pool_view().chain(h),
    {
        arena.pool.end_lease(self.group);
    }
}

impl<T: Copy> Reservation<T> {
    pub fn key(&self) -> (k: Key<T>)
        ensures
            k.echo == self.key,
    {
        Key { echo: self.key }
    }

    /// Keeps the entry, handing its claim to a lease.
    pub fn commit(self) -> (l: Lease<T>)
        ensures
            l.key == self.key,
    {
        Lease { key: self.key }
    }

    /// Rolls the entry back, as dropping the reservation does.
    pub fn cancel(self, arena: &mut Arena<T>)
        requires
            old(arena).wf(),
            old(arena).holds(self.key),
        ensures
            final(arena).wf(),
            !final(arena).cell(self.key).occupied,
            final(arena).pool_view().named(self.key.id as int),
            forall|f: int| old(arena).pool_view().named(f) && f != self.key.id ==> #[trigger] final(arena).pool_view().entry_at(f)
                == old(arena).pool_view().entry_at(f),
            released_from(final(arena).pool_view(), old(arena).pool_view(), self.key.id as int, None),
    {
        arena.pool.release(self.key.id, None);
    }
}

impl<T: Copy> Lease<T> {
    pub fn key(&self) -> (k: Key<T>)
        ensures
            k.echo == self.key,
    {
        Key { echo: self.key }
    }

    /// The value the entry was reserved with.
    pub fn value(&self, arena: &Arena<T>) -> (v: T)
        requires
            arena.wf(),
            arena.holds(self.key),
        ensures
            Some(v) == arena.cell(self.key).value,
    {
        arena.pool.value(self.key.id)
    }

    /// Takes the value of an entry whose source has finally completed, and
    /// frees the entry.
    pub fn complete(self, arena: &mut Arena<T>) -> (v: T)
        requires
            old(arena).wf(),
            old(arena).holds(self.key),
            old(arena).cell(self.key).terminal,
        ensures
            Some(v) == old(arena).cell(self.key).value,
            final(arena).wf(),
            !final(arena).cell(self.key).occupied,
            final(arena).pool_view().named(self.key.id as int),
            forall|f: int| old(arena).pool_view().named(f) && f != self.key.id ==> #[trigger] final(arena).pool_view().entry_at(f)
                == old(arena).pool_view().entry_at(f),
            released_from(final(arena).pool_view(), old(arena).pool_view(), self.key.id as int, None),
    {
        let value = arena.pool.value(self.key.id);
        arena.pool.release(self.key.id, None);
        value
    }

    /// Lets go of the entry, as dropping the lease does: it is freed now if
    /// its source has finally completed, or else when it does.
    pub fn detach(self, arena: &mut Arena<T>)
        requires
            old(arena).wf(),
            old(arena).holds(self.key),
        ensures
            final(arena).wf(),
            final(arena).pool_view().named(self.key.id as int),
            old(arena).cell(self.key).terminal ==> !final(arena).cell(self.key).occupied,
            !old(arena).cell(self.key).terminal ==> final(arena).cell(self.key) == (EntryCell {
                detached: true,
                ..old(arena).cell(self.key)
            }),
            forall|f: int| old(arena).pool_view().named(f) && f != self.key.id ==> #[trigger] final(arena).pool_view().entry_at(f)
                == old(arena).pool_view().entry_at(f),
            old(arena).cell(self.key).terminal ==> released_from(
                final(arena).pool_view(),
                old(arena).pool_view(),
                self.key.id as int,
                None,
            ),
            !old(arena).cell(self.key).terminal ==> changed_entry(final(arena).pool_view(), old(arena).pool_view(), self.key.id as int)
                && forall|h: int| #[trigger] final(arena).pool_view().chain(h) == old(arena).pool_view().chain(h),
    {
        if arena.pool.entry(self.key.id).terminal {
            arena.pool.release(self.key.id, None);
        } else {
            arena.pool.set_detached(self.key.id);
        }
    }
}

impl<T> Key<T> {
    /// A copyable token for an external producer.
    pub fn token(self) -> (t: Token<T>)
        ensures
            t == self.echo,
    {
        self.echo
    }

    /// The token's address-sized identity and serial.
    pub fn expose(self) -> (r: (usize, u64))
        requires
            (self.echo.id + 1) * token_align::<T>() <= usize::MAX,
        ensures
            r == (((self.echo.id + 1) * token_align::<T>()) as usize, self.echo.serial),
    {
        (self.echo.address(), self.echo.serial())
    }
}

impl<T: Copy> Drain<T> {
    /// The token resolved against `arena`, when it names an occupied entry
    /// under the serial that entry was reserved with.
    pub fn complete(&mut self, arena: &Arena<T>, key: Token<T>) -> (r: Option<Resolved<T>>)
        requires
            arena.wf(),
        ensures
            arena.holds(key) ==> r == Some(Resolved { key }),
            !arena.holds(key) ==> r is None,
    {
        if !arena.pool.is_named(key.id) {
            return None;
        }
        let entry = arena.pool.entry(key.id);
        if entry.occupied && entry.serial == key.serial {
            Some(Resolved { key })
        } else {
            None
        }
    }
}

impl<T: Copy> Resolved<T> {
    /// Reads the entry's value. Unless `more` completions are coming, marks
    /// the entry as finally completed, freeing it when its owner has already
    /// let go.
    pub fn resolve(self, arena: &mut Arena<T>, more: bool) -> (v: T)
        requires
            old(arena).wf(),
            old(arena).holds(self.key),
        ensures
            Some(v) == old(arena).cell(self.key).value,
            final(arena).wf(),
            final(arena).pool_view().named(self.key.id as int),
            more ==> *final(arena) == *old(arena),
            !more && old(arena).cell(self.key).detached ==> !final(arena).cell(self.key).occupied,
            !more && !old(arena).cell(self.key).detached ==> final(arena).cell(self.key) == (EntryCell {
                terminal: true,
                ..old(arena).cell(self.key)
            }),
            forall|f: int| old(arena).pool_view().named(f) && f != self.key.id ==> #[trigger] final(arena).pool_view().entry_at(f)
                == old(arena).pool_view().entry_at(f),
            !more && old(arena).cell(self.key).detached ==> released_from(
                final(arena).pool_view(),
                old(arena).pool_view(),
                self.key.id as int,
                None,
            ),
            !more && !old(arena).cell(self.key).detached ==> changed_entry(
                final(arena).pool_view(),
                old(arena).pool_view(),
                self.key.id as int,
            ) && forall|h: int| #[trigger] final(arena).pool_view().chain(h) == old(arena).pool_view().chain(h),
    {
        let value = arena.pool.value(self.key.id);
        if !more {
            let detached = arena.pool.entry(self.key.id).detached;
            let ghost before = arena.pool;
            arena.pool.set_terminal(self.key.id);
            let ghost mid = arena.pool;
            if detached {
                arena.pool.release(self.key.id, None);
                proof {
                    lemma_release_after_change(before, mid, arena.pool, self.key.id as int, None);
                }
            }
        }
        value
    }
}

impl<T> Token<T> {
    /// The token's identity as an address-sized integer.
    pub fn address(self) -> (a: usize)
        requires
            (self.id + 1) * token_align::<T>() <= usize::MAX,
        ensures
            a == (self.id + 1) * token_align::<T>(),
    {
        identity(self.id, token_alignment::<T>())
    }

    pub fn serial(self) -> (s: u64)
        ensures
            s == self.serial,
    {
        self.serial
    }

    /// The token an external producer returned, if `address` can name an
    /// entry.
    pub fn from_parts(address: usize, serial: u64) -> (r: Option<Self>)
        ensures
            (address == 0 || address as int % token_align::<T>() as int != 0) ==> r is None,
            !(address == 0 || address as int % token_align::<T>() as int != 0) ==> (r matches Some(t) && (t.id + 1) * token_align::<T>()
                == address && t.serial == serial),
    {
        let align = token_alignment::<T>();
        if address == 0 || address % align != 0 {
            return None;
        }
        Some(Token { id: entry_of(address, align), serial, marker: core::marker::PhantomData })
    }
}


/// The serial a group reaches `n` reservations after serial `s`.
pub open spec fn serial_after(s: u64, n: nat) -> u64
    decreases n,
{
    if n == 0 {
        s
    } else {
        next_serial(serial_after(s, (n - 1) as nat))
    }
}

/// Each reservation of a group takes the serial one past the previous one,
/// and never zero; so while serials have not wrapped, a token's serial is not
/// issued again by its group, and an entry refilled later never matches it.
pub proof fn law_serials_do_not_recur(s: u64, n: nat)
    requires
        s + n <= u64::MAX,
    ensures
        serial_after(s, n) == s + n,
        n > 0 ==> serial_after(s, n) != s,
        s < u64::MAX ==> next_serial(s) == s + 1,
        next_serial(s) != 0,
    decreases n,
{
    if n > 0 {
        law_serials_do_not_recur(s, (n - 1) as nat);
    }
}

} // verus!
