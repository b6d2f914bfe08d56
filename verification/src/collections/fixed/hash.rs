//! A fixed-capacity open-addressing hash table. Callers supply each value's
//! hash and a predicate that recognizes the value they look for.
use vstd::multiset::Multiset;
use vstd::prelude::*;

use crate::collections::fixed::index::present;
use crate::collections::AllocationError;

verus! {

broadcast use {
    vstd::multiset::group_multiset_axioms,
    vstd::multiset::group_multiset_properties,
    vstd::set::group_set_axioms,
    vstd::layout::align_nonzero,
};

/// The largest capacity a plan accepts, `2^(usize::BITS - 2)`.
pub open spec fn max_capacity() -> nat {
    (usize::MAX as nat + 1) / 4
}

/// The smallest power of two at or above `n`.
pub open spec fn next_pow2(n: nat) -> nat
    decreases n,
{
    if n <= 1 {
        1
    } else {
        2 * next_pow2(((n + 1) / 2) as nat)
    }
}

/// The number of buckets of a table for `capacity` values.
pub open spec fn buckets_for(capacity: nat) -> nat {
    next_pow2(2 * capacity)
}

/// An array of `n` elements of the given size and alignment can be laid out.
pub open spec fn array_fits(n: nat, size: nat, align: nat) -> bool {
    n * size + align - 1 <= isize::MAX
}

/// A table for `capacity` values of type `V` can be laid out.
pub open spec fn plan_fits<V>(capacity: nat) -> bool {
    &&& capacity <= max_capacity()
    &&& array_fits(buckets_for(capacity), 1, 1)
    &&& array_fits(buckets_for(capacity), 8, 8)
    &&& array_fits(buckets_for(capacity), vstd::layout::size_of::<V>(), vstd::layout::align_of::<V>())
}

/// The capacity of a hash table whose layout is known to fit.
pub struct Plan<V> {
    capacity: usize,
    marker: core::marker::PhantomData<V>,
}

impl<V> Clone for Plan<V> {
    fn clone(&self) -> (r: Self)
        ensures
            r == *self,
    {
        Plan { capacity: self.capacity, marker: core::marker::PhantomData }
    }
}

impl<V> Copy for Plan<V> {
}

proof fn lemma_next_pow2(n: nat)
    ensures
        next_pow2(n) >= n,
        next_pow2(n) >= 1,
        n >= 1 ==> next_pow2(n) < 2 * n,
    decreases n,
{
    if n > 1 {
        lemma_next_pow2(((n + 1) / 2) as nat);
    }
}

/// Computes `next_pow2(n)` for `n` at most `2^(usize::BITS - 1)`.
fn next_power_of_two(n: usize) -> (p: usize)
    requires
        n <= (usize::MAX as nat + 1) / 2,
    ensures
        p == next_pow2(n as nat),
    decreases n,
{
    if n <= 1 {
        1
    } else {
        let half = next_power_of_two(n / 2 + n % 2);
        proof {
            assert((n + 1) / 2 == n / 2 + n % 2);
            lemma_next_pow2((n / 2 + n % 2) as nat);
        }
        2 * half
    }
}

/// Whether an array of `n` elements of the given size and alignment fits.
fn array_layout_fits(n: usize, size: usize, align: usize) -> (b: bool)
    requires
        align >= 1,
    ensures
        b == array_fits(n as nat, size as nat, align as nat),
{
    match n.checked_mul(size) {
        None => {
            proof {
                assert(n * size >= n * size - 0);
            }
            false
        },
        Some(bytes) => bytes as u128 + align as u128 - 1 <= isize::MAX as u128,
    }
}

impl<V> Plan<V> {
    pub closed spec fn cap(self) -> nat {
        self.capacity as nat
    }

    /// A plan for `capacity` values, if its table can be laid out.
    pub fn new(capacity: usize) -> (r: Option<Self>)
        ensures
            plan_fits::<V>(capacity as nat) ==> r is Some && r->0.cap() == capacity,
            !plan_fits::<V>(capacity as nat) ==> r is None,
    {
        if Self::fits(capacity) {
            Some(Plan { capacity, marker: core::marker::PhantomData })
        } else {
            None
        }
    }

    /// A plan for `N` values, whose table must be known to fit.
    pub fn fixed<const N: usize>() -> (r: Self)
        requires
            plan_fits::<V>(N as nat),
        ensures
            r.cap() == N,
    {
        Plan { capacity: N, marker: core::marker::PhantomData }
    }

    pub fn capacity(self) -> (n: usize)
        ensures
            n == self.cap(),
    {
        self.capacity
    }

    fn fits(capacity: usize) -> (b: bool)
        ensures
            b == plan_fits::<V>(capacity as nat),
    {
        let quarter = usize::MAX / 4 + 1;
        if capacity > quarter {
            return false;
        }
        let buckets = next_power_of_two(capacity * 2);
        let size = core::mem::size_of::<V>();
        let align = core::mem::align_of::<V>();
        array_layout_fits(buckets, 1, 1) && array_layout_fits(buckets, 8, 8) && array_layout_fits(
            buckets,
            size,
            align,
        )
    }
}

/// The bucket a hash starts probing at.
pub open spec fn home(hash: u64, n: nat) -> int {
    (hash as int) % (n as int)
}

/// The bucket `k` steps after bucket `a`, going round a table of `n`.
pub open spec fn step(a: int, k: int, n: int) -> int {
    if a + k < n {
        a + k
    } else {
        a + k - n
    }
}

/// The number of steps from bucket `a` to bucket `b`.
pub open spec fn dist(a: int, b: int, n: int) -> int {
    if a <= b {
        b - a
    } else {
        b - a + n
    }
}

/// The occupied buckets of `s`.
pub open spec fn occupied<V>(s: Seq<Option<Bucket<V>>>) -> Set<int> {
    Set::new(|i: int| 0 <= i < s.len() && s[i] is Some)
}

/// The entries one bucket holds.
pub open spec fn held<V>(o: Option<Bucket<V>>) -> Multiset<Bucket<V>> {
    match o {
        Some(e) => Multiset::singleton(e),
        None => Multiset::empty(),
    }
}

/// The entries the buckets `s` hold.
pub open spec fn stored_in<V>(s: Seq<Option<Bucket<V>>>) -> Multiset<Bucket<V>>
    decreases s.len(),
{
    if s.len() == 0 {
        Multiset::empty()
    } else {
        stored_in(s.drop_last()).add(held(s.last()))
    }
}

/// The bucket `k` steps along the probe of the entry in bucket `i` is occupied.
spec fn filled_along<V>(s: Seq<Option<Bucket<V>>>, i: int, k: int) -> bool {
    s[step(home(s[i]->0.hash, s.len()), k, s.len() as int)] is Some
}

/// Every entry is reached from its home bucket through occupied buckets.
spec fn clustered<V>(s: Seq<Option<Bucket<V>>>) -> bool {
    forall|i: int, k: int|
        0 <= i < s.len() && s[i] is Some && 0 <= k < dist(home(s[i]->0.hash, s.len()), i, s.len() as int)
            ==> #[trigger] filled_along(s, i, k)
}

/// The bucket `k` steps along the probe of the entry in bucket `i` is
/// occupied, or is `hole`.
spec fn filled_or_hole<V>(s: Seq<Option<Bucket<V>>>, i: int, k: int, hole: int) -> bool {
    let p = step(home(s[i]->0.hash, s.len()), k, s.len() as int);
    s[p] is Some || p == hole
}

/// `rejects_all` restated: `f` rejects every stored value with hash `hash`.
pub open spec fn rejects_all<V, F: Fn(&V) -> bool>(s: Seq<Option<Bucket<V>>>, hash: u64, f: F) -> bool {
    forall|i: int| 0 <= i < s.len() && #[trigger] s[i] is Some && s[i]->0.hash == hash ==> f.ensures((&s[i]->0.value,), false)
}

/// Bucket `i` is the first along the probe from `hash`'s home bucket that
/// `f` could have stopped at: every bucket before it is occupied, by a value
/// with another hash or one that `f` rejects.
pub open spec fn first_match<V, F: Fn(&V) -> bool>(s: Seq<Option<Bucket<V>>>, hash: u64, f: F, i: int) -> bool {
    let n = s.len() as int;
    let h = home(hash, s.len());
    forall|j: int|
        0 <= j < dist(h, i, n) ==> #[trigger] s[step(h, j, n)] is Some && (s[step(h, j, n)]->0.hash != hash
            || f.ensures((&s[step(h, j, n)]->0.value,), false))
}

proof fn lemma_home(hash: u64, n: nat)
    requires
        n > 0,
    ensures
        0 <= home(hash, n) < n,
{
}

proof fn lemma_stored_update<V>(s: Seq<Option<Bucket<V>>>, i: int, o: Option<Bucket<V>>)
    requires
        0 <= i < s.len(),
    ensures
        stored_in(s.update(i, o)).add(held(s[i])) == stored_in(s).add(held(o)),
    decreases s.len(),
{
    if i < s.len() - 1 {
        let t = s.drop_last();
        let u = s.update(i, o);
        assert(u.drop_last() =~= t.update(i, o));
        assert(u.last() == s.last());
        assert(t[i] == s[i]);
        lemma_stored_update(t, i, o);
        assert(stored_in(u) == stored_in(t.update(i, o)).add(held(s.last())));
        assert(stored_in(s) == stored_in(t).add(held(s.last())));
        let a = stored_in(t.update(i, o));
        let b = stored_in(t);
        assert forall|x: Bucket<V>| #[trigger] stored_in(u).add(held(s[i])).count(x) == stored_in(s).add(held(o)).count(x) by {
            assert(a.add(held(t[i])).count(x) == b.add(held(o)).count(x));
        }
        assert(stored_in(u).add(held(s[i])) =~= stored_in(s).add(held(o)));
    } else {
        assert(s.update(i, o).drop_last() =~= s.drop_last());
        assert(stored_in(s.update(i, o)).add(held(s[i])) =~= stored_in(s).add(held(o)));
    }
}

proof fn lemma_stored_len<V>(s: Seq<Option<Bucket<V>>>)
    ensures
        occupied(s).finite(),
        stored_in(s).len() == occupied(s).len(),
    decreases s.len(),
{
    if s.len() == 0 {
        assert(occupied(s) =~= Set::<int>::empty());
    } else {
        let t = s.drop_last();
        lemma_stored_len(t);
        let last = s.len() - 1;
        if s.last() is Some {
            assert(occupied(s) =~= occupied(t).insert(last));
        } else {
            assert(occupied(s) =~= occupied(t));
        }
    }
}

/// Emptying an occupied bucket removes its entry.
proof fn lemma_empty_bucket<V>(s: Seq<Option<Bucket<V>>>, i: int)
    requires
        0 <= i < s.len(),
        s[i] is Some,
    ensures
        stored_in(s.update(i, None)) == stored_in(s).remove(s[i]->0),
        occupied(s.update(i, None)) == occupied(s).remove(i),
        occupied(s).len() >= 1,
        occupied(s.update(i, None)).len() + 1 == occupied(s).len(),
{
    lemma_stored_update(s, i, None);
    lemma_stored_len(s);
    let a = stored_in(s.update(i, None));
    assert forall|x: Bucket<V>| #[trigger] a.count(x) == stored_in(s).remove(s[i]->0).count(x) by {
        assert(a.add(held(s[i])).count(x) == stored_in(s).add(held(None::<Bucket<V>>)).count(x));
    }
    assert(a =~= stored_in(s).remove(s[i]->0));
    assert(occupied(s.update(i, None)) =~= occupied(s).remove(i));
    assert(occupied(s).contains(i));
}

/// Moving an entry from bucket `b` to the free bucket `a` keeps what is stored.
proof fn lemma_move_bucket<V>(s: Seq<Option<Bucket<V>>>, a: int, b: int)
    requires
        0 <= a < s.len(),
        0 <= b < s.len(),
        s[a] is None,
        s[b] is Some,
    ensures
        stored_in(s.update(a, s[b]).update(b, None)) == stored_in(s),
        occupied(s.update(a, s[b]).update(b, None)).len() == occupied(s).len(),
{
    let s1 = s.update(a, s[b]);
    lemma_stored_update(s, a, s[b]);
    lemma_stored_update(s1, b, None);
    lemma_stored_len(s);
    lemma_stored_len(s1);
    let s2 = s1.update(b, None);
    assert forall|x: Bucket<V>| #[trigger] stored_in(s2).count(x) == stored_in(s).count(x) by {
        assert(stored_in(s1).add(held(None::<Bucket<V>>)).count(x) == stored_in(s).add(held(s[b])).count(x));
        assert(stored_in(s2).add(held(s1[b])).count(x) == stored_in(s1).add(held(None::<Bucket<V>>)).count(x));
    }
    assert(stored_in(s2) =~= stored_in(s));
    assert(occupied(s1) =~= occupied(s).insert(a));
    assert(occupied(s2) =~= occupied(s1).remove(b));
}

proof fn lemma_stored_contains<V>(s: Seq<Option<Bucket<V>>>, i: int)
    requires
        0 <= i < s.len(),
        s[i] is Some,
    ensures
        stored_in(s).contains(s[i]->0),
{
    lemma_stored_update(s, i, None);
    assert(held(s[i]).count(s[i]->0) == 1);
    assert(stored_in(s.update(i, None)).add(held(s[i])).count(s[i]->0) >= 1);
}

/// The first `t` buckets from `start` are occupied, so there are at least `t`
/// occupied buckets.
proof fn lemma_run_bound<V>(s: Seq<Option<Bucket<V>>>, start: int, t: int)
    requires
        0 <= start < s.len(),
        0 <= t <= s.len(),
        forall|j: int| 0 <= j < t ==> #[trigger] s[step(start, j, s.len() as int)] is Some,
    ensures
        t <= occupied(s).len(),
{
    let n = s.len() as int;
    lemma_stored_len(s);
    let r = vstd::set_lib::set_int_range(0, t);
    vstd::set_lib::lemma_int_range(0, t);
    let f = |j: int| step(start, j, n);
    assert(vstd::relations::injective_on(f, r));
    let img = r.map(f);
    assert(img.subset_of(occupied(s))) by {
        assert forall|x: int| #[trigger] img.contains(x) implies occupied(s).contains(x) by {
            let j = choose|j: int| r.contains(j) && f(j) == x;
            assert(s[step(start, j, n)] is Some);
        }
    }
    vstd::set_lib::lemma_len_subset(img, occupied(s));
    vstd::set_lib::lemma_map_size(r, img, f);
}

/// `s` with the value of each occupied bucket replaced by the next of `v`,
/// in bucket order, hashes kept.
pub open spec fn revalue<V>(s: Seq<Option<Bucket<V>>>, v: Seq<V>) -> Seq<Option<Bucket<V>>>
    decreases s.len(),
{
    if s.len() == 0 {
        s
    } else if s.last() is Some {
        revalue(s.drop_last(), v.drop_last()).push(Some(Bucket { hash: s.last()->0.hash, value: v.last() }))
    } else {
        revalue(s.drop_last(), v).push(None)
    }
}

proof fn lemma_revalue_shape<V>(s: Seq<Option<Bucket<V>>>, v: Seq<V>)
    ensures
        revalue(s, v).len() == s.len(),
        forall|i: int| 0 <= i < s.len() ==> (#[trigger] revalue(s, v)[i] is Some) == (s[i] is Some),
        forall|i: int| 0 <= i < s.len() && s[i] is Some ==> (#[trigger] revalue(s, v)[i])->0.hash == s[i]->0.hash,
    decreases s.len(),
{
    if s.len() > 0 {
        if s.last() is Some {
            lemma_revalue_shape(s.drop_last(), v.drop_last());
        } else {
            lemma_revalue_shape(s.drop_last(), v);
        }
        assert forall|i: int| 0 <= i < s.len() - 1 implies #[trigger] revalue(s, v)[i] == if s.last() is Some {
            revalue(s.drop_last(), v.drop_last())[i]
        } else {
            revalue(s.drop_last(), v)[i]
        } by {}
    }
}

/// Lends out the values of the occupied buckets of `s`, in bucket order.
fn lend_values<'a, V>(s: &'a mut [Option<Bucket<V>>]) -> (r: Vec<&'a mut V>)
    ensures
        r@.map_values(|x: &mut V| *x) == present(old(s)@).map_values(|b: Bucket<V>| b.value),
        final(s)@ == revalue(old(s)@, r@.map_values(|x: &mut V| *final(x))),
    decreases old(s)@.len(),
{
    let n = s.len();
    if n == 0 {
        let r: Vec<&'a mut V> = Vec::new();
        proof {
            assert(r@.map_values(|x: &mut V| *x) =~= present(old(s)@).map_values(|b: Bucket<V>| b.value));
        }
        return r;
    }
    let ghost whole = s@;
    let (front, back) = s.split_at_mut(n - 1);
    let ghost rest_in = front@;
    let mut r = lend_values(front);
    let ghost lent = r@;
    let cell = back.first_mut().unwrap();
    proof {
        assert(rest_in =~= whole.drop_last());
        assert(*cell == whole.last());
    }
    match cell.as_mut() {
        Some(bucket) => {
            r.push(&mut bucket.value);
            proof {
                assert(r@.map_values(|y: &mut V| *y) =~= lent.map_values(|y: &mut V| *y).push(*r@.last()));
                assert(present(whole).map_values(|b: Bucket<V>| b.value) =~= present(rest_in).map_values(
                    |b: Bucket<V>| b.value,
                ).push(whole.last()->0.value));
                assert(r@.map_values(|y: &mut V| *final(y)) =~= lent.map_values(|y: &mut V| *final(y)).push(*final(r@.last())));
                assert(r@.map_values(|y: &mut V| *final(y)).drop_last() =~= lent.map_values(|y: &mut V| *final(y)));
            }
        },
        None => {},
    }
    r
}

/// A stored value with its hash.
pub struct Bucket<V> {
    pub hash: u64,
    pub value: V,
}

/// Where a probe for a hash stopped.
enum Probe {
    Occupied(usize),
    Vacant(usize),
    Full,
}

/// A fixed-capacity hash table with caller-provided hashes and matchers.
///
/// Values live in a power-of-two number of buckets, at least twice the
/// capacity; a value sits at the first free bucket from its hash's home
/// bucket, and removal shifts later values back so that no probe stops early.
pub struct FixedMap<V> {
    slots: Vec<Option<Bucket<V>>>,
    len: usize,
    capacity: usize,
}

/// The bucket a lookup found: occupied by a matching value, or vacant.
pub enum Entry<'a, V> {
    Occupied(Occupied<'a, V>),
    Vacant(Vacant<'a, V>),
}

/// A bucket holding a matching value.
pub struct Occupied<'a, V> {
    pub map: &'a mut FixedMap<V>,
    pub index: usize,
}

/// The free bucket where a value with hash `hash` belongs.
pub struct Vacant<'a, V> {
    pub map: &'a mut FixedMap<V>,
    pub index: usize,
    pub hash: u64,
}

impl<V> FixedMap<V> {
    /// The buckets.
    pub closed spec fn table(&self) -> Seq<Option<Bucket<V>>> {
        self.slots@
    }

    pub closed spec fn cap(&self) -> nat {
        self.capacity as nat
    }

    /// The stored hashes and values.
    pub open spec fn stored(&self) -> Multiset<Bucket<V>> {
        stored_in(self.table())
    }

    pub closed spec fn wf(&self) -> bool {
        &&& self.slots@.len() == buckets_for(self.capacity as nat)
        &&& self.capacity <= max_capacity()
        &&& self.len == occupied(self.slots@).len()
        &&& self.len <= self.capacity
        &&& clustered(self.slots@)
    }

    proof fn lemma_wf(&self)
        requires
            self.wf(),
        ensures
            self.table().len() > self.cap(),
            occupied(self.table()).finite(),
            self.stored().len() == self.len,
    {
        lemma_next_pow2(2 * self.capacity as nat);
        lemma_stored_len(self.slots@);
    }

    pub fn from_plan(plan: Plan<V>) -> (m: Self)
        requires
            plan_fits::<V>(plan.cap()),
        ensures
            m.wf(),
            m.cap() == plan.cap(),
            m.table().len() == buckets_for(plan.cap()),
            m.stored() == Multiset::<Bucket<V>>::empty(),
    {
        let capacity = plan.capacity();
        let buckets = next_power_of_two(capacity * 2);
        let mut slots: Vec<Option<Bucket<V>>> = Vec::with_capacity(buckets);
        let mut i: usize = 0;
        while i < buckets
            invariant
                i <= buckets,
                slots@.len() == i,
                forall|k: int| 0 <= k < i ==> slots@[k] is None,
            decreases buckets - i,
        {
            slots.push(None);
            i = i + 1;
        }
        let m = FixedMap { slots, len: 0, capacity };
        proof {
            m.lemma_empty();
        }
        m
    }

    /// Like `from_plan`, but reports a failed reservation.
    pub fn try_from_plan(plan: Plan<V>) -> (r: Result<Self, AllocationError>)
        requires
            plan_fits::<V>(plan.cap()),
        ensures
            r is Ok ==> r->Ok_0.wf() && r->Ok_0.cap() == plan.cap() && r->Ok_0.table().len() == buckets_for(
                plan.cap(),
            ) && r->Ok_0.stored() == Multiset::<Bucket<V>>::empty(),
            r is Err ==> r->Err_0 == AllocationError::Exhausted,
    {
        let capacity = plan.capacity();
        let buckets = next_power_of_two(capacity * 2);
        let mut slots: Vec<Option<Bucket<V>>> = Vec::new();
        if slots.try_reserve(buckets).is_err() {
            return Err(AllocationError::Exhausted);
        }
        let mut i: usize = 0;
        while i < buckets
            invariant
                i <= buckets,
                slots@.len() == i,
                forall|k: int| 0 <= k < i ==> slots@[k] is None,
            decreases buckets - i,
        {
            slots.push(None);
            i = i + 1;
        }
        let m = FixedMap { slots, len: 0, capacity };
        proof {
            m.lemma_empty();
        }
        Ok(m)
    }

    proof fn lemma_empty(&self)
        requires
            forall|k: int| 0 <= k < self.slots@.len() ==> self.slots@[k] is None,
            self.slots@.len() == buckets_for(self.capacity as nat),
            self.capacity <= max_capacity(),
            self.len == 0,
        ensures
            self.wf(),
            self.stored() == Multiset::<Bucket<V>>::empty(),
    {
        assert(occupied(self.slots@) =~= Set::<int>::empty());
        lemma_stored_len(self.slots@);
        assert(self.stored() =~= Multiset::<Bucket<V>>::empty());
    }

    pub fn capacity(&self) -> (n: usize)
        ensures
            n == self.cap(),
    {
        self.capacity
    }

    /// The number of stored values.
    pub fn len(&self) -> (n: usize)
        requires
            self.wf(),
        ensures
            n == self.stored().len(),
    {
        proof {
            self.lemma_wf();
        }
        self.len
    }

    pub fn is_empty(&self) -> (b: bool)
        requires
            self.wf(),
        ensures
            b == (self.stored().len() == 0),
    {
        self.len() == 0
    }

    /// Finds the bucket of the first value, along the probe from `hash`'s home
    /// bucket, whose hash is `hash` and which `matches` accepts; or else the
    /// free bucket ending that probe.
    fn probe<F: Fn(&V) -> bool>(&self, hash: u64, matches: &F) -> (r: Probe)
        requires
            self.wf(),
            forall|v: &V| matches.requires((v,)),
        ensures
            r matches Probe::Occupied(i) ==> i < self.table().len() && self.table()[i as int] is Some
                && self.table()[i as int]->0.hash == hash && matches.ensures((&self.table()[i as int]->0.value,), true)
                && first_match(self.table(), hash, *matches, i as int),
            !(r is Occupied) ==> rejects_all(self.table(), hash, *matches),
            r matches Probe::Vacant(e) ==> e < self.table().len() && self.table()[e as int] is None
                && self.len < self.cap() && forall|k: int|
                0 <= k < dist(home(hash, self.table().len()), e as int, self.table().len() as int) ==> self.table()[step(
                home(hash, self.table().len()),
                k,
                self.table().len() as int,
            )] is Some,
            r is Full ==> self.len == self.cap(),
    {
        proof {
            self.lemma_wf();
        }
        let n = self.slots.len();
        let start = (hash % (n as u64)) as usize;
        let ghost h = home(hash, n as nat);
        proof {
            lemma_home(hash, n as nat);
        }
        let mut index = start;
        let mut k: usize = 0;
        loop
            invariant
                self.wf(),
                n == self.slots@.len(),
                n > self.capacity,
                forall|v: &V| matches.requires((v,)),
                h == home(hash, n as nat),
                start == h,
                0 <= h < n,
                k < n,
                index == step(h, k as int, n as int),
                forall|j: int| 0 <= j < k ==> #[trigger] self.slots@[step(h, j, n as int)] is Some,
                forall|j: int|
                    0 <= j < k && #[trigger] self.slots@[step(h, j, n as int)]->0.hash == hash ==> matches.ensures(
                        (&self.slots@[step(h, j, n as int)]->0.value,),
                        false,
                    ),
            decreases n - k,
        {
            match &self.slots[index] {
                None => {
                    proof {
                        assert(dist(h, index as int, n as int) == k);
                        assert forall|i: int| 0 <= i < n && #[trigger] self.slots@[i] is Some && self.slots@[i]->0.hash == hash implies matches.ensures(
                            (&self.slots@[i]->0.value,),
                            false,
                        ) by {
                            let d = dist(h, i, n as int);
                            if d >= k {
                                assert(filled_along(self.slots@, i, k as int));
                            }
                            assert(step(h, d, n as int) == i);
                        }
                        if self.len < self.capacity {
                            assert forall|j: int| 0 <= j < dist(h, index as int, n as int) implies self.slots@[step(h, j, n as int)] is Some by {
                            }
                        }
                    }
                    if self.len == self.capacity {
                        return Probe::Full;
                    } else {
                        return Probe::Vacant(index);
                    }
                },
                Some(entry) => {
                    if entry.hash == hash && matches(&entry.value) {
                        proof {
                            assert(dist(h, index as int, n as int) == k);
                        }
                        return Probe::Occupied(index);
                    }
                },
            }
            proof {
                assert forall|j: int| 0 <= j < k + 1 implies #[trigger] self.slots@[step(h, j, n as int)] is Some by {
                }
                lemma_run_bound(self.slots@, h, k + 1);
            }
            index = if index + 1 == n {
                0
            } else {
                index + 1
            };
            k = k + 1;
        }
    }

    /// Stores `hash` and `value` in the free bucket `index`, which ends the
    /// probe from `hash`'s home bucket.
    fn insert_at(&mut self, index: usize, hash: u64, value: V)
        requires
            old(self).wf(),
            index < old(self).table().len(),
            old(self).table()[index as int] is None,
            old(self).len < old(self).cap(),
            forall|k: int|
                0 <= k < dist(home(hash, old(self).table().len()), index as int, old(self).table().len() as int)
                    ==> old(self).table()[step(home(hash, old(self).table().len()), k, old(self).table().len() as int)] is Some,
        ensures
            final(self).wf(),
            final(self).cap() == old(self).cap(),
            final(self).table() == old(self).table().update(index as int, Some(Bucket { hash, value })),
            final(self).stored() == old(self).stored().insert(Bucket { hash, value }),
    {
        let ghost before = self.slots@;
        let ghost b = Bucket { hash, value };
        self.slots[index] = Some(Bucket { hash, value });
        self.len = self.len + 1;
        proof {
            let s = self.slots@;
            lemma_stored_update(before, index as int, Some(b));
            assert(self.stored() =~= old(self).stored().insert(b));
            assert(occupied(s) =~= occupied(before).insert(index as int));
            lemma_stored_len(before);
            assert forall|i: int, k: int|
                0 <= i < s.len() && s[i] is Some && 0 <= k < dist(home(s[i]->0.hash, s.len()), i, s.len() as int)
                    implies #[trigger] filled_along(s, i, k) by {
                if i != index {
                    assert(filled_along(before, i, k));
                }
            }
        }
    }

    /// Empties bucket `index` and shifts later values of its cluster back,
    /// so that every value stays reachable from its home bucket.
    fn remove_at(&mut self, index: usize) -> (r: V)
        requires
            old(self).wf(),
            index < old(self).table().len(),
            old(self).table()[index as int] is Some,
        ensures
            final(self).wf(),
            final(self).cap() == old(self).cap(),
            final(self).table().len() == old(self).table().len(),
            r == old(self).table()[index as int]->0.value,
            final(self).stored() == old(self).stored().remove(old(self).table()[index as int]->0),
    {
        proof {
            self.lemma_wf();
        }
        let n = self.slots.len();
        let ghost before = self.slots@;
        proof {
            lemma_empty_bucket(before, index as int);
        }
        let removed = self.slots[index].take().unwrap();
        self.len = self.len - 1;
        let ghost s0 = self.slots@;
        proof {
            assert(s0 =~= before.update(index as int, None));
            let s = s0;
            assert forall|i: int, k: int|
                0 <= i < s.len() && s[i] is Some && 0 <= k < dist(home(s[i]->0.hash, s.len()), i, s.len() as int)
                    implies #[trigger] filled_or_hole(s, i, k, index as int) by {
                assert(filled_along(before, i, k));
            }
        }
        let start = index;
        let mut hole = index;
        let mut next = if index + 1 == n {
            0
        } else {
            index + 1
        };
        let ghost mut t: int = 0;
        proof {
            assert(occupied(s0).contains(0) || !occupied(s0).contains(0));
            lemma_stored_len(s0);
            lemma_run_bound(s0, step(start as int, 1, n as int), 0);
        }
        loop
            invariant
                n == self.slots@.len(),
                n == buckets_for(self.capacity as nat),
                n > self.capacity,
                self.capacity <= max_capacity(),
                self.capacity == old(self).capacity,
                self.len == occupied(self.slots@).len(),
                self.len == occupied(s0).len(),
                occupied(s0).finite(),
                self.len < self.capacity,
                stored_in(self.slots@) == stored_in(s0),
                s0.len() == n,
                0 <= start < n,
                0 <= hole < n,
                0 <= next < n,
                0 <= t,
                t + 1 < n,
                next == step(start as int, t + 1, n as int),
                dist(start as int, hole as int, n as int) <= t,
                self.slots@[hole as int] is None,
                forall|j: int| 1 <= j <= t ==> #[trigger] s0[step(start as int, j, n as int)] is Some,
                forall|j: int|
                    t + 1 <= j < n ==> #[trigger] self.slots@[step(start as int, j, n as int)] == s0[step(
                        start as int,
                        j,
                        n as int,
                    )],
                forall|x: int|
                    0 <= x < n && 0 < dist(hole as int, x, n as int) < dist(hole as int, next as int, n as int)
                        ==> #[trigger] self.slots@[x] is Some,
                forall|i: int, k: int|
                    0 <= i < n && self.slots@[i] is Some && 0 <= k < dist(
                        home(self.slots@[i]->0.hash, n as nat),
                        i,
                        n as int,
                    ) ==> #[trigger] filled_or_hole(self.slots@, i, k, hole as int),
                forall|i: int|
                    0 <= i < n && 0 < dist(hole as int, i, n as int) < dist(hole as int, next as int, n as int)
                        && #[trigger] self.slots@[i] is Some ==> dist(home(self.slots@[i]->0.hash, n as nat), i, n as int)
                        <= dist(home(self.slots@[i]->0.hash, n as nat), hole as int, n as int),
            ensures
                n == self.slots@.len(),
                self.len == occupied(self.slots@).len(),
                stored_in(self.slots@) == stored_in(s0),
                clustered(self.slots@),
            decreases n - t,
        {
            let h = match &self.slots[next] {
                None => {
                    proof {
                        let s = self.slots@;
                        assert forall|i: int, k: int|
                            0 <= i < s.len() && s[i] is Some && 0 <= k < dist(home(s[i]->0.hash, s.len()), i, s.len() as int)
                                implies #[trigger] filled_along(s, i, k) by {
                            let hi = home(s[i]->0.hash, s.len());
                            lemma_home(s[i]->0.hash, n as nat);
                            assert(filled_or_hole(s, i, k, hole as int));
                            let p = step(hi, k, n as int);
                            if p == hole {
                                if 0 < dist(hole as int, i, n as int) < dist(hole as int, next as int, n as int) {
                                    assert(dist(hi, i, n as int) <= dist(hi, hole as int, n as int));
                                } else {
                                    let k2 = k + dist(hole as int, next as int, n as int);
                                    assert(filled_or_hole(s, i, k2, hole as int));
                                }
                            }
                        }
                    }
                    break;
                },
                Some(bucket) => (bucket.hash % (n as u64)) as usize,
            };
            proof {
                lemma_home(self.slots@[next as int]->0.hash, n as nat);
            }
            let from_home = if next >= h {
                next - h
            } else {
                next + (n - h)
            };
            let to_hole = if hole >= h {
                hole - h
            } else {
                hole + (n - h)
            };
            let ghost s = self.slots@;
            if from_home > to_hole {
                let moved = self.slots[next].take();
                self.slots[hole] = moved;
                proof {
                    let s2 = self.slots@;
                    assert(s2 =~= s.update(hole as int, s[next as int]).update(next as int, None));
                    lemma_move_bucket(s, hole as int, next as int);
                    assert forall|i: int, k: int|
                        0 <= i < n && s2[i] is Some && 0 <= k < dist(home(s2[i]->0.hash, n as nat), i, n as int)
                            implies #[trigger] filled_or_hole(s2, i, k, next as int) by {
                        if i == hole {
                            assert(filled_or_hole(s, next as int, k, hole as int));
                        } else {
                            assert(filled_or_hole(s, i, k, hole as int));
                        }
                    }
                }
                hole = next;
            } else {
                proof {
                    assert forall|x: int|
                        0 <= x < n && 0 < dist(hole as int, x, n as int) < dist(hole as int, step(next as int, 1, n as int), n as int)
                            implies #[trigger] self.slots@[x] is Some by {
                        if x != next {
                        }
                    }
                }
            }
            proof {
                assert forall|j: int| 1 <= j <= t + 1 implies #[trigger] s0[step(start as int, j, n as int)] is Some by {
                    if j == t + 1 {
                        assert(s[next as int] == s0[next as int]);
                    }
                }
                assert forall|j: int| 0 <= j < t + 1 implies #[trigger] s0[step(step(start as int, 1, n as int), j, n as int)] is Some by {
                    assert(step(step(start as int, 1, n as int), j, n as int) == step(start as int, j + 1, n as int));
                    assert(s0[step(start as int, j + 1, n as int)] is Some);
                }
                lemma_run_bound(s0, step(start as int, 1, n as int), t + 1);
                t = t + 1;
            }
            next = if next + 1 == n {
                0
            } else {
                next + 1
            };
        }
        removed.value
    }

    /// The first value, along the probe from `hash`'s home bucket, whose hash
    /// is `hash` and which `matches` accepts.
    pub fn get<F: Fn(&V) -> bool>(&self, hash: u64, matches: F) -> (r: Option<&V>)
        requires
            self.wf(),
            forall|v: &V| matches.requires((v,)),
        ensures
            r matches Some(v) ==> self.stored().contains(Bucket { hash, value: *v }) && matches.ensures((v,), true),
            r matches Some(v) ==> exists|i: int|
                0 <= i < self.table().len() && #[trigger] self.table()[i] == Some(Bucket { hash, value: *v })
                    && first_match(self.table(), hash, matches, i),
            r is None ==> rejects_all(self.table(), hash, matches),
    {
        match self.probe(hash, &matches) {
            Probe::Occupied(index) => {
                proof {
                    lemma_stored_contains(self.slots@, index as int);
                }
                Some(&self.slots[index].as_ref().unwrap().value)
            },
            _ => None,
        }
    }

    /// Finds where a value with hash `hash` accepted by `matches` is, or
    /// would be stored; `None` when there is no such value and no room.
    pub fn entry<F: Fn(&V) -> bool>(&mut self, hash: u64, matches: F) -> (r: Option<Entry<'_, V>>)
        requires
            old(self).wf(),
            forall|v: &V| matches.requires((v,)),
        ensures
            r is None ==> *final(self) == *old(self) && rejects_all(old(self).table(), hash, matches) && old(
                self,
            ).stored().len() == old(self).cap(),
            r matches Some(Entry::Occupied(o)) ==> *o.map == *old(self) && *final(o.map) == *final(self)
                && o.index < old(self).table().len() && old(self).table()[o.index as int] is Some
                && old(self).table()[o.index as int]->0.hash == hash && matches.ensures(
                (&old(self).table()[o.index as int]->0.value,),
                true,
            ) && first_match(old(self).table(), hash, matches, o.index as int),
            r matches Some(Entry::Vacant(v)) ==> *v.map == *old(self) && *final(v.map) == *final(self)
                && v.hash == hash && v.vacant_spec() && rejects_all(old(self).table(), hash, matches),
    {
        proof {
            self.lemma_wf();
        }
        match self.probe(hash, &matches) {
            Probe::Occupied(index) => Some(Entry::Occupied(Occupied { map: self, index })),
            Probe::Vacant(index) => Some(Entry::Vacant(Vacant { map: self, index, hash })),
            Probe::Full => None,
        }
    }

    /// Stores `value` unless a value with hash `hash` accepted by `matches` is
    /// present or the table is full; then hands `value` back.
    pub fn try_insert<F: Fn(&V) -> bool>(&mut self, hash: u64, value: V, matches: F) -> (r: Result<(), V>)
        requires
            old(self).wf(),
            forall|v: &V| matches.requires((v,)),
        ensures
            final(self).wf(),
            final(self).cap() == old(self).cap(),
            r is Ok ==> rejects_all(old(self).table(), hash, matches) && final(self).stored() == old(
                self,
            ).stored().insert(Bucket { hash, value }),
            r is Err ==> r == Err::<(), V>(value) && *final(self) == *old(self) && (old(self).stored().len()
                == old(self).cap() || exists|i: int|
                0 <= i < old(self).table().len() && #[trigger] old(self).table()[i] is Some && old(self).table()[i]->0.hash
                    == hash && matches.ensures((&old(self).table()[i]->0.value,), true)),
    {
        proof {
            self.lemma_wf();
        }
        match self.probe(hash, &matches) {
            Probe::Vacant(index) => {
                self.insert_at(index, hash, value);
                Ok(())
            },
            Probe::Occupied(index) => {
                proof {
                    assert(self.table()[index as int] is Some);
                }
                Err(value)
            },
            Probe::Full => Err(value),
        }
    }

    /// Removes and returns the first value, along the probe from `hash`'s
    /// home bucket, whose hash is `hash` and which `matches` accepts.
    pub fn remove<F: Fn(&V) -> bool>(&mut self, hash: u64, matches: F) -> (r: Option<V>)
        requires
            old(self).wf(),
            forall|v: &V| matches.requires((v,)),
        ensures
            final(self).wf(),
            final(self).cap() == old(self).cap(),
            r is None ==> *final(self) == *old(self) && rejects_all(old(self).table(), hash, matches),
            r matches Some(v) ==> old(self).stored().contains(Bucket { hash, value: v }) && matches.ensures((&v,), true)
                && final(self).stored() == old(self).stored().remove(Bucket { hash, value: v }),
            r matches Some(v) ==> exists|i: int|
                0 <= i < old(self).table().len() && #[trigger] old(self).table()[i] == Some(Bucket { hash, value: v })
                    && first_match(old(self).table(), hash, matches, i),
    {
        match self.probe(hash, &matches) {
            Probe::Occupied(index) => {
                proof {
                    lemma_stored_contains(self.slots@, index as int);
                }
                Some(self.remove_at(index))
            },
            _ => None,
        }
    }

    /// Like `get`, with the value to change in place; its hash stays.
    pub fn get_mut<F: Fn(&V) -> bool>(&mut self, hash: u64, matches: F) -> (r: Option<&mut V>)
        requires
            old(self).wf(),
            forall|v: &V| matches.requires((v,)),
        ensures
            r is None ==> *final(self) == *old(self) && rejects_all(old(self).table(), hash, matches),
            r matches Some(v) ==> old(self).stored().contains(Bucket { hash, value: *v }) && matches.ensures((&*v,), true)
                && final(self).wf() && final(self).cap() == old(self).cap() && exists|i: int|
                0 <= i < old(self).table().len() && old(self).table()[i] == Some(Bucket { hash, value: *v })
                    && first_match(old(self).table(), hash, matches, i) && #[trigger] final(self).table() == old(self).table().update(
                    i,
                    Some(Bucket { hash, value: *final(v) }),
                ),
    {
        match self.probe(hash, &matches) {
            Probe::Occupied(index) => {
                proof {
                    lemma_stored_contains(self.slots@, index as int);
                }
                Some(self.value_mut_at(index))
            },
            _ => None,
        }
    }

    /// The value in the occupied bucket `index`, to change in place.
    fn value_mut_at(&mut self, index: usize) -> (r: &mut V)
        requires
            old(self).wf(),
            index < old(self).table().len(),
            old(self).table()[index as int] is Some,
        ensures
            *r == old(self).table()[index as int]->0.value,
            final(self).table() == old(self).table().update(
                index as int,
                Some(Bucket { hash: old(self).table()[index as int]->0.hash, value: *final(r) }),
            ),
            final(self).wf(),
            final(self).cap() == old(self).cap(),
    {
        proof {
            let a = *self;
            assert forall|b: Self|
                b.len == a.len && b.capacity == a.capacity && b.slots@.len() == a.slots@.len() && b.slots@[index as int] is Some
                    && b.slots@[index as int]->0.hash == a.slots@[index as int]->0.hash && (forall|i: int|
                    0 <= i < a.slots@.len() && i != index ==> b.slots@[i] == a.slots@[i]) implies #[trigger] b.wf() by {
                assert(occupied(b.slots@) =~= occupied(a.slots@));
                assert forall|j: int, k: int|
                    0 <= j < b.slots@.len() && b.slots@[j] is Some && 0 <= k < dist(home(b.slots@[j]->0.hash, b.slots@.len()), j, b.slots@.len() as int)
                        implies #[trigger] filled_along(b.slots@, j, k) by {
                    assert(b.slots@[j]->0.hash == a.slots@[j]->0.hash);
                    assert(filled_along(a.slots@, j, k));
                }
            }
        }
        let bucket = self.slots[index].as_mut().unwrap();
        &mut bucket.value
    }

    /// The stored values in bucket order, lent out for change; hashes stay.
    pub fn values_mut(&mut self) -> (r: Vec<&mut V>)
        requires
            old(self).wf(),
        ensures
            final(self).wf(),
            r@.map_values(|x: &mut V| *x) == present(old(self).table()).map_values(|b: Bucket<V>| b.value),
            final(self).table() == revalue(old(self).table(), r@.map_values(|x: &mut V| *final(x))),
    {
        let ghost before = self.slots@;
        let r = lend_values(self.slots.as_mut_slice());
        proof {
            let after = revalue(before, r@.map_values(|x: &mut V| *final(x)));
            lemma_revalue_shape(before, r@.map_values(|x: &mut V| *final(x)));
            assert(occupied(after) =~= occupied(before));
            assert forall|i: int, k: int|
                0 <= i < after.len() && after[i] is Some && 0 <= k < dist(home(after[i]->0.hash, after.len()), i, after.len() as int)
                implies #[trigger] filled_along(after, i, k) by {
                assert(filled_along(before, i, k));
                let p = step(home(before[i]->0.hash, before.len()), k, before.len() as int);
                assert(0 <= home(before[i]->0.hash, before.len()) < before.len());
            }
        }
        r
    }

    /// The stored values in bucket order.
    pub fn values(&self) -> (r: Vec<&V>)
        ensures
            r@.map_values(|x: &V| *x) == present(self.table()).map_values(|b: Bucket<V>| b.value),
    {
        let mut r: Vec<&V> = Vec::new();
        let mut i: usize = 0;
        while i < self.slots.len()
            invariant
                i <= self.slots@.len(),
                r@.map_values(|x: &V| *x) == present(self.slots@.subrange(0, i as int)).map_values(|b: Bucket<V>| b.value),
            decreases self.slots@.len() - i,
        {
            proof {
                assert(self.slots@.subrange(0, i + 1).drop_last() =~= self.slots@.subrange(0, i as int));
            }
            let ghost before = r@;
            match self.slots[i].as_ref() {
                Some(bucket) => {
                    r.push(&bucket.value);
                    proof {
                        assert(r@.map_values(|x: &V| *x) =~= before.map_values(|x: &V| *x).push(bucket.value));
                        assert(present(self.slots@.subrange(0, i + 1)).map_values(|b: Bucket<V>| b.value) =~= present(
                            self.slots@.subrange(0, i as int),
                        ).map_values(|b: Bucket<V>| b.value).push(bucket.value));
                    }
                },
                None => {},
            }
            i = i + 1;
        }
        proof {
            assert(self.slots@.subrange(0, i as int) =~= self.slots@);
        }
        r
    }

    /// Drops every value.
    pub fn clear(&mut self)
        requires
            old(self).wf(),
        ensures
            final(self).wf(),
            final(self).cap() == old(self).cap(),
            final(self).table().len() == old(self).table().len(),
            final(self).stored() == Multiset::<Bucket<V>>::empty(),
    {
        let n = self.slots.len();
        let mut i: usize = 0;
        while i < n
            invariant
                n == self.slots@.len(),
                n == buckets_for(self.capacity as nat),
                self.capacity == old(self).capacity,
                self.capacity <= max_capacity(),
                i <= n,
                forall|k: int| 0 <= k < i ==> self.slots@[k] is None,
            decreases n - i,
        {
            self.slots[i] = None;
            i = i + 1;
        }
        self.len = 0;
        proof {
            self.lemma_empty();
        }
    }
}

impl<V: Clone> Clone for FixedMap<V> {
    /// A table with the same capacity whose buckets hold clones of these
    /// values under the same hashes.
    fn clone(&self) -> (r: Self)
        ensures
            self.wf() ==> r.wf() && r.cap() == self.cap() && r.table().len() == self.table().len()
                && forall|i: int| 0 <= i < self.table().len() ==> (#[trigger] r.table()[i] is Some
                    == self.table()[i] is Some) && (self.table()[i] is Some ==> r.table()[i]->0.hash
                    == self.table()[i]->0.hash && vstd::pervasive::cloned(
                    self.table()[i]->0.value,
                    r.table()[i]->0.value,
                )),
    {
        let mut slots: Vec<Option<Bucket<V>>> = Vec::with_capacity(self.slots.len());
        let mut i: usize = 0;
        while i < self.slots.len()
            invariant
                i <= self.slots@.len(),
                slots@.len() == i,
                forall|k: int| 0 <= k < i ==> (#[trigger] slots@[k] is Some == self.slots@[k] is Some) && (
                self.slots@[k] is Some ==> slots@[k]->0.hash == self.slots@[k]->0.hash
                    && vstd::pervasive::cloned(self.slots@[k]->0.value, slots@[k]->0.value)),
            decreases self.slots@.len() - i,
        {
            let copy = match self.slots[i].as_ref() {
                Some(bucket) => Some(Bucket { hash: bucket.hash, value: bucket.value.clone() }),
                None => None,
            };
            slots.push(copy);
            i = i + 1;
        }
        let r = FixedMap { slots, len: self.len, capacity: self.capacity };
        proof {
            if self.wf() {
                assert(occupied(r.slots@) =~= occupied(self.slots@));
                assert forall|j: int, k: int|
                    0 <= j < r.slots@.len() && r.slots@[j] is Some && 0 <= k < dist(home(r.slots@[j]->0.hash, r.slots@.len()), j, r.slots@.len() as int)
                        implies #[trigger] filled_along(r.slots@, j, k) by {
                    assert(filled_along(self.slots@, j, k));
                }
            }
        }
        r
    }
}

impl<'a, V> Occupied<'a, V> {
    /// The found value.
    pub fn get(&self) -> (r: &V)
        requires
            self.map.wf(),
            self.index < self.map.table().len(),
            self.map.table()[self.index as int] is Some,
        ensures
            *r == old(self.map).table()[self.index as int]->0.value,
    {
        &self.map.slots[self.index].as_ref().unwrap().value
    }

    /// The found value, to change in place.
    pub fn get_mut(&mut self) -> (r: &mut V)
        requires
            old(self).map.wf(),
            old(self).index < old(self).map.table().len(),
            old(self).map.table()[old(self).index as int] is Some,
        ensures
            *r == old(self).map.table()[old(self).index as int]->0.value,
            final(self).index == old(self).index,
            final(self).map.wf(),
            final(self).map.cap() == old(self).map.cap(),
            final(self).map.table() == old(self).map.table().update(
                old(self).index as int,
                Some(Bucket { hash: old(self).map.table()[old(self).index as int]->0.hash, value: *final(r) }),
            ),
    {
        self.map.value_mut_at(self.index)
    }

    /// Removes the found value and returns it.
    pub fn remove(self) -> (r: V)
        requires
            self.map.wf(),
            self.index < self.map.table().len(),
            self.map.table()[self.index as int] is Some,
        ensures
            final(self.map).wf(),
            final(self.map).cap() == old(self.map).cap(),
            r == old(self.map).table()[self.index as int]->0.value,
            final(self.map).stored() == old(self.map).stored().remove(old(self.map).table()[self.index as int]->0),
    {
        self.map.remove_at(self.index)
    }
}

impl<'a, V> Vacant<'a, V> {
    /// The bucket is free and ends the probe from the hash's home bucket,
    /// and the table has room.
    pub open spec fn vacant_spec(&self) -> bool {
        let s = self.map.table();
        let n = s.len();
        &&& self.map.wf()
        &&& self.index < n
        &&& s[self.index as int] is None
        &&& self.map.stored().len() < self.map.cap()
        &&& forall|k: int|
            0 <= k < dist(home(self.hash, n), self.index as int, n as int) ==> s[step(home(self.hash, n), k, n as int)] is Some
    }

    /// Stores `value` in the free bucket.
    pub fn insert(self, value: V)
        requires
            self.vacant_spec(),
        ensures
            final(self.map).wf(),
            final(self.map).cap() == old(self.map).cap(),
            final(self.map).stored() == old(self.map).stored().insert(Bucket { hash: self.hash, value }),
    {
        proof {
            self.map.lemma_wf();
        }
        self.map.insert_at(self.index, self.hash, value);
    }
}

proof fn lemma_stored_found<V>(s: Seq<Option<Bucket<V>>>, b: Bucket<V>)
    requires
        stored_in(s).contains(b),
    ensures
        exists|i: int| 0 <= i < s.len() && #[trigger] s[i] == Some(b),
    decreases s.len(),
{
    if s.len() > 0 {
        let t = s.drop_last();
        if stored_in(t).contains(b) {
            lemma_stored_found(t, b);
            let i = choose|i: int| 0 <= i < t.len() && #[trigger] t[i] == Some(b);
            assert(s[i] == Some(b));
        } else {
            assert(held(s.last()).contains(b));
            assert(s[s.len() - 1] == Some(b));
        }
    }
}

/// A stored value is found again: a lookup with its hash, by a matcher that
/// accepts it, cannot come back empty.
pub proof fn law_stored_is_found<V, F: Fn(&V) -> bool>(m: FixedMap<V>, hash: u64, value: V, matches: F)
    requires
        m.stored().contains(Bucket { hash, value }),
        forall|r: bool| matches.ensures((&value,), r) ==> r,
        matches.ensures((&value,), true),
    ensures
        !rejects_all(m.table(), hash, matches),
{
    lemma_stored_found(m.table(), Bucket { hash, value });
    let i = choose|i: int| 0 <= i < m.table().len() && #[trigger] m.table()[i] == Some(Bucket { hash, value });
    assert(m.table()[i] is Some && m.table()[i]->0.hash == hash);
}

} // verus!
