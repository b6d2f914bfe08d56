use lib::collections::pin_cell_slab::PinCellSlab;
use lib::collections::pin_slab::fixed::FixedPinSlab;
use lib::collections::pin_slab::PinSlab;
use lib::collections::slab::{SlabGeneration, SlabKey, SlabKeyParts};

struct Tag;

#[test]
fn pin_slab_fills_slots_in_index_order() {
    let mut slab: PinSlab<&str, Tag, 100> = PinSlab::with_capacity(3);
    assert_eq!(slab.capacity(), 3);
    let a = slab.insert("a").ok().unwrap();
    let b = slab.insert("b").ok().unwrap();
    assert_eq!(a.index(), 0);
    assert_eq!(b.index(), 1);
    assert_eq!(a.generation().get(), 0);
    assert_eq!(slab.len(), 2);
    assert_eq!(slab.get(a), Some(&"a"));
    assert_eq!(slab.get(b), Some(&"b"));
    assert!(slab.contains_key(b));
}

#[test]
fn pin_slab_hands_value_back_when_full() {
    let mut slab: PinSlab<u8, Tag, 10> = PinSlab::with_capacity(1);
    assert!(slab.insert(1).is_ok());
    assert!(slab.is_full());
    assert_eq!(slab.insert(2).err(), Some(2));
    assert!(slab.vacant_entry().is_none());
}

#[test]
fn law_stale_key_on_concrete_values() {
    let mut slab: PinSlab<u32, Tag, 100> = PinSlab::with_capacity(2);
    let old = slab.insert(7).ok().unwrap();
    assert!(slab.remove(old));
    assert!(!slab.contains_key(old));
    assert_eq!(slab.get(old), None);
    let new = slab.insert(8).ok().unwrap();
    assert_eq!(new.index(), old.index());
    assert_eq!(new.generation().get(), old.generation().get() + 1);
    assert_eq!(slab.get(old), None);
    assert!(!slab.remove(old));
    assert_eq!(slab.get(new), Some(&8));
}

#[test]
fn pin_slab_retires_slot_at_last_generation() {
    let mut slab: PinSlab<u32, Tag, 1> = PinSlab::with_capacity(1);
    let first = slab.insert(1).ok().unwrap();
    assert_eq!(slab.take(first), Some(1));
    let second = slab.insert(2).ok().unwrap();
    assert_eq!(second.generation().get(), 1);
    assert_eq!(slab.take(second), Some(2));
    assert!(slab.is_full());
    assert!(slab.is_empty());
    assert_eq!(slab.insert(3).err(), Some(3));
}

#[test]
fn pin_slab_entries_and_parts() {
    let mut slab: PinSlab<i32, Tag, 50> = PinSlab::with_capacity(4);
    let vacant = slab.vacant_entry().unwrap();
    assert_eq!(vacant.index(), 0);
    let key = vacant.insert(10);
    assert_eq!(slab.key(0).map(|k| k.index()), Some(0));
    assert!(slab.key(1).is_none());
    *slab.get_mut(key).unwrap() += 5;
    assert_eq!(slab.get_parts(key.parts()), Some(&15));
    let entry = slab.entry(key).unwrap();
    assert_eq!(entry.index(), 0);
    assert_eq!(entry.generation().get(), 0);
    *entry.as_pin_mut() = 20;
    assert_eq!(slab.get(key), Some(&20));
    slab.entry(key).unwrap().remove();
    assert!(slab.entry(key).is_none());
    assert!(!slab.contains_parts(key.parts()));
}

#[test]
fn slab_key_round_trips_parts() {
    let generation: SlabGeneration<5> = SlabGeneration::min();
    let next = generation.next().unwrap();
    assert_eq!(next.get(), 1);
    let parts = SlabKeyParts::new(3, next);
    assert_eq!(parts.index(), 3);
    assert_eq!(parts.generation().get(), 1);
    let key: SlabKey<Tag, 5> = SlabKey::from_parts(parts);
    assert_eq!(key.index(), 3);
    assert_eq!(key.generation().get(), 1);
    let mut g = generation;
    for _ in 0..5 {
        g = g.next().unwrap();
    }
    assert_eq!(g.get(), 5);
    assert!(g.next().is_none());
}

#[test]
fn fixed_pin_slab_behaves_like_pin_slab() {
    let mut slab: FixedPinSlab<u64, 2, Tag, 10> = FixedPinSlab::new();
    assert_eq!(slab.capacity(), 2);
    let a = slab.insert(1).ok().unwrap();
    let b = slab.vacant_entry().unwrap().insert(2);
    assert_eq!(b.index(), 1);
    assert!(slab.is_full());
    assert_eq!(slab.take(a), Some(1));
    assert_eq!(slab.get(a), None);
    assert_eq!(slab.len(), 1);
    assert!(slab.remove(b));
    assert!(slab.is_empty());
}

#[test]
fn pin_cell_slab_update_and_remove_if() {
    let mut slab: PinCellSlab<u32, Tag, 100> = PinCellSlab::with_capacity(2);
    let key = slab.insert(4).ok().unwrap();
    assert_eq!(slab.update(key, |v| {
        *v += 1;
        *v * 10
    }), Some(50));
    assert!(!slab.remove_if(key, |v| *v > 100));
    assert!(slab.contains_key(key));
    assert!(slab.remove_if(key, |v| *v == 5));
    assert!(!slab.contains_key(key));
    assert_eq!(slab.update(key, |v| *v), None);
}

#[test]
fn pin_cell_slab_vacant_entry_rollback() {
    let mut slab: PinCellSlab<u8, Tag, 100> = PinCellSlab::with_capacity(1);
    let vacant = slab.vacant_entry().unwrap();
    assert_eq!(vacant.index(), 0);
    vacant.rollback();
    assert!(!slab.is_full());
    let key = slab.vacant_entry().unwrap().insert(9);
    assert_eq!(key.index(), 0);
    let entry = slab.entry(key).unwrap();
    assert_eq!(entry.key().index(), 0);
    entry.remove();
    assert!(slab.is_empty());
}
