use lib::collections::fixed::hash::{Entry, FixedMap, Plan};

fn map_of(capacity: usize) -> FixedMap<(u32, &'static str)> {
    FixedMap::from_plan(Plan::new(capacity).unwrap())
}

#[test]
fn plan_new_and_fixed_capacity() {
    let plan: Plan<u64> = Plan::new(10).unwrap();
    assert_eq!(plan.capacity(), 10);
    let fixed: Plan<u64> = Plan::fixed::<4>();
    assert_eq!(fixed.capacity(), 4);
    assert!(Plan::<u64>::new(usize::MAX).is_none());
}

#[test]
fn law_stored_is_found_on_concrete_values() {
    let mut map = map_of(4);
    assert!(map.try_insert(7, (1, "one"), |v| v.0 == 1).is_ok());
    assert!(map.try_insert(7, (2, "two"), |v| v.0 == 2).is_ok());
    assert_eq!(map.len(), 2);
    assert_eq!(map.get(7, |v| v.0 == 1), Some(&(1, "one")));
    assert_eq!(map.get(7, |v| v.0 == 2), Some(&(2, "two")));
    assert_eq!(map.get(7, |v| v.0 == 3), None);
    assert_eq!(map.get(8, |v| v.0 == 1), None);
}

#[test]
fn try_insert_refuses_duplicate_and_full() {
    let mut map = map_of(2);
    assert!(map.try_insert(1, (1, "a"), |v| v.0 == 1).is_ok());
    assert_eq!(map.try_insert(1, (1, "b"), |v| v.0 == 1), Err((1, "b")));
    assert!(map.try_insert(2, (2, "c"), |v| v.0 == 2).is_ok());
    assert_eq!(map.try_insert(3, (3, "d"), |v| v.0 == 3), Err((3, "d")));
    assert_eq!(map.len(), map.capacity());
}

#[test]
fn remove_then_lookup_misses() {
    let mut map = map_of(8);
    for i in 0..6u32 {
        map.try_insert(u64::from(i % 2), (i, "x"), |v| v.0 == i).unwrap();
    }
    assert_eq!(map.remove(1, |v| v.0 == 3), Some((3, "x")));
    assert_eq!(map.remove(1, |v| v.0 == 3), None);
    assert_eq!(map.get(1, |v| v.0 == 5), Some(&(5, "x")));
    assert_eq!(map.get(0, |v| v.0 == 4), Some(&(4, "x")));
    assert_eq!(map.len(), 5);
    map.clear();
    assert!(map.is_empty());
    assert_eq!(map.get(1, |v| v.0 == 5), None);
}

#[test]
fn entry_occupied_and_vacant() {
    let mut map = map_of(4);
    match map.entry(9, |v| v.0 == 1) {
        Some(Entry::Vacant(vacant)) => vacant.insert((1, "v")),
        _ => panic!("expected a vacant entry"),
    }
    match map.entry(9, |v| v.0 == 1) {
        Some(Entry::Occupied(occupied)) => {
            assert_eq!(occupied.get(), &(1, "v"));
            assert_eq!(occupied.remove(), (1, "v"));
        },
        _ => panic!("expected an occupied entry"),
    }
    assert!(map.is_empty());
}

#[test]
fn values_and_clone() {
    let mut map = map_of(3);
    map.try_insert(5, (5, "e"), |v| v.0 == 5).unwrap();
    map.try_insert(6, (6, "f"), |v| v.0 == 6).unwrap();
    let mut values: Vec<u32> = map.values().iter().map(|v| v.0).collect();
    values.sort();
    assert_eq!(values, vec![5, 6]);
    let copy = map.clone();
    assert_eq!(copy.len(), 2);
    assert_eq!(copy.get(6, |v| v.0 == 6), Some(&(6, "f")));
}

#[test]
fn try_from_plan_builds_empty_map() {
    let map = FixedMap::<u8>::try_from_plan(Plan::new(3).unwrap()).ok().unwrap();
    assert_eq!(map.capacity(), 3);
    assert!(map.is_empty());
}

#[test]
fn get_mut_changes_value_in_place() {
    let mut map = map_of(4);
    map.try_insert(3, (3, "old"), |v| v.0 == 3).unwrap();
    assert!(map.get_mut(3, |v| v.0 == 4).is_none());
    map.get_mut(3, |v| v.0 == 3).unwrap().1 = "new";
    assert_eq!(map.get(3, |v| v.0 == 3), Some(&(3, "new")));
    match map.entry(3, |v| v.0 == 3) {
        Some(Entry::Occupied(mut occupied)) => occupied.get_mut().1 = "again",
        _ => panic!("expected an occupied entry"),
    }
    assert_eq!(map.get(3, |v| v.0 == 3), Some(&(3, "again")));
}

#[test]
fn lookup_finds_first_match_along_the_probe() {
    let mut map = map_of(4);
    map.try_insert(2, (1, "first"), |v| v.0 == 1).unwrap();
    map.try_insert(2, (2, "second"), |v| v.0 == 2).unwrap();
    assert_eq!(map.get(2, |_| true), Some(&(1, "first")));
    assert_eq!(map.remove(2, |_| true), Some((1, "first")));
    assert_eq!(map.get(2, |_| true), Some(&(2, "second")));
}

#[test]
fn values_mut_changes_values_and_keeps_them_findable() {
    let mut map = map_of(4);
    assert!(map.try_insert(7, (1, "one"), |v| v.0 == 1).is_ok());
    assert!(map.try_insert(9, (2, "two"), |v| v.0 == 2).is_ok());
    for value in map.values_mut() {
        value.1 = "changed";
    }
    assert_eq!(map.get(7, |v| v.0 == 1), Some(&(1, "changed")));
    assert_eq!(map.get(9, |v| v.0 == 2), Some(&(2, "changed")));
    assert_eq!(map.len(), 2);
}
