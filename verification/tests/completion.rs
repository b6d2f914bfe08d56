use lib::collections::completion::narrow;
use lib::collections::completion::sealed;
use lib::collections::completion::sealed::token_alignment;
use lib::collections::completion::{entry_alignment, Arena, Echo};
use lib::collections::AllocationError;

#[test]
fn arena_reserve_commit_resolve_complete() {
    let mut arena: Arena<u32> = Arena::new();
    let slots = arena.try_slots(2).ok().unwrap();
    let reservation = slots.reserve(&mut arena, 41).unwrap();
    let key = reservation.key();
    let lease = reservation.commit();
    assert_eq!(lease.value(&arena), 41);
    let drain = arena.drain();
    let value = drain.complete(key.erase()).resolve(&mut arena, false);
    assert_eq!(value, 41);
    assert_eq!(lease.complete(&mut arena), 41);
    slots.close(&mut arena);
}

#[test]
fn arena_slots_run_out() {
    let mut arena: Arena<u8> = Arena::default();
    let slots = arena.try_slots(1).ok().unwrap();
    let first = slots.reserve(&mut arena, 1).unwrap();
    let first_id = first.key().erase().id;
    assert!(slots.reserve(&mut arena, 2).is_none());
    first.cancel(&mut arena);
    let again = slots.reserve(&mut arena, 3).unwrap();
    assert_eq!(again.key().erase().id, first_id);
    again.cancel(&mut arena);
    slots.close(&mut arena);
}

#[test]
fn law_second_end_frees_owner_first() {
    let mut arena: Arena<u64> = Arena::new();
    let slots = arena.try_slots(1).ok().unwrap();
    let lease = slots.reserve(&mut arena, 5).unwrap().commit();
    let key = lease.key();
    lease.detach(&mut arena);
    assert!(slots.reserve(&mut arena, 6).is_none());
    assert_eq!(arena.drain().complete(key.erase()).resolve(&mut arena, false), 5);
    let reused = slots.reserve(&mut arena, 6).unwrap();
    assert_eq!(reused.key.id, key.echo.id);
    reused.cancel(&mut arena);
    slots.close(&mut arena);
}

#[test]
fn law_second_end_frees_source_first() {
    let mut arena: Arena<u64> = Arena::new();
    let slots = arena.try_slots(1).ok().unwrap();
    let lease = slots.reserve(&mut arena, 9).unwrap().commit();
    let key = lease.key();
    assert_eq!(arena.drain().complete(key.erase()).resolve(&mut arena, true), 9);
    assert_eq!(arena.drain().complete(key.erase()).resolve(&mut arena, false), 9);
    assert!(slots.reserve(&mut arena, 1).is_none());
    lease.detach(&mut arena);
    assert!(slots.reserve(&mut arena, 1).is_some());
}

#[test]
fn arena_reuses_quiescent_group() {
    let mut arena: Arena<u32> = Arena::new();
    let slots = arena.try_slots(4).ok().unwrap();
    let group = slots.group;
    slots.close(&mut arena);
    let again = arena.try_slots(3).ok().unwrap();
    assert_eq!(again.group, group);
    again.close(&mut arena);
}

#[test]
fn echo_exposes_aligned_address() {
    let align = entry_alignment::<u8>();
    assert_eq!(align, std::mem::align_of::<usize>());
    let echo: Echo<u8> = Echo::from_exposed(3 * align).unwrap();
    assert_eq!(echo.id, 2);
    assert_eq!(echo.expose(), 3 * align);
    assert!(Echo::<u8>::from_exposed(0).is_none());
    assert!(Echo::<u8>::from_exposed(align + 1).is_none());
}

#[test]
fn echo_alignment_follows_the_value_type() {
    let align = entry_alignment::<u128>();
    assert_eq!(align, std::mem::align_of::<u128>().max(std::mem::align_of::<usize>()));
    if align > 8 {
        assert!(Echo::<u128>::from_exposed(8).is_none());
        assert!(sealed::Token::<u128>::from_parts(8, 1).is_none());
    }
    assert!(Echo::<u128>::from_exposed(align).is_some());
    let token_align = token_alignment::<u8>();
    assert_eq!(token_align, std::mem::align_of::<usize>().max(std::mem::align_of::<u64>()));
}

#[test]
fn narrow_single_generation_entry_retires_after_first_use() {
    let mut arena: narrow::Arena<u8, 32, 1> = narrow::Arena::new();
    let slots = arena.try_slots(1).ok().unwrap();
    let r = slots.reserve(&mut arena, 1).unwrap();
    r.cancel(&mut arena);
    assert!(slots.reserve(&mut arena, 2).is_none());
}

#[test]
fn closed_lease_keeps_value_while_new_group_is_used() {
    let mut arena: Arena<u32> = Arena::new();
    let first = arena.try_slots(1).ok().unwrap();
    let lease = first.reserve(&mut arena, 10).unwrap().commit();
    let first_group = first.group;
    first.close(&mut arena);
    let second = arena.try_slots(1).ok().unwrap();
    assert_ne!(second.group, first_group);
    let other = second.reserve(&mut arena, 20).unwrap();
    assert_ne!(other.key.id, lease.key.id);
    assert_eq!(lease.value(&arena), 10);
    other.cancel(&mut arena);
}

#[test]
fn arena_try_slots_overflow_error() {
    let mut arena: Arena<u8> = Arena::new();
    let held = arena.try_slots(1).ok().unwrap();
    assert_eq!(held.group, 0);
    let r = arena.try_slots(usize::MAX);
    assert!(matches!(r, Err(AllocationError::Overflow)));
}

#[test]
fn sealed_arena_rejects_stale_serial() {
    let mut arena: sealed::Arena<u32> = sealed::Arena::new();
    let slots = arena.try_slots(1).ok().unwrap();
    let reservation = slots.reserve(&mut arena, 3).unwrap();
    let token = reservation.key().token();
    reservation.cancel(&mut arena);
    let mut drain = arena.drain();
    assert!(drain.complete(&arena, token).is_none());
    let lease = slots.reserve(&mut arena, 4).unwrap().commit();
    let fresh = lease.key().token();
    assert_eq!(fresh.id, token.id);
    assert_ne!(fresh.serial, token.serial);
    assert!(drain.complete(&arena, token).is_none());
    let resolved = drain.complete(&arena, fresh).unwrap();
    assert_eq!(resolved.resolve(&mut arena, false), 4);
    assert_eq!(lease.complete(&mut arena), 4);
}

#[test]
fn sealed_token_parts_round_trip() {
    let align = token_alignment::<u8>();
    let token: sealed::Token<u8> = sealed::Token::from_parts(2 * align, 7).unwrap();
    assert_eq!(token.id, 1);
    assert_eq!(token.address(), 2 * align);
    assert_eq!(token.serial(), 7);
    assert!(sealed::Token::<u8>::from_parts(7, 1).is_none());
}

#[test]
fn narrow_echo_round_trips_index_and_generation() {
    let mut arena: narrow::Arena<u32, 8, 8> = narrow::Arena::new();
    let slots = arena.try_slots(2).ok().unwrap();
    let reservation = slots.reserve(&mut arena, 77).unwrap();
    let echo = reservation.key().echo();
    assert_eq!(echo.index(), 0);
    assert_eq!(echo.generation(), 1);
    assert_eq!(echo.expose(), (1 << 8) | 0);
    let back = narrow::Echo::<u32, 8, 8>::from_exposed(echo.expose()).unwrap();
    assert_eq!(back.index(), 0);
    assert_eq!(back.generation(), 1);
    let lease = reservation.commit();
    let resolved = arena.drain().complete(&arena, back).unwrap();
    assert_eq!(resolved.resolve(&mut arena, false), Some(77));
    assert_eq!(lease.complete(&mut arena), 77);
}

#[test]
fn narrow_from_exposed_rejects_bad_words() {
    assert!(narrow::Echo::<u8, 8, 8>::from_exposed(0).is_none());
    assert!(narrow::Echo::<u8, 8, 8>::from_exposed(0x00ff).is_none());
    assert!(narrow::Echo::<u8, 8, 8>::from_exposed(0x1_0000).is_none());
    let e = narrow::Echo::<u8, 8, 8>::from_exposed(0x0203).unwrap();
    assert_eq!(e.index(), 3);
    assert_eq!(e.generation(), 2);
    let wide = narrow::Echo::<u8, 32, 32>::from_exposed(u64::MAX).unwrap();
    assert_eq!(wide.index(), u32::MAX);
    assert_eq!(wide.generation(), u32::MAX);
}

#[test]
fn law_one_identity_per_entry_stale_echo_rejected() {
    let mut arena: narrow::Arena<u8, 4, 4> = narrow::Arena::new();
    let slots = arena.try_slots(1).ok().unwrap();
    let first = slots.reserve(&mut arena, 1).unwrap();
    let stale = first.key().echo();
    first.cancel(&mut arena);
    assert!(arena.drain().complete(&arena, stale).is_none());
    let second = slots.reserve(&mut arena, 2).unwrap();
    let fresh = second.key().echo();
    assert_eq!(fresh.index(), stale.index());
    assert_eq!(fresh.generation(), stale.generation() + 1);
    assert!(arena.drain().complete(&arena, stale).is_none());
    assert!(arena.drain().complete(&arena, fresh).is_some());
    second.cancel(&mut arena);
}

#[test]
fn narrow_entry_retires_at_last_generation() {
    let mut arena: narrow::Arena<u8, 4, 2> = narrow::Arena::new();
    let slots = arena.try_slots(1).ok().unwrap();
    for generation in 1..=3u32 {
        let r = slots.reserve(&mut arena, 0).unwrap();
        assert_eq!(r.key().echo().generation(), generation);
        r.cancel(&mut arena);
    }
    assert!(slots.reserve(&mut arena, 0).is_none());
    slots.close(&mut arena);
    let fresh = arena.try_slots(1).ok().unwrap();
    let r = fresh.reserve(&mut arena, 5).unwrap();
    assert_eq!(r.key().echo().index(), 1);
    r.cancel(&mut arena);
}

#[test]
fn narrow_index_bits_limit_groups() {
    let mut arena: narrow::Arena<u8, 2, 8> = narrow::Arena::new();
    assert!(arena.try_slots(3).is_ok());
    assert!(matches!(arena.try_slots(2), Err(AllocationError::Overflow)));
}

#[test]
fn narrow_resolve_more_keeps_entry_open() {
    let mut arena: narrow::Arena<u16, 16, 16> = narrow::Arena::new();
    let slots = arena.try_slots(1).ok().unwrap();
    let lease = slots.reserve(&mut arena, 300).unwrap().commit();
    let echo = lease.key().echo();
    let resolved = arena.drain().complete(&arena, echo).unwrap();
    assert_eq!(resolved.resolve(&mut arena, true), Some(300));
    lease.detach(&mut arena);
    let resolved = arena.drain().complete(&arena, echo).unwrap();
    assert_eq!(resolved.resolve(&mut arena, false), Some(300));
    assert!(arena.drain().complete(&arena, echo).is_none());
}
