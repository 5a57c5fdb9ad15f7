//! Pages moving between rings over one shared arena.

use normfs::wal_arena::{WalArena, POOL_FREE};
use normfs::wal_ring_v1::{AppendOutcome, WalRing};

// Big enough for a handful of small records plus their offset slots.
const PAGE: usize = 64;

const RING_A: u64 = 1;
const RING_B: u64 = 2;

/// Slots `[first, first + count)` all read as owned by `who`.
fn assert_owned(arena: &WalArena, first: usize, count: usize, who: u64) {
    for k in first..first + count {
        assert_eq!(
            arena.owner_of(k),
            who,
            "slot {k} should be owned by {who}, arena: {:?}",
            (0..arena.page_count())
                .map(|s| arena.owner_of(s))
                .collect::<Vec<_>>()
        );
    }
}

/// Appends until the ring reports it is out of pages, returning how many records landed.
fn fill(ring: &mut WalRing) -> usize {
    let mut n = 0;
    loop {
        match ring.append(b"abcd") {
            AppendOutcome::Cached(_) => n += 1,
            AppendOutcome::Full => return n,
            other => panic!("unexpected {other:?}"),
        }
    }
}

#[test]
fn reserve_leaves_the_first_range_the_whole_arena_above_it() {
    let mut arena = WalArena::new(6, PAGE);
    let a = arena.reserve(2, RING_A, 0).expect("room for two pages");

    assert_eq!(a.first_slot, 0);
    assert_eq!(a.page_count, 2);
    assert_owned(&arena, 0, 2, RING_A);
    assert_eq!(arena.free_pages(), 4);
}

#[test]
fn reserve_splits_the_spare_room_with_the_range_below() {
    let mut arena = WalArena::new(6, PAGE);
    let a = arena.reserve(2, RING_A, 0).expect("room for A");
    let b = arena.reserve(2, RING_B, 0).expect("room for B");

    assert_eq!((a.first_slot, a.page_count), (0, 2));
    assert_eq!((b.first_slot, b.page_count), (3, 2));
    assert_eq!(arena.owner_of(2), POOL_FREE, "A must keep room to grow");
    assert_eq!(arena.owner_of(5), POOL_FREE, "B must keep room to grow");
}

#[test]
fn a_ring_grows_into_the_free_slot_above_it() {
    let mut arena = WalArena::new(6, PAGE);
    let range = arena.reserve(2, RING_A, 0).unwrap();
    let mut ring = WalRing::in_arena(&mut arena, range, RING_A, 0);

    assert_eq!(ring.page_count(), 2);
    assert!(ring.grow(&mut arena), "slot 2 is free");
    assert_eq!(ring.page_count(), 3);
    assert_owned(&arena, 0, 3, RING_A);
    assert_eq!(arena.free_pages(), 3);
}

#[test]
fn a_ring_will_not_grow_into_another_rings_slot() {
    let mut arena = WalArena::new(4, PAGE);
    let a = arena.reserve(2, RING_A, 0).unwrap();
    let b = arena.reserve(2, RING_B, 0).unwrap();
    assert_eq!(b.first_slot, 2, "B must sit directly above A for this test");

    let mut ring = WalRing::in_arena(&mut arena, a, RING_A, 0);
    assert!(!ring.grow(&mut arena), "slot 2 belongs to B");
    assert_eq!(ring.page_count(), 2);
    assert_owned(&arena, 2, 2, RING_B);
}

#[test]
fn a_ring_at_the_top_of_the_arena_cannot_grow() {
    let mut arena = WalArena::new(2, PAGE);
    let range = arena.reserve(2, RING_A, 0).unwrap();
    let mut ring = WalRing::in_arena(&mut arena, range, RING_A, 0);

    assert!(!ring.grow(&mut arena), "there is no slot 2");
    assert_eq!(ring.page_count(), 2);
}

#[test]
fn shrinking_returns_the_top_page_to_the_arena() {
    let mut arena = WalArena::new(4, PAGE);
    let range = arena.reserve(3, RING_A, 0).unwrap();
    let mut ring = WalRing::in_arena(&mut arena, range, RING_A, 0);

    assert!(ring.shrink(1, &mut arena), "an empty top page is reusable");
    assert_eq!(ring.page_count(), 2);
    assert_eq!(
        arena.owner_of(range.first_slot + 2),
        POOL_FREE,
        "the released slot is free for another range to take"
    );
    assert_owned(&arena, range.first_slot, 2, RING_A);
}

#[test]
fn shrinking_stops_at_the_floor() {
    let mut arena = WalArena::new(4, PAGE);
    let range = arena.reserve(3, RING_A, 0).unwrap();
    let mut ring = WalRing::in_arena(&mut arena, range, RING_A, 0);

    assert!(ring.shrink(2, &mut arena));
    assert_eq!(ring.page_count(), 2);
    assert!(!ring.shrink(2, &mut arena), "the floor is 2 pages");
    assert_eq!(ring.page_count(), 2);
}

#[test]
fn a_pinned_page_does_not_leave_the_ring_that_holds_it() {
    let mut arena = WalArena::new(4, PAGE);
    let range = arena.reserve(3, RING_A, 0).unwrap();
    let mut ring = WalRing::in_arena(&mut arena, range, RING_A, 0);

    ring.pin(2);
    assert!(!ring.shrink(1, &mut arena), "a pinned page must not be released");
    assert_owned(&arena, range.first_slot, 3, RING_A);

    ring.unpin(2);
    assert!(ring.shrink(1, &mut arena), "released once the reader is done");
    assert_eq!(arena.owner_of(range.first_slot + 2), POOL_FREE);
}

#[test]
fn a_page_of_records_that_are_not_on_disk_does_not_leave_the_ring() {
    let mut arena = WalArena::new(4, PAGE);
    let range = arena.reserve(3, RING_A, 0).unwrap();
    let mut ring = WalRing::in_arena(&mut arena, range, RING_A, 0);

    // Fill every page, then rotate back to the bottom so the top page holds records while
    // something below it is active.
    fill(&mut ring);
    let held = ring.next_entry_id();
    ring.set_essential(held);
    assert!(matches!(ring.append(b"abcd"), AppendOutcome::Cached(_)));

    // Everything up to `held` is durable, so the top page may go.
    assert!(ring.page_count() == 3);
    let top = 2;
    assert!(
        ring.page_last_entry_id(top).is_some(),
        "the top page must hold records for this test to mean anything"
    );

    // Pull the watermark back below the top page's last record.
    let top_last = ring.page_last_entry_id(top).unwrap();
    ring.set_essential(top_last);
    assert!(
        !ring.shrink(1, &mut arena),
        "a page whose last record is not below the watermark must not be released"
    );
    assert_owned(&arena, range.first_slot, 3, RING_A);

    ring.set_essential(top_last + 1);
    assert!(ring.shrink(1, &mut arena), "released once the records are on disk");
}

#[test]
fn two_rings_trade_a_page_without_the_total_moving() {
    let mut arena = WalArena::new(6, PAGE);
    let a = arena.reserve(2, RING_A, 0).unwrap();
    let b = arena.reserve(2, RING_B, 0).unwrap();
    assert_eq!((a.first_slot, b.first_slot), (0, 3));

    let mut ring_a = WalRing::in_arena(&mut arena, a, RING_A, 0);
    let ring_b = WalRing::in_arena(&mut arena, b, RING_B, 0);

    // A takes the one slot it can reach, and stops: slot 3 is B's.
    assert!(ring_a.grow(&mut arena));
    assert!(!ring_a.grow(&mut arena), "slot 3 belongs to B");
    assert_eq!(ring_a.page_count(), 3);

    // B goes away and hands its whole range back.
    let held = ring_b.min_essential_id();
    ring_b.retire(&mut arena);
    arena.release(b, RING_B, held);
    assert_eq!(
        arena.free_pages(),
        3,
        "B's two pages plus the spare above it"
    );

    // Now A can reach them, one slot at a time.
    assert!(ring_a.grow(&mut arena));
    assert!(ring_a.grow(&mut arena));
    assert!(ring_a.grow(&mut arena));
    assert!(!ring_a.grow(&mut arena), "the arena is exhausted");

    assert_eq!(ring_a.page_count(), 6);
    assert_owned(&arena, 0, 6, RING_A);
    assert_eq!(
        arena.free_pages(),
        0,
        "every page moved to A, and the arena never grew"
    );
}

#[test]
fn a_taken_slot_does_not_answer_with_its_last_holders_records() {
    let mut arena = WalArena::new(4, PAGE);

    // A sits below B, so the slot B writes to is the one A will grow into.
    let a = arena.reserve(1, RING_A, 0).unwrap();
    let b = arena.reserve(2, RING_B, 500).unwrap();
    assert_eq!(
        (a.first_slot, b.first_slot),
        (0, 1),
        "A must sit directly below B for this test"
    );

    let mut ring_b = WalRing::in_arena(&mut arena, b, RING_B, 500);
    assert!(matches!(
        ring_b.append(b"from-b"),
        AppendOutcome::Cached(500)
    ));
    let held = ring_b.next_entry_id();
    ring_b.set_essential(held);
    ring_b.retire(&mut arena);
    arena.release(b, RING_B, held);

    // A grows into the slot B wrote to. The ids overlap on purpose.
    let mut ring_a = WalRing::in_arena(&mut arena, a, RING_A, 0);
    assert!(ring_a.grow(&mut arena));
    assert_eq!(ring_a.page_count(), 2);

    assert!(matches!(ring_a.append(b"from-a"), AppendOutcome::Cached(0)));
    assert_eq!(ring_a.get(0).unwrap(), b"from-a");
    assert!(
        ring_a.get(500).is_none(),
        "the slot was reset when it was taken, so B's entry 500 is not visible here"
    );
}

#[test]
fn holders_names_who_is_using_the_arena() {
    let mut arena = WalArena::new(6, PAGE);
    arena.reserve(2, RING_A, 0).unwrap();
    arena.reserve(3, RING_B, 0).unwrap();
    arena.set_label(RING_A, "/inst/busy-queue");
    arena.set_label(RING_B, "/inst/idle-queue");

    let holders = arena.holders();
    assert_eq!(holders.len(), 2);
    assert_eq!(holders[0], ("/inst/idle-queue".to_string(), 3));
    assert_eq!(holders[1], ("/inst/busy-queue".to_string(), 2));
}

#[test]
fn a_dropped_ring_gives_its_reusable_slots_back() {
    let mut arena = WalArena::new(4, PAGE);
    {
        let range = arena.reserve(3, RING_A, 0).unwrap();
        let mut ring = WalRing::in_arena(&mut arena, range, RING_A, 0);
        assert!(matches!(ring.append(b"abcd"), AppendOutcome::Cached(_)));
        ring.set_essential(ring.next_entry_id());
        assert_eq!(arena.free_pages(), 1);
        ring.retire(&mut arena);
    }
    assert_eq!(
        arena.free_pages(),
        4,
        "queue churn must not bleed the arena dry"
    );
}

#[test]
fn a_dropped_ring_leaks_rather_than_releases_unwritten_pages() {
    let mut arena = WalArena::new(4, PAGE);
    {
        let range = arena.reserve(3, RING_A, 0).unwrap();
        let mut ring = WalRing::in_arena(&mut arena, range, RING_A, 0);
        // A record accepted and never reported durable: its page must not reach another ring,
        // whatever happens to this one.
        assert!(matches!(ring.append(b"abcd"), AppendOutcome::Cached(_)));
        ring.retire(&mut arena);
    }
    assert_eq!(
        arena.free_pages(),
        3,
        "two empty pages return; the unwritten one is deliberately leaked"
    );
}

#[test]
fn holders_without_a_name_are_listed_by_number_and_equals_by_name() {
    let mut arena = WalArena::new(8, PAGE);
    assert!(arena.holders().is_empty());
    arena.reserve(2, 30, 0).unwrap();
    arena.reserve(2, 7, 0).unwrap();
    arena.reserve(1, 9, 0).unwrap();
    assert_eq!(
        arena.holders(),
        vec![
            ("ring 30".to_string(), 2),
            ("ring 7".to_string(), 2),
            ("ring 9".to_string(), 1),
        ]
    );
    arena.set_label(9, "z");
    arena.set_label(30, "zz");
    arena.forget_label(30);
    assert_eq!(arena.holders()[2], ("z".to_string(), 1));
    assert_eq!(arena.holders()[0], ("ring 30".to_string(), 2));
}

#[test]
fn a_range_that_fits_no_gap_is_not_reserved() {
    let mut arena = WalArena::new(5, PAGE);
    let a = arena.reserve(2, RING_A, 0).unwrap();
    assert_eq!(a.first_slot, 0);
    let b = arena.reserve(1, RING_B, 0).unwrap();
    assert_eq!(b.first_slot, 3);
    // Slots 2 and 4 are free, but not next to each other.
    assert!(arena.reserve(2, 3, 0).is_none());
    assert_eq!(arena.free_pages(), 2);
    assert_eq!(arena.any_free_slot(), Some(2));
    assert_eq!(arena.reserve(1, 3, 0).unwrap().first_slot, 2);
    assert_eq!(arena.reserve(1, 4, 0).unwrap().first_slot, 4);
    assert_eq!(arena.any_free_slot(), None);
    assert!(arena.reserve(1, 5, 0).is_none());
    assert_eq!(arena.page_size(), PAGE);
}
