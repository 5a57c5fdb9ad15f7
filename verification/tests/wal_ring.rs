use normfs::wal_ring_v1::{AppendOutcome, WalRing};

// A page big enough for a handful of small records plus their offset slots.
const PAGE: usize = 64;

#[test]
fn append_then_get_roundtrips() {
    let mut ring = WalRing::new(4, PAGE, 0);
    let a = ring.append(b"hello");
    let b = ring.append(b"world");
    assert_eq!(a, AppendOutcome::Cached(0));
    assert_eq!(b, AppendOutcome::Cached(1));
    assert_eq!(ring.get(0).unwrap(), b"hello");
    assert_eq!(ring.get(1).unwrap(), b"world");
}

#[test]
fn ids_are_sequential_from_first() {
    let mut ring = WalRing::new(4, PAGE, 100);
    for i in 0..5u64 {
        assert_eq!(ring.append(b"x"), AppendOutcome::Cached(100 + i));
    }
    assert_eq!(ring.next_entry_id(), 105);
}

#[test]
fn empty_record_roundtrips() {
    let mut ring = WalRing::new(2, PAGE, 0);
    assert_eq!(ring.append(b""), AppendOutcome::Cached(0));
    assert_eq!(ring.get(0).unwrap(), b"");
}

#[test]
fn rotates_across_pages_and_reads_back() {
    // Small pages so a few records force rotations; plenty of pages so no reclaim is needed.
    let mut ring = WalRing::new(8, 32, 0);
    let mut ids = Vec::new();
    for _ in 0..12 {
        match ring.append(b"record") {
            AppendOutcome::Cached(id) => ids.push(id),
            other => panic!("unexpected {:?}", other),
        }
    }
    assert_eq!(ids, (0..12).collect::<Vec<_>>());
    for id in ids {
        assert_eq!(ring.get(id).unwrap(), b"record");
    }
}

#[test]
fn oversized_record_is_not_cached() {
    let mut ring = WalRing::new(2, 32, 0);
    let big = vec![0xABu8; 40]; // bigger than a 32 byte page
    assert_eq!(ring.append(&big), AppendOutcome::TooLarge);
}

#[test]
fn full_when_no_page_reusable() {
    // Two tiny pages; keep appending until every page holds still-essential entries and the
    // active one is full, so rotation cannot find a victim.
    let mut ring = WalRing::new(2, 24, 0);
    let mut outcome = AppendOutcome::Cached(0);
    for _ in 0..100 {
        outcome = ring.append(b"abcd");
        if outcome == AppendOutcome::Full {
            break;
        }
    }
    assert_eq!(outcome, AppendOutcome::Full);
}

#[test]
fn reclaim_after_essential_advances_frees_pages() {
    let mut ring = WalRing::new(2, 24, 0);
    // Fill until full.
    let mut appended = 0u64;
    loop {
        match ring.append(b"abcd") {
            AppendOutcome::Cached(_) => appended += 1,
            AppendOutcome::Full => break,
            other => panic!("unexpected {:?}", other),
        }
    }
    assert!(appended >= 1);
    // Mark everything appended so far as no longer essential; a page becomes reusable and
    // appends succeed again.
    ring.set_essential(ring.next_entry_id());
    assert!(matches!(ring.append(b"abcd"), AppendOutcome::Cached(_)));
}

#[test]
fn seek_missing_id_returns_none() {
    let mut ring = WalRing::new(2, PAGE, 0);
    ring.append(b"only");
    assert!(ring.seek(999).is_none());
    assert!(ring.get(999).is_none());
}

#[test]
fn ring_survives_move() {
    let mut ring = WalRing::new(2, PAGE, 0);
    ring.append(b"before-move");
    let mut moved = ring; // move
    assert_eq!(moved.get(0).unwrap(), b"before-move");
    assert!(matches!(
        moved.append(b"after-move"),
        AppendOutcome::Cached(1)
    ));
    assert_eq!(moved.get(1).unwrap(), b"after-move");
}

/// Appends records of 8 bytes, two of which fill a page of 40.
fn filled(pages: usize, records: usize) -> WalRing {
    let mut ring = WalRing::new(pages, 40, 10);
    for i in 0..records {
        assert_eq!(ring.append(&[i as u8; 8]), AppendOutcome::Cached(10 + i as u64));
    }
    ring
}

#[test]
fn an_entry_that_is_not_on_disk_survives_every_append() {
    let mut ring = filled(2, 4);
    // Entries 10 and 11 are on disk, 12 and 13 are not.
    ring.set_essential(12);
    assert_eq!(ring.append(b"12345678"), AppendOutcome::Cached(14));
    assert!(ring.get(10).is_none());
    assert!(ring.get(11).is_none());
    assert_eq!(ring.get(12).unwrap(), &[2u8; 8]);
    assert_eq!(ring.get(13).unwrap(), &[3u8; 8]);
    assert_eq!(ring.append(b"12345678"), AppendOutcome::Cached(15));
    assert_eq!(ring.append(b"12345678"), AppendOutcome::Full);
}

#[test]
fn the_oldest_page_goes_first_and_the_ids_stay_contiguous() {
    let mut ring = filled(3, 6);
    ring.set_essential(16);
    assert_eq!(ring.min_cached_id(), Some(10));
    ring.append(b"x");
    assert_eq!(ring.min_cached_id(), Some(12));
    assert_eq!(ring.active_page(), 0);
    let ids: Vec<u64> = ring.collect_range(0, u64::MAX).into_iter().map(|(id, _)| id).collect();
    assert_eq!(ids, vec![12, 13, 14, 15, 16]);
}

#[test]
fn a_held_page_is_passed_over() {
    let mut ring = filled(2, 4);
    ring.set_essential(14);
    ring.pin(0);
    assert_eq!(ring.page_pin_count(0), 1);
    assert_eq!(ring.append(b"x"), AppendOutcome::Cached(14));
    assert_eq!(ring.active_page(), 1);
    assert_eq!(ring.get(10).unwrap(), &[0u8; 8]);
    ring.unpin(0);
    assert_eq!(ring.page_pin_count(0), 0);
    ring.unpin(0);
    assert_eq!(ring.page_pin_count(0), u32::MAX);
}

#[test]
fn a_range_is_collected_in_id_order_across_reused_pages() {
    let mut ring = filled(2, 4);
    ring.set_essential(12);
    ring.append(b"new");
    // Page 0 now holds the newest entry and page 1 older ones.
    let found = ring.collect_range(12, 14);
    assert_eq!(
        found,
        vec![(12, vec![2u8; 8]), (13, vec![3u8; 8]), (14, b"new".to_vec())]
    );
    assert_eq!(ring.collect_range(13, 13), vec![(13, vec![3u8; 8])]);
    assert!(ring.collect_range(15, 20).is_empty());
}

#[test]
fn only_a_rotation_raises_the_page_id() {
    let mut ring = filled(2, 1);
    assert_eq!(ring.next_page_id(), 2);
    ring.append(b"12345678");
    assert_eq!(ring.next_page_id(), 2);
    ring.append(b"12345678");
    assert_eq!(ring.next_page_id(), 3);
    assert_eq!(ring.page_len(0), 2);
    assert_eq!(ring.page_len(1), 1);
    assert_eq!(ring.page_first_entry_id(1), Some(12));
    assert_eq!(ring.page_last_entry_id(0), Some(11));
}

#[test]
fn an_entry_fits_up_to_the_last_byte_of_a_page() {
    // 1 byte of size, the record, 4 of checksum and 4 of offset.
    let mut ring = WalRing::new(1, 20, 0);
    assert_eq!(ring.append(&[1u8; 12]), AppendOutcome::TooLarge);
    assert_eq!(ring.append(&[1u8; 11]), AppendOutcome::Cached(0));
    let mut least = WalRing::new(1, 9, 0);
    assert_eq!(least.append(b""), AppendOutcome::Cached(0));
    assert_eq!(least.append(b""), AppendOutcome::Full);
    assert_eq!(least.page_size(), 9);
}

#[test]
fn page_bytes_are_the_entries_one_after_the_other() {
    let mut ring = WalRing::new(2, PAGE, 0);
    ring.append(b"ab");
    ring.append(b"");
    let bytes = ring.page_bytes(0);
    assert_eq!(bytes.len(), 7 + 5);
    assert_eq!(&bytes[..3], &[2, b'a', b'b']);
    assert_eq!(bytes[7], 0);
    assert_eq!(ring.record(0, 1).unwrap(), b"");
    assert!(ring.record(0, 2).is_none());
    assert_eq!(ring.seek(1), Some((0, 1)));
}

#[test]
fn starting_over_empties_the_ring() {
    let mut ring = filled(2, 3);
    ring.set_essential(12);
    ring.reinit(50);
    assert!(ring.is_empty());
    assert_eq!(ring.min_cached_id(), None);
    assert_eq!(ring.min_essential_id(), 0);
    assert_eq!(ring.next_entry_id(), 50);
    assert_eq!(ring.active_page(), 0);
    assert_eq!(ring.page_count(), 2);
    assert_eq!(ring.append(b"x"), AppendOutcome::Cached(50));
}
