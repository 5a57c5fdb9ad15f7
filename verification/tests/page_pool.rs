//! Behaviour of the page pool under pressure: when every page holds records that are not yet
//! on disk, an appender is told to wait, and nothing that was accepted is thrown away.

use normfs::page_pool::{
    encoded_len_of, PagePool, PendingWrite, Placement, PoolError, RotateHint, StalledPage,
};
use normfs::wal_entry_v1;
use normfs::wal_ring_v1::AppendOutcome;

// Two small pages, so the pool fills after a handful of records. A 16 B record frames to
// 1 + 16 + 4 = 21 bytes and costs a further 4 for its offset slot, so two fit in a 64 B page
// and the third has to rotate.
const PAGE_SIZE: usize = 64;
const PAGE_COUNT: usize = 2;
const RECORD: [u8; 16] = [0xAB; 16];
/// The widest a V1 header gets, which is what the pool is armed with here.
const HEADER: u64 = 16;

fn pool() -> PagePool {
    PagePool::new(PAGE_COUNT, PAGE_SIZE, 0)
}

/// Fills every page, returning how many records it took.
fn fill(pool: &mut PagePool) -> u64 {
    let mut n = 0;
    loop {
        match pool.try_append(&RECORD) {
            AppendOutcome::Cached(_) => n += 1,
            AppendOutcome::Full => return n,
            AppendOutcome::TooLarge => panic!("16 B record should fit a 64 B page"),
        }
    }
}

/// Places a record that there is room for.
fn place(pool: &mut PagePool, id: u64) -> Placement {
    match pool.place(id, &RECORD) {
        Some(Ok(placement)) => placement,
        other => panic!("unexpected {other:?}"),
    }
}

#[test]
fn try_append_reports_full_rather_than_discarding() {
    let mut pool = pool();
    let n = fill(&mut pool);
    assert!(n >= 2, "expected at least two records to fit, got {n}");
    assert_eq!(pool.try_append(&RECORD), AppendOutcome::Full);
    // The records that were accepted are still there: nothing was reset to make room.
    assert_eq!(pool.next_entry_id(), n);
}

#[test]
fn append_waits_for_a_page_and_resumes_when_one_is_durable() {
    let mut pool = pool();
    let n = fill(&mut pool);

    // No page can be reclaimed, because nothing is durable yet.
    assert!(
        pool.place(n, &RECORD).is_none(),
        "append returned while every page still held records that were not on disk"
    );

    // Reporting the first page durable frees it, and wakes whoever waits.
    assert!(pool.mark_durable(n));

    pool.place(n, &RECORD)
        .expect("place should resume once a page is reclaimable")
        .expect("place should succeed");
    assert_eq!(
        pool.next_entry_id(),
        n + 1,
        "the waiting record keeps the next id in sequence"
    );
}

#[test]
fn nothing_accepted_is_ever_lost() {
    let mut pool = pool();
    // Three times what the pool holds at once, so pages must be recycled.
    let rounds = 3 * PAGE_COUNT as u64;
    let mut ids = Vec::new();

    for _ in 0..rounds {
        loop {
            match pool.try_append(&RECORD) {
                AppendOutcome::Cached(id) => {
                    ids.push(id);
                    break;
                }
                // Standing in for the file writer: everything appended so far is on disk, so
                // its pages may be reused.
                AppendOutcome::Full => {
                    let next = pool.next_entry_id();
                    pool.mark_durable(next);
                }
                AppendOutcome::TooLarge => unreachable!(),
            }
        }
    }

    // Ids are dense and in order: no gap where a record was dropped.
    let expected: Vec<u64> = (0..rounds).collect();
    assert_eq!(ids, expected);
}

#[test]
fn a_record_larger_than_a_page_fails_instead_of_waiting() {
    let mut pool = pool();
    let huge = vec![0u8; PAGE_SIZE * 2];
    // No amount of waiting would ever make room, so this must not wait.
    let id = pool.next_entry_id();
    let outcome = pool.place(id, &huge).expect("TooLarge must not wait");
    assert_eq!(outcome, Err(PoolError::TooLarge));
}

#[test]
fn pending_yields_each_byte_once_and_in_id_order() {
    let mut pool = pool();
    fill(&mut pool);

    let first = pool.take_pending(0);
    assert!(!first.is_empty(), "appended records should be pending a write");
    let total: usize = first.iter().map(|(_, b)| b.len()).sum();
    assert!(total > 0);
    for w in first.windows(2) {
        assert!(
            w[0].0.last_entry_id < w[1].0.last_entry_id,
            "pending runs must come out in id order"
        );
    }

    // Not written yet, so it must come back: an untried write must not lose the run.
    assert_eq!(pool.take_pending(0), first, "an uncommitted run must stay pending");

    // The writer commits each run once it is actually on disk.
    for (w, _) in &first {
        pool.commit_written(w.page_index, w.to);
    }

    // Committed once: a second call has nothing to give, so the writer cannot append the same
    // bytes to the file twice.
    assert!(pool.take_pending(0).is_empty());

    // A further record produces only the new bytes, not the whole page again.
    let next = pool.next_entry_id();
    pool.mark_durable(next);
    assert!(matches!(pool.try_append(&RECORD), AppendOutcome::Cached(_)));
    let second = pool.take_pending(0);
    let second_total: usize = second.iter().map(|(_, b)| b.len()).sum();
    assert!(
        second_total < total,
        "only the newly appended run should be pending, got {second_total} of {total}"
    );
}

#[test]
fn durable_watermark_only_moves_forward() {
    let mut pool = pool();
    fill(&mut pool);
    pool.mark_durable(2);
    assert_eq!(pool.durable_before(), 2);
    // A late or out-of-order report must not un-declare anything as durable.
    pool.mark_durable(1);
    assert_eq!(pool.durable_before(), 2);
}

/// Encoded size of `RECORD` as the pool charges it.
fn record_charge() -> u64 {
    wal_entry_v1::encoded_len(RECORD.len() as u32) as u64
}

/// A pool whose file is smaller than one page, so every page rotates it.
fn armed_pool() -> PagePool {
    let mut pool = PagePool::new(4, PAGE_SIZE, 0);
    pool.arm_file_fill(HEADER + record_charge(), HEADER);
    pool
}

/// Places the next record and frees its page, so the pool never blocks.
fn place_next(pool: &mut PagePool) -> (u64, Placement) {
    let id = pool.next_entry_id();
    let placement = place(pool, id);
    pool.mark_durable(id);
    (id, placement)
}

#[test]
fn a_page_never_holds_entries_for_two_files() {
    let mut pool = armed_pool();

    // Drive what the enqueue path drives, and record which file each id landed in. Freeing as
    // we go, so the pool never blocks on a page.
    let mut file_of: Vec<(u64, u64)> = Vec::new();
    for _ in 0..8 {
        let (id, placement) = place_next(&mut pool);
        file_of.push((id, placement.epoch));
    }

    assert!(
        file_of.iter().any(|(_, epoch)| *epoch > 0),
        "a file smaller than a page should rotate on every page"
    );

    pool.with_ring(|ring| {
        for k in 0..ring.page_count() {
            let (Some(first), Some(last)) =
                (ring.page_first_entry_id(k), ring.page_last_entry_id(k))
            else {
                continue;
            };
            let epoch_of = |id: u64| file_of.iter().find(|(i, _)| *i == id).map(|(_, e)| *e);
            assert_eq!(
                epoch_of(first),
                epoch_of(last),
                "page {k} holds entries {first}..={last}, which belong to different files: \
                 its bytes belong to neither"
            );
        }
    });
}

/// A file is only ever allowed to end where a page ends.
///
/// Crossing the maximum in the middle of a page must not rotate: the record that crosses it
/// stays on the page it is on, and the rotation waits for the next page.
#[test]
fn a_file_ends_only_where_a_page_ends() {
    let mut pool = PagePool::new(4, PAGE_SIZE, 0);
    // One record over, so the threshold is crossed in the middle of page 0.
    pool.arm_file_fill(HEADER + record_charge(), HEADER);

    let mut rotations = 0;
    for _ in 0..8 {
        let id = pool.next_entry_id();
        let before = pool.with_ring(|r| r.active_page());
        let placement = place(&mut pool, id);
        let opened_page = pool.with_ring(|r| r.page_first_entry_id(r.active_page())) == Some(id);
        if placement.rotate == RotateHint::Before {
            rotations += 1;
            assert!(
                opened_page,
                "entry {id} rotated the file without opening a page (active {before} -> {})",
                pool.with_ring(|r| r.active_page())
            );
        }
        pool.mark_durable(id);
    }
    assert!(rotations > 0, "the file should have rotated at least once");
}

/// A flush takes the pages of its own file and no others.
#[test]
fn a_flush_takes_only_its_own_files_pages() {
    let mut pool = armed_pool();

    // Fill until the file rotates, remembering what each file was given.
    let mut of_epoch: Vec<(u64, u64)> = Vec::new();
    while pool.epoch() < 2 {
        let (id, placement) = place_next(&mut pool);
        of_epoch.push((id, placement.epoch));
    }

    for epoch in 0..=pool.epoch() {
        let taken = pool.take_pending(epoch);
        let mut ids: Vec<u64> = taken.iter().map(|(w, _)| w.last_entry_id).collect();
        ids.sort_unstable();
        for id in &ids {
            let charged = of_epoch.iter().find(|(i, _)| i == id).map(|(_, e)| *e);
            assert_eq!(
                charged,
                Some(epoch),
                "file {epoch} was handed entry {id}, which belongs to file {charged:?}"
            );
        }
        // Committed once, so nothing reaches a file twice.
        for (w, _) in &taken {
            pool.commit_written(w.page_index, w.to);
        }
        assert!(
            pool.take_pending(epoch).is_empty(),
            "nothing may be handed out twice"
        );
    }
}

/// A record too large for a page rotates before itself.
///
/// It never enters a page, so there is no page boundary for its file to end at. Without this
/// a queue whose records are all oversized would never rotate.
#[test]
fn a_buffered_record_rotates_before_itself() {
    let mut pool = PagePool::new(4, PAGE_SIZE, 0);
    pool.arm_file_fill(HEADER + record_charge() * 2, HEADER);

    let placements: Vec<(RotateHint, u64)> = (0..6)
        .map(|_| {
            let p = pool.charge_buffered(RECORD.len());
            (p.rotate, p.epoch)
        })
        .collect();
    assert_eq!(
        placements,
        vec![
            (RotateHint::Keep, 0), // opens file 0
            (RotateHint::Keep, 0), // fills it
            (RotateHint::Before, 1),
            (RotateHint::Keep, 1),
            (RotateHint::Before, 2),
            (RotateHint::Keep, 2),
        ],
        "each file must take two records before rotating again"
    );

    // A record larger than the whole file still opens the file it finds rather than rotating
    // into an empty one, which would rotate forever.
    let mut tiny = PagePool::new(4, PAGE_SIZE, 0);
    tiny.arm_file_fill(HEADER + 4, HEADER);
    assert_eq!(
        tiny.charge_buffered(RECORD.len()).rotate,
        RotateHint::Keep,
        "a record larger than max_file_size still opens the first file rather than skipping it"
    );
    for expected in 1..=3u64 {
        let p = tiny.charge_buffered(RECORD.len());
        assert_eq!((p.rotate, p.epoch), (RotateHint::Before, expected));
    }
}

#[test]
fn the_fill_counts_each_entry_exactly_once() {
    let mut pool = PagePool::new(4, PAGE_SIZE, 0);
    pool.arm_file_fill(1 << 20, HEADER);

    for n in 1..=5u64 {
        place_next(&mut pool);
        assert_eq!(
            pool.fill_used(),
            Some(HEADER + record_charge() * n),
            "after {n} records the file should hold its header plus {n} encoded entries"
        );
    }
}

/// A writer never emits records that were in the pool before it started: they have no entry in
/// the new file and no index to be placed at.
#[test]
fn arming_a_writer_does_not_adopt_what_the_pool_already_held() {
    let mut pool = pool();
    fill(&mut pool);
    assert!(
        !pool.take_pending(0).is_empty() || pool.next_entry_id() > 0,
        "the pool should be holding records before the writer arms"
    );

    // Put a fresh run in that a previous writer had not taken.
    let next = pool.next_entry_id();
    pool.mark_durable(next);
    assert!(matches!(pool.try_append(&RECORD), AppendOutcome::Cached(_)));
    assert!(
        !pool.take_pending(0).is_empty(),
        "that run is pending a write"
    );
    assert!(matches!(pool.try_append(&RECORD), AppendOutcome::Cached(_)));

    // A writer starts now. Whatever is already there is not its to write.
    pool.arm_file_fill(1 << 20, 16);
    assert!(
        pool.take_pending(0).is_empty(),
        "a newly armed writer must not adopt records it has no header entry for"
    );

    // What it is told about afterwards still reaches the file.
    let id = pool.next_entry_id();
    pool.mark_durable(id);
    place(&mut pool, id);
    let pending = pool.take_pending(0);
    assert_eq!(
        pending.iter().map(|(w, _)| w.last_entry_id).max(),
        Some(id),
        "records enqueued after arming are written normally"
    );
}

/// An unwritten page from a closed file goes to the next file, not nowhere.
#[test]
fn a_page_left_unwritten_by_a_closed_file_still_reaches_one() {
    let mut pool = armed_pool();

    // File 0 takes a record and never writes it: no commit_written, standing in for a flush
    // that failed every retry before the file was closed.
    let id0 = pool.next_entry_id();
    place(&mut pool, id0);
    let stranded_page = pool.with_ring(|r| r.active_page());
    assert!(
        pool.take_pending(0)
            .iter()
            .any(|(w, _)| w.page_index == stranded_page),
        "file 0 has a run pending on page {stranded_page}, and this test is about it \
         never being written"
    );

    // Enough records to rotate, so file 0 is closed and file 1 is open.
    pool.mark_durable(id0);
    let mut rotated = false;
    while !rotated {
        rotated = place_next(&mut pool).1.rotate == RotateHint::Before;
    }
    let epoch = pool.epoch();
    assert!(epoch > 0);

    let taken = pool.take_pending(epoch);
    let pages: Vec<usize> = taken.iter().map(|(w, _)| w.page_index).collect();
    assert!(
        pages.contains(&stranded_page),
        "the open file must pick up page {stranded_page}, which the closed file left \
         unwritten, or entry {id0} is in no file at all: took pages {pages:?}"
    );
}

/// A record too wide for the V1 frame must not move the file on: the writer rejects it before
/// it can rotate anything.
#[test]
fn a_record_too_wide_to_frame_does_not_move_the_epoch() {
    let mut pool = PagePool::new(4, PAGE_SIZE, 0);
    pool.arm_file_fill(HEADER + record_charge() * 2, HEADER);

    // One real record first, so that a rotation is otherwise possible.
    pool.charge_buffered(RECORD.len());
    let before = (pool.epoch(), pool.fill_used());

    let placement = pool.charge_buffered(u32::MAX as usize + 1);
    assert_eq!(placement.rotate, RotateHint::WriterDecides);
    assert_eq!(
        (pool.epoch(), pool.fill_used()),
        before,
        "a record the writer will reject must leave the file accounting untouched"
    );
}

/// A file takes at least one record, however small its maximum.
///
/// The paged path rotates on a page opening, and the first record of a file may open one.
#[test]
fn a_file_is_never_closed_before_it_takes_a_record() {
    let mut pool = PagePool::new(4, PAGE_SIZE, 0);

    // Fill the active page before the writer arms, so the queue's first record has to open a
    // page.
    for _ in 0..2 {
        assert!(matches!(pool.try_append(&RECORD), AppendOutcome::Cached(_)));
    }
    assert_eq!(
        pool.with_ring(|r| r.active_page()),
        0,
        "two records fill page 0 and leave it active, per this module's geometry"
    );
    let next = pool.next_entry_id();
    pool.mark_durable(next);

    // Smaller than the header, so the file is full from the moment it arms.
    pool.arm_file_fill(HEADER / 2, HEADER);

    let id = pool.next_entry_id();
    let first = place(&mut pool, id);
    assert!(
        pool.with_ring(|r| r.page_first_entry_id(r.active_page())) == Some(id),
        "this test only means something if the first record opens a page"
    );
    assert_eq!(
        first.rotate,
        RotateHint::Keep,
        "the first record of a file must not rotate it away before it holds anything"
    );
    assert_eq!(first.epoch, 0);
}

/// Stepping over a record too large for a page must not wait for a page: an empty pool has
/// nothing to lose and must proceed at once.
#[test]
fn every_record_being_oversized_does_not_stall_the_queue() {
    let mut pool = PagePool::new(PAGE_COUNT, PAGE_SIZE, 0);
    pool.set_drainer();
    pool.arm_file_fill(1 << 20, 16);

    let huge = vec![0u8; PAGE_SIZE * 4];

    // Ten in a row, each stepped over. Nothing reports anything durable, because nothing ever
    // reaches a page.
    for id in 0..10u64 {
        assert_eq!(
            pool.place(id, &huge),
            Some(Err(PoolError::TooLarge)),
            "a record larger than a page is never cached"
        );
        pool.charge_buffered(huge.len());
        assert!(
            pool.skip_to(id + 1),
            "stepping over oversized records must not wait for a page"
        );
        assert_eq!(
            pool.next_entry_id(),
            id + 1,
            "the id sequence steps over the record the pool refused"
        );
    }
}

#[test]
fn a_pinned_page_is_not_reused_while_a_reader_holds_it() {
    let mut pool = pool();
    let n = fill(&mut pool);
    assert!(n >= 2);

    // Hold entry 0 and report everything durable. Durability alone would make every page
    // reclaimable: the pin is the only thing holding this one.
    let held = pool.pin_range(0, 0);
    assert_eq!(held.len(), 1, "entry 0 should be held in memory");
    assert_eq!(&held[0].2[..], &RECORD[..], "the payload reads back");
    pool.mark_durable(n);

    // The page holding entry 0 must not be handed out for reuse.
    let pinned_page = pool
        .with_ring(|ring| (0..ring.page_count()).find(|&k| ring.page_pin_count(k) > 0))
        .expect("a page should be pinned");
    assert_eq!(held[0].1, pinned_page);
    let record = held[0].2.clone();

    for _ in 0..(2 * PAGE_COUNT + 2) {
        let _ = pool.try_append(&RECORD);
        let still_there = pool.with_ring(|ring| ring.page_first_entry_id(pinned_page));
        assert_eq!(
            still_there,
            Some(0),
            "a page a reader is holding was recycled under it"
        );
    }
    assert_eq!(
        pool.collect_range(0, 0),
        vec![(0, record)],
        "the bytes that a reader holds changed under it"
    );

    // Letting go of the last payload releases it.
    for (_, page, _) in &held {
        pool.unpin_page(*page);
    }
    assert_eq!(
        pool.with_ring(|ring| ring.page_pin_count(pinned_page)),
        0,
        "dropping the payload must release the pin"
    );
    assert!(
        matches!(pool.try_append(&RECORD), AppendOutcome::Cached(_)),
        "and the page becomes reusable again"
    );
}

#[test]
fn every_pin_is_released_even_when_payloads_are_dropped_unread() {
    let mut pool = pool();
    fill(&mut pool);

    // A stream that starts and is abandoned: the pins must go with the payloads.
    for _ in 0..5 {
        let batch = pool.pin_range(0, u64::MAX);
        assert!(!batch.is_empty());
        for (_, page, _) in batch {
            pool.unpin_page(page);
        }
    }

    let pinned: u32 = pool.with_ring(|ring| {
        (0..ring.page_count())
            .map(|k| ring.page_pin_count(k))
            .sum()
    });
    assert_eq!(pinned, 0, "a dropped payload leaks a pin, and a leaked pin holds the page for good");
}

#[test]
fn a_record_costs_its_whole_entry() {
    assert_eq!(encoded_len_of(0), 5);
    assert_eq!(encoded_len_of(127), 1 + 127 + 4);
    assert_eq!(encoded_len_of(128), 2 + 128 + 4);
    assert_eq!(encoded_len_of(u32::MAX as usize), 5 + u32::MAX as u64 + 4);
    assert_eq!(encoded_len_of(u32::MAX as usize + 1), u64::MAX);
}

#[test]
fn without_a_pool_the_writer_decides() {
    let legacy = Placement::legacy();
    assert_eq!(legacy, Placement { in_pool: false, rotate: RotateHint::WriterDecides, epoch: 0 });
    assert_eq!(legacy, Placement::default());
    assert_eq!(RotateHint::default(), RotateHint::WriterDecides);

    // Not armed: there is no file to fill, and the pool declines to decide.
    let mut pool = pool();
    assert_eq!(pool.charge_buffered(3), legacy);
    assert_eq!(pool.fill_used(), None);
    assert_eq!(pool.epoch(), 0);
    assert_eq!(
        place(&mut pool, 0),
        Placement { in_pool: true, rotate: RotateHint::WriterDecides, epoch: 0 }
    );
}

#[test]
fn a_drainer_is_there_once_it_is_set() {
    let mut pool = pool();
    assert!(!pool.has_drainer());
    pool.set_drainer();
    assert!(pool.has_drainer());
}

#[test]
fn falling_into_step_with_the_ids_empties_the_pool() {
    let mut pool = pool();
    fill(&mut pool);
    place(&mut pool, 40);
    assert_eq!(pool.min_cached_id(), Some(40));
    assert_eq!(pool.collect_range(0, 100), vec![(40, RECORD.to_vec())]);
    assert_eq!(pool.next_entry_id(), 41);

    pool.reseed(7);
    assert!(pool.is_empty());
    assert_eq!(pool.min_cached_id(), None);
    assert_eq!(pool.next_entry_id(), 7);
    assert!(pool.take_pending(0).is_empty());
}

#[test]
fn a_pool_with_something_to_lose_is_not_stepped_over() {
    let mut pool = pool();
    place(&mut pool, 0);
    assert!(!pool.skip_to(2));
    assert_eq!(pool.min_cached_id(), Some(0));
    pool.mark_durable(1);
    assert!(pool.skip_to(2));
    assert!(pool.is_empty());
    assert_eq!(pool.next_entry_id(), 2);
}

#[test]
fn a_stall_names_the_oldest_page() {
    let mut pool = pool();
    assert_eq!(pool.stall().oldest, None);
    fill(&mut pool);
    pool.mark_durable(2);
    // Reuses page 0, so the oldest entries are on page 1.
    place(&mut pool, 4);
    pool.pin_range(2, 3);
    let stall = pool.stall();
    assert_eq!((stall.pinned, stall.page_count, stall.durable_before), (1, 2, 2));
    assert_eq!(
        stall.oldest,
        Some(StalledPage { page_index: 1, last_entry_id: 3, pins: 2 })
    );
}

#[test]
fn the_length_of_a_run_is_what_lies_between_its_ends() {
    let run = PendingWrite { page_index: 0, from: 21, to: 42, last_entry_id: 1 };
    assert_eq!(run.len(), 21);
    assert!(!run.is_empty());
    assert!(PendingWrite { from: 42, ..run }.is_empty());
}

#[test]
fn a_pending_run_holds_the_framed_entries() {
    let mut pool = pool();
    place(&mut pool, 0);
    let runs = pool.take_pending(0);
    assert_eq!(runs.len(), 1);
    assert_eq!(
        runs[0].0,
        PendingWrite { page_index: 0, from: 0, to: 21, last_entry_id: 0 }
    );
    let mut entry = vec![16u8];
    entry.extend_from_slice(&RECORD);
    let crc = normfs::crc32c::crc32c(0, &entry);
    entry.extend_from_slice(&crc.to_le_bytes());
    assert_eq!(runs[0].1, entry);

    // Once that is written, a further record on the page yields its own entry only.
    pool.commit_written(0, 21);
    place(&mut pool, 1);
    assert_eq!(
        pool.take_pending(0),
        vec![(PendingWrite { page_index: 0, from: 21, to: 42, last_entry_id: 1 }, entry)]
    );
}
