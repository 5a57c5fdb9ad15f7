//! What holds of a writer and of a pool over a whole run, whatever arrives and in whatever
//! order.

use vstd::prelude::*;

use crate::buf;
use crate::page_pool;
use crate::page_pool::{Placement, PoolView, RotateHint};
use crate::varint;
use crate::wal_entry;
use crate::wal_entry_v1;
use crate::wal_header;
use crate::wal_header::HeaderView;
use crate::wal_header_v1;
use crate::wal_page;
use crate::wal_ring_v1;
use crate::wal_ring_v1::{AppendOutcome, RingView};
use crate::writer;
use crate::writer::{Doing, QueuedEntry, Stage, WalEntryFormat, WriteReport, WriterView};

verus! {

/// Something that happens to a writer.
pub enum Event {
    /// An entry is handed in.
    Taken(QueuedEntry),
    /// What was to be done is reported.
    Reported(WriteReport),
}

/// What has happened to a writer, and what it was after that.
pub type Run = Seq<(Event, WriterView)>;

/// Whether a report says that what was to be done was done.
pub open spec fn succeeds(w: WriterView, report: WriteReport) -> bool {
    match w.doing() {
        Doing::Rest => true,
        Doing::Ask(_) => report is Room,
        Doing::Tell(_) => report == WriteReport::Done,
        Doing::Close => report == WriteReport::Done,
        Doing::Open => report == WriteReport::Done,
        Doing::Write => report == WriteReport::Done,
        Doing::RefuseRecord(_) => false,
        Doing::RefuseHeader(_) => false,
    }
}

/// Whether the writer `w` becomes `after` by the event, and nothing fails.
pub open spec fn leads(w: WriterView, event: Event, after: WriterView) -> bool {
    match event {
        Event::Taken(entry) => w.ready.len() == 0 && writer::takes_in(w, entry, after),
        Event::Reported(report) => succeeds(w, report) && after == w.told(report),
    }
}

/// The writer `w` at the end of `run`.
pub open spec fn at_end(w: WriterView, run: Run) -> WriterView {
    if run.len() == 0 {
        w
    } else {
        run.last().1
    }
}

/// Whether `run` is a run of the writer `w` in which nothing fails.
pub open spec fn is_run(w: WriterView, run: Run) -> bool
    decreases run.len(),
{
    run.len() == 0 || is_run(w, run.drop_last()) && leads(
        at_end(w, run.drop_last()),
        run.last().0,
        run.last().1,
    )
}

/// A writer that has just been made, for the entries that the header of its file counts on.
pub open spec fn fresh(w: WriterView) -> bool {
    &&& w.ready.len() == 0
    &&& w.waiting.len() == 0
    &&& w.stage == Stage::Begin
    &&& w.index == 0
    &&& w.next == w.header.before
}

/// An entry that was added to a file.
pub struct Added {
    pub entry: QueuedEntry,
    pub file: nat,
    /// The count in the header of the file.
    pub before: nat,
}

/// The entries that were added to files in the course of `run`, in order.
pub open spec fn added(w: WriterView, run: Run) -> Seq<Added>
    decreases run.len(),
{
    if run.len() == 0 {
        Seq::empty()
    } else {
        let head = run.drop_last();
        let now = at_end(w, head);
        if now.doing() == Doing::Write && run.last().0 is Reported {
            added(w, head).push(
                Added { entry: now.ready[0], file: now.file, before: now.header.before },
            )
        } else {
            added(w, head)
        }
    }
}

/// The place of entry `i` of `all` in its file: how many come before it there.
pub open spec fn place(all: Seq<Added>, i: int) -> nat
    decreases i,
{
    if 0 < i < all.len() && all[i - 1].file == all[i].file {
        place(all, i - 1) + 1
    } else {
        0
    }
}

/// Whether the entry was handed in in the course of `run`.
pub open spec fn handed_in(run: Run, entry: QueuedEntry) -> bool {
    exists|k: int| 0 <= k < run.len() && (#[trigger] run[k]).0 == Event::Taken(entry)
}

/// What holds of a writer that was `w` and what it has added.
spec fn on_course(w: WriterView, run: Run) -> bool {
    let now = at_end(w, run);
    let all = added(w, run);
    &&& now.in_position()
    &&& now.next == w.next + all.len() + now.ready.len()
    &&& forall|i: int| 0 <= i < all.len() ==> (#[trigger] all[i]).entry.id@ == w.next + i
    &&& forall|i: int|
        0 <= i < all.len() ==> (#[trigger] all[i]).entry.id@ == all[i].before + place(all, i)
    &&& forall|i: int, j: int|
        0 <= i <= j < all.len() ==> (#[trigger] all[i]).file <= (#[trigger] all[j]).file
    &&& forall|i: int| 0 <= i < all.len() ==> (#[trigger] all[i]).file <= now.file
    &&& if now.stage == Stage::Opening {
        all.len() > 0 ==> all.last().file < now.file
    } else {
        now.index == if all.len() > 0 && all.last().file == now.file {
            place(all, all.len() - 1) + 1
        } else {
            0
        }
    }
    &&& forall|i: int| 0 <= i < now.waiting.len() ==> (#[trigger] now.waiting[i]).id@ > now.next
    &&& forall|i: int| 0 <= i < now.waiting.len() ==> handed_in(run, #[trigger] now.waiting[i])
    &&& forall|i: int| 0 <= i < now.ready.len() ==> handed_in(run, #[trigger] now.ready[i])
    &&& forall|i: int| 0 <= i < all.len() ==> handed_in(run, (#[trigger] all[i]).entry)
    &&& forall|e: QueuedEntry| #[trigger]
        handed_in(run, e) ==> e.id@ < now.next || writer::ids(now.waiting).contains(e.id@)
}

proof fn lemma_place_pushed(all: Seq<Added>, one: Added, i: int)
    requires
        0 <= i < all.len(),
    ensures
        place(all.push(one), i) == place(all, i),
    decreases i,
{
    if i > 0 {
        lemma_place_pushed(all, one, i - 1);
    }
}

proof fn lemma_handed_in_stays(run: Run, entry: QueuedEntry)
    requires
        run.len() > 0,
        handed_in(run.drop_last(), entry),
    ensures
        handed_in(run, entry),
{
    let head = run.drop_last();
    let k = choose|k: int| 0 <= k < head.len() && (#[trigger] head[k]).0 == Event::Taken(entry);
    assert(run[k].0 == Event::Taken(entry));
}

proof fn lemma_handed_in_before(run: Run, entry: QueuedEntry)
    requires
        handed_in(run, entry),
    ensures
        run.last().0 == Event::Taken(entry) || handed_in(run.drop_last(), entry),
{
    let k = choose|k: int| 0 <= k < run.len() && (#[trigger] run[k]).0 == Event::Taken(entry);
    if k < run.len() - 1 {
        assert(run.drop_last()[k].0 == Event::Taken(entry));
    }
}

proof fn lemma_taking_stays_on_course(w: WriterView, run: Run, entry: QueuedEntry)
    requires
        run.len() > 0,
        on_course(w, run.drop_last()),
        run.last().0 == Event::Taken(entry),
        leads(at_end(w, run.drop_last()), run.last().0, run.last().1),
    ensures
        on_course(w, run),
{
    let head = run.drop_last();
    let was = at_end(w, head);
    let now = run.last().1;
    let all = added(w, run);
    assert(all == added(w, head));
    writer::lemma_entries_are_taken_in_position(was, entry, now);
    assert(run[run.len() - 1].0 == Event::Taken(entry));
    assert(handed_in(run, entry));
    let new = !(entry.id@ < was.next || writer::ids(was.waiting).contains(entry.id@));
    assert forall|e: QueuedEntry|
        now.ready.contains(e) || now.waiting.contains(e) implies #[trigger] handed_in(run, e) by {
        if new {
            now.ready.to_multiset_ensures();
            now.waiting.to_multiset_ensures();
            was.waiting.to_multiset_ensures();
            assert(was.waiting.to_multiset().insert(entry).count(e) > 0);
        }
        if e != entry {
            assert(was.waiting.contains(e));
            let i = was.waiting.index_of(e);
            assert(handed_in(head, was.waiting[i]));
            lemma_handed_in_stays(run, e);
        }
    }
    assert forall|i: int| 0 <= i < now.waiting.len() implies handed_in(
        run,
        #[trigger] now.waiting[i],
    ) by {
        assert(now.waiting.contains(now.waiting[i]));
    }
    assert forall|i: int| 0 <= i < now.ready.len() implies handed_in(run, #[trigger] now.ready[i]) by {
        assert(now.ready.contains(now.ready[i]));
    }
    assert forall|i: int| 0 <= i < all.len() implies handed_in(run, (#[trigger] all[i]).entry) by {
        lemma_handed_in_stays(run, all[i].entry);
    }
    assert forall|e: QueuedEntry| #[trigger] handed_in(run, e) implies e.id@ < now.next
        || writer::ids(now.waiting).contains(e.id@) by {
        lemma_handed_in_before(run, e);
        if e.id@ >= now.next {
            if new {
                let x: QueuedEntry = if handed_in(head, e) {
                    let i = writer::ids(was.waiting).index_of(e.id@);
                    was.waiting[i]
                } else {
                    entry
                };
                now.ready.to_multiset_ensures();
                now.waiting.to_multiset_ensures();
                was.waiting.to_multiset_ensures();
                assert(x.id@ == e.id@);
                assert(was.waiting.to_multiset().insert(entry).count(x) > 0);
                assert(now.ready.contains(x) || now.waiting.contains(x));
                if now.ready.contains(x) {
                    let i = now.ready.index_of(x);
                    assert(now.ready[i].id@ == was.next + i);
                }
                let i = now.waiting.index_of(x);
                assert(writer::ids(now.waiting)[i] == e.id@);
            }
        }
    }
}

proof fn lemma_reporting_stays_on_course(w: WriterView, run: Run, report: WriteReport)
    requires
        run.len() > 0,
        on_course(w, run.drop_last()),
        run.last().0 == Event::Reported(report),
        leads(at_end(w, run.drop_last()), run.last().0, run.last().1),
    ensures
        on_course(w, run),
{
    let head = run.drop_last();
    let was = at_end(w, head);
    let now = run.last().1;
    let old = added(w, head);
    let all = added(w, run);
    if was.doing() != Doing::Rest {
        writer::lemma_ids_stay_positions(was, report);
    }
    assert forall|i: int| 0 <= i < now.waiting.len() implies handed_in(
        run,
        #[trigger] now.waiting[i],
    ) by {
        lemma_handed_in_stays(run, now.waiting[i]);
    }
    assert forall|i: int| 0 <= i < now.ready.len() implies handed_in(run, #[trigger] now.ready[i]) by {
        if was.doing() == Doing::Write {
            assert(now.ready[i] == was.ready[i + 1]);
        } else {
            assert(now.ready[i] == was.ready[i]);
        }
        lemma_handed_in_stays(run, now.ready[i]);
    }
    assert forall|e: QueuedEntry| #[trigger] handed_in(run, e) implies e.id@ < now.next
        || writer::ids(now.waiting).contains(e.id@) by {
        lemma_handed_in_before(run, e);
    }
    if was.doing() == Doing::Write {
        let one = all.last();
        assert(all == old.push(one));
        assert(all.drop_last() =~= old);
        assert forall|i: int| 0 <= i < all.len() implies (#[trigger] all[i]).entry.id@
            == all[i].before + place(all, i) && all[i].entry.id@ == w.next + i && handed_in(
            run,
            all[i].entry,
        ) by {
            if i < old.len() {
                assert(all[i] == old[i]);
                lemma_place_pushed(old, one, i);
                lemma_handed_in_stays(run, all[i].entry);
            } else {
                lemma_handed_in_stays(run, was.ready[0]);
                if i > 0 {
                    lemma_place_pushed(old, one, i - 1);
                    assert(all[i - 1] == old.last());
                }
            }
        }
        assert forall|i: int, j: int| 0 <= i <= j < all.len() implies (#[trigger] all[i]).file <= (
        #[trigger] all[j]).file by {
            if j < old.len() {
                assert(all[i] == old[i]);
                assert(all[j] == old[j]);
            } else if i < old.len() {
                assert(all[i] == old[i]);
            }
        }
        assert(place(all, all.len() - 1) == was.index);
    } else {
        assert(all == old);
        assert forall|i: int| 0 <= i < all.len() implies handed_in(run, (#[trigger] all[i]).entry) by {
            lemma_handed_in_stays(run, all[i].entry);
        }
    }
}

proof fn lemma_stays_on_course(w: WriterView, run: Run)
    requires
        fresh(w),
        is_run(w, run),
    ensures
        on_course(w, run),
    decreases run.len(),
{
    if run.len() > 0 {
        lemma_stays_on_course(w, run.drop_last());
        match run.last().0 {
            Event::Taken(entry) => lemma_taking_stays_on_course(w, run, entry),
            Event::Reported(report) => lemma_reporting_stays_on_course(w, run, report),
        }
    }
}

/// As long as nothing fails, entries reach files in the order of their ids, none is left out
/// and none is written twice, in whatever order they are handed in. The entries of a file
/// stand side by side, and each has the id that a reader gives it: the count in the header of
/// its file plus its place there.
pub proof fn lemma_ids_are_positions(w: WriterView, run: Run)
    requires
        fresh(w),
        is_run(w, run),
    ensures
        ({
            let all = added(w, run);
            &&& forall|i: int| 0 <= i < all.len() ==> (#[trigger] all[i]).entry.id@ == w.next + i
            &&& forall|i: int|
                0 <= i < all.len() ==> (#[trigger] all[i]).entry.id@ == all[i].before + place(
                    all,
                    i,
                )
            &&& forall|i: int, j: int|
                0 <= i <= j < all.len() ==> (#[trigger] all[i]).file <= (#[trigger] all[j]).file
            &&& forall|i: int| 0 <= i < all.len() ==> handed_in(run, (#[trigger] all[i]).entry)
        }),
{
    lemma_stays_on_course(w, run);
}

/// A writer that rests has written every entry that it could: the next one was never handed
/// in.
pub proof fn lemma_nothing_is_held_back(w: WriterView, run: Run, entry: QueuedEntry)
    requires
        fresh(w),
        is_run(w, run),
        at_end(w, run).ready.len() == 0,
        handed_in(run, entry),
    ensures
        entry.id@ != w.next + added(w, run).len(),
{
    lemma_stays_on_course(w, run);
    let now = at_end(w, run);
    if entry.id@ == now.next {
        let i = writer::ids(now.waiting).index_of(entry.id@);
        assert(now.waiting[i].id@ == entry.id@);
    }
}

/// How many bytes the file has that the writer is on at the end of `run`, where it began with
/// the header of `w`: its header, and every entry that was added to it.
pub open spec fn open_bytes(w: WriterView, run: Run) -> nat
    decreases run.len(),
{
    if run.len() == 0 {
        w.format.header(w.header).len()
    } else {
        let head = run.drop_last();
        let now = at_end(w, head);
        if run.last().0 is Taken {
            open_bytes(w, head)
        } else if now.doing() == Doing::Open {
            now.format.header(now.header).len()
        } else if now.doing() == Doing::Write {
            open_bytes(w, head) + now.format.entry(
                now.header,
                now.ready[0].id@,
                buf::shown(now.ready[0].data),
            ).len()
        } else {
            open_bytes(w, head)
        }
    }
}

/// How many bytes the file of entry `i` had once the entry was added, for each entry that was
/// added in the course of `run`.
pub open spec fn sizes(w: WriterView, run: Run) -> Seq<nat>
    decreases run.len(),
{
    if run.len() == 0 {
        Seq::empty()
    } else {
        let head = run.drop_last();
        if at_end(w, head).doing() == Doing::Write && run.last().0 is Reported {
            sizes(w, head).push(open_bytes(w, run))
        } else {
            sizes(w, head)
        }
    }
}

/// Whether every question for room was answered by whether the bytes fit a file of `max`.
pub open spec fn answered_by(w: WriterView, run: Run, max: u64) -> bool
    decreases run.len(),
{
    run.len() == 0 || {
        let head = run.drop_last();
        &&& answered_by(w, head, max)
        &&& match (at_end(w, head).doing(), run.last().0) {
            (Doing::Ask(n), Event::Reported(WriteReport::Room(room))) => room == (open_bytes(w, head)
                + n <= max),
            _ => true,
        }
    }
}

/// Whether no entry came with a decision.
pub open spec fn undecided(run: Run) -> bool {
    forall|entry: QueuedEntry| #[trigger]
        handed_in(run, entry) ==> entry.placement.rotate == RotateHint::WriterDecides
}

/// How many bytes an entry takes in a file of the second format.
spec fn framed(entry: QueuedEntry) -> nat {
    wal_entry_v1::frame(buf::shown(entry.data)).len()
}

/// Whether two entries that follow each other stand in one file that stays within its maximum,
/// or in two because the first has no room for the second.
spec fn fits_or_turns(v1: bool, a: Added, had: nat, b: Added, has: nat, max: u64) -> bool {
    if a.file == b.file {
        has <= max
    } else {
        v1 ==> b.file == a.file + 1 && had + framed(b.entry) > max
    }
}

/// What holds of the files of a writer that decides for itself.
spec fn sizes_on_course(w: WriterView, now: WriterView, all: Seq<Added>, bytes: Seq<nat>, here: nat, max: u64) -> bool {
    let v1 = w.format == WalEntryFormat::V1;
    &&& bytes.len() == all.len()
    &&& here > 0
    &&& now.format == w.format
    &&& forall|i: int, j: int|
        0 <= i < j < all.len() && j == i + 1 ==> fits_or_turns(
            v1,
            #[trigger] all[i],
            bytes[i],
            #[trigger] all[j],
            bytes[j],
            max,
        )
    &&& now.stage != Stage::Begin ==> now.ready.len() > 0
    &&& if now.stage != Stage::Opening && now.has_written {
        all.len() > 0 && all.last().file == now.file && bytes.last() == here
    } else {
        all.len() > 0 ==> all.last().file < now.file
    }
    &&& now.stage == Stage::Decided(false) && now.has_written && now.takes_front() ==> here
        + now.entry_len(buf::shown(now.ready[0].data).len()) <= max
    &&& v1 && now.stage == Stage::Decided(true) ==> now.has_written && here + framed(now.ready[0])
        > max
    &&& v1 && all.len() > 0 && all.last().file < now.file ==> {
        &&& now.ready.len() > 0
        &&& now.stage == Stage::Opening || now.stage == Stage::Decided(false)
        &&& all.last().file + 1 == now.file
        &&& bytes.last() + framed(now.ready[0]) > max
    }
}

proof fn lemma_entry_len(w: WriterView, entry: QueuedEntry)
    requires
        w.format.takes(w.header, entry.id@, buf::shown(entry.data).len()),
    ensures
        w.format.entry(w.header, entry.id@, buf::shown(entry.data)).len() == w.entry_len(
            buf::shown(entry.data).len(),
        ),
        w.format == WalEntryFormat::V1 ==> framed(entry) == w.entry_len(
            buf::shown(entry.data).len(),
        ) && framed(entry) <= u64::MAX,
{
    let record = buf::shown(entry.data);
    match w.format {
        WalEntryFormat::V0 => wal_entry::lemma_frame_len(
            entry.id@,
            record,
            w.header.id_size,
            w.header.data_size,
        ),
        WalEntryFormat::V1 => {
            wal_entry_v1::lemma_frame_len(record);
            varint::lemma_encode_len_32(record.len());
        },
    }
}

proof fn lemma_header_is_not_empty(format: WalEntryFormat, header: HeaderView)
    requires
        format.opens(header),
    ensures
        format.header(header).len() > 0,
{
    match format {
        WalEntryFormat::V0 => wal_header::lemma_encode_len(header),
        WalEntryFormat::V1 => wal_header_v1::lemma_fields_len(header),
    }
}

/// What a step does to a writer that decides for itself and to the size of its file.
proof fn lemma_sizes_stay_on_course(
    w: WriterView,
    was: WriterView,
    all: Seq<Added>,
    bytes: Seq<nat>,
    here: nat,
    max: u64,
    report: WriteReport,
)
    requires
        sizes_on_course(w, was, all, bytes, here, max),
        succeeds(was, report),
        was.ready.len() > 0 ==> was.ready[0].placement.rotate == RotateHint::WriterDecides,
        was.doing() matches Doing::Ask(n) ==> report == WriteReport::Room(here + n <= max),
    ensures
        ({
            let now = was.told(report);
            let entry = was.ready[0];
            let len = was.format.entry(was.header, entry.id@, buf::shown(entry.data)).len();
            if was.doing() == Doing::Write {
                sizes_on_course(
                    w,
                    now,
                    all.push(Added { entry, file: was.file, before: was.header.before }),
                    bytes.push(here + len),
                    here + len,
                    max,
                )
            } else if was.doing() == Doing::Open {
                sizes_on_course(w, now, all, bytes, was.format.header(was.header).len(), max)
            } else {
                sizes_on_course(w, now, all, bytes, here, max)
            }
        }),
{
    let now = was.told(report);
    let entry = was.ready[0];
    match was.doing() {
        Doing::Rest => {},
        Doing::Ask(n) => {
            lemma_entry_len(was, entry);
        },
        Doing::Open => {
            lemma_header_is_not_empty(was.format, was.header);
        },
        Doing::Write => {
            lemma_entry_len(was, entry);
            let one = Added { entry, file: was.file, before: was.header.before };
            let len = was.format.entry(was.header, entry.id@, buf::shown(entry.data)).len();
            let more = all.push(one);
            let grown = bytes.push(here + len);
            assert forall|i: int, j: int| 0 <= i < j < more.len() && j == i + 1 implies fits_or_turns(
                w.format == WalEntryFormat::V1,
                #[trigger] more[i],
                grown[i],
                #[trigger] more[j],
                grown[j],
                max,
            ) by {
                assert(more[i] == all[i]);
                if j < all.len() {
                    assert(more[j] == all[j]);
                }
            }
        },
        _ => {},
    }
}

proof fn lemma_run_sizes(w: WriterView, run: Run, max: u64)
    requires
        fresh(w),
        !w.has_written,
        w.format.opens(w.header),
        is_run(w, run),
        undecided(run),
        answered_by(w, run, max),
    ensures
        sizes_on_course(w, at_end(w, run), added(w, run), sizes(w, run), open_bytes(w, run), max),
    decreases run.len(),
{
    if run.len() == 0 {
        lemma_header_is_not_empty(w.format, w.header);
    } else {
        let head = run.drop_last();
        let was = at_end(w, head);
        assert forall|entry: QueuedEntry| #[trigger] handed_in(head, entry) implies
            entry.placement.rotate == RotateHint::WriterDecides by {
            lemma_handed_in_stays(run, entry);
        }
        lemma_run_sizes(w, head, max);
        lemma_stays_on_course(w, head);
        match run.last().0 {
            Event::Taken(entry) => {},
            Event::Reported(report) => {
                if was.ready.len() > 0 {
                    assert(handed_in(head, was.ready[0]));
                }
                lemma_sizes_stay_on_course(
                    w,
                    was,
                    added(w, head),
                    sizes(w, head),
                    open_bytes(w, head),
                    max,
                    report,
                );
            },
        }
    }
}

/// A writer that decides for itself keeps every file within its maximum, however many there
/// are: an entry is added to a file that holds one already only if the file stays within the
/// maximum. In the second format a file also ends for no other reason than that the next entry
/// has no room in it, and the next file has the next number.
pub proof fn lemma_files_stay_within_their_maximum(w: WriterView, run: Run, max: u64, i: int)
    requires
        fresh(w),
        !w.has_written,
        w.format.opens(w.header),
        is_run(w, run),
        undecided(run),
        answered_by(w, run, max),
        0 < i < added(w, run).len(),
    ensures
        ({
            let all = added(w, run);
            let bytes = sizes(w, run);
            let len = wal_entry_v1::frame(buf::shown(all[i].entry.data)).len();
            &&& bytes.len() == all.len()
            &&& all[i].file == all[i - 1].file ==> bytes[i] <= max
            &&& all[i].file != all[i - 1].file && w.format == WalEntryFormat::V1 ==> all[i].file
                == all[i - 1].file + 1 && bytes[i - 1] + len > max
        }),
{
    lemma_run_sizes(w, run, max);
    let all = added(w, run);
    assert(fits_or_turns(
        w.format == WalEntryFormat::V1,
        all[i - 1],
        sizes(w, run)[i - 1],
        all[i],
        sizes(w, run)[i],
        max,
    ));
}

/// The file of the last entry that was added, or the one that the writer began on.
spec fn last_file(w: WriterView, all: Seq<Added>) -> nat {
    if all.len() == 0 {
        w.file
    } else {
        all.last().file
    }
}

/// Whether an entry is in the file that its hint asks for, behind an entry in file `before`.
spec fn obeys(before: nat, one: Added) -> bool {
    match one.entry.placement.rotate {
        RotateHint::Before => one.file == before + 1,
        RotateHint::Keep => one.file == before,
        RotateHint::WriterDecides => one.file == before || one.file == before + 1,
    }
}

/// What holds of a writer that carries out hints.
spec fn hints_on_course(w: WriterView, now: WriterView, all: Seq<Added>) -> bool {
    let last = last_file(w, all);
    let hint = now.ready[0].placement.rotate;
    &&& now.format == WalEntryFormat::V1
    &&& forall|i: int, j: int|
        0 <= i < j < all.len() && j == i + 1 ==> obeys(
            (#[trigger] all[i]).file,
            #[trigger] all[j],
        )
    &&& all.len() > 0 ==> obeys(w.file, all[0])
    &&& now.stage != Stage::Begin ==> now.ready.len() > 0
    &&& match now.stage {
        Stage::Begin => now.file == last,
        Stage::Opening => now.file == last + 1 && hint != RotateHint::Keep,
        Stage::Decided(true) => now.file == last && hint != RotateHint::Keep,
        Stage::Decided(false) => {
            ||| now.file == last && hint != RotateHint::Before
            ||| now.file == last + 1 && hint != RotateHint::Keep
        },
    }
}

proof fn lemma_run_hints(w: WriterView, run: Run)
    requires
        fresh(w),
        w.format == WalEntryFormat::V1,
        is_run(w, run),
    ensures
        hints_on_course(w, at_end(w, run), added(w, run)),
    decreases run.len(),
{
    if run.len() > 0 {
        let head = run.drop_last();
        let was = at_end(w, head);
        let old = added(w, head);
        let all = added(w, run);
        lemma_run_hints(w, head);
        if run.last().0 is Reported && was.doing() == Doing::Write {
            assert(all.drop_last() =~= old);
            assert forall|i: int, j: int| 0 <= i < j < all.len() && j == i + 1 implies obeys(
                (#[trigger] all[i]).file,
                #[trigger] all[j],
            ) by {
                assert(all[i] == old[i]);
                if j < old.len() {
                    assert(all[j] == old[j]);
                }
            }
            if old.len() > 0 {
                assert(all[0] == old[0]);
            }
        }
    }
}

/// A writer carries out what a pool decided: an entry that a file is to end before is the first
/// of the next file, and one that is to stay follows in the file of the entry before it.
pub proof fn lemma_hints_are_carried_out(w: WriterView, run: Run, i: int)
    requires
        fresh(w),
        w.format == WalEntryFormat::V1,
        is_run(w, run),
        0 <= i < added(w, run).len(),
    ensures
        ({
            let all = added(w, run);
            let before = if i == 0 {
                w.file
            } else {
                all[i - 1].file
            };
            match all[i].entry.placement.rotate {
                RotateHint::Before => all[i].file == before + 1,
                RotateHint::Keep => all[i].file == before,
                RotateHint::WriterDecides => before <= all[i].file <= before + 1,
            }
        }),
{
    lemma_run_hints(w, run);
    let all = added(w, run);
    if i > 0 {
        assert(obeys(all[i - 1].file, all[i]));
    }
}

/// Whether `pool` becomes `after` when `record` is placed under its next id, at `placement`.
pub open spec fn places(
    pool: PoolView,
    record: Seq<u8>,
    placement: Placement,
    after: PoolView,
) -> bool {
    let cost = page_pool::entry_cost(record.len());
    &&& pool.ring.next_id < u64::MAX
    &&& pool.fill matches Some(fill) ==> fill.epoch < u64::MAX
    &&& exists|appended: PoolView|
        {
            &&& #[trigger] pool.appends(
                record,
                AppendOutcome::Cached(pool.ring.next_id as u64),
                appended,
            )
            &&& after == appended.charged_paged(cost, pool.opens_page(appended))
            &&& placement == appended.placement_paged(cost, pool.opens_page(appended))
        }
}

/// Whether `after` holds the entries of `pool` on the same pages and for the same files.
pub open spec fn keeps_entries(pool: PoolView, after: PoolView) -> bool {
    &&& after.inv()
    &&& after.fill == pool.fill
    &&& after.epochs == pool.epochs
    &&& after.ring.active == pool.ring.active
    &&& after.ring.next_id == pool.ring.next_id
    &&& after.ring.pages.len() == pool.ring.pages.len()
    &&& forall|k: int|
        0 <= k < pool.ring.pages.len() ==> (#[trigger] after.ring.pages[k]).first
            == pool.ring.pages[k].first && after.ring.pages[k].records
            == pool.ring.pages[k].records
}

/// That more entries are on disk, that somebody holds a page or lets it go, and that bytes of
/// a page are written leave the entries of a pool as they are.
pub proof fn lemma_entries_are_kept(
    pool: PoolView,
    essential: nat,
    k: int,
    pins: nat,
    written: Seq<nat>,
)
    requires
        pool.inv(),
        0 <= k < pool.ring.pages.len(),
        written.len() == pool.written.len(),
    ensures
        keeps_entries(
            pool,
            (PoolView { ring: (RingView { essential, ..pool.ring }), ..pool }),
        ),
        keeps_entries(pool, (PoolView { ring: pool.ring.with_pins(k, pins), ..pool })),
        keeps_entries(pool, (PoolView { written, ..pool })),
{
    let held = pool.ring.with_pins(k, pins);
    assert forall|j: int| 0 <= j < pool.ring.pages.len() implies (#[trigger] held.pages[j]).first
        == pool.ring.pages[j].first && held.pages[j].records == pool.ring.pages[j].records
        && held.pages[j].size == pool.ring.pages[j].size by {}
}

/// What has happened to a pool, and what it was after that: a record was placed, or something
/// that leaves its entries as they are, such as a page that is held or a write that landed.
pub type PoolRun = Seq<(Option<(Seq<u8>, Placement)>, PoolView)>;

/// The pool `pool` at the end of `run`.
pub open spec fn pool_at_end(pool: PoolView, run: PoolRun) -> PoolView {
    if run.len() == 0 {
        pool
    } else {
        run.last().1
    }
}

/// Whether `run` is a run of the pool `pool`.
pub open spec fn is_pool_run(pool: PoolView, run: PoolRun) -> bool
    decreases run.len(),
{
    run.len() == 0 || is_pool_run(pool, run.drop_last()) && match run.last().0 {
        Some((record, placement)) => places(
            pool_at_end(pool, run.drop_last()),
            record,
            placement,
            run.last().1,
        ),
        None => keeps_entries(pool_at_end(pool, run.drop_last()), run.last().1),
    }
}

/// The placements of the records that were placed in the course of `run`, in order.
pub open spec fn placements(run: PoolRun) -> Seq<Placement>
    decreases run.len(),
{
    if run.len() == 0 {
        Seq::empty()
    } else {
        match run.last().0 {
            Some((_, placement)) => placements(run.drop_last()).push(placement),
            None => placements(run.drop_last()),
        }
    }
}

/// A pool that a writer has armed, before any record.
pub open spec fn armed(pool: PoolView) -> bool {
    pool.inv() && pool.fill is Some && pool.ring.is_empty()
}

/// Whether entry `id` of `now` is placed as `all` says, where the first of `all` is `first`.
spec fn placed_as(now: PoolView, all: Seq<Placement>, first: nat, k: int, id: nat) -> bool {
    &&& first <= id < first + all.len()
    &&& all[id - first].epoch == now.epochs[k]
    &&& all[id - first].rotate == RotateHint::Before ==> now.ring.pages[k].first == id
}

/// What holds of a pool and of the placements that it gave, the first of them for `first`.
spec fn placed_on_course(now: PoolView, all: Seq<Placement>, first: nat) -> bool {
    &&& now.ring.next_id == first + all.len()
    &&& all.len() > 0 ==> all.last().epoch == now.fill->0.epoch
    &&& forall|i: int, j: int|
        0 <= i < j < all.len() && j == i + 1 ==> (#[trigger] all[j]).epoch == (
        #[trigger] all[i]).epoch + if all[j].rotate == RotateHint::Before {
            1int
        } else {
            0int
        }
    &&& forall|k: int, id: nat| #[trigger]
        now.ring.holds_at(k, id) ==> placed_as(now, all, first, k, id)
}

/// What placing one more record changes.
spec fn grew(was: PoolView, placement: Placement, now: PoolView) -> bool {
    let k = now.ring.active;
    &&& now.ring.next_id == was.ring.next_id + 1
    &&& placement.epoch == now.fill->0.epoch
    &&& placement.epoch == was.fill->0.epoch + if placement.rotate == RotateHint::Before {
        1int
    } else {
        0int
    }
    &&& now.epochs[k] == placement.epoch
    &&& placement.rotate == RotateHint::Before ==> now.ring.pages[k].first == was.ring.next_id
    &&& forall|j: int, e: nat| #[trigger]
        now.ring.holds_at(j, e) ==> if e == was.ring.next_id {
            j == k
        } else {
            was.ring.holds_at(j, e) && now.ring.pages[j].first == was.ring.pages[j].first
                && now.epochs[j] == was.epochs[j]
        }
}

proof fn lemma_placing_grows(was: PoolView, record: Seq<u8>, placement: Placement, now: PoolView)
    requires
        was.inv(),
        was.fill is Some,
        was.coherent(),
        places(was, record, placement, now),
    ensures
        grew(was, placement, now),
        now.inv(),
        now.fill is Some,
        now.coherent(),
{
    let cost = page_pool::entry_cost(record.len());
    let id = was.ring.next_id;
    let appended = choose|appended: PoolView|
        {
            &&& #[trigger] was.appends(record, AppendOutcome::Cached(id as u64), appended)
            &&& now == appended.charged_paged(cost, was.opens_page(appended))
            &&& placement == appended.placement_paged(cost, was.opens_page(appended))
        };
    let outcome = AppendOutcome::Cached(id as u64);
    wal_ring_v1::lemma_append_keeps_inv(was.ring, record, outcome, appended.ring);
    wal_ring_v1::lemma_append_touches_one_page(was.ring, record, id as u64, appended.ring);
    page_pool::lemma_a_page_belongs_to_one_file(was, record, id as u64, appended, cost);
    let k = now.ring.active;
    assert forall|j: int, e: nat| #[trigger] now.ring.holds_at(j, e) implies if e == id {
        j == k
    } else {
        was.ring.holds_at(j, e) && now.ring.pages[j].first == was.ring.pages[j].first
            && now.epochs[j] == was.epochs[j]
    } by {
        if j != k {
            assert(now.ring.pages[j] == was.ring.pages[j]);
            assert(was.ring.pages[j].end() <= id);
        } else if e != id {
            assert(was.ring.pages[k].records.len() > 0);
        }
    }
}

proof fn lemma_placing_stays_on_course(
    was: PoolView,
    old: Seq<Placement>,
    first: nat,
    placement: Placement,
    now: PoolView,
)
    requires
        placed_on_course(was, old, first),
        grew(was, placement, now),
    ensures
        placed_on_course(now, old.push(placement), first),
{
    let all = old.push(placement);
    assert forall|i: int, j: int| 0 <= i < j < all.len() && j == i + 1 implies (
    #[trigger] all[j]).epoch == (#[trigger] all[i]).epoch + if all[j].rotate
        == RotateHint::Before {
        1int
    } else {
        0int
    } by {
        assert(all[i] == old[i]);
        if j < old.len() {
            assert(all[j] == old[j]);
        }
    }
    assert forall|k: int, e: nat| #[trigger] now.ring.holds_at(k, e) implies placed_as(
        now,
        all,
        first,
        k,
        e,
    ) by {
        if e != was.ring.next_id {
            assert(was.ring.holds_at(k, e));
            assert(placed_as(was, old, first, k, e));
            assert(all[e - first] == old[e - first]);
        }
    }
}

proof fn lemma_pool_stays_on_course(pool: PoolView, run: PoolRun)
    requires
        armed(pool),
        is_pool_run(pool, run),
    ensures
        pool_at_end(pool, run).inv(),
        pool_at_end(pool, run).fill is Some,
        pool_at_end(pool, run).coherent(),
        placed_on_course(pool_at_end(pool, run), placements(run), pool.ring.next_id),
    decreases run.len(),
{
    if run.len() == 0 {
        assert forall|k: int, id: nat| !#[trigger] pool.ring.holds_at(k, id) by {
            if 0 <= k < pool.ring.pages.len() {
                assert(pool.ring.pages[k].records.len() == 0);
            }
        }
    } else {
        lemma_pool_stays_on_course(pool, run.drop_last());
        let was = pool_at_end(pool, run.drop_last());
        let now = run.last().1;
        let old = placements(run.drop_last());
        if let Some((record, placement)) = run.last().0 {
            lemma_placing_grows(was, record, placement, now);
            lemma_placing_stays_on_course(was, old, pool.ring.next_id, placement, now);
        } else {
            assert forall|k: int, id: nat| #[trigger] now.ring.holds_at(k, id) implies placed_as(
                now,
                old,
                pool.ring.next_id,
                k,
                id,
            ) by {
                assert(was.ring.holds_at(k, id));
            }
        }
    }
}

/// A page never holds entries for two files: all entries that a page holds at the end of a
/// run were placed in one file. Only the first entry of a page has ended a file.
pub proof fn lemma_pages_belong_to_one_file(pool: PoolView, run: PoolRun, k: int, a: nat, b: nat)
    requires
        armed(pool),
        is_pool_run(pool, run),
        pool_at_end(pool, run).ring.holds_at(k, a),
        pool_at_end(pool, run).ring.holds_at(k, b),
    ensures
        ({
            let all = placements(run);
            let first = pool.ring.next_id;
            &&& first <= a < first + all.len()
            &&& first <= b < first + all.len()
            &&& all[a - first].epoch == all[b - first].epoch
            &&& all[a - first].rotate == RotateHint::Before ==> pool_at_end(
                pool,
                run,
            ).ring.pages[k].first == a
        }),
{
    lemma_pool_stays_on_course(pool, run);
    let now = pool_at_end(pool, run);
    assert(placed_as(now, placements(run), pool.ring.next_id, k, a));
    assert(placed_as(now, placements(run), pool.ring.next_id, k, b));
}

/// Files are counted up by one at each rotation, and not otherwise.
pub proof fn lemma_rotations_count_files(pool: PoolView, run: PoolRun, i: int)
    requires
        armed(pool),
        is_pool_run(pool, run),
        0 < i < placements(run).len(),
    ensures
        placements(run)[i].epoch == placements(run)[i - 1].epoch + if placements(run)[i].rotate
            == RotateHint::Before {
            1int
        } else {
            0int
        },
{
    lemma_pool_stays_on_course(pool, run);
    let all = placements(run);
    assert(all[i].epoch == all[i - 1].epoch + if all[i].rotate == RotateHint::Before {
        1int
    } else {
        0int
    });
}

/// How many bytes the entries take that were placed in file `epoch` in the course of `run`.
pub open spec fn file_bytes(run: PoolRun, epoch: u64) -> nat
    decreases run.len(),
{
    if run.len() == 0 {
        0
    } else {
        file_bytes(run.drop_last(), epoch) + match run.last().0 {
            Some((record, placement)) => if placement.epoch == epoch {
                wal_entry_v1::frame(record).len()
            } else {
                0
            },
            None => 0,
        }
    }
}

/// Whether the pages have the same size all through `run`: nothing that a pool does changes it.
pub open spec fn keeps_page_size(pool: PoolView, run: PoolRun) -> bool {
    forall|i: int|
        0 <= i < run.len() ==> (#[trigger] run[i]).1.ring.page_size == pool.ring.page_size
}

/// The larger of two numbers.
spec fn larger(a: nat, b: nat) -> nat {
    if a < b {
        b
    } else {
        a
    }
}

/// What holds of the files of a pool that was armed for files of `max` bytes with headers of
/// `header` bytes.
spec fn files_on_course(now: PoolView, run: PoolRun, header: nat, max: nat) -> bool {
    let fill = now.fill->0;
    let here = header + file_bytes(run, fill.epoch);
    let on_page = now.ring.pages[now.ring.active].used();
    &&& fill.header_len == header
    &&& fill.max == max
    &&& fill.used == if here > u64::MAX {
        u64::MAX as nat
    } else {
        here
    }
    &&& fill.has_written <==> file_bytes(run, fill.epoch) > 0
    &&& here <= larger(header, max) + on_page
    &&& on_page <= now.ring.page_size
    &&& forall|e: u64|
        e < fill.epoch ==> max <= header + #[trigger] file_bytes(run, e) <= larger(header, max)
            + now.ring.page_size && file_bytes(run, e) > 0
    &&& forall|e: u64| e > fill.epoch ==> #[trigger] file_bytes(run, e) == 0
}

/// What placing one more record does to the open file and the active page.
spec fn took(was: PoolView, record: Seq<u8>, placement: Placement, now: PoolView) -> bool {
    let old = was.fill->0;
    let fill = now.fill->0;
    let len = wal_entry_v1::frame(record).len();
    let before = was.ring.pages[was.ring.active].used();
    let on_page = now.ring.pages[now.ring.active].used();
    &&& now.ring.page_size == was.ring.page_size
    &&& fill.header_len == old.header_len
    &&& fill.max == old.max
    &&& fill.has_written
    &&& fill.epoch == placement.epoch
    &&& len > 0
    &&& on_page <= now.ring.page_size
    &&& on_page == before + len || on_page == len
    &&& if on_page == before + len && fill.epoch == old.epoch {
        fill.used == page_pool::capped_sum(old.used, len as u64)
    } else if fill.epoch == old.epoch {
        (!old.has_written || old.used < old.max) && fill.used == page_pool::capped_sum(
            old.used,
            len as u64,
        )
    } else {
        &&& fill.epoch == old.epoch + 1
        &&& old.has_written
        &&& old.used >= old.max
        &&& fill.used == page_pool::capped_sum(old.header_len, len as u64)
    }
    &&& len <= u64::MAX
}

proof fn lemma_placing_takes(was: PoolView, record: Seq<u8>, placement: Placement, now: PoolView)
    requires
        was.inv(),
        was.fill is Some,
        was.coherent(),
        places(was, record, placement, now),
    ensures
        took(was, record, placement, now),
{
    let cost = page_pool::entry_cost(record.len());
    let id = was.ring.next_id;
    let appended = choose|appended: PoolView|
        {
            &&& #[trigger] was.appends(record, AppendOutcome::Cached(id as u64), appended)
            &&& now == appended.charged_paged(cost, was.opens_page(appended))
            &&& placement == appended.placement_paged(cost, was.opens_page(appended))
        };
    wal_ring_v1::lemma_append_keeps_inv(
        was.ring,
        record,
        AppendOutcome::Cached(id as u64),
        appended.ring,
    );
    wal_ring_v1::lemma_append_touches_one_page(was.ring, record, id as u64, appended.ring);
    wal_ring_v1::lemma_append_stays_on_its_page(was.ring, record, id as u64, appended.ring);
    page_pool::lemma_a_record_costs_its_entry(record);
    let before = was.ring.pages[was.ring.active];
    let page = now.ring.pages[now.ring.active];
    wal_page::lemma_frames_push(before.records, record);
    wal_page::lemma_frames_push(Seq::empty(), record);
    assert(Seq::<Seq<u8>>::empty().push(record) =~= seq![record]);
    assert(wal_page::frames(Seq::empty()).len() == 0);
    wal_entry_v1::lemma_frame_len(record);
    if was.opens_page(appended) {
        assert(page.used() == wal_entry_v1::frame(record).len());
    } else {
        assert(page.used() == before.used() + wal_entry_v1::frame(record).len());
    }
}

proof fn lemma_files_stay_on_course(pool: PoolView, run: PoolRun)
    requires
        armed(pool),
        !pool.fill->0.has_written,
        pool.fill->0.used == pool.fill->0.header_len,
        pool.fill->0.epoch == 0,
        is_pool_run(pool, run),
        keeps_page_size(pool, run),
    ensures
        files_on_course(
            pool_at_end(pool, run),
            run,
            pool.fill->0.header_len as nat,
            pool.fill->0.max as nat,
        ),
        pool_at_end(pool, run).ring.page_size == pool.ring.page_size,
    decreases run.len(),
{
    let header = pool.fill->0.header_len as nat;
    let max = pool.fill->0.max as nat;
    if run.len() == 0 {
        assert(pool.ring.pages[pool.ring.active].records.len() == 0);
        assert(wal_page::frames(pool.ring.pages[pool.ring.active].records).len() == 0);
    } else {
        let head = run.drop_last();
        assert(run[run.len() - 1] == run.last());
        assert forall|i: int| 0 <= i < head.len() implies (#[trigger] head[i]).1.ring.page_size
            == pool.ring.page_size by {
            assert(head[i] == run[i]);
        }
        lemma_files_stay_on_course(pool, head);
        lemma_pool_stays_on_course(pool, head);
        let was = pool_at_end(pool, head);
        let now = run.last().1;
        match run.last().0 {
            Some((record, placement)) => {
                lemma_placing_takes(was, record, placement, now);
                lemma_taking_stays_on_course_of_files(was, head, record, placement, now, run, header, max);
            },
            None => {
                assert forall|e: u64| #[trigger] file_bytes(run, e) == file_bytes(head, e) by {}
            },
        }
    }
}

proof fn lemma_taking_stays_on_course_of_files(
    was: PoolView,
    head: PoolRun,
    record: Seq<u8>,
    placement: Placement,
    now: PoolView,
    run: PoolRun,
    header: nat,
    max: nat,
)
    requires
        files_on_course(was, head, header, max),
        took(was, record, placement, now),
        run.len() > 0,
        run.drop_last() == head,
        run.last().0 == Some((record, placement)),
    ensures
        files_on_course(now, run, header, max),
{
    let len = wal_entry_v1::frame(record).len();
    let old = was.fill->0;
    let fill = now.fill->0;
    assert forall|e: u64| #[trigger] file_bytes(run, e) == file_bytes(head, e) + if e
        == placement.epoch {
        len
    } else {
        0
    } by {}
    assert(file_bytes(head, old.epoch) >= 0);
    assert(file_bytes(run, fill.epoch) == file_bytes(head, fill.epoch) + len);
    if fill.epoch != old.epoch {
        assert(file_bytes(head, fill.epoch) == 0);
        assert(file_bytes(run, old.epoch) == file_bytes(head, old.epoch));
    }
}

/// Files end in time, and not before: of all files that were placed in the course of a run,
/// none exceeds the maximum, or the header alone, by more than one page, and each that is
/// followed by another has reached the maximum. The bytes of a file are those of its header
/// and of its entries.
pub proof fn lemma_files_end_in_time(pool: PoolView, run: PoolRun, epoch: u64)
    requires
        armed(pool),
        !pool.fill->0.has_written,
        pool.fill->0.used == pool.fill->0.header_len,
        pool.fill->0.epoch == 0,
        is_pool_run(pool, run),
        keeps_page_size(pool, run),
    ensures
        ({
            let bytes = pool.fill->0.header_len + file_bytes(run, epoch);
            &&& bytes <= pool.fill->0.max + pool.ring.page_size || bytes
                <= pool.fill->0.header_len + pool.ring.page_size
            &&& (exists|i: int|
                0 <= i < placements(run).len() && (#[trigger] placements(run)[i]).epoch > epoch)
                ==> bytes >= pool.fill->0.max
        }),
{
    lemma_files_stay_on_course(pool, run);
    lemma_epochs_are_bounded(pool, run);
    let now = pool_at_end(pool, run);
    let fill = now.fill->0;
    assert(file_bytes(run, epoch) >= 0);
    if epoch > fill.epoch {
        assert(file_bytes(run, epoch) == 0);
    }
}

proof fn lemma_epochs_are_bounded(pool: PoolView, run: PoolRun)
    requires
        armed(pool),
        is_pool_run(pool, run),
    ensures
        forall|i: int|
            0 <= i < placements(run).len() ==> (#[trigger] placements(run)[i]).epoch
                <= pool_at_end(pool, run).fill->0.epoch,
    decreases run.len(),
{
    if run.len() > 0 {
        let head = run.drop_last();
        lemma_epochs_are_bounded(pool, head);
        lemma_pool_stays_on_course(pool, head);
        let was = pool_at_end(pool, head);
        if let Some((record, placement)) = run.last().0 {
            lemma_placing_grows(was, record, placement, run.last().1);
            assert forall|i: int| 0 <= i < placements(run).len() implies (
            #[trigger] placements(run)[i]).epoch <= run.last().1.fill->0.epoch by {
                if i < placements(head).len() {
                    assert(placements(run)[i] == placements(head)[i]);
                }
            }
        }
    }
}

} // verus!
