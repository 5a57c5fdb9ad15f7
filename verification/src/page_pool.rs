//! A fixed pool of pages that writers wait on.
//!
//! When no page can be reused, an appender waits: the pages still hold records that are not
//! on disk, and dropping them is the one thing that the pool never does. A page is reused
//! only when no reader holds it and every entry on it is below the durable watermark.

use vstd::prelude::*;
use vstd::slice::{slice_subrange, slice_to_vec};

use crate::varint;
use crate::wal_entry_v1;
use crate::wal_page;
use crate::wal_ring_v1;
use crate::wal_ring_v1::{AppendOutcome, RingView, WalRing};

verus! {

/// Why an append could not be satisfied.
#[derive(Debug, Clone, Copy, PartialEq, Eq, Structural)]
pub enum PoolError {
    /// The record is larger than a whole page, so no page could ever hold it.
    TooLarge,
}

/// Whether the writer must rotate before a record.
#[derive(Debug, Clone, Copy, PartialEq, Eq, Structural)]
pub enum RotateHint {
    /// No decision was made for this record; the writer makes its own.
    WriterDecides,
    /// Rotate, then write. The file that this closes ends where a page ended.
    Before,
    /// Do not rotate, whatever the writer's own accounting says.
    Keep,
}

impl Default for RotateHint {
    fn default() -> (hint: Self)
        ensures
            hint == RotateHint::WriterDecides,
    {
        RotateHint::WriterDecides
    }
}

/// What was decided about a record, for the writer to carry out.
#[derive(Debug, Clone, Copy, PartialEq, Eq, Structural)]
pub struct Placement {
    /// The record is in a page, so its bytes reach the file from there.
    pub in_pool: bool,
    pub rotate: RotateHint,
    /// Which file the record was charged to, counted from zero.
    pub epoch: u64,
}

impl Placement {
    /// The placement for a caller that has no pool: the writer decides.
    pub fn legacy() -> (p: Self)
        ensures
            p == undecided(),
    {
        Placement { in_pool: false, rotate: RotateHint::WriterDecides, epoch: 0 }
    }
}

impl Default for Placement {
    fn default() -> (p: Self)
        ensures
            p == undecided(),
    {
        Placement::legacy()
    }
}

/// The placement that decides nothing.
pub open spec fn undecided() -> Placement {
    Placement { in_pool: false, rotate: RotateHint::WriterDecides, epoch: 0 }
}

/// A run of bytes on one page that is not yet in a file.
#[derive(Debug, Clone, Copy, PartialEq, Eq, Structural)]
pub struct PendingWrite {
    pub page_index: usize,
    /// Where the run starts in the entries of the page.
    pub from: usize,
    /// One past its end.
    pub to: usize,
    /// The last entry id on the page, so that it is known what a sync makes durable.
    pub last_entry_id: u64,
}

impl PendingWrite {
    pub fn len(&self) -> (n: usize)
        requires
            self.from <= self.to,
        ensures
            n == self.to - self.from,
    {
        self.to - self.from
    }

    pub fn is_empty(&self) -> (b: bool)
        ensures
            b == (self.from == self.to),
    {
        self.from == self.to
    }
}

/// How full the open file is.
///
/// `max` is a threshold: a file ends at the first page that opens once it is crossed.
#[derive(Debug, Clone, Copy, PartialEq, Eq, Structural)]
pub struct FileFill {
    pub used: u64,
    pub max: u64,
    pub header_len: u64,
    /// Whether the file has been charged an entry yet. A file takes its first record
    /// however large it is.
    pub has_written: bool,
    pub epoch: u64,
}

/// `a + b`, or the largest value where that is less.
pub open spec fn capped_sum(a: u64, b: u64) -> u64 {
    if a + b > u64::MAX {
        u64::MAX
    } else {
        (a + b) as u64
    }
}

impl FileFill {
    /// The fill after an entry of `entry_len` bytes, in this file or, after a rotation, in
    /// the next.
    pub open spec fn charged(self, entry_len: u64, rotate: bool) -> FileFill {
        FileFill {
            used: capped_sum(
                if rotate {
                    self.header_len
                } else {
                    self.used
                },
                entry_len,
            ),
            has_written: true,
            epoch: if rotate {
                (self.epoch + 1) as u64
            } else {
                self.epoch
            },
            ..self
        }
    }

    /// Whether a record on a page ends the file: only one that opened its page does, once
    /// the file is full and holds something.
    pub open spec fn ends_at_page(self, opened_page: bool) -> bool {
        opened_page && self.has_written && self.used >= self.max
    }

    /// Whether a record that no page holds ends the file: it does not fit, and it is not
    /// the first.
    pub open spec fn ends_before(self, entry_len: u64) -> bool {
        self.has_written && capped_sum(self.used, entry_len) > self.max
    }

    fn charge(&self, entry_len: u64, rotate: bool) -> (fill: FileFill)
        requires
            self.epoch < u64::MAX,
        ensures
            fill == self.charged(entry_len, rotate),
    {
        let base: u64 = if rotate {
            self.header_len
        } else {
            self.used
        };
        let epoch: u64 = if rotate {
            self.epoch + 1
        } else {
            self.epoch
        };
        FileFill {
            used: base.saturating_add(entry_len),
            max: self.max,
            header_len: self.header_len,
            has_written: true,
            epoch,
        }
    }
}

/// The placement of a record under a hint.
pub open spec fn hinted(in_pool: bool, rotate: bool, epoch: u64) -> Placement {
    Placement {
        in_pool,
        rotate: if rotate {
            RotateHint::Before
        } else {
            RotateHint::Keep
        },
        epoch,
    }
}

/// What a record of `len` bytes costs a file: its whole entry. A record too wide for an
/// entry costs more than any file holds.
pub open spec fn entry_cost(len: nat) -> u64 {
    if len <= u32::MAX {
        (varint::encode(len).len() + len + 4) as u64
    } else {
        u64::MAX
    }
}

/// What a record of `record_len` bytes costs a file.
pub fn encoded_len_of(record_len: usize) -> (n: u64)
    ensures
        n == entry_cost(record_len as nat),
        forall|record: Seq<u8>|
            record.len() == record_len && record_len <= u32::MAX ==> n as nat == (
            #[trigger] wal_entry_v1::frame(record)).len(),
{
    if record_len <= u32::MAX as usize {
        proof {
            assert forall|record: Seq<u8>| record.len() == record_len implies (
            #[trigger] wal_entry_v1::frame(record)).len() == varint::encode(
                record_len as nat,
            ).len() + record_len + 4 by {
                wal_entry_v1::lemma_frame_len(record);
            }
        }
        varint::encoded_len(record_len as u64) as u64 + record_len as u64 + 4
    } else {
        u64::MAX
    }
}

/// A pool as its users see it.
#[verifier::ext_equal]
pub struct PoolView {
    pub ring: RingView,
    /// Per page, how many of its bytes are in a file.
    pub written: Seq<nat>,
    /// The fill of the open file, once a writer has armed it.
    pub fill: Option<FileFill>,
    /// Per page, the file that its bytes belong to.
    pub epochs: Seq<u64>,
    /// Whether a file writer drains the pool.
    pub drainer: bool,
}

impl PoolView {
    pub open spec fn inv(self) -> bool {
        &&& self.ring.inv()
        &&& self.written.len() == self.ring.pages.len()
        &&& self.epochs.len() == self.ring.pages.len()
    }

    /// The pool emptied, with `first` as the next id.
    pub open spec fn reseeded(self, first: nat) -> PoolView {
        PoolView {
            ring: wal_ring_v1::empty_ring(self.ring.pages.len(), self.ring.page_size, first),
            written: Seq::new(self.written.len(), |k: int| 0nat),
            ..self
        }
    }

    /// The pool with `id` as the next id: emptied, unless that is its next id already.
    pub open spec fn synced(self, id: nat) -> PoolView {
        if self.ring.next_id == id {
            self
        } else {
            self.reseeded(id)
        }
    }

    /// Where a record of `len` bytes goes that no page holds, and the pool after it.
    pub open spec fn buffered(self, len: nat) -> (Placement, PoolView) {
        match self.fill {
            Some(fill) if len <= u32::MAX => {
                let cost = entry_cost(len);
                let charged = fill.charged(cost, fill.ends_before(cost));
                (
                    hinted(false, fill.ends_before(cost), charged.epoch),
                    PoolView { fill: Some(charged), ..self },
                )
            },
            _ => (undecided(), self),
        }
    }

    /// The pool once a file has the bytes of page `k` up to `up_to`.
    pub open spec fn committed(self, k: int, up_to: nat) -> PoolView {
        PoolView {
            written: self.written.update(
                k,
                if up_to > self.written[k] {
                    up_to
                } else {
                    self.written[k]
                },
            ),
            ..self
        }
    }

    /// The pool once every entry below `first` is on disk.
    pub open spec fn durable(self, first: nat) -> PoolView {
        if first > self.ring.essential {
            PoolView { ring: RingView { essential: first, ..self.ring }, ..self }
        } else {
            self
        }
    }

    /// The pool once it charges records to files of at most `max` bytes.
    pub open spec fn armed(self, max: u64, header_len: u64) -> PoolView {
        PoolView {
            fill: Some(
                FileFill { used: header_len, max, header_len, has_written: false, epoch: 0 },
            ),
            written: Seq::new(self.written.len(), |k: int| self.ring.pages[k].used()),
            epochs: Seq::new(self.epochs.len(), |k: int| 0u64),
            ..self
        }
    }

    /// What appending `record` does to the pool and what it answers. A rotation starts the
    /// count of written bytes of its page anew.
    pub open spec fn appends(self, record: Seq<u8>, outcome: AppendOutcome, after: PoolView) -> bool {
        &&& self.ring.appends(record, outcome, after.ring)
        &&& after.written == if self.opens_page(after) {
            self.written.update(after.ring.active, 0)
        } else {
            self.written
        }
        &&& after.fill == self.fill
        &&& after.epochs == self.epochs
        &&& after.drainer == self.drainer
    }

    /// Whether the append from `self` to `after` started a fresh page.
    pub open spec fn opens_page(self, after: PoolView) -> bool {
        after.ring.next_page_id != self.ring.next_page_id
    }

    /// The pool after a record was charged that is on the active page.
    pub open spec fn charged_paged(self, entry_len: u64, opened_page: bool) -> PoolView {
        PoolView {
            fill: match self.fill {
                Some(fill) => Some(fill.charged(entry_len, fill.ends_at_page(opened_page))),
                None => None,
            },
            epochs: self.epochs.update(
                self.ring.active,
                match self.fill {
                    Some(fill) => fill.charged(entry_len, fill.ends_at_page(opened_page)).epoch,
                    None => 0,
                },
            ),
            ..self
        }
    }

    /// The placement of a record that is on the active page. Until a writer has armed the
    /// pool, that writer decides.
    pub open spec fn placement_paged(self, entry_len: u64, opened_page: bool) -> Placement {
        match self.fill {
            Some(fill) => hinted(
                true,
                fill.ends_at_page(opened_page),
                fill.charged(entry_len, fill.ends_at_page(opened_page)).epoch,
            ),
            None => Placement { in_pool: true, rotate: RotateHint::WriterDecides, epoch: 0 },
        }
    }

    /// Whether page `k` has bytes for the file `epoch`, or left over by an earlier one.
    pub open spec fn pending(self, k: int, epoch: u64) -> bool {
        &&& 0 <= k < self.ring.pages.len()
        &&& self.written[k] < self.ring.pages[k].used()
        &&& self.epochs[k] <= epoch
    }

    /// Whether `item` is the run of page `k` that is not in a file.
    pub open spec fn is_run(self, k: int, item: (PendingWrite, Vec<u8>)) -> bool {
        let page = self.ring.pages[k];
        &&& item.0.page_index == k
        &&& item.0.from == self.written[k]
        &&& item.0.to == page.used()
        &&& item.0.last_entry_id == page.end() - 1
        &&& item.1@ == wal_page::frames(page.records).subrange(
            self.written[k] as int,
            page.used() as int,
        )
    }

    /// Whether `out` lists the pending runs for `epoch` of the first `n` pages, oldest first.
    pub open spec fn lists_pending(self, n: int, epoch: u64, out: Seq<(PendingWrite, Vec<u8>)>) -> bool {
        &&& forall|i: int, j: int|
            0 <= i < j < out.len() ==> (#[trigger] out[i]).0.last_entry_id < (
            #[trigger] out[j]).0.last_entry_id
        &&& forall|i: int|
            0 <= i < out.len() ==> {
                let k = (#[trigger] out[i]).0.page_index as int;
                k < n && self.pending(k, epoch) && self.is_run(k, out[i])
            }
        &&& forall|k: int|
            k < n && #[trigger] self.pending(k, epoch) ==> exists|i: int|
                0 <= i < out.len() && (#[trigger] out[i]).0.page_index == k
    }

    /// Whether nothing would be lost by emptying the pool: it holds nothing, or everything
    /// that it holds is on disk.
    pub open spec fn nothing_to_lose(self) -> bool {
        self.ring.is_empty() || self.ring.essential >= self.ring.next_id
    }

    /// Whether what is in a file of each page are whole entries.
    pub open spec fn between_entries(self) -> bool {
        forall|k: int|
            0 <= k < self.ring.pages.len() ==> ends_an_entry(
                (#[trigger] self.ring.pages[k]).records,
                self.written[k],
            )
    }

    /// Whether the page that is appended to belongs to the open file.
    pub open spec fn coherent(self) -> bool {
        match self.fill {
            Some(fill) => self.ring.pages[self.ring.active].records.len() > 0
                ==> self.epochs[self.ring.active] == fill.epoch,
            None => true,
        }
    }
}

/// How many bytes the first `n` of `records` take.
pub open spec fn first_bytes(records: Seq<Seq<u8>>, n: int) -> nat {
    wal_page::frames(records.take(n)).len()
}

/// Whether the first `up_to` bytes of the entries of `records` are whole entries.
pub open spec fn ends_an_entry(records: Seq<Seq<u8>>, up_to: nat) -> bool {
    exists|n: int| 0 <= n <= records.len() && #[trigger] first_bytes(records, n) == up_to
}

/// How many of the payloads in `out` are on page `k`.
pub open spec fn payloads_on(out: Seq<(u64, usize, Vec<u8>)>, k: int) -> nat
    decreases out.len(),
{
    if out.len() == 0 {
        0
    } else {
        payloads_on(out.drop_last(), k) + if out.last().1 == k {
            1nat
        } else {
            0nat
        }
    }
}

/// `ring` with one more pin on a page for each payload of `out` there.
pub open spec fn pinned_for(ring: RingView, out: Seq<(u64, usize, Vec<u8>)>) -> RingView {
    RingView {
        pages: Seq::new(
            ring.pages.len(),
            |k: int| wal_page::PageView {
                pins: (ring.pages[k].pins + payloads_on(out, k)) % 0x1_0000_0000,
                ..ring.pages[k]
            },
        ),
        ..ring
    }
}

/// `ring` once every payload of `out` has let go of its page.
pub open spec fn let_go(ring: RingView, out: Seq<(u64, usize, Vec<u8>)>) -> RingView
    decreases out.len(),
{
    if out.len() == 0 {
        ring
    } else {
        let k = out.last().1 as int;
        let_go(
            ring.with_pins(k, wal_ring_v1::one_pin_fewer(ring.pages[k].pins)),
            out.drop_last(),
        )
    }
}

/// Each payload holds its page once.
pub proof fn lemma_each_payload_holds_its_page(
    ring: RingView,
    out: Seq<(u64, usize, Vec<u8>)>,
    k: int,
)
    requires
        0 <= k < ring.pages.len(),
        ring.pages[k].pins + payloads_on(out, k) <= u32::MAX,
    ensures
        pinned_for(ring, out).pages[k].pins == ring.pages[k].pins + payloads_on(out, k),
{
}

/// Pins are counted in 32 bits, up and down: a payload adds one to its page and to no other.
pub proof fn lemma_pins_are_counted(ring: RingView, payload: (u64, usize, Vec<u8>), k: int)
    requires
        0 <= k < ring.pages.len(),
        ring.pages[k].pins <= u32::MAX,
    ensures
        ({
            let pins = pinned_for(ring, seq![payload]).pages[k].pins;
            &&& payload.1 != k ==> pins == ring.pages[k].pins
            &&& payload.1 == k && ring.pages[k].pins < u32::MAX ==> pins == ring.pages[k].pins + 1
            &&& payload.1 == k && ring.pages[k].pins == u32::MAX ==> pins == 0
        }),
        ring.pages[k].pins > 0 ==> wal_ring_v1::one_pin_fewer(ring.pages[k].pins) + 1
            == ring.pages[k].pins,
        wal_ring_v1::one_pin_fewer(0) == u32::MAX,
{
    assert(seq![payload].drop_last() =~= Seq::empty());
    assert(payloads_on(Seq::empty(), k) == 0);
}

/// No pin is left over: once every payload has let go, the pages are held as they were before
/// the payloads were handed out.
pub proof fn lemma_every_pin_is_released(ring: RingView, out: Seq<(u64, usize, Vec<u8>)>)
    requires
        forall|k: int| 0 <= k < ring.pages.len() ==> (#[trigger] ring.pages[k]).pins <= u32::MAX,
        forall|i: int| 0 <= i < out.len() ==> (#[trigger] out[i]).1 < ring.pages.len(),
    ensures
        let_go(pinned_for(ring, out), out) == ring,
    decreases out.len(),
{
    let pinned = pinned_for(ring, out);
    if out.len() == 0 {
        assert(pinned.pages =~= ring.pages);
    } else {
        let k = out.last().1 as int;
        let rest = out.drop_last();
        let one_fewer = pinned.with_pins(k, wal_ring_v1::one_pin_fewer(pinned.pages[k].pins));
        assert(out[out.len() - 1].1 < ring.pages.len());
        assert forall|i: int| 0 <= i < rest.len() implies (#[trigger] rest[i]).1
            < ring.pages.len() by {
            assert(rest[i] == out[i]);
        }
        assert(one_fewer.pages =~= pinned_for(ring, rest).pages);
        lemma_every_pin_is_released(ring, rest);
    }
}

/// A record that rotates the file has opened its page: a file ends only where a page ends.
pub proof fn lemma_a_file_ends_only_where_a_page_ends(
    before: PoolView,
    record: Seq<u8>,
    id: u64,
    after: PoolView,
    entry_len: u64,
)
    requires
        before.inv(),
        before.appends(record, AppendOutcome::Cached(id), after),
        after.placement_paged(entry_len, before.opens_page(after)).rotate == RotateHint::Before,
    ensures
        after.ring.pages[after.ring.active].first == id,
        after.ring.pages[after.ring.active].records == seq![record],
{
    assert(before.ring.pushed(record).next_page_id == before.ring.next_page_id);
    let k = choose|k: int|
        #[trigger] before.ring.victim(k) && after.ring == before.ring.rotated(k).pushed(record);
    assert(after.ring.pages[k].records =~= seq![record]);
}

/// A page never holds entries for two files: a record that joins others on a page leaves the
/// file of that page as it is.
pub proof fn lemma_a_page_belongs_to_one_file(
    before: PoolView,
    record: Seq<u8>,
    id: u64,
    after: PoolView,
    entry_len: u64,
)
    requires
        before.inv(),
        before.coherent(),
        before.fill is Some,
        before.appends(record, AppendOutcome::Cached(id), after),
    ensures
        ({
            let opened = before.opens_page(after);
            let charged = after.charged_paged(entry_len, opened);
            &&& charged.coherent()
            &&& charged.epochs[charged.ring.active] == after.placement_paged(entry_len, opened).epoch
            &&& !opened && before.ring.pages[before.ring.active].records.len() > 0
                ==> charged.ring.active == before.ring.active && charged.epochs[charged.ring.active]
                == before.epochs[before.ring.active]
        }),
{
    wal_ring_v1::lemma_append_keeps_inv(
        before.ring,
        record,
        AppendOutcome::Cached(id),
        after.ring,
    );
}

/// A pool that has nothing to lose holds no entry that is not on disk.
pub proof fn lemma_nothing_to_lose(pool: PoolView, id: nat)
    requires
        pool.inv(),
        pool.nothing_to_lose(),
        pool.ring.holds(id),
    ensures
        id < pool.ring.essential,
{
    let k = pool.ring.page_of(id);
    assert(pool.ring.holds_at(k, id));
    assert(pool.ring.pages[k].records.len() > 0);
}

/// Placing a record keeps every entry that is not on disk, or whose page somebody holds,
/// with its record, and caches the new one under its id.
pub proof fn lemma_place_loses_nothing(
    before: PoolView,
    record: Seq<u8>,
    id: u64,
    after: PoolView,
    entry_len: u64,
    kept: nat,
)
    requires
        before.inv(),
        before.ring.next_id == id,
        before.synced(id as nat).appends(record, AppendOutcome::Cached(id), after),
        before.ring.holds(kept),
        kept >= before.ring.essential || before.ring.pages[before.ring.page_of(kept)].pins > 0,
    ensures
        ({
            let placed = after.charged_paged(entry_len, before.opens_page(after));
            &&& placed.ring.holds(kept)
            &&& placed.ring.record_of(kept) == before.ring.record_of(kept)
            &&& placed.ring.holds(id as nat)
            &&& placed.ring.record_of(id as nat) == record
        }),
{
    wal_ring_v1::lemma_append_keeps_what_is_needed(
        before.ring,
        record,
        AppendOutcome::Cached(id),
        after.ring,
        kept,
    );
    wal_ring_v1::lemma_append_caches(before.ring, record, id, after.ring);
}

/// A file takes a record before it is closed, however small its maximum.
pub proof fn lemma_a_file_is_never_closed_empty(fill: FileFill, entry_len: u64, opened_page: bool)
    requires
        !fill.has_written,
    ensures
        !fill.ends_at_page(opened_page),
        !fill.ends_before(entry_len),
        fill.charged(entry_len, false).has_written,
{
}

/// A file that holds something and has reached its maximum ends where the next page opens.
/// The record that opens it is the first that the next file is charged for.
pub proof fn lemma_a_full_file_ends_at_the_next_page(pool: PoolView, fill: FileFill, entry_len: u64)
    requires
        pool.fill == Some(fill),
        fill.has_written,
        fill.used >= fill.max,
        fill.epoch < u64::MAX,
        fill.header_len + entry_len <= u64::MAX,
    ensures
        pool.placement_paged(entry_len, true).rotate == RotateHint::Before,
        pool.placement_paged(entry_len, true).epoch == fill.epoch + 1,
        pool.placement_paged(entry_len, true).in_pool,
        pool.charged_paged(entry_len, true).fill matches Some(next) && next.used
            == fill.header_len + entry_len && next.has_written && next.epoch == fill.epoch + 1
            && next.max == fill.max && next.header_len == fill.header_len,
{
}

/// A file that holds nothing, or has not reached its maximum, goes on; and so does every file
/// within a page.
pub proof fn lemma_a_file_goes_on(pool: PoolView, fill: FileFill, entry_len: u64, opened_page: bool)
    requires
        pool.fill == Some(fill),
        !opened_page || !fill.has_written || fill.used < fill.max,
        fill.used + entry_len <= u64::MAX,
    ensures
        pool.placement_paged(entry_len, opened_page).rotate == RotateHint::Keep,
        pool.placement_paged(entry_len, opened_page).epoch == fill.epoch,
        pool.placement_paged(entry_len, opened_page).in_pool,
        pool.charged_paged(entry_len, opened_page).fill matches Some(next) && next.used
            == fill.used + entry_len && next.has_written && next.epoch == fill.epoch && next.max
            == fill.max && next.header_len == fill.header_len,
{
}

/// A record that no page holds never takes a file that holds something beyond its maximum: the
/// file ends before it, and the next begins with it. A file ends before it for no other reason.
pub proof fn lemma_a_buffered_record_keeps_the_maximum(fill: FileFill, entry_len: u64)
    requires
        fill.epoch < u64::MAX,
        fill.header_len + entry_len <= u64::MAX,
        fill.used + entry_len <= u64::MAX || fill.max < u64::MAX,
    ensures
        ({
            let ends = fill.ends_before(entry_len);
            let next = fill.charged(entry_len, ends);
            &&& ends <==> fill.has_written && fill.used + entry_len > fill.max
            &&& ends ==> next.used == fill.header_len + entry_len && next.epoch == fill.epoch + 1
            &&& !ends && fill.used + entry_len <= u64::MAX ==> next.used == fill.used + entry_len
            &&& !ends ==> next.epoch == fill.epoch
            &&& !ends && fill.has_written ==> next.used <= fill.max
            &&& next.has_written && next.max == fill.max && next.header_len == fill.header_len
            &&& hinted(false, ends, next.epoch) == (Placement {
                in_pool: false,
                rotate: if fill.has_written && fill.used + entry_len > fill.max {
                    RotateHint::Before
                } else {
                    RotateHint::Keep
                },
                epoch: if fill.has_written && fill.used + entry_len > fill.max {
                    (fill.epoch + 1) as u64
                } else {
                    fill.epoch
                },
            })
        }),
{
}

/// A record that no page holds is charged as the entry that it becomes, whether it ends the file
/// or goes on with it; one that is too wide for an entry is charged nothing, and neither is any
/// as long as the pool is not armed. No page changes.
pub proof fn lemma_what_a_buffered_record_is_charged(pool: PoolView, record: Seq<u8>)
    requires
        pool.fill matches Some(fill) ==> fill.epoch < u64::MAX && fill.used
            + wal_entry_v1::frame(record).len() <= u64::MAX && fill.header_len
            + wal_entry_v1::frame(record).len() <= u64::MAX,
    ensures
        ({
            let (p, after) = pool.buffered(record.len());
            let len = wal_entry_v1::frame(record).len();
            &&& !p.in_pool
            &&& after.ring == pool.ring && after.written == pool.written && after.epochs
                == pool.epochs && after.drainer == pool.drainer
            &&& pool.fill is None || record.len() > u32::MAX ==> after == pool && p.rotate
                == RotateHint::WriterDecides
            &&& pool.fill matches Some(fill) ==> record.len() <= u32::MAX ==> {
                &&& p.rotate == RotateHint::Before || p.rotate == RotateHint::Keep
                &&& p.rotate == RotateHint::Before <==> fill.has_written && fill.used + len
                    > fill.max
                &&& after.fill matches Some(next) && next.epoch == p.epoch && next.has_written
                    && next.max == fill.max && next.header_len == fill.header_len && next.used
                    == len + if p.rotate == RotateHint::Before {
                    fill.header_len
                } else {
                    fill.used
                }
                &&& p.epoch == fill.epoch + if p.rotate == RotateHint::Before {
                    1int
                } else {
                    0int
                }
            }
        }),
{
    lemma_a_record_costs_its_entry(record);
}

/// What a file has of a page only grows, in whatever order it is told; nothing else changes. A
/// page that a file has all of is not pending.
pub proof fn lemma_what_a_commit_does(pool: PoolView, k: int, a: nat, b: nat, j: int, epoch: u64)
    requires
        pool.inv(),
        0 <= k < pool.ring.pages.len(),
        0 <= j < pool.ring.pages.len(),
    ensures
        ({
            let after = pool.committed(k, a);
            &&& after.inv()
            &&& after.written[k] >= a && after.written[k] >= pool.written[k]
            &&& after.written[k] == a || after.written[k] == pool.written[k]
            &&& j != k ==> after.written[j] == pool.written[j]
            &&& after.ring == pool.ring && after.fill == pool.fill && after.epochs == pool.epochs
                && after.drainer == pool.drainer
            &&& after.committed(k, b) == pool.committed(k, b).committed(k, a)
            &&& !pool.committed(k, pool.ring.pages[k].used()).pending(k, epoch)
        }),
{
    assert(pool.committed(k, a).committed(k, b).written =~= pool.committed(k, b).committed(
        k,
        a,
    ).written);
}

/// What is on disk only grows, in whatever order it is told; no record changes, and no page.
pub proof fn lemma_what_is_durable_stays_durable(pool: PoolView, a: nat, b: nat)
    ensures
        ({
            let after = pool.durable(a);
            &&& after.ring.essential >= a && after.ring.essential >= pool.ring.essential
            &&& after.ring.essential == a || after.ring.essential == pool.ring.essential
            &&& after.ring.pages == pool.ring.pages
            &&& after.ring.next_id == pool.ring.next_id
            &&& after.ring.active == pool.ring.active
            &&& after.written == pool.written && after.fill == pool.fill && after.epochs
                == pool.epochs && after.drainer == pool.drainer
            &&& after.durable(b) == pool.durable(b).durable(a)
        }),
{
}

/// A pool that is armed begins with a file that has its header and nothing else; what is in the
/// pool by then is for no file.
pub proof fn lemma_an_armed_pool_begins_a_file(
    pool: PoolView,
    max: u64,
    header_len: u64,
    k: int,
    epoch: u64,
)
    requires
        pool.inv(),
    ensures
        ({
            let after = pool.armed(max, header_len);
            &&& after.inv()
            &&& after.fill matches Some(fill) && fill.used == header_len && fill.header_len
                == header_len && fill.max == max && !fill.has_written && fill.epoch == 0
            &&& !after.pending(k, epoch)
            &&& after.coherent()
            &&& after.ring == pool.ring
            &&& 0 <= k < pool.epochs.len() ==> after.epochs[k] == 0
        }),
{
}

/// Nobody who has no armed pool decides: the writer does.
pub proof fn lemma_without_a_pool_the_writer_decides(pool: PoolView, entry_len: u64, opened: bool)
    requires
        pool.fill is None,
    ensures
        undecided().rotate == RotateHint::WriterDecides,
        !undecided().in_pool,
        pool.placement_paged(entry_len, opened).rotate == RotateHint::WriterDecides,
        pool.placement_paged(entry_len, opened).in_pool,
        pool.charged_paged(entry_len, opened).fill is None,
        pool.charged_paged(entry_len, opened).epochs == pool.epochs.update(pool.ring.active, 0),
        pool.charged_paged(entry_len, opened).ring == pool.ring,
        pool.charged_paged(entry_len, opened).written == pool.written,
{
}

/// As many pages count as held as have a pin.
pub proof fn lemma_pinned_pages_are_counted(pages: Seq<wal_page::PageView>)
    ensures
        pinned_pages(pages) == pages.filter(|page: wal_page::PageView| page.pins > 0).len(),
    decreases pages.len(),
{
    reveal(Seq::filter);
    if pages.len() > 0 {
        lemma_pinned_pages_are_counted(pages.drop_last());
    }
}

/// A record costs what its entry takes in a file.
pub proof fn lemma_a_record_costs_its_entry(record: Seq<u8>)
    ensures
        record.len() <= u32::MAX ==> entry_cost(record.len()) == wal_entry_v1::frame(record).len(),
        record.len() > u32::MAX ==> entry_cost(record.len()) == u64::MAX,
{
    if record.len() <= u32::MAX {
        wal_entry_v1::lemma_frame_len(record);
        varint::lemma_encode_len_32(record.len());
    }
}

/// What is taken for a file is every byte that no file has yet, of every page for that file or
/// an earlier one, as it stands on the page; and nothing of any other page.
pub proof fn lemma_nothing_pending_is_left_out(
    pool: PoolView,
    epoch: u64,
    out: Seq<(PendingWrite, Vec<u8>)>,
    k: int,
)
    requires
        pool.inv(),
        pool.lists_pending(pool.ring.pages.len() as int, epoch, out),
        0 <= k < pool.ring.pages.len(),
    ensures
        (pool.written[k] < wal_page::frames(pool.ring.pages[k].records).len() && pool.epochs[k]
            <= epoch) <==> exists|i: int|
            0 <= i < out.len() && (#[trigger] out[i]).0.page_index == k,
        forall|i: int|
            0 <= i < out.len() && (#[trigger] out[i]).0.page_index == k ==> {
                let all = wal_page::frames(pool.ring.pages[k].records);
                &&& out[i].1@ == all.skip(pool.written[k] as int)
                &&& out[i].0.from == pool.written[k]
                &&& out[i].0.to == all.len()
                &&& out[i].0.last_entry_id + 1 == pool.ring.pages[k].first
                    + pool.ring.pages[k].records.len()
            },
{
    let page = pool.ring.pages[k];
    let all = wal_page::frames(page.records);
    if pool.written[k] < all.len() && pool.epochs[k] <= epoch {
        assert(pool.pending(k, epoch));
    }
    assert forall|i: int| 0 <= i < out.len() && (#[trigger] out[i]).0.page_index == k implies {
        &&& out[i].1@ == all.skip(pool.written[k] as int)
        &&& out[i].0.from == pool.written[k]
        &&& out[i].0.to == all.len()
        &&& out[i].0.last_entry_id + 1 == page.first + page.records.len()
        &&& pool.written[k] < all.len()
        &&& pool.epochs[k] <= epoch
    } by {
        assert(pool.is_run(k, out[i]));
        assert(pool.pending(k, epoch));
        assert(all.subrange(pool.written[k] as int, all.len() as int) =~= all.skip(
            pool.written[k] as int,
        ));
        if page.records.len() == 0 {
            assert(all.len() == 0);
        }
    }
}

/// A pool may be emptied once it holds nothing, and once everything up to its next id is on
/// disk.
pub proof fn lemma_an_empty_or_durable_pool_has_nothing_to_lose(pool: PoolView)
    requires
        pool.inv(),
        (forall|id: nat| !#[trigger] pool.ring.holds(id)) || pool.ring.essential
            >= pool.ring.next_id,
    ensures
        pool.nothing_to_lose(),
{
    if pool.ring.essential < pool.ring.next_id {
        assert forall|k: int| 0 <= k < pool.ring.pages.len() implies (
        #[trigger] pool.ring.pages[k]).records.len() == 0 by {
            let first = pool.ring.pages[k].first;
            assert(!pool.ring.holds(first));
            assert(!pool.ring.holds_at(k, first));
        }
    }
}

/// A pool that follows another id begins there with nothing; one that is there already stays
/// as it is.
pub proof fn lemma_following_an_id(pool: PoolView, id: nat)
    requires
        pool.inv(),
    ensures
        pool.synced(id).ring.next_id == id,
        pool.ring.next_id == id ==> pool.synced(id) == pool,
        pool.ring.next_id != id ==> forall|other: nat|
            !#[trigger] pool.synced(id).ring.holds(other),
        pool.synced(id).fill == pool.fill,
        pool.synced(id).ring.pages.len() == pool.ring.pages.len(),
        pool.synced(id).ring.page_size == pool.ring.page_size,
{
    if pool.ring.next_id != id {
        let ring = pool.synced(id).ring;
        assert forall|other: nat| !#[trigger] ring.holds(other) by {
            assert forall|k: int| !#[trigger] ring.holds_at(k, other) by {
                if 0 <= k < ring.pages.len() {
                    assert(ring.pages[k].records.len() == 0);
                }
            }
        }
    }
}

/// A run that is handed out holds whole entries: those of the records behind the ones that
/// are in a file.
pub proof fn lemma_a_run_is_whole_entries(pool: PoolView, k: int, item: (PendingWrite, Vec<u8>), n: int)
    requires
        pool.inv(),
        0 <= k < pool.ring.pages.len(),
        pool.is_run(k, item),
        0 <= n <= pool.ring.pages[k].records.len(),
        pool.written[k] == first_bytes(pool.ring.pages[k].records, n),
    ensures
        item.1@ == wal_page::frames(pool.ring.pages[k].records.skip(n)),
{
    let records = pool.ring.pages[k].records;
    wal_page::lemma_frames_concat(records.take(n), records.skip(n));
    assert(records =~= records.take(n) + records.skip(n));
    assert(item.1@ =~= wal_page::frames(records.skip(n)));
}

proof fn lemma_ends_an_entry_pushed(records: Seq<Seq<u8>>, up_to: nat, record: Seq<u8>)
    requires
        ends_an_entry(records, up_to),
    ensures
        ends_an_entry(records.push(record), up_to),
{
    let n = choose|n: int| 0 <= n <= records.len() && #[trigger] first_bytes(records, n) == up_to;
    assert(records.push(record).take(n) =~= records.take(n));
    assert(first_bytes(records.push(record), n) == up_to);
}

/// What is in a file of each page stays whole entries, whatever is appended.
pub proof fn lemma_appending_keeps_entries_whole(
    before: PoolView,
    record: Seq<u8>,
    outcome: AppendOutcome,
    after: PoolView,
)
    requires
        before.inv(),
        before.between_entries(),
        before.appends(record, outcome, after),
    ensures
        after.between_entries(),
{
    if let AppendOutcome::Cached(id) = outcome {
        wal_ring_v1::lemma_append_keeps_inv(before.ring, record, outcome, after.ring);
        let active = after.ring.active;
        assert forall|k: int| 0 <= k < after.ring.pages.len() implies ends_an_entry(
            (#[trigger] after.ring.pages[k]).records,
            after.written[k],
        ) by {
            if k != active {
                assert(after.ring.pages[k].records == before.ring.pages[k].records);
            } else if before.opens_page(after) {
                let records = after.ring.pages[k].records;
                assert(records.take(0) =~= Seq::empty());
                assert(first_bytes(records, 0) == 0);
            } else {
                let records = before.ring.pages[k].records;
                assert(after.ring.pages[k].records == records.push(record));
                lemma_ends_an_entry_pushed(records, before.written[k], record);
            }
        }
    }
}

/// What is in a file of each page stays whole entries when a run is written, when a writer
/// starts, and when the pool is emptied.
pub proof fn lemma_writing_keeps_entries_whole(pool: PoolView, k: int, first: nat)
    requires
        pool.inv(),
        pool.between_entries(),
        0 <= k < pool.ring.pages.len(),
    ensures
        (PoolView {
            written: pool.written.update(k, pool.ring.pages[k].used()),
            ..pool
        }).between_entries(),
        (PoolView {
            written: Seq::new(pool.written.len(), |j: int| pool.ring.pages[j].used()),
            ..pool
        }).between_entries(),
        pool.reseeded(first).between_entries(),
{
    assert forall|j: int| 0 <= j < pool.ring.pages.len() implies ends_an_entry(
        (#[trigger] pool.ring.pages[j]).records,
        pool.ring.pages[j].used(),
    ) by {
        let records = pool.ring.pages[j].records;
        assert(records.take(records.len() as int) =~= records);
        assert(first_bytes(records, records.len() as int) == pool.ring.pages[j].used());
    }
    let empty = pool.reseeded(first);
    assert forall|j: int| 0 <= j < empty.ring.pages.len() implies ends_an_entry(
        (#[trigger] empty.ring.pages[j]).records,
        0,
    ) by {
        let records = empty.ring.pages[j].records;
        assert(records.take(0) =~= Seq::empty());
        assert(first_bytes(records, 0) == 0);
    }
}

/// A run that was written is not handed out again.
pub proof fn lemma_a_committed_run_is_not_pending(pool: PoolView, k: int, epoch: u64, later: u64)
    requires
        pool.inv(),
        pool.pending(k, epoch),
    ensures
        !(PoolView {
            written: pool.written.update(k, pool.ring.pages[k].used()),
            ..pool
        }).pending(k, later),
{
}

/// What is pending for a file stays pending for every later file.
pub proof fn lemma_pending_reaches_a_later_file(pool: PoolView, k: int, epoch: u64, later: u64)
    requires
        pool.pending(k, epoch),
        epoch <= later,
    ensures
        pool.pending(k, later),
{
}

/// Which page holds a full pool up.
#[derive(Debug, Clone, Copy, PartialEq, Eq, Structural)]
pub struct StalledPage {
    pub page_index: usize,
    pub last_entry_id: u64,
    pub pins: u32,
}

/// What keeps a pool from having room.
#[derive(Debug, Clone, Copy, PartialEq, Eq, Structural)]
pub struct Stall {
    /// How many pages readers hold.
    pub pinned: usize,
    pub page_count: usize,
    pub durable_before: u64,
    /// The page whose entries are the oldest.
    pub oldest: Option<StalledPage>,
}

/// How many of `pages` readers hold.
pub open spec fn pinned_pages(pages: Seq<wal_page::PageView>) -> nat
    decreases pages.len(),
{
    if pages.len() == 0 {
        0
    } else {
        pinned_pages(pages.drop_last()) + if pages.last().pins > 0 {
            1nat
        } else {
            0nat
        }
    }
}

/// A fixed pool of pages that writers wait on.
pub struct PagePool {
    ring: WalRing,
    /// Per page, how many of its bytes are in a file. A page is appended to while it is being
    /// written out, so this is a cursor.
    written: Vec<usize>,
    fill: Option<FileFill>,
    page_epoch: Vec<u64>,
    drainer: bool,
}

impl View for PagePool {
    type V = PoolView;

    closed spec fn view(&self) -> PoolView {
        PoolView {
            ring: self.ring@,
            written: Seq::new(self.written@.len(), |k: int| self.written@[k] as nat),
            fill: self.fill,
            epochs: self.page_epoch@,
            drainer: self.drainer,
        }
    }
}

/// A list of `n` zeros.
fn zeros(n: usize) -> (v: Vec<usize>)
    ensures
        v@ == Seq::new(n as nat, |k: int| 0usize),
{
    let mut v: Vec<usize> = Vec::new();
    v.resize(n, 0);
    assert(v@ =~= Seq::new(n as nat, |k: int| 0usize));
    v
}

/// Puts a run into a list that is ordered by id, from behind.
fn insert_run(out: &mut Vec<(PendingWrite, Vec<u8>)>, run: (PendingWrite, Vec<u8>)) -> (at: usize)
    requires
        forall|i: int, j: int|
            0 <= i < j < old(out)@.len() ==> (#[trigger] old(out)@[i]).0.last_entry_id < (
            #[trigger] old(out)@[j]).0.last_entry_id,
        forall|i: int|
            0 <= i < old(out)@.len() ==> (#[trigger] old(out)@[i]).0.last_entry_id
                != run.0.last_entry_id,
    ensures
        at <= old(out)@.len(),
        final(out)@ == old(out)@.insert(at as int, run),
        forall|i: int, j: int|
            0 <= i < j < final(out)@.len() ==> (#[trigger] final(out)@[i]).0.last_entry_id < (
            #[trigger] final(out)@[j]).0.last_entry_id,
{
    let ghost before = out@;
    let mut at: usize = out.len();
    while at > 0 && out[at - 1].0.last_entry_id > run.0.last_entry_id
        invariant
            at <= out@.len(),
            out@ == before,
            forall|i: int|
                at <= i < out@.len() ==> (#[trigger] out@[i]).0.last_entry_id > run.0.last_entry_id,
        decreases at,
    {
        at = at - 1;
    }
    out.insert(at, run);
    at
}

impl PagePool {
    pub closed spec fn inv(&self) -> bool {
        self.ring.inv() && self@.inv()
    }

    pub proof fn lemma_inv(&self)
        requires
            self.inv(),
        ensures
            self@.inv(),
            self@.ring.next_id <= u64::MAX,
            self@.ring.essential <= u64::MAX,
    {
        self.ring.lemma_inv();
    }

    /// The ring of the pool.
    pub closed spec fn ring_spec(&self) -> WalRing {
        self.ring
    }

    /// The ring of a valid pool is valid, and is the one that the pool's view shows.
    pub proof fn lemma_ring(&self)
        requires
            self.inv(),
        ensures
            self.ring_spec().inv(),
            self.ring_spec()@ == self@.ring,
    {
    }

    /// A pool of `page_count` pages of `page_size` bytes.
    pub fn new(page_count: usize, page_size: usize, first_entry_id: u64) -> (pool: PagePool)
        requires
            page_count >= 1,
            wal_page::MIN_PAGE_SIZE <= page_size <= u32::MAX,
        ensures
            pool.inv(),
            pool@ == (PoolView {
                ring: wal_ring_v1::empty_ring(
                    page_count as nat,
                    page_size as nat,
                    first_entry_id as nat,
                ),
                written: Seq::new(page_count as nat, |k: int| 0nat),
                fill: None,
                epochs: Seq::new(page_count as nat, |k: int| 0u64),
                drainer: false,
            }),
    {
        let mut page_epoch: Vec<u64> = Vec::new();
        page_epoch.resize(page_count, 0);
        let pool = PagePool {
            ring: WalRing::new(page_count, page_size, first_entry_id),
            written: zeros(page_count),
            fill: None,
            page_epoch,
            drainer: false,
        };
        assert(pool@.written =~= Seq::new(page_count as nat, |k: int| 0nat));
        assert(pool@.epochs =~= Seq::new(page_count as nat, |k: int| 0u64));
        pool
    }

    /// Whether a file writer takes pages from this pool, and therefore whether waiting for a
    /// page can ever end.
    pub fn has_drainer(&self) -> (b: bool)
        ensures
            b == self@.drainer,
    {
        self.drainer
    }

    /// A file writer drains this pool from now on.
    pub fn set_drainer(&mut self)
        requires
            old(self).inv(),
        ensures
            final(self).inv(),
            final(self)@ == (PoolView { drainer: true, ..old(self)@ }),
    {
        self.drainer = true;
        assert(self@.written =~= old(self)@.written);
    }

    /// Takes over from the writer the decision when to rotate, for files of `max_file_size`
    /// whose header takes at most `header_len`.
    ///
    /// What the pages hold already is not for the new writer: its file has no entries for it.
    pub fn arm_file_fill(&mut self, max_file_size: u64, header_len: u64)
        requires
            old(self).inv(),
        ensures
            final(self).inv(),
            final(self)@ == old(self)@.armed(max_file_size, header_len),
    {
        let ghost before = self@;
        self.fill = Some(
            FileFill {
                used: header_len,
                max: max_file_size,
                header_len,
                has_written: false,
                epoch: 0,
            },
        );
        let n: usize = self.ring.page_count();
        let mut k: usize = 0;
        while k < n
            invariant
                k <= n == before.ring.pages.len() == self.written@.len() == self.page_epoch@.len(),
                before.inv(),
                self.ring == old(self).ring,
                self.ring.inv(),
                self.ring@ == before.ring,
                self.fill == Some(
                    FileFill {
                        used: header_len,
                        max: max_file_size,
                        header_len,
                        has_written: false,
                        epoch: 0,
                    },
                ),
                self.drainer == before.drainer,
                forall|j: int|
                    0 <= j < k ==> (#[trigger] self.written@[j]) as nat
                        == before.ring.pages[j].used(),
                forall|j: int| 0 <= j < k ==> (#[trigger] self.page_epoch@[j]) == 0,
            decreases n - k,
        {
            let used: usize = self.ring.page_bytes(k).len();
            self.written.set(k, used);
            self.page_epoch.set(k, 0);
            k = k + 1;
        }
        assert(self@.written =~= Seq::new(
            before.written.len(),
            |k: int| before.ring.pages[k].used(),
        ));
        assert(self@.epochs =~= Seq::new(before.epochs.len(), |k: int| 0u64));
    }

    /// Bytes charged to the open file so far, its header included.
    pub fn fill_used(&self) -> (r: Option<u64>)
        ensures
            r == match self@.fill {
                Some(fill) => Some(fill.used),
                None => None,
            },
    {
        match self.fill {
            Some(fill) => Some(fill.used),
            None => None,
        }
    }

    /// The file that the next record is charged to, counted from zero.
    pub fn epoch(&self) -> (n: u64)
        ensures
            n == match self@.fill {
                Some(fill) => fill.epoch,
                None => 0,
            },
    {
        match self.fill {
            Some(fill) => fill.epoch,
            None => 0,
        }
    }

    /// Appends without waiting. `Full` means that every page is held by a reader or still
    /// has records that are not on disk.
    pub fn try_append(&mut self, record: &[u8]) -> (outcome: AppendOutcome)
        requires
            old(self).inv(),
            old(self)@.ring.next_id < u64::MAX,
            old(self)@.ring.next_page_id < u64::MAX,
        ensures
            final(self).inv(),
            old(self)@.appends(record@, outcome, final(self)@),
    {
        let ghost before = self@;
        let page_id: u64 = self.ring.next_page_id();
        let outcome: AppendOutcome = self.ring.append(record);
        proof {
            wal_ring_v1::lemma_append_keeps_inv(before.ring, record@, outcome, self.ring@);
        }
        if self.ring.next_page_id() != page_id {
            let active: usize = self.ring.active_page();
            proof {
                self.ring.lemma_inv();
            }
            self.written.set(active, 0);
            assert(self@.written =~= before.written.update(active as int, 0));
        } else {
            assert(self@.written =~= before.written);
        }
        outcome
    }

    /// Charges a record that is on the active page, and stamps that page with its file.
    ///
    /// A file ends where a page ends: the record that crosses the maximum stays where it is,
    /// and the file runs on to the end of that page.
    fn charge_paged(&mut self, entry_len: u64, opened_page: bool) -> (p: Placement)
        requires
            old(self).inv(),
            old(self)@.fill matches Some(fill) ==> fill.epoch < u64::MAX,
        ensures
            final(self).inv(),
            final(self)@ == old(self)@.charged_paged(entry_len, opened_page),
            p == old(self)@.placement_paged(entry_len, opened_page),
    {
        let ghost before = self@;
        proof {
            self.ring.lemma_inv();
        }
        let active: usize = self.ring.active_page();
        let p: Placement = match self.fill {
            None => Placement { in_pool: true, rotate: RotateHint::WriterDecides, epoch: 0 },
            Some(fill) => {
                let ends: bool = opened_page && fill.has_written && fill.used >= fill.max;
                let charged: FileFill = fill.charge(entry_len, ends);
                self.fill = Some(charged);
                let rotate: RotateHint = if ends {
                    RotateHint::Before
                } else {
                    RotateHint::Keep
                };
                Placement { in_pool: true, rotate, epoch: charged.epoch }
            },
        };
        self.page_epoch.set(active, p.epoch);
        assert(self@.written =~= before.written);
        assert(self@.epochs =~= before.charged_paged(entry_len, opened_page).epochs);
        p
    }

    /// Appends the record that must land on `expected_id`. `None` means that no page can be
    /// reused yet: the caller waits until one can, and calls again.
    ///
    /// The caller owns the id sequence and the pool follows it. They can only disagree after
    /// a record that the pool refused, and catching up empties the pool.
    pub fn place(&mut self, expected_id: u64, record: &[u8]) -> (r: Option<
        Result<Placement, PoolError>,
    >)
        requires
            old(self).inv(),
            expected_id < u64::MAX,
            old(self)@.ring.next_page_id < u64::MAX,
            old(self)@.ring.pages.len() < u64::MAX,
            old(self)@.fill matches Some(fill) ==> fill.epoch < u64::MAX,
        ensures
            final(self).inv(),
            ({
                let synced = old(self)@.synced(expected_id as nat);
                match r {
                    Some(Ok(p)) => exists|after: PoolView| #[trigger]
                        synced.appends(record@, AppendOutcome::Cached(expected_id), after)
                            && final(self)@ == after.charged_paged(
                            entry_cost(record@.len()),
                            synced.opens_page(after),
                        ) && p == after.placement_paged(
                            entry_cost(record@.len()),
                            synced.opens_page(after),
                        ),
                    Some(Err(PoolError::TooLarge)) => synced.ring.too_large(record@)
                        && final(self)@ == synced,
                    None => old(self)@.ring.next_id == expected_id && old(self)@.appends(
                        record@,
                        AppendOutcome::Full,
                        old(self)@,
                    ) && final(self)@ == old(self)@,
                }
            }),
    {
        let ghost before = self@;
        let entry_len: u64 = encoded_len_of(record.len());
        if self.ring.next_entry_id() != expected_id {
            self.reseed(expected_id);
        }
        let ghost synced = self@;
        let page_id: u64 = self.ring.next_page_id();
        match self.try_append(record) {
            AppendOutcome::Cached(_) => {
                let ghost after = self@;
                assert(synced.appends(record@, AppendOutcome::Cached(expected_id), after));
                let opened_page: bool = self.ring.next_page_id() != page_id;
                let p: Placement = self.charge_paged(entry_len, opened_page);
                Some(Ok(p))
            },
            AppendOutcome::TooLarge => {
                assert(self@ =~= synced);
                Some(Err(PoolError::TooLarge))
            },
            AppendOutcome::Full => {
                assert(self@ =~= synced);
                proof {
                    if before.ring.next_id != expected_id {
                        assert(wal_page::frames(Seq::empty()).len() == 0);
                        assert(synced.ring.fits(record@));
                    }
                }
                None
            },
        }
    }

    /// Charges a record that the pool refused, which the writer buffers instead.
    ///
    /// Such a record has no page at whose end the file could end, so the file ends before it
    /// when it does not fit. A record too wide for an entry is charged nothing: the writer
    /// will refuse it.
    pub fn charge_buffered(&mut self, record_len: usize) -> (p: Placement)
        requires
            old(self).inv(),
            old(self)@.fill matches Some(fill) ==> fill.epoch < u64::MAX,
        ensures
            final(self).inv(),
            (p, final(self)@) == old(self)@.buffered(record_len as nat),
    {
        let ghost before = self@;
        let fill: FileFill = match self.fill {
            Some(fill) => fill,
            None => {
                return Placement::legacy();
            },
        };
        if record_len > u32::MAX as usize {
            return Placement::legacy();
        }
        let entry_len: u64 = encoded_len_of(record_len);
        let ends: bool = fill.has_written && fill.used.saturating_add(entry_len) > fill.max;
        let charged: FileFill = fill.charge(entry_len, ends);
        self.fill = Some(charged);
        assert(self@.written =~= before.written);
        let rotate: RotateHint = if ends {
            RotateHint::Before
        } else {
            RotateHint::Keep
        };
        Placement { in_pool: false, rotate, epoch: charged.epoch }
    }

    /// Steps the id sequence over a record that the pool could not hold, unless that would
    /// lose something. `false` means that it would: the caller waits, and calls again.
    pub fn skip_to(&mut self, next_id: u64) -> (done: bool)
        requires
            old(self).inv(),
        ensures
            final(self).inv(),
            done == old(self)@.nothing_to_lose(),
            final(self)@ == if done {
                old(self)@.reseeded(next_id as nat)
            } else {
                old(self)@
            },
    {
        if self.ring.is_empty() || self.ring.min_essential_id() >= self.ring.next_entry_id() {
            self.reseed(next_id);
            true
        } else {
            false
        }
    }

    /// What keeps the pool from having room.
    pub fn stall(&self) -> (s: Stall)
        requires
            self.inv(),
        ensures
            s.pinned == pinned_pages(self@.ring.pages),
            s.page_count == self@.ring.pages.len(),
            s.durable_before == self@.ring.essential,
            match s.oldest {
                Some(o) => {
                    let page = self@.ring.pages[o.page_index as int];
                    &&& o.page_index < self@.ring.pages.len()
                    &&& page.records.len() > 0
                    &&& o.last_entry_id == page.end() - 1
                    &&& o.pins == page.pins
                    &&& forall|k: int|
                        0 <= k < self@.ring.pages.len() && (
                        #[trigger] self@.ring.pages[k]).records.len() > 0 ==> page.end()
                            <= self@.ring.pages[k].end()
                },
                None => self@.ring.is_empty(),
            },
    {
        let ghost pages = self@.ring.pages;
        let n: usize = self.ring.page_count();
        let mut pinned: usize = 0;
        let mut oldest: Option<StalledPage> = None;
        let mut k: usize = 0;
        assert(pages.take(0) =~= Seq::empty());
        while k < n
            invariant
                self.inv(),
                pages == self@.ring.pages,
                k <= n == pages.len(),
                pinned <= k,
                pinned == pinned_pages(pages.take(k as int)),
                oldest is None ==> forall|j: int|
                    0 <= j < k ==> (#[trigger] pages[j]).records.len() == 0,
                oldest is Some ==> {
                    let page = pages[oldest->0.page_index as int];
                    &&& oldest->0.page_index < k
                    &&& page.records.len() > 0
                    &&& oldest->0.last_entry_id == page.end() - 1
                    &&& oldest->0.pins == page.pins
                    &&& forall|j: int|
                        0 <= j < k && (#[trigger] pages[j]).records.len() > 0 ==> page.end()
                            <= pages[j].end()
                },
            decreases n - k,
        {
            assert(pages.take(k + 1).drop_last() =~= pages.take(k as int));
            let pins: u32 = self.ring.page_pin_count(k);
            if pins > 0 {
                pinned = pinned + 1;
            }
            if let Some(last) = self.ring.page_last_entry_id(k) {
                let older: bool = match oldest {
                    Some(o) => last < o.last_entry_id,
                    None => true,
                };
                if older {
                    oldest = Some(StalledPage { page_index: k, last_entry_id: last, pins });
                }
            }
            k = k + 1;
        }
        assert(pages.take(k as int) =~= pages);
        Stall { pinned, page_count: n, durable_before: self.ring.min_essential_id(), oldest }
    }

    /// The runs that were appended and are not yet in a file, oldest first: those of the
    /// file `epoch`, and those that an earlier file left over. Never those of a later file.
    ///
    /// This does not mark the runs as written: a run comes back until
    /// [`PagePool::commit_written`] is told that it is on disk.
    pub fn take_pending(&self, epoch: u64) -> (out: Vec<(PendingWrite, Vec<u8>)>)
        requires
            self.inv(),
        ensures
            self@.lists_pending(self@.ring.pages.len() as int, epoch, out@),
    {
        let ghost pool = self@;
        let n: usize = self.ring.page_count();
        let mut out: Vec<(PendingWrite, Vec<u8>)> = Vec::new();
        let mut k: usize = 0;
        while k < n
            invariant
                self.inv(),
                pool == self@,
                pool.inv(),
                k <= n == pool.ring.pages.len(),
                pool.lists_pending(k as int, epoch, out@),
            decreases n - k,
        {
            let ghost was = out@;
            let bytes: &[u8] = self.ring.page_bytes(k);
            let to: usize = bytes.len();
            let from: usize = self.written[k];
            assert(pool.written[k as int] == from);
            if from < to && self.page_epoch[k] <= epoch {
                assert(pool.pending(k as int, epoch));
                if let Some(last_entry_id) = self.ring.page_last_entry_id(k) {
                    let run: Vec<u8> = slice_to_vec(slice_subrange(bytes, from, to));
                    let item: (PendingWrite, Vec<u8>) = (
                        PendingWrite { page_index: k, from, to, last_entry_id },
                        run,
                    );
                    proof {
                        assert forall|i: int| 0 <= i < out@.len() implies (
                        #[trigger] out@[i]).0.last_entry_id != last_entry_id by {
                            let j = out@[i].0.page_index as int;
                            assert(pool.is_run(j, out@[i]));
                            assert(pool.ring.pages[j].records.len() > 0) by {
                                if pool.ring.pages[j].records.len() == 0 {
                                    assert(wal_page::frames(pool.ring.pages[j].records).len() == 0);
                                }
                            }
                            assert(pool.ring.pages[k as int].records.len() > 0);
                        }
                    }
                    let at: usize = insert_run(&mut out, item);
                    proof {
                        assert(pool.is_run(k as int, item));
                        assert forall|i: int| 0 <= i < out@.len() implies {
                            let j = (#[trigger] out@[i]).0.page_index as int;
                            j < k + 1 && pool.pending(j, epoch) && pool.is_run(j, out@[i])
                        } by {
                            if i < at {
                                assert(out@[i] == was[i]);
                            } else if i > at {
                                assert(out@[i] == was[i - 1]);
                            }
                        }
                        assert forall|j: int| j < k + 1 && #[trigger] pool.pending(j, epoch) implies exists|
                            i: int,
                        |
                            0 <= i < out@.len() && (#[trigger] out@[i]).0.page_index == j by {
                            if j == k {
                                assert(out@[at as int].0.page_index == j);
                            } else {
                                let i = choose|i: int|
                                    0 <= i < was.len() && (#[trigger] was[i]).0.page_index == j;
                                if i < at {
                                    assert(out@[i].0.page_index == j);
                                } else {
                                    assert(out@[i + 1].0.page_index == j);
                                }
                            }
                        }
                    }
                } else {
                    assert(wal_page::frames(pool.ring.pages[k as int].records).len() == 0);
                }
            } else {
                assert(!pool.pending(k as int, epoch));
            }
            k = k + 1;
        }
        out
    }

    /// The bytes of page `page_index` below `up_to` are on disk. Only moves forward.
    pub fn commit_written(&mut self, page_index: usize, up_to: usize)
        requires
            old(self).inv(),
            page_index < old(self)@.ring.pages.len(),
        ensures
            final(self).inv(),
            final(self)@ == old(self)@.committed(page_index as int, up_to as nat),
    {
        let ghost before = self@;
        if up_to > self.written[page_index] {
            self.written.set(page_index, up_to);
        }
        assert(self@.written =~= before.written.update(
            page_index as int,
            if up_to > before.written[page_index as int] {
                up_to as nat
            } else {
                before.written[page_index as int]
            },
        ));
    }

    /// Every entry below `first_non_durable_id` is on disk. Says whether that is news, so
    /// that whoever waits for a page is woken. The watermark only moves forward.
    ///
    /// Only to be called once a sync that covers those entries has returned.
    pub fn mark_durable(&mut self, first_non_durable_id: u64) -> (moved: bool)
        requires
            old(self).inv(),
        ensures
            final(self).inv(),
            moved == (first_non_durable_id > old(self)@.ring.essential),
            final(self)@ == old(self)@.durable(first_non_durable_id as nat),
    {
        let ghost before = self@;
        if first_non_durable_id <= self.ring.min_essential_id() {
            return false;
        }
        self.ring.set_essential(first_non_durable_id);
        assert(self@.written =~= before.written);
        true
    }

    /// The id that the next appended record gets.
    pub fn next_entry_id(&self) -> (id: u64)
        ensures
            id as nat == self@.ring.next_id,
    {
        self.ring.next_entry_id()
    }

    /// Everything below this id is on disk.
    pub fn durable_before(&self) -> (id: u64)
        ensures
            id as nat == self@.ring.essential,
    {
        self.ring.min_essential_id()
    }

    /// Runs `f` on the ring.
    pub fn with_ring<T, F: FnOnce(&WalRing) -> T>(&self, f: F) -> (t: T)
        requires
            call_requires(f, (&self.ring_spec(),)),
        ensures
            call_ensures(f, (&self.ring_spec(),), t),
    {
        f(&self.ring)
    }

    /// Whether the pool holds no records.
    pub fn is_empty(&self) -> (b: bool)
        requires
            self.inv(),
        ensures
            b == self@.ring.is_empty(),
    {
        self.ring.is_empty()
    }

    /// The lowest id that is held, or `None` when nothing is.
    pub fn min_cached_id(&self) -> (r: Option<u64>)
        requires
            self.inv(),
        ensures
            match r {
                Some(m) => self@.ring.holds(m as nat) && forall|id: nat| #[trigger]
                    self@.ring.holds(id) ==> m <= id,
                None => self@.ring.is_empty(),
            },
    {
        self.ring.min_cached_id()
    }

    /// Every held record with an id from `start` to `end`, in id order.
    pub fn collect_range(&self, start: u64, end: u64) -> (out: Vec<(u64, Vec<u8>)>)
        requires
            self.inv(),
        ensures
            self@.ring.lists(start as nat, end as nat, out@),
    {
        self.ring.collect_range(start, end)
    }

    /// Every held record with an id from `start` to `end`, in id order, with the page that it
    /// is on. Each of them holds its page until [`PagePool::unpin_page`] lets it go.
    pub fn pin_range(&mut self, start: u64, end: u64) -> (out: Vec<(u64, usize, Vec<u8>)>)
        requires
            old(self).inv(),
        ensures
            final(self).inv(),
            exists|found: Seq<(u64, Vec<u8>)>|
                #[trigger] old(self)@.ring.lists(start as nat, end as nat, found) && out@.len()
                    == found.len() && forall|i: int|
                    0 <= i < out@.len() ==> (#[trigger] out@[i]).0 == found[i].0 && out@[i].2
                        == found[i].1 && old(self)@.ring.holds_at(
                        out@[i].1 as int,
                        out@[i].0 as nat,
                    ),
            final(self)@ == (PoolView { ring: pinned_for(old(self)@.ring, out@), ..old(self)@ }),
    {
        let ghost before = self@;
        let mut rest: Vec<(u64, Vec<u8>)> = self.ring.collect_range(start, end);
        let ghost found = rest@;
        let mut out: Vec<(u64, usize, Vec<u8>)> = Vec::new();
        assert(pinned_for(before.ring, out@).pages =~= before.ring.pages) by {
            self.ring.lemma_inv();
        }
        proof {
            assert(rest@ =~= found.skip(0));
        }
        while rest.len() > 0
            invariant
                self.ring.inv(),
                before.inv(),
                before.ring.lists(start as nat, end as nat, found),
                out@.len() + rest@.len() == found.len(),
                rest@ == found.skip(out@.len() as int),
                self.ring@ == pinned_for(before.ring, out@),
                self@.written == before.written,
                self@.fill == before.fill,
                self@.epochs == before.epochs,
                self@.drainer == before.drainer,
                forall|i: int|
                    0 <= i < out@.len() ==> (#[trigger] out@[i]).0 == found[i].0 && out@[i].2
                        == found[i].1 && before.ring.holds_at(out@[i].1 as int, out@[i].0 as nat),
            decreases rest@.len(),
        {
            let ghost was = out@;
            let (id, record): (u64, Vec<u8>) = rest.remove(0);
            proof {
                let at = was.len() as int;
                assert(found[at] == (id, record));
                assert(before.ring.holds(found[at].0 as nat));
                let k = before.ring.page_of(id as nat);
                assert(before.ring.holds_at(k, id as nat));
                assert(self.ring@.holds_at(k, id as nat));
            }
            if let Some((k, _)) = self.ring.seek(id) {
                assert(before.ring.holds_at(k as int, id as nat));
                self.ring.pin(k);
                out.push((id, k, record));
                proof {
                    assert(out@.drop_last() =~= was);
                    assert(self.ring@.pages =~= pinned_for(before.ring, out@).pages) by {
                        assert forall|j: int| 0 <= j < before.ring.pages.len() implies payloads_on(
                            out@,
                            j,
                        ) == payloads_on(was, j) + if j == k {
                            1nat
                        } else {
                            0nat
                        } by {}
                    }
                    assert(rest@ =~= found.skip(out@.len() as int));
                }
            }
        }
        assert(self@ =~= (PoolView { ring: pinned_for(before.ring, out@), ..before }));
        out
    }

    /// Lets go of a page that one payload of [`PagePool::pin_range`] held.
    pub fn unpin_page(&mut self, page_index: usize)
        requires
            old(self).inv(),
            page_index < old(self)@.ring.pages.len(),
        ensures
            final(self).inv(),
            final(self)@ == (PoolView {
                ring: old(self)@.ring.with_pins(
                    page_index as int,
                    wal_ring_v1::one_pin_fewer(old(self)@.ring.pages[page_index as int].pins),
                ),
                ..old(self)@
            }),
    {
        let ghost before = self@;
        self.ring.unpin(page_index);
        assert(self@.written =~= before.written);
    }

    /// Restarts the pool empty, numbering from `first_entry_id`.
    ///
    /// This drops what the pages hold, so it only serves to fall into step with the id
    /// sequence, never to make room.
    pub fn reseed(&mut self, first_entry_id: u64)
        requires
            old(self).inv(),
        ensures
            final(self).inv(),
            final(self)@ == old(self)@.reseeded(first_entry_id as nat),
    {
        let ghost before = self@;
        self.ring.reinit(first_entry_id);
        let n: usize = self.written.len();
        self.written = zeros(n);
        proof {
            self.ring.lemma_inv();
            assert(self@.written =~= before.reseeded(first_entry_id as nat).written);
        }
    }
}

} // verus!
