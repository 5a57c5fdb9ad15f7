//! A ring of pages that holds the newest entries of the log in memory.

use vstd::prelude::*;

use crate::wal_arena::{ArenaView, SlotRange, SlotView, WalArena, POOL_FREE};
use crate::wal_entry_v1;
use crate::wal_page;
use crate::wal_page::{PageView, WalPage, MIN_PAGE_SIZE};

verus! {

/// What became of a record that was to be appended.
#[derive(Debug, Clone, Copy, PartialEq, Eq, Structural)]
pub enum AppendOutcome {
    /// The record was cached and given this entry id.
    Cached(u64),
    /// The record is larger than a page and is not cached; read it from file.
    TooLarge,
    /// Every page is pinned or still essential; the buffer is full.
    Full,
}

/// A ring as its users see it.
#[verifier::ext_equal]
pub struct RingView {
    pub pages: Seq<PageView>,
    /// Size of every page.
    pub page_size: nat,
    /// The page that is appended to.
    pub active: int,
    /// The id that the next record gets.
    pub next_id: nat,
    /// The number that the next rotation stamps on its page.
    pub next_page_id: nat,
    /// Entries below this id are on disk.
    pub essential: nat,
}

impl RingView {
    /// What holds of every ring: entry ids never overlap, and the active page ends at the
    /// next id.
    pub open spec fn inv(self) -> bool {
        &&& 0 <= self.active < self.pages.len()
        &&& MIN_PAGE_SIZE <= self.page_size <= u32::MAX
        &&& self.pages[self.active].end() == self.next_id
        &&& forall|k: int|
            0 <= k < self.pages.len() ==> (#[trigger] self.pages[k]).size == self.page_size
        &&& forall|k: int|
            0 <= k < self.pages.len() && (#[trigger] self.pages[k]).records.len() > 0
                ==> self.pages[k].end() <= self.next_id
        &&& forall|j: int, k: int|
            0 <= j < self.pages.len() && 0 <= k < self.pages.len() && j != k && (
            #[trigger] self.pages[j]).records.len() > 0 && (#[trigger] self.pages[k]).records.len()
                > 0 ==> self.pages[j].end() <= self.pages[k].first || self.pages[k].end()
                <= self.pages[j].first
    }

    /// Whether page `k` holds the entry `id`.
    pub open spec fn holds_at(self, k: int, id: nat) -> bool {
        0 <= k < self.pages.len() && self.pages[k].holds(id)
    }

    /// Whether the entry `id` is cached.
    pub open spec fn holds(self, id: nat) -> bool {
        exists|k: int| self.holds_at(k, id)
    }

    /// The page that holds the entry `id`.
    pub open spec fn page_of(self, id: nat) -> int {
        choose|k: int| self.holds_at(k, id)
    }

    /// The record of the entry `id`, where it is cached.
    pub open spec fn record_of(self, id: nat) -> Seq<u8> {
        self.pages[self.page_of(id)].record_of(id)
    }

    /// Whether no page could ever hold `record`.
    pub open spec fn too_large(self, record: Seq<u8>) -> bool {
        record.len() > u32::MAX || wal_entry_v1::frame(record).len() + 4 > self.page_size
    }

    /// Whether page `k` is empty and nobody holds it.
    pub open spec fn vacant(self, k: int) -> bool {
        0 <= k < self.pages.len() && self.pages[k].pins == 0 && self.pages[k].records.len() == 0
    }

    /// Whether page `k` has entries, all of them on disk, and nobody holds it.
    pub open spec fn spent(self, k: int) -> bool {
        &&& 0 <= k < self.pages.len()
        &&& self.pages[k].pins == 0
        &&& self.pages[k].records.len() > 0
        &&& self.pages[k].end() - 1 < self.essential
    }

    /// Whether rotation takes page `k`: the first vacant page, or else the oldest spent one.
    pub open spec fn victim(self, k: int) -> bool {
        ||| self.vacant(k) && forall|j: int| #[trigger] self.vacant(j) ==> k <= j
        ||| self.spent(k) && (forall|j: int| !#[trigger] self.vacant(j)) && (forall|j: int|
            #[trigger] self.spent(j) && j != k ==> self.pages[k].first < self.pages[j].first)
    }

    /// The ring with page `k` discarded and made active.
    pub open spec fn rotated(self, k: int) -> RingView {
        RingView {
            pages: self.pages.update(k, self.pages[k].reset(self.next_page_id, self.next_id)),
            active: k,
            next_page_id: self.next_page_id + 1,
            ..self
        }
    }

    /// The ring with `record` on its active page.
    pub open spec fn pushed(self, record: Seq<u8>) -> RingView {
        RingView {
            pages: self.pages.update(self.active, self.pages[self.active].pushed(record)),
            next_id: self.next_id + 1,
            ..self
        }
    }

    /// Whether `record` goes onto the active page without a rotation.
    pub open spec fn fits(self, record: Seq<u8>) -> bool {
        self.pages[self.active].fits(record)
    }

    /// What appending `record` does to the ring and what it answers.
    pub open spec fn appends(self, record: Seq<u8>, outcome: AppendOutcome, after: RingView) -> bool {
        match outcome {
            AppendOutcome::TooLarge => self.too_large(record) && after == self,
            AppendOutcome::Full => {
                &&& !self.too_large(record)
                &&& !self.fits(record)
                &&& forall|k: int| !#[trigger] self.vacant(k)
                &&& forall|k: int| !#[trigger] self.spent(k)
                &&& after == self
            },
            AppendOutcome::Cached(id) => {
                &&& !self.too_large(record)
                &&& id as nat == self.next_id
                &&& if self.fits(record) {
                    after == self.pushed(record)
                } else {
                    exists|k: int| #[trigger] self.victim(k) && after == self.rotated(k).pushed(record)
                }
            },
        }
    }

    /// Whether page `j` holds `id` and comes before place `index` of page `k`.
    pub open spec fn listed_at(self, j: int, k: int, index: nat, id: nat) -> bool {
        self.holds_at(j, id) && (j < k || j == k && id < self.pages[k].first + index)
    }

    /// Whether `out` lists what [`RingView::lists`] asks for, of the places before place
    /// `index` of page `k`.
    pub open spec fn lists_first(
        self,
        k: int,
        index: nat,
        start: nat,
        end: nat,
        out: Seq<(u64, Vec<u8>)>,
    ) -> bool {
        &&& forall|i: int, j: int|
            0 <= i < j < out.len() ==> (#[trigger] out[i]).0 < (#[trigger] out[j]).0
        &&& forall|i: int|
            0 <= i < out.len() ==> {
                &&& start <= (#[trigger] out[i]).0 <= end
                &&& out[i].1@ == self.record_of(out[i].0 as nat)
                &&& exists|j: int| #[trigger] self.listed_at(j, k, index, out[i].0 as nat)
            }
        &&& forall|j: int, id: nat|
            #[trigger] self.listed_at(j, k, index, id) && start <= id <= end ==> exists|i: int|
                0 <= i < out.len() && (#[trigger] out[i]).0 == id
    }

    /// The ring with `pins` readers on page `k`.
    pub open spec fn with_pins(self, k: int, pins: nat) -> RingView {
        RingView { pages: self.pages.update(k, PageView { pins, ..self.pages[k] }), ..self }
    }

    /// The ring with one more page on top, an empty one.
    pub open spec fn grown(self, slot: nat) -> RingView {
        RingView {
            pages: self.pages.push(wal_page::empty_page(self.page_size, slot, self.next_id)),
            ..self
        }
    }

    /// Whether the topmost page can be given back without leaving fewer than `floor`.
    pub open spec fn may_shrink(self, floor: nat) -> bool {
        let top = self.pages.len() - 1;
        self.pages.len() > floor && self.active != top && self.pages[top].reusable(self.essential)
    }

    /// The ring without its topmost page.
    pub open spec fn shrunk(self) -> RingView {
        RingView { pages: self.pages.drop_last(), ..self }
    }

    /// Whether nothing is cached.
    pub open spec fn is_empty(self) -> bool {
        forall|k: int| 0 <= k < self.pages.len() ==> (#[trigger] self.pages[k]).records.len() == 0
    }

    /// Whether `out` lists the cached entries with ids from `start` to `end`, in id order.
    pub open spec fn lists(self, start: nat, end: nat, out: Seq<(u64, Vec<u8>)>) -> bool {
        &&& forall|i: int, j: int| 0 <= i < j < out.len() ==> (#[trigger] out[i]).0 < (#[trigger] out[j]).0
        &&& forall|i: int|
            0 <= i < out.len() ==> {
                &&& start <= (#[trigger] out[i]).0 <= end
                &&& self.holds(out[i].0 as nat)
                &&& out[i].1@ == self.record_of(out[i].0 as nat)
            }
        &&& forall|id: nat|
            start <= id <= end && #[trigger] self.holds(id) ==> exists|i: int|
                0 <= i < out.len() && (#[trigger] out[i]).0 == id
    }

    /// Whether nobody holds any page.
    pub open spec fn unpinned(self) -> bool {
        forall|k: int| 0 <= k < self.pages.len() ==> (#[trigger] self.pages[k]).pins == 0
    }

    /// Whether the cached ids run without a gap from `low` up to the next id.
    pub open spec fn contiguous_from(self, low: nat) -> bool {
        low <= self.next_id && forall|id: nat| #[trigger] self.holds(id) <==> low <= id < self.next_id
    }
}

/// A ring of empty pages.
pub open spec fn empty_ring(page_count: nat, page_size: nat, first: nat) -> RingView {
    RingView {
        pages: Seq::new(page_count, |k: int| wal_page::empty_page(page_size, k as nat, first)),
        page_size,
        active: 0,
        next_id: first,
        next_page_id: page_count,
        essential: 0,
    }
}

/// At most one page holds an entry, so there is one answer to where it is.
pub proof fn lemma_one_page_holds(ring: RingView, k: int, id: nat)
    requires
        ring.inv(),
        ring.holds_at(k, id),
    ensures
        ring.holds(id),
        ring.page_of(id) == k,
        ring.record_of(id) == ring.pages[k].record_of(id),
        id < ring.next_id,
{
    let j = ring.page_of(id);
    assert(ring.holds_at(j, id));
}

/// At most one page is the one that rotation takes.
pub proof fn lemma_one_victim(ring: RingView, j: int, k: int)
    requires
        ring.victim(j),
        ring.victim(k),
    ensures
        j == k,
{
    if ring.vacant(j) {
        assert(ring.vacant(k));
    } else {
        assert(ring.spent(j) && ring.spent(k));
    }
}

/// Appending keeps the ring well formed.
pub proof fn lemma_append_keeps_inv(
    ring: RingView,
    record: Seq<u8>,
    outcome: AppendOutcome,
    after: RingView,
)
    requires
        ring.inv(),
        ring.appends(record, outcome, after),
    ensures
        after.inv(),
        after.pages.len() == ring.pages.len(),
        after.page_size == ring.page_size,
        after.essential == ring.essential,
{
}

/// An entry whose id is not yet on disk, or whose page somebody holds, survives every append
/// with its record.
pub proof fn lemma_append_keeps_what_is_needed(
    ring: RingView,
    record: Seq<u8>,
    outcome: AppendOutcome,
    after: RingView,
    id: nat,
)
    requires
        ring.inv(),
        ring.appends(record, outcome, after),
        ring.holds(id),
        id >= ring.essential || ring.pages[ring.page_of(id)].pins > 0,
    ensures
        after.holds(id),
        after.record_of(id) == ring.record_of(id),
{
    let k = ring.page_of(id);
    assert(ring.holds_at(k, id));
    lemma_append_keeps_inv(ring, record, outcome, after);
    assert(after.holds_at(k, id));
    lemma_one_page_holds(after, k, id);
}

/// A record that was accepted is cached under the id that was answered.
pub proof fn lemma_append_caches(ring: RingView, record: Seq<u8>, id: u64, after: RingView)
    requires
        ring.inv(),
        ring.appends(record, AppendOutcome::Cached(id), after),
    ensures
        after.holds(id as nat),
        after.record_of(id as nat) == record,
        after.next_id == id + 1,
{
    lemma_append_keeps_inv(ring, record, AppendOutcome::Cached(id), after);
    let k = after.active;
    assert(after.holds_at(k, id as nat));
    lemma_one_page_holds(after, k, id as nat);
}

/// A record that was accepted is on the active page, behind what that page held or alone on
/// it. Every other page stays as it is.
pub proof fn lemma_append_touches_one_page(ring: RingView, record: Seq<u8>, id: u64, after: RingView)
    requires
        ring.inv(),
        ring.appends(record, AppendOutcome::Cached(id), after),
    ensures
        0 <= after.active < after.pages.len() == ring.pages.len(),
        after.next_id == ring.next_id + 1,
        forall|k: int|
            0 <= k < ring.pages.len() && k != after.active ==> #[trigger] after.pages[k]
                == ring.pages[k],
        after.next_page_id == ring.next_page_id ==> after.active == ring.active
            && after.pages[after.active] == ring.pages[ring.active].pushed(record),
        after.next_page_id != ring.next_page_id ==> after.pages[after.active].first == id
            && after.pages[after.active].records == seq![record],
{
    if !ring.fits(record) {
        let k = choose|k: int|
            #[trigger] ring.victim(k) && after == ring.rotated(k).pushed(record);
        assert(after.pages[k].records =~= seq![record]);
    }
}

/// A record that was accepted lies within its page, with the offsets of all entries there.
pub proof fn lemma_append_stays_on_its_page(
    ring: RingView,
    record: Seq<u8>,
    id: u64,
    after: RingView,
)
    requires
        ring.inv(),
        ring.appends(record, AppendOutcome::Cached(id), after),
    ensures
        record.len() <= u32::MAX,
        wal_page::frames(after.pages[after.active].records).len() + 4
            * after.pages[after.active].records.len() <= ring.page_size,
{
    let page = ring.pages[ring.active];
    wal_page::lemma_frames_push(page.records, record);
    if !ring.fits(record) {
        let k = choose|k: int|
            #[trigger] ring.victim(k) && after == ring.rotated(k).pushed(record);
        assert(after.pages[k].records =~= Seq::<Seq<u8>>::empty().push(record));
        wal_page::lemma_frames_push(Seq::empty(), record);
        assert(wal_page::frames(Seq::empty()).len() == 0);
    }
}

/// A record is refused for its size only if its entry and its offset exceed a page or its size
/// exceeds 32 bits; and for want of room only if no page can be reused: each is held, or has an
/// entry that is not on disk. In every other case it is accepted.
pub proof fn lemma_why_an_append_is_refused(
    ring: RingView,
    record: Seq<u8>,
    outcome: AppendOutcome,
    after: RingView,
    k: int,
)
    requires
        ring.inv(),
        ring.appends(record, outcome, after),
        0 <= k < ring.pages.len(),
    ensures
        outcome == AppendOutcome::TooLarge <==> record.len() > u32::MAX || wal_entry_v1::frame(
            record,
        ).len() + 4 > ring.page_size,
        outcome == AppendOutcome::Full ==> ring.pages[k].pins > 0 || ring.pages[k].records.len() > 0
            && ring.pages[k].first + ring.pages[k].records.len() > ring.essential,
        outcome == AppendOutcome::Full ==> ({
            let page = ring.pages[ring.active];
            wal_page::frames(page.records).len() + 4 * page.records.len() + wal_entry_v1::frame(
                record,
            ).len() + 4 > ring.page_size
        }),
        outcome matches AppendOutcome::Cached(id) ==> id == ring.next_id,
{
    if outcome == AppendOutcome::Full {
        assert(!ring.vacant(k));
        assert(!ring.spent(k));
    }
    assert(ring.pages[ring.active].size == ring.page_size);
}

/// A record stays on the active page as long as its entry and its offset fit there.
pub proof fn lemma_a_page_is_filled_first(ring: RingView, record: Seq<u8>, id: u64, after: RingView)
    requires
        ring.inv(),
        ring.appends(record, AppendOutcome::Cached(id), after),
        wal_page::frames(ring.pages[ring.active].records).len() + 4
            * ring.pages[ring.active].records.len() + wal_entry_v1::frame(record).len() + 4
            <= ring.page_size,
    ensures
        after.active == ring.active,
        after.next_page_id == ring.next_page_id,
        after.pages[after.active].records == ring.pages[ring.active].records.push(record),
        after.pages[after.active].first == ring.pages[ring.active].first,
{
    assert(ring.pages[ring.active].size == ring.page_size);
}

/// Pages are numbered in the order in which they are begun, and keep their number while they
/// are added to.
pub proof fn lemma_pages_are_numbered_in_order(
    ring: RingView,
    record: Seq<u8>,
    id: u64,
    after: RingView,
)
    requires
        ring.inv(),
        ring.appends(record, AppendOutcome::Cached(id), after),
    ensures
        after.active == ring.active && after.next_page_id == ring.next_page_id
            && after.pages[after.active].page_id == ring.pages[ring.active].page_id
            || after.next_page_id == ring.next_page_id + 1 && after.pages[after.active].page_id
            == ring.next_page_id,
        ring.fits(record) <==> after.next_page_id == ring.next_page_id,
        after.essential == ring.essential,
        after.page_size == ring.page_size,
{
}

/// A page that is begun is the first that holds nothing and that nobody holds, as long as there
/// is one; and then the records of no page are discarded.
pub proof fn lemma_which_page_is_begun(
    ring: RingView,
    record: Seq<u8>,
    id: u64,
    after: RingView,
    k: int,
)
    requires
        ring.inv(),
        ring.appends(record, AppendOutcome::Cached(id), after),
        after.next_page_id != ring.next_page_id,
        0 <= k < ring.pages.len(),
        ring.pages[k].pins == 0,
        ring.pages[k].records.len() == 0,
    ensures
        after.active <= k,
        ring.pages[after.active].pins == 0,
        ring.pages[after.active].records.len() == 0,
        after.pages[after.active].first == ring.next_id,
        after.pages[after.active].records == seq![record],
{
    assert(ring.vacant(k));
    assert(after.pages[after.active].records =~= seq![record]);
}

/// What an append discards was on disk and held by nobody, and nothing older could have been
/// discarded in its place, nor a page that held nothing.
pub proof fn lemma_what_an_append_discards(
    ring: RingView,
    record: Seq<u8>,
    outcome: AppendOutcome,
    after: RingView,
    id: nat,
    other: int,
)
    requires
        ring.inv(),
        ring.appends(record, outcome, after),
        ring.holds(id),
        !after.holds(id),
        0 <= other < ring.pages.len(),
    ensures
        id < ring.essential,
        ring.pages[ring.page_of(id)].pins == 0,
        ring.pages[other].pins == 0 ==> ring.pages[other].records.len() > 0,
        ring.pages[other].pins == 0 && ring.pages[other].first + ring.pages[other].records.len()
            <= ring.essential ==> ring.pages[ring.page_of(id)].first <= ring.pages[other].first,
{
    let p = ring.page_of(id);
    assert(ring.holds_at(p, id));
    if id >= ring.essential || ring.pages[p].pins > 0 {
        lemma_append_keeps_what_is_needed(ring, record, outcome, after, id);
    }
    if let AppendOutcome::Cached(new) = outcome {
        lemma_append_touches_one_page(ring, record, new, after);
        if ring.fits(record) {
            assert(after.holds_at(p, id));
        } else {
            let k = choose|k: int|
                #[trigger] ring.victim(k) && after == ring.rotated(k).pushed(record);
            if p != k {
                assert(after.pages[p] == ring.pages[p]);
                assert(after.holds_at(p, id));
            }
            assert(ring.spent(k));
            assert(!ring.vacant(other));
            if ring.pages[other].pins == 0 && ring.pages[other].first
                + ring.pages[other].records.len() <= ring.essential {
                assert(ring.spent(other));
            }
        }
    } else {
        assert(after.holds_at(p, id));
    }
}

/// A listing has every record whose id is asked for, on whatever page it is, under its id and
/// in the order of ids; and nothing else.
pub proof fn lemma_a_listing_is_complete(
    ring: RingView,
    start: nat,
    end: nat,
    out: Seq<(u64, Vec<u8>)>,
    k: int,
    i: int,
)
    requires
        ring.inv(),
        ring.next_id <= u64::MAX,
        ring.lists(start, end, out),
        0 <= k < ring.pages.len(),
        0 <= i < ring.pages[k].records.len(),
    ensures
        start <= ring.pages[k].first + i <= end ==> exists|j: int|
            0 <= j < out.len() && (#[trigger] out[j]).0 == ring.pages[k].first + i && out[j].1@
                == ring.pages[k].records[i],
        forall|j: int| 0 <= j < out.len() ==> start <= (#[trigger] out[j]).0 <= end,
        forall|a: int, b: int|
            0 <= a < b < out.len() ==> (#[trigger] out[a]).0 < (#[trigger] out[b]).0,
        forall|j: int| 0 <= j < out.len() ==> ring.holds((#[trigger] out[j]).0 as nat),
{
    let id = (ring.pages[k].first + i) as nat;
    assert(ring.holds_at(k, id));
    assert(ring.holds(id));
    lemma_one_page_holds(ring, k, id);
}

/// An append that was refused changes nothing.
pub proof fn lemma_a_refused_append_changes_nothing(
    ring: RingView,
    record: Seq<u8>,
    outcome: AppendOutcome,
    after: RingView,
)
    requires
        ring.appends(record, outcome, after),
        !(outcome is Cached),
    ensures
        after == ring,
{
}

/// While nobody holds a page, the cached entries stay a contiguous run of ids that ends at
/// the next id.
pub proof fn lemma_append_keeps_a_suffix(
    ring: RingView,
    record: Seq<u8>,
    outcome: AppendOutcome,
    after: RingView,
    low: nat,
)
    requires
        ring.inv(),
        ring.unpinned(),
        ring.contiguous_from(low),
        ring.appends(record, outcome, after),
    ensures
        after.unpinned(),
        exists|l: nat| low <= l && #[trigger] after.contiguous_from(l),
{
    lemma_append_keeps_inv(ring, record, outcome, after);
    if outcome is Cached {
        let a = ring.active;
        if ring.fits(record) {
            assert forall|id: nat| #[trigger] after.holds(id) <==> low <= id < after.next_id by {
                if after.holds(id) {
                    let k = after.page_of(id);
                    assert(after.holds_at(k, id));
                    if id < ring.next_id {
                        assert(ring.holds_at(k, id));
                        assert(ring.holds(id));
                    }
                }
                if low <= id < after.next_id {
                    if id < ring.next_id {
                        assert(ring.holds(id));
                        let k = ring.page_of(id);
                        assert(ring.holds_at(k, id));
                        assert(after.holds_at(k, id));
                    } else {
                        assert(after.holds_at(a, id));
                    }
                }
            }
            assert(after.contiguous_from(low));
        } else {
            let v = choose|k: int|
                #[trigger] ring.victim(k) && after == ring.rotated(k).pushed(record);
            let page = ring.pages[v];
            let cut: nat = if page.records.len() == 0 {
                low
            } else {
                page.end()
            };
            if page.records.len() > 0 {
                lemma_victim_is_oldest(ring, v, low);
            }
            assert forall|id: nat| #[trigger] after.holds(id) <==> cut <= id < after.next_id by {
                if after.holds(id) {
                    let k = after.page_of(id);
                    assert(after.holds_at(k, id));
                    if k != v {
                        assert(ring.holds_at(k, id));
                        assert(ring.holds(id));
                        if page.records.len() > 0 {
                            assert(ring.spent(v));
                            if id < cut {
                                assert(ring.holds_at(v, id));
                                lemma_one_page_holds(ring, v, id);
                                lemma_one_page_holds(ring, k, id);
                            }
                        }
                    }
                }
                if cut <= id < after.next_id {
                    if id < ring.next_id {
                        assert(ring.holds(id));
                        let k = ring.page_of(id);
                        assert(ring.holds_at(k, id));
                        assert(k != v);
                        assert(after.holds_at(k, id));
                    } else {
                        assert(after.holds_at(v, id));
                    }
                }
            }
            assert(after.contiguous_from(cut));
        }
    } else {
        assert(after.contiguous_from(low));
    }
}

/// The spent page that rotation takes is the one that the lowest cached id is on.
proof fn lemma_victim_is_oldest(ring: RingView, v: int, low: nat)
    requires
        ring.inv(),
        ring.unpinned(),
        ring.contiguous_from(low),
        ring.victim(v),
        ring.pages[v].records.len() > 0,
    ensures
        ring.pages[v].first == low,
        low <= ring.pages[v].end() <= ring.next_id,
{
    assert(ring.spent(v));
    let first = ring.pages[v].first;
    assert(ring.holds_at(v, first));
    assert(ring.holds(first));
    assert(ring.holds(low));
    let o = ring.page_of(low);
    assert(ring.holds_at(o, low));
    if o != v {
        assert(ring.pages[o].end() <= first) by {
            if ring.pages[v].end() <= ring.pages[o].first {
                assert(first < low);
            }
        }
        assert(ring.spent(o));
    } else {
        if first < low {
            assert(ring.holds(first));
        }
    }
}

/// Puts an entry into a list that is ordered by id, from behind.
fn insert_by_id(out: &mut Vec<(u64, Vec<u8>)>, id: u64, record: Vec<u8>)
    requires
        forall|i: int, j: int|
            0 <= i < j < old(out)@.len() ==> (#[trigger] old(out)@[i]).0 < (#[trigger] old(out)@[j]).0,
        forall|i: int| 0 <= i < old(out)@.len() ==> (#[trigger] old(out)@[i]).0 != id,
    ensures
        forall|i: int, j: int|
            0 <= i < j < final(out)@.len() ==> (#[trigger] final(out)@[i]).0 < (#[trigger] final(out)@[j]).0,
        exists|at: int|
            0 <= at <= old(out)@.len() && final(out)@ == #[trigger] old(out)@.insert(
                at,
                (id, record),
            ),
{
    let ghost before = out@;
    let mut at: usize = out.len();
    while at > 0 && out[at - 1].0 > id
        invariant
            at <= out@.len(),
            out@ == before,
            forall|i: int| at <= i < out@.len() ==> (#[trigger] out@[i]).0 > id,
        decreases at,
    {
        at = at - 1;
    }
    out.insert(at, (id, record));
    assert(out@ == before.insert(at as int, (id, record)));
}

/// The place of a ring in an arena of pages.
#[derive(Debug, Clone, Copy, PartialEq, Eq, Structural)]
pub struct Home {
    pub ring_id: u64,
    pub first_slot: usize,
}

/// A ring of pages that holds the newest entries of the log in memory.
pub struct WalRing {
    pub(crate) pages: Vec<WalPage>,
    page_size: usize,
    active: usize,
    next_entry_id: u64,
    next_page_id: u64,
    min_essential_id: u64,
    home: Option<Home>,
}

/// What `pages` hold.
pub open spec fn page_views(pages: Seq<WalPage>) -> Seq<PageView> {
    Seq::new(pages.len(), |k: int| pages[k]@)
}

impl View for WalRing {
    type V = RingView;

    closed spec fn view(&self) -> RingView {
        RingView {
            pages: page_views(self.pages@),
            page_size: self.page_size as nat,
            active: self.active as int,
            next_id: self.next_entry_id as nat,
            next_page_id: self.next_page_id as nat,
            essential: self.min_essential_id as nat,
        }
    }
}

impl WalRing {
    /// The view is that of a ring, and every page holds what its view says.
    pub closed spec fn inv(&self) -> bool {
        &&& self@.inv()
        &&& forall|k: int| 0 <= k < self.pages@.len() ==> (#[trigger] self.pages@[k]).inv()
    }

    pub proof fn lemma_inv(&self)
        requires
            self.inv(),
        ensures
            self@.inv(),
            self@.next_id <= u64::MAX,
            self@.next_page_id <= u64::MAX,
            self@.essential <= u64::MAX,
            forall|k: int|
                0 <= k < self@.pages.len() ==> {
                    let page = #[trigger] self@.pages[k];
                    &&& page.used() + 4 * page.records.len() <= page.size
                    &&& page.end() <= u64::MAX
                    &&& page.pins <= u32::MAX
                },
    {
        assert forall|k: int| 0 <= k < self@.pages.len() implies {
            let page = #[trigger] self@.pages[k];
            &&& page.used() + 4 * page.records.len() <= page.size
            &&& page.end() <= u64::MAX
            &&& page.pins <= u32::MAX
        } by {
            self.pages@[k].lemma_inv();
        }
    }

    /// Where in an arena the pages came from.
    pub closed spec fn home_spec(&self) -> Option<Home> {
        self.home
    }

    /// A ring of `page_count` empty pages of `page_size` bytes each, whose first entry gets
    /// the id `first_entry_id`.
    pub fn new(page_count: usize, page_size: usize, first_entry_id: u64) -> (ring: WalRing)
        requires
            page_count >= 1,
            MIN_PAGE_SIZE <= page_size <= u32::MAX,
        ensures
            ring.inv(),
            ring@ == empty_ring(page_count as nat, page_size as nat, first_entry_id as nat),
            ring.home_spec() is None,
    {
        let mut pages: Vec<WalPage> = Vec::new();
        let mut k: usize = 0;
        while k < page_count
            invariant
                k <= page_count,
                k == pages@.len(),
                MIN_PAGE_SIZE <= page_size <= u32::MAX,
                forall|j: int|
                    0 <= j < k ==> (#[trigger] pages@[j]).inv() && pages@[j]@
                        == wal_page::empty_page(page_size as nat, j as nat, first_entry_id as nat),
            decreases page_count - k,
        {
            pages.push(WalPage::new(page_size, k as u64, first_entry_id));
            k = k + 1;
        }
        let ring = WalRing {
            pages,
            page_size,
            active: 0,
            next_entry_id: first_entry_id,
            next_page_id: page_count as u64,
            min_essential_id: 0,
            home: None,
        };
        assert(ring@.pages =~= empty_ring(
            page_count as nat,
            page_size as nat,
            first_entry_id as nat,
        ).pages);
        ring
    }

    /// Puts `record` on the active page, where it fits.
    fn push(&mut self, record: &[u8])
        requires
            old(self).inv(),
            record@.len() <= u32::MAX,
            old(self)@.fits(record@),
            old(self)@.next_id < u64::MAX,
        ensures
            final(self).inv(),
            final(self)@ == old(self)@.pushed(record@),
            final(self).home_spec() == old(self).home_spec(),
    {
        let ghost before = self@;
        let active: usize = self.active;
        self.pages[active].append(record);
        self.next_entry_id = self.next_entry_id + 1;
        assert(self@.pages =~= before.pushed(record@).pages);
    }

    /// Discards page `index`, which nobody needs, and makes it active.
    fn rotate_into(&mut self, index: usize)
        requires
            old(self).inv(),
            index < old(self)@.pages.len(),
            old(self)@.pages[index as int].reusable(old(self)@.essential),
            old(self)@.next_page_id < u64::MAX,
        ensures
            final(self).inv(),
            final(self)@ == old(self)@.rotated(index as int),
            final(self).home_spec() == old(self).home_spec(),
    {
        let ghost before = self@;
        let page_id: u64 = self.next_page_id;
        let first: u64 = self.next_entry_id;
        self.pages[index].init(page_id, first);
        self.next_page_id = self.next_page_id + 1;
        self.active = index;
        assert(self@.pages =~= before.rotated(index as int).pages);
    }

    /// The page to rotate into: the first empty page, or else the oldest page whose entries
    /// are all below the essential id.
    fn oldest_reclaimable_page(&self) -> (r: Option<usize>)
        requires
            self.inv(),
        ensures
            match r {
                Some(k) => self@.victim(k as int),
                None => (forall|k: int| !#[trigger] self@.vacant(k)) && (forall|k: int|
                    !#[trigger] self@.spent(k)),
            },
    {
        let ghost ring = self@;
        let mut oldest: Option<usize> = None;
        let mut k: usize = 0;
        while k < self.pages.len()
            invariant
                self.inv(),
                ring == self@,
                k <= self.pages@.len() == ring.pages.len(),
                forall|j: int| 0 <= j < k ==> !#[trigger] ring.vacant(j),
                match oldest {
                    Some(o) => o < k && ring.spent(o as int) && forall|j: int|
                        0 <= j < k && #[trigger] ring.spent(j) && j != o ==> ring.pages[o as int].first
                            < ring.pages[j].first,
                    None => forall|j: int| 0 <= j < k ==> !#[trigger] ring.spent(j),
                },
            decreases self.pages@.len() - k,
        {
            let page: &WalPage = &self.pages[k];
            assert(ring.pages[k as int] == page@);
            if page.pin_count() == 0 {
                if page.len() == 0 {
                    assert(ring.vacant(k as int));
                    return Some(k);
                }
                if page.end() - 1 < self.min_essential_id {
                    assert(ring.spent(k as int));
                    let older: bool = match oldest {
                        Some(o) => page.first_entry_id() < self.pages[o].first_entry_id(),
                        None => true,
                    };
                    if older {
                        oldest = Some(k);
                    }
                }
            }
            k = k + 1;
        }
        oldest
    }

    /// Appends a record, rotating into a reusable page if the active one is full.
    ///
    /// Rotation prefers an empty page, then the oldest page that is all on disk.
    pub fn append(&mut self, record: &[u8]) -> (outcome: AppendOutcome)
        requires
            old(self).inv(),
            old(self)@.next_id < u64::MAX,
            old(self)@.next_page_id < u64::MAX,
        ensures
            final(self).inv(),
            old(self)@.appends(record@, outcome, final(self)@),
            final(self).home_spec() == old(self).home_spec(),
    {
        let n: usize = record.len();
        if n > u32::MAX as usize {
            return AppendOutcome::TooLarge;
        }
        proof {
            wal_entry_v1::lemma_frame_len(record@);
        }
        let entry: u64 = crate::varint::encoded_len(n as u64) as u64 + n as u64 + 4;
        if entry + 4 > self.page_size as u64 {
            return AppendOutcome::TooLarge;
        }
        let id: u64 = self.next_entry_id;
        if self.pages[self.active].has_room(n as u32) {
            self.push(record);
            return AppendOutcome::Cached(id);
        }
        let k: usize = match self.oldest_reclaimable_page() {
            Some(k) => k,
            None => {
                assert(self@.pages[self@.active] == self.pages@[self.active as int]@);
                return AppendOutcome::Full;
            },
        };
        self.rotate_into(k);
        assert(wal_page::frames(Seq::empty()).len() == 0);
        self.push(record);
        AppendOutcome::Cached(id)
    }

    /// Empties the ring, with `first_entry_id` as the next id to cache.
    pub fn reinit(&mut self, first_entry_id: u64)
        requires
            old(self).inv(),
        ensures
            final(self).inv(),
            final(self)@ == empty_ring(
                old(self)@.pages.len(),
                old(self)@.page_size,
                first_entry_id as nat,
            ),
            final(self).home_spec() == old(self).home_spec(),
    {
        let ghost before = self@;
        let n: usize = self.pages.len();
        let mut k: usize = 0;
        assert forall|j: int| 0 <= j < n implies (#[trigger] self.pages@[j])@.size
            == before.page_size by {
            assert(before.pages[j].size == before.page_size);
        }
        while k < n
            invariant
                k <= n == self.pages@.len() == before.pages.len(),
                self.home == old(self).home,
                self.page_size == old(self).page_size,
                before == old(self)@,
                before.inv(),
                self.page_size == before.page_size,
                forall|j: int|
                    0 <= j < n ==> (#[trigger] self.pages@[j]).inv() && self.pages@[j]@.size
                        == before.page_size,
                forall|j: int|
                    0 <= j < k ==> (#[trigger] self.pages@[j])@ == wal_page::empty_page(
                        before.page_size,
                        j as nat,
                        first_entry_id as nat,
                    ),
            decreases n - k,
        {
            self.pages[k].init(k as u64, first_entry_id);
            k = k + 1;
        }
        self.active = 0;
        self.next_entry_id = first_entry_id;
        self.next_page_id = n as u64;
        self.min_essential_id = 0;
        assert(self@.pages =~= empty_ring(
            before.pages.len(),
            before.page_size,
            first_entry_id as nat,
        ).pages);
    }

    /// The lowest entry id that is cached, or `None` if the ring is empty.
    pub fn min_cached_id(&self) -> (r: Option<u64>)
        requires
            self.inv(),
        ensures
            match r {
                Some(m) => self@.holds(m as nat) && forall|id: nat| #[trigger]
                    self@.holds(id) ==> m <= id,
                None => self@.is_empty(),
            },
    {
        let ghost ring = self@;
        let mut low: Option<u64> = None;
        let ghost mut at: int = 0;
        let mut k: usize = 0;
        while k < self.pages.len()
            invariant
                self.inv(),
                ring == self@,
                k <= self.pages@.len() == ring.pages.len(),
                low is Some ==> 0 <= at < k && ring.holds_at(at, low->0 as nat),
                low is Some ==> forall|j: int|
                    0 <= j < k && (#[trigger] ring.pages[j]).records.len() > 0 ==> low->0
                        <= ring.pages[j].first,
                low is None ==> forall|j: int|
                    0 <= j < k ==> (#[trigger] ring.pages[j]).records.len() == 0,
            decreases self.pages@.len() - k,
        {
            let page: &WalPage = &self.pages[k];
            assert(ring.pages[k as int] == page@);
            if page.len() > 0 {
                let first: u64 = page.first_entry_id();
                assert(ring.holds_at(k as int, first as nat));
                assert(first as nat == ring.pages[k as int].first);
                let lower: bool = match low {
                    Some(m) => first < m,
                    None => true,
                };
                if lower {
                    low = Some(first);
                    proof {
                        at = k as int;
                    }
                }
            }
            k = k + 1;
        }
        proof {
            if let Some(m) = low {
                assert forall|id: nat| #[trigger] ring.holds(id) implies m <= id by {
                    let j = ring.page_of(id);
                    assert(ring.holds_at(j, id));
                    assert(ring.pages[j].records.len() > 0);
                }
            }
        }
        low
    }

    /// Whether the ring holds no entries.
    pub fn is_empty(&self) -> (b: bool)
        requires
            self.inv(),
        ensures
            b == self@.is_empty(),
    {
        let mut k: usize = 0;
        while k < self.pages.len()
            invariant
                self.inv(),
                k <= self.pages@.len() == self@.pages.len(),
                forall|j: int| 0 <= j < k ==> (#[trigger] self@.pages[j]).records.len() == 0,
            decreases self.pages@.len() - k,
        {
            let page: &WalPage = &self.pages[k];
            assert(self@.pages[k as int] == page@);
            if page.len() != 0 {
                return false;
            }
            k = k + 1;
        }
        true
    }

    /// All cached records with ids from `start` to `end`, in id order.
    pub fn collect_range(&self, start: u64, end: u64) -> (out: Vec<(u64, Vec<u8>)>)
        requires
            self.inv(),
        ensures
            self@.lists(start as nat, end as nat, out@),
    {
        let ghost ring = self@;
        let mut out: Vec<(u64, Vec<u8>)> = Vec::new();
        let mut k: usize = 0;
        while k < self.pages.len()
            invariant
                self.inv(),
                ring == self@,
                k <= self.pages@.len() == ring.pages.len(),
                ring.lists_first(k as int, 0, start as nat, end as nat, out@),
            decreases self.pages@.len() - k,
        {
            let page: &WalPage = &self.pages[k];
            assert(ring.pages[k as int] == page@);
            let n: u32 = page.len();
            let first: u64 = page.first_entry_id();
            proof {
                page.lemma_inv();
            }
            let mut index: u32 = 0;
            while index < n
                invariant
                    self.inv(),
                    ring == self@,
                    k < self.pages@.len() == ring.pages.len(),
                    *page == self.pages@[k as int],
                    page.inv(),
                    ring.pages[k as int] == page@,
                    index <= n == page@.records.len(),
                    first == page@.first,
                    page@.end() <= u64::MAX,
                    ring.lists_first(k as int, index as nat, start as nat, end as nat, out@),
                decreases n - index,
            {
                let id: u64 = first + index as u64;
                assert(ring.holds_at(k as int, id as nat));
                proof {
                    lemma_one_page_holds(ring, k as int, id as nat);
                }
                if start <= id && id <= end {
                    if let Some(record) = page.record(index) {
                        let ghost before = out@;
                        assert(forall|i: int| 0 <= i < out@.len() ==> (#[trigger] out@[i]).0 != id) by {
                            assert forall|i: int| 0 <= i < out@.len() implies (#[trigger] out@[i]).0
                                != id by {
                                let j = choose|j: int| #[trigger]
                                    ring.listed_at(j, k as int, index as nat, out@[i].0 as nat);
                                assert(ring.holds_at(j, out@[i].0 as nat));
                                lemma_one_page_holds(ring, j, out@[i].0 as nat);
                            }
                        }
                        let copy: Vec<u8> = vstd::slice::slice_to_vec(record);
                        insert_by_id(&mut out, id, copy);
                        proof {
                            let at = choose|at: int|
                                0 <= at <= before.len() && out@ == #[trigger] before.insert(
                                    at,
                                    (id, copy),
                                );
                            assert(ring.listed_at(k as int, k as int, (index + 1) as nat, id as nat));
                            assert forall|i: int| 0 <= i < out@.len() implies {
                                &&& start <= (#[trigger] out@[i]).0 <= end
                                &&& out@[i].1@ == ring.record_of(out@[i].0 as nat)
                                &&& exists|j: int| #[trigger]
                                    ring.listed_at(
                                        j,
                                        k as int,
                                        (index + 1) as nat,
                                        out@[i].0 as nat,
                                    )
                            } by {
                                if i != at {
                                    let o = if i < at {
                                        i
                                    } else {
                                        i - 1
                                    };
                                    assert(out@[i] == before[o]);
                                    let j = choose|j: int| #[trigger]
                                        ring.listed_at(
                                            j,
                                            k as int,
                                            index as nat,
                                            before[o].0 as nat,
                                        );
                                    assert(ring.listed_at(
                                        j,
                                        k as int,
                                        (index + 1) as nat,
                                        before[o].0 as nat,
                                    ));
                                }
                            }
                            assert forall|j: int, x: nat|
                                #[trigger] ring.listed_at(j, k as int, (index + 1) as nat, x)
                                    && start <= x <= end implies exists|i: int|
                                0 <= i < out@.len() && (#[trigger] out@[i]).0 == x by {
                                if x == id {
                                    assert(out@[at].0 == id);
                                } else {
                                    assert(ring.listed_at(j, k as int, index as nat, x));
                                    let o = choose|o: int|
                                        0 <= o < before.len() && (#[trigger] before[o]).0 == x;
                                    if o < at {
                                        assert(out@[o].0 == x);
                                    } else {
                                        assert(out@[o + 1].0 == x);
                                    }
                                }
                            }
                        }
                    }
                } else {
                    proof {
                        assert forall|i: int| 0 <= i < out@.len() implies exists|j: int| #[trigger]
                            ring.listed_at(
                            j,
                            k as int,
                            (index + 1) as nat,
                            (#[trigger] out@[i]).0 as nat,
                        ) by {
                            let j = choose|j: int| #[trigger]
                                ring.listed_at(j, k as int, index as nat, out@[i].0 as nat);
                            assert(ring.listed_at(
                                j,
                                k as int,
                                (index + 1) as nat,
                                out@[i].0 as nat,
                            ));
                        }
                        assert forall|j: int, x: nat|
                            #[trigger] ring.listed_at(j, k as int, (index + 1) as nat, x) && start
                                <= x <= end implies exists|i: int|
                            0 <= i < out@.len() && (#[trigger] out@[i]).0 == x by {
                            assert(ring.listed_at(j, k as int, index as nat, x));
                        }
                    }
                }
                index = index + 1;
            }
            proof {
                assert forall|i: int| 0 <= i < out@.len() implies exists|j: int| #[trigger]
                    ring.listed_at(j, k + 1, 0, (#[trigger] out@[i]).0 as nat) by {
                    let j = choose|j: int| #[trigger]
                        ring.listed_at(j, k as int, n as nat, out@[i].0 as nat);
                    assert(ring.listed_at(j, k + 1, 0, out@[i].0 as nat));
                }
                assert forall|j: int, x: nat|
                    #[trigger] ring.listed_at(j, k + 1, 0, x) && start <= x <= end implies exists|
                    i: int,
                |
                    0 <= i < out@.len() && (#[trigger] out@[i]).0 == x by {
                    assert(ring.listed_at(j, k as int, n as nat, x));
                }
            }
            k = k + 1;
        }
        proof {
            assert forall|i: int| 0 <= i < out@.len() implies ring.holds((#[trigger] out@[i]).0 as nat) by {
                let j = choose|j: int| #[trigger] ring.listed_at(j, k as int, 0, out@[i].0 as nat);
                assert(ring.holds_at(j, out@[i].0 as nat));
            }
            assert forall|id: nat| start <= id <= end && #[trigger] ring.holds(id) implies exists|
                i: int,
            |
                0 <= i < out@.len() && (#[trigger] out@[i]).0 == id by {
                let j = ring.page_of(id);
                assert(ring.holds_at(j, id));
                assert(ring.listed_at(j, k as int, 0, id));
            }
        }
        out
    }

    /// Moves the reclaim boundary: pages whose entries are all below it may be reused.
    pub fn set_essential(&mut self, min_essential_id: u64)
        requires
            old(self).inv(),
        ensures
            final(self).inv(),
            final(self)@ == (RingView { essential: min_essential_id as nat, ..old(self)@ }),
            final(self).home_spec() == old(self).home_spec(),
    {
        self.min_essential_id = min_essential_id;
    }

    /// Where the entry `entry_id` is: its page and its place there.
    pub fn seek(&self, entry_id: u64) -> (r: Option<(usize, u32)>)
        requires
            self.inv(),
        ensures
            match r {
                Some((k, index)) => self@.holds_at(k as int, entry_id as nat)
                    && self@.pages[k as int].first + index == entry_id,
                None => !self@.holds(entry_id as nat),
            },
    {
        let mut k: usize = 0;
        while k < self.pages.len()
            invariant
                self.inv(),
                k <= self.pages@.len() == self@.pages.len(),
                forall|j: int| 0 <= j < k ==> !#[trigger] self@.holds_at(j, entry_id as nat),
            decreases self.pages@.len() - k,
        {
            let page: &WalPage = &self.pages[k];
            assert(self@.pages[k as int] == page@);
            if page.first_entry_id() <= entry_id && entry_id < page.end() {
                assert(self@.holds_at(k as int, entry_id as nat));
                proof {
                    page.lemma_inv();
                    wal_page::lemma_frames_len(page@.records);
                }
                return Some((k, (entry_id - page.first_entry_id()) as u32));
            }
            k = k + 1;
        }
        None
    }

    /// The record at place `index` of page `page_index`, where there is one.
    pub fn record(&self, page_index: usize, index: u32) -> (r: Option<&[u8]>)
        requires
            self.inv(),
            page_index < self@.pages.len(),
        ensures
            match r {
                Some(record) => index < self@.pages[page_index as int].records.len() && record@
                    == self@.pages[page_index as int].records[index as int],
                None => index >= self@.pages[page_index as int].records.len(),
            },
    {
        self.pages[page_index].record(index)
    }

    /// The record of the entry `entry_id`, where it is cached.
    pub fn get(&self, entry_id: u64) -> (r: Option<&[u8]>)
        requires
            self.inv(),
        ensures
            match r {
                Some(record) => self@.holds(entry_id as nat) && record@ == self@.record_of(
                    entry_id as nat,
                ),
                None => !self@.holds(entry_id as nat),
            },
    {
        match self.seek(entry_id) {
            Some((k, index)) => {
                proof {
                    lemma_one_page_holds(self@, k as int, entry_id as nat);
                }
                self.record(k, index)
            },
            None => None,
        }
    }

    /// Holds page `page_index`, so that it is not reused until it is let go.
    pub fn pin(&mut self, page_index: usize)
        requires
            old(self).inv(),
            page_index < old(self)@.pages.len(),
        ensures
            final(self).inv(),
            final(self)@ == old(self)@.with_pins(
                page_index as int,
                (old(self)@.pages[page_index as int].pins + 1) % 0x1_0000_0000,
            ),
            final(self).home_spec() == old(self).home_spec(),
    {
        let ghost before = self@;
        self.pages[page_index].pin();
        assert(self@.pages =~= before.with_pins(
            page_index as int,
            (before.pages[page_index as int].pins + 1) % 0x1_0000_0000,
        ).pages);
    }

    /// Lets go of page `page_index`, which [`WalRing::pin`] held. Letting go of a page that
    /// nobody holds makes its count wrap.
    pub fn unpin(&mut self, page_index: usize)
        requires
            old(self).inv(),
            page_index < old(self)@.pages.len(),
        ensures
            final(self).inv(),
            final(self)@ == old(self)@.with_pins(
                page_index as int,
                one_pin_fewer(old(self)@.pages[page_index as int].pins),
            ),
            final(self).home_spec() == old(self).home_spec(),
    {
        let ghost before = self@;
        self.pages[page_index].unpin();
        assert(self@.pages =~= before.with_pins(
            page_index as int,
            one_pin_fewer(before.pages[page_index as int].pins),
        ).pages);
    }

    /// The id that the next appended entry will get.
    pub fn next_entry_id(&self) -> (id: u64)
        ensures
            id as nat == self@.next_id,
    {
        self.next_entry_id
    }

    /// The number that the next rotation will stamp on the page it takes.
    ///
    /// Every rotation raises it and nothing else does, so a change across an append says
    /// exactly that the ring rotated, also into the page that was active before.
    pub fn next_page_id(&self) -> (id: u64)
        ensures
            id as nat == self@.next_page_id,
    {
        self.next_page_id
    }

    pub fn page_count(&self) -> (n: usize)
        ensures
            n as nat == self@.pages.len(),
    {
        self.pages.len()
    }

    /// The page that is appended to.
    pub fn active_page(&self) -> (k: usize)
        ensures
            k == self@.active,
    {
        self.active
    }

    /// The entries of page `page_index`, in the order of their ids, ready for the file.
    pub fn page_bytes(&self, page_index: usize) -> (b: &[u8])
        requires
            self.inv(),
            page_index < self@.pages.len(),
        ensures
            b@ == wal_page::frames(self@.pages[page_index as int].records),
    {
        self.pages[page_index].bytes()
    }

    /// How many entries page `page_index` holds.
    pub fn page_len(&self, page_index: usize) -> (n: u32)
        requires
            self.inv(),
            page_index < self@.pages.len(),
        ensures
            n as nat == self@.pages[page_index as int].records.len(),
    {
        self.pages[page_index].len()
    }

    /// The last entry id on page `page_index`, or `None` if it is empty.
    pub fn page_last_entry_id(&self, page_index: usize) -> (r: Option<u64>)
        requires
            self.inv(),
            page_index < self@.pages.len(),
        ensures
            match r {
                Some(id) => self@.pages[page_index as int].records.len() > 0 && id
                    == self@.pages[page_index as int].end() - 1,
                None => self@.pages[page_index as int].records.len() == 0,
            },
    {
        let page: &WalPage = &self.pages[page_index];
        if page.len() > 0 {
            Some(page.end() - 1)
        } else {
            None
        }
    }

    /// The first entry id on page `page_index`, or `None` if it is empty.
    pub fn page_first_entry_id(&self, page_index: usize) -> (r: Option<u64>)
        requires
            self.inv(),
            page_index < self@.pages.len(),
        ensures
            match r {
                Some(id) => self@.pages[page_index as int].records.len() > 0 && id
                    == self@.pages[page_index as int].first,
                None => self@.pages[page_index as int].records.len() == 0,
            },
    {
        let page: &WalPage = &self.pages[page_index];
        if page.len() > 0 {
            Some(page.first_entry_id())
        } else {
            None
        }
    }

    /// How many readers hold page `page_index`.
    pub fn page_pin_count(&self, page_index: usize) -> (n: u32)
        requires
            page_index < self@.pages.len(),
        ensures
            n as nat == self@.pages[page_index as int].pins,
    {
        self.pages[page_index].pin_count()
    }

    /// The reclaim boundary.
    pub fn min_essential_id(&self) -> (id: u64)
        ensures
            id as nat == self@.essential,
    {
        self.min_essential_id
    }

    pub fn page_size(&self) -> (n: usize)
        ensures
            n as nat == self@.page_size,
    {
        self.page_size
    }
}

impl Home {
    /// Whether a ring of `pages` pages of `page_size` bytes has its place in `arena`: it owns
    /// its slots there and has taken their pages.
    pub open spec fn settled(self, pages: nat, page_size: nat, arena: ArenaView) -> bool {
        &&& self.ring_id != POOL_FREE
        &&& page_size == arena.page_size
        &&& self.first_slot + pages <= arena.slots.len()
        &&& forall|k: int|
            self.first_slot <= k < self.first_slot + pages ==> (#[trigger] arena.slots[k]).owner
                == self.ring_id && arena.slots[k].page is None
    }

    /// The arena after a ring with these pages is gone: every page is back in its slot, and
    /// the slots of reusable pages are free.
    pub open spec fn vacated(self, ring: RingView, arena: ArenaView) -> ArenaView {
        ArenaView {
            slots: Seq::new(
                arena.slots.len(),
                |k: int|
                    if self.first_slot <= k < self.first_slot + ring.pages.len() {
                        let page = ring.pages[k - self.first_slot];
                        SlotView {
                            owner: if page.reusable(ring.essential) {
                                POOL_FREE
                            } else {
                                self.ring_id
                            },
                            page: Some(page),
                        }
                    } else {
                        arena.slots[k]
                    },
            ),
            ..arena
        }
    }

    /// The arena with the slots of the first `n` pages of a new ring taken.
    pub open spec fn occupied(self, n: nat, arena: ArenaView) -> ArenaView {
        ArenaView {
            slots: Seq::new(
                arena.slots.len(),
                |k: int|
                    if self.first_slot <= k < self.first_slot + n {
                        SlotView { owner: self.ring_id, page: None }
                    } else {
                        arena.slots[k]
                    },
            ),
            ..arena
        }
    }
}

impl WalRing {
    /// A ring over the slots of `range`, which `ring_id` has reserved. Its pages are empty
    /// and its first entry gets the id `first_entry_id`.
    pub fn in_arena(
        arena: &mut WalArena,
        range: SlotRange,
        ring_id: u64,
        first_entry_id: u64,
    ) -> (ring: WalRing)
        requires
            old(arena).inv(),
            ring_id != POOL_FREE,
            range.page_count >= 1,
            range.first_slot + range.page_count <= old(arena)@.slots.len(),
            forall|k: int|
                range.contains(k) ==> (#[trigger] old(arena)@.slots[k]).owner == ring_id && old(
                    arena
                )@.slots[k].page is Some,
        ensures
            final(arena).inv(),
            ring.inv(),
            ring@ == empty_ring(
                range.page_count as nat,
                old(arena)@.page_size,
                first_entry_id as nat,
            ),
            ring.home_spec() == Some(Home { ring_id, first_slot: range.first_slot }),
            final(arena)@ == (Home { ring_id, first_slot: range.first_slot }).occupied(
                range.page_count as nat,
                old(arena)@,
            ),
            (Home { ring_id, first_slot: range.first_slot }).settled(
                ring@.pages.len(),
                ring@.page_size,
                final(arena)@,
            ),
    {
        let ghost before = arena@;
        let home = Home { ring_id, first_slot: range.first_slot };
        let page_size: usize = arena.page_size();
        let slots: usize = arena.page_count();
        let mut pages: Vec<WalPage> = Vec::new();
        let mut k: usize = 0;
        proof {
            arena.lemma_inv();
            assert(home.occupied(0, before).slots =~= before.slots);
        }
        while k < range.page_count
            invariant
                arena.inv(),
                before.inv(),
                k <= range.page_count,
                k == pages@.len(),
                ring_id != POOL_FREE,
                home == (Home { ring_id, first_slot: range.first_slot }),
                page_size == before.page_size,
                range.first_slot + range.page_count <= slots == before.slots.len(),
                arena@ == home.occupied(k as nat, before),
                forall|j: int| range.contains(j) ==> (#[trigger] before.slots[j]).page is Some,
                forall|j: int|
                    0 <= j < k ==> (#[trigger] pages@[j]).inv() && pages@[j]@
                        == wal_page::empty_page(before.page_size, j as nat, first_entry_id as nat),
            decreases range.page_count - k,
        {
            let slot: usize = range.first_slot + k;
            assert(range.contains(slot as int));
            assert(arena@.slots[slot as int] == before.slots[slot as int]);
            let mut page: WalPage = arena.take_page(slot, ring_id);
            page.init(k as u64, first_entry_id);
            assert(page@ == wal_page::empty_page(
                before.page_size,
                k as nat,
                first_entry_id as nat,
            ));
            pages.push(page);
            k = k + 1;
            assert(arena@.slots =~= home.occupied(k as nat, before).slots);
        }
        let ring = WalRing {
            pages,
            page_size,
            active: 0,
            next_entry_id: first_entry_id,
            next_page_id: range.page_count as u64,
            min_essential_id: 0,
            home: Some(home),
        };
        assert(ring@.pages =~= empty_ring(
            range.page_count as nat,
            before.page_size,
            first_entry_id as nat,
        ).pages);
        ring
    }

    /// Takes the slot directly above the ring, if nobody owns it. Its page is emptied, so
    /// that it does not answer with what its last owner left there.
    pub fn grow(&mut self, arena: &mut WalArena) -> (grown: bool)
        requires
            old(self).inv(),
            old(arena).inv(),
            old(self).home_spec() is Some,
            old(self).home_spec()->0.settled(
                old(self)@.pages.len(),
                old(self)@.page_size,
                old(arena)@,
            ),
        ensures
            final(self).inv(),
            final(arena).inv(),
            final(self).home_spec() == old(self).home_spec(),
            final(self).home_spec()->0.settled(
                final(self)@.pages.len(),
                final(self)@.page_size,
                final(arena)@,
            ),
            ({
                let slot = old(self).home_spec()->0.first_slot + old(self)@.pages.len();
                &&& grown == old(arena)@.free(slot)
                &&& grown ==> final(self)@ == old(self)@.grown(slot as nat) && final(arena)@ == old(arena)@.with_slot(
                    slot,
                    old(self).home_spec()->0.ring_id,
                    None,
                )
                &&& !grown ==> final(self)@ == old(self)@ && final(arena)@ == old(arena)@
            }),
    {
        let ghost before = self@;
        let home: Home = match self.home {
            Some(home) => home,
            None => {
                return false;
            },
        };
        let n: usize = arena.page_count();
        let slot: usize = home.first_slot + self.pages.len();
        if slot >= n || arena.owner_of(slot) != POOL_FREE {
            return false;
        }
        assert(arena@.free(slot as int));
        proof {
            arena.lemma_inv();
        }
        let mut page: WalPage = arena.take_page(slot, home.ring_id);
        page.init(slot as u64, self.next_entry_id);
        self.pages.push(page);
        assert(self@.pages =~= before.pages.push(
            wal_page::empty_page(before.page_size, slot as nat, before.next_id),
        ));
        true
    }

    /// Gives the topmost page back, unless that leaves fewer than `floor` pages, or the page
    /// is appended to, or somebody holds it, or it has an entry that is not yet on disk.
    pub fn shrink(&mut self, floor: usize, arena: &mut WalArena) -> (shrunk: bool)
        requires
            old(self).inv(),
            old(arena).inv(),
            old(self).home_spec() is Some,
            old(self).home_spec()->0.settled(
                old(self)@.pages.len(),
                old(self)@.page_size,
                old(arena)@,
            ),
        ensures
            final(self).inv(),
            final(arena).inv(),
            final(self).home_spec() == old(self).home_spec(),
            final(self).home_spec()->0.settled(
                final(self)@.pages.len(),
                final(self)@.page_size,
                final(arena)@,
            ),
            ({
                let top = old(self)@.pages.len() - 1;
                &&& shrunk == old(self)@.may_shrink(floor as nat)
                &&& shrunk ==> final(self)@ == old(self)@.shrunk() && final(arena)@ == old(arena)@.with_slot(
                    old(self).home_spec()->0.first_slot + top,
                    POOL_FREE,
                    Some(old(self)@.pages[top]),
                )
                &&& !shrunk ==> final(self)@ == old(self)@ && final(arena)@ == old(arena)@
            }),
    {
        let ghost before = self@;
        let home: Home = match self.home {
            Some(home) => home,
            None => {
                return false;
            },
        };
        let n: usize = self.pages.len();
        let slots: usize = arena.page_count();
        if n <= floor || self.active == n - 1 || !self.pages[n - 1].reusable(self.min_essential_id) {
            return false;
        }
        match self.pages.pop() {
            Some(page) => {
                assert(page@ == before.pages[n - 1]);
                arena.put_page(home.first_slot + (n - 1), page, POOL_FREE);
                assert(self@.pages =~= before.pages.drop_last());
                true
            },
            None => false,
        }
    }

    /// Gives all pages back. The slots of reusable pages are free then; a page that somebody
    /// holds, or with an entry that is not yet on disk, stays with the ring id that had it.
    pub fn retire(self, arena: &mut WalArena)
        requires
            self.inv(),
            old(arena).inv(),
            self.home_spec() is Some,
            self.home_spec()->0.settled(self@.pages.len(), self@.page_size, old(arena)@),
        ensures
            final(arena).inv(),
            final(arena)@ == self.home_spec()->0.vacated(self@, old(arena)@),
    {
        let ghost ring = self@;
        let ghost before = arena@;
        let home: Home = match self.home {
            Some(home) => home,
            None => {
                return;
            },
        };
        let essential: u64 = self.min_essential_id;
        let slots: usize = arena.page_count();
        let mut pages: Vec<WalPage> = self.pages;
        let ghost all = home.vacated(ring, before);
        while pages.len() > 0
            invariant
                arena.inv(),
                ring.inv(),
                essential == ring.essential,
                home.settled(ring.pages.len(), ring.page_size, before),
                all == home.vacated(ring, before),
                home.first_slot + ring.pages.len() <= slots == before.slots.len(),
                pages@.len() <= ring.pages.len(),
                forall|k: int|
                    0 <= k < pages@.len() ==> (#[trigger] pages@[k]).inv() && pages@[k]@
                        == ring.pages[k],
                arena@.page_size == before.page_size,
                arena@.labels == before.labels,
                arena@.slots.len() == before.slots.len(),
                forall|k: int|
                    0 <= k < before.slots.len() ==> #[trigger] arena@.slots[k] == if home.first_slot
                        + pages@.len() <= k {
                        all.slots[k]
                    } else {
                        before.slots[k]
                    },
            decreases pages@.len(),
        {
            let k: usize = pages.len() - 1;
            let slot: usize = home.first_slot + k;
            if let Some(page) = pages.pop() {
                assert(page@ == ring.pages[k as int]);
                let owner: u64 = if page.reusable(essential) {
                    POOL_FREE
                } else {
                    home.ring_id
                };
                arena.put_page(slot, page, owner);
            }
        }
        assert(arena@.slots =~= all.slots);
    }
}

/// No page with an entry that is not on disk, or that somebody holds, gets free when its ring
/// is gone.
pub proof fn lemma_only_reusable_pages_get_free(home: Home, ring: RingView, arena: ArenaView, k: int)
    requires
        home.settled(ring.pages.len(), ring.page_size, arena),
        home.vacated(ring, arena).free(k),
        !arena.free(k),
    ensures
        home.first_slot <= k < home.first_slot + ring.pages.len(),
        ring.pages[k - home.first_slot].reusable(ring.essential),
{
}

/// A ring that is gone leaves its pages as they were in its slots, and those that may not be
/// discarded stay its own; every other slot stays as it is. A ring that comes takes its slots
/// and no others.
pub proof fn lemma_what_a_ring_leaves(home: Home, ring: RingView, arena: ArenaView, k: int)
    requires
        0 <= k < arena.slots.len(),
    ensures
        ({
            let mine = home.first_slot <= k < home.first_slot + ring.pages.len();
            let slot = home.vacated(ring, arena).slots[k];
            let page = ring.pages[k - home.first_slot];
            &&& mine ==> slot.page == Some(page)
            &&& mine ==> slot.owner == if page.pins == 0 && (page.records.len() == 0 || page.first
                + page.records.len() <= ring.essential) {
                POOL_FREE
            } else {
                home.ring_id
            }
            &&& !mine ==> slot == arena.slots[k]
            &&& home.vacated(ring, arena).slots.len() == arena.slots.len()
        }),
        ({
            let n = ring.pages.len();
            let slot = home.occupied(n, arena).slots[k];
            let mine = home.first_slot <= k < home.first_slot + n;
            &&& mine ==> slot.owner == home.ring_id && slot.page is None
            &&& !mine ==> slot == arena.slots[k]
        }),
{
}

/// A ring that begins anew holds nothing, and begins at its first id.
pub proof fn lemma_an_empty_ring_holds_nothing(page_count: nat, page_size: nat, first: nat, id: nat)
    requires
        page_count >= 1,
        MIN_PAGE_SIZE <= page_size <= u32::MAX,
    ensures
        ({
            let ring = empty_ring(page_count, page_size, first);
            &&& ring.inv()
            &&& ring.next_id == first
            &&& ring.pages.len() == page_count
            &&& ring.page_size == page_size
            &&& !ring.holds(id)
            &&& ring.is_empty()
            &&& ring.unpinned()
            &&& ring.essential == 0
            &&& ring.next_page_id == page_count
            &&& forall|k: int| 0 <= k < page_count ==> (#[trigger] ring.pages[k]).page_id == k
        }),
{
    let ring = empty_ring(page_count, page_size, first);
    assert forall|k: int| !#[trigger] ring.holds_at(k, id) by {
        if 0 <= k < ring.pages.len() {
            assert(ring.pages[k].records.len() == 0);
        }
    }
}

/// A ring that gives a page back keeps as many as it has to, and the one that it adds to; what
/// it loses is on disk and held by nobody. It gives none back only for one of these reasons.
pub proof fn lemma_what_a_smaller_ring_keeps(ring: RingView, floor: nat, id: nat)
    requires
        ring.inv(),
    ensures
        ring.may_shrink(floor) ==> {
            let after = ring.shrunk();
            &&& after.inv()
            &&& after.pages.len() >= floor
            &&& after.pages.len() == ring.pages.len() - 1
            &&& after.pages[after.active] == ring.pages[ring.active]
            &&& after.next_id == ring.next_id && after.essential == ring.essential
            &&& after.page_size == ring.page_size && after.next_page_id == ring.next_page_id
            &&& after.holds(id) ==> ring.holds(id)
            &&& ring.holds(id) && id >= ring.essential ==> after.holds(id)
            &&& ring.holds(id) && ring.pages[ring.page_of(id)].pins > 0 ==> after.holds(id)
        },
        !ring.may_shrink(floor) ==> ring.pages.len() <= floor || ring.active == ring.pages.len() - 1
            || ring.pages.last().pins > 0 || ring.holds((ring.pages.last().end() - 1) as nat)
            && ring.pages.last().end() - 1 >= ring.essential,
{
    let top = ring.pages.len() - 1;
    if ring.may_shrink(floor) {
        let after = ring.shrunk();
        assert forall|k: int| after.holds_at(k, id) implies ring.holds_at(k, id) by {}
        if after.holds(id) {
            let k = choose|k: int| after.holds_at(k, id);
            assert(ring.holds_at(k, id));
        }
        if ring.holds(id) && (id >= ring.essential || ring.pages[ring.page_of(id)].pins > 0) {
            let k = ring.page_of(id);
            assert(ring.holds_at(k, id));
            assert(k != top);
            assert(after.holds_at(k, id));
        }
    } else if ring.pages.len() > floor && ring.active != top && ring.pages[top].pins == 0 {
        assert(ring.holds_at(top, (ring.pages[top].end() - 1) as nat));
    }
}

/// A slot that a ring takes answers with none of what its last owner left there: the ring
/// holds what it held before.
pub proof fn lemma_a_taken_slot_is_empty(ring: RingView, slot: nat, id: nat)
    requires
        ring.inv(),
    ensures
        ({
            let grown = ring.grown(slot);
            &&& grown.inv()
            &&& grown.pages.len() == ring.pages.len() + 1
            &&& grown.vacant(ring.pages.len() as int)
            &&& grown.pages.last().page_id == slot && grown.pages.last().first == ring.next_id
                && grown.pages.last().size == ring.page_size
            &&& grown.page_size == ring.page_size && grown.next_page_id == ring.next_page_id
            &&& grown.next_id == ring.next_id && grown.active == ring.active && grown.essential
                == ring.essential
            &&& grown.holds(id) == ring.holds(id)
            &&& ring.holds(id) ==> grown.record_of(id) == ring.record_of(id)
        }),
{
    let grown = ring.grown(slot);
    if ring.holds(id) {
        let k = ring.page_of(id);
        assert(ring.holds_at(k, id));
        assert(grown.holds_at(k, id));
        lemma_one_page_holds(grown, k, id);
    }
    if grown.holds(id) {
        let k = grown.page_of(id);
        assert(grown.holds_at(k, id));
        assert(ring.holds_at(k, id));
    }
}

/// A pin count with one pin taken away, wrapping below zero.
pub open spec fn one_pin_fewer(pins: nat) -> nat {
    if pins == 0 {
        0xFFFF_FFFF
    } else {
        (pins - 1) as nat
    }
}

} // verus!
