//! One arena of pages, shared by every queue in the process.
//!
//! A slot of the arena has one owner: a ring, or nobody. A ring holds a contiguous range of
//! slots and grows into the slot directly above it and nowhere else.

use std::collections::HashMap;
use vstd::prelude::*;

use crate::text;
use crate::wal_page;
use crate::wal_page::{PageView, WalPage, MIN_PAGE_SIZE};

verus! {

/// The owner of a slot that no ring holds.
pub const POOL_FREE: u64 = 0xFFFF_FFFF_FFFF_FFFF;

/// A contiguous run of slots handed to one ring.
#[derive(Debug, Clone, Copy, PartialEq, Eq, Structural)]
pub struct SlotRange {
    pub first_slot: usize,
    pub page_count: usize,
}

impl SlotRange {
    /// Whether slot `k` is in the range.
    pub open spec fn contains(self, k: int) -> bool {
        self.first_slot <= k < self.first_slot + self.page_count
    }
}

/// A slot: who owns it, and its page unless the owner has taken it.
#[verifier::ext_equal]
pub struct SlotView {
    pub owner: u64,
    pub page: Option<PageView>,
}

/// An arena as its users see it.
#[verifier::ext_equal]
pub struct ArenaView {
    pub page_size: nat,
    pub slots: Seq<SlotView>,
    /// The names of rings.
    pub labels: Map<u64, Seq<char>>,
}

impl ArenaView {
    /// What holds of every arena: the pages have one size, and a free slot has its page.
    pub open spec fn inv(self) -> bool {
        &&& MIN_PAGE_SIZE <= self.page_size <= u32::MAX
        &&& forall|k: int|
            0 <= k < self.slots.len() ==> match (#[trigger] self.slots[k]).page {
                Some(page) => page.size == self.page_size,
                None => self.slots[k].owner != POOL_FREE,
            }
    }

    /// Whether slot `k` exists and nobody owns it.
    pub open spec fn free(self, k: int) -> bool {
        0 <= k < self.slots.len() && self.slots[k].owner == POOL_FREE
    }

    /// Whether the `len` slots from `start` on are free, and neither the slot under them nor
    /// the slot above them is.
    pub open spec fn gap(self, start: int, len: int) -> bool {
        &&& 0 < len
        &&& forall|k: int| start <= k < start + len ==> #[trigger] self.free(k)
        &&& !self.free(start - 1)
        &&& !self.free(start + len)
    }

    /// Whether this gap is the widest, and the lowest of those.
    pub open spec fn widest_gap(self, start: int, len: int) -> bool {
        self.gap(start, len) && forall|s: int, l: int| #[trigger]
            self.gap(s, l) ==> l < len || l == len && start <= s
    }

    /// The slot at which a range of `pages` goes in the gap: half of the room that stays is
    /// left below, for the range that ends there, if there is one.
    pub open spec fn place(start: int, len: int, pages: int) -> int {
        if start > 0 {
            start + (len - pages) / 2
        } else {
            start
        }
    }

    /// The arena with the slots of `range` emptied and given to `ring_id`.
    pub open spec fn reserved(self, range: SlotRange, ring_id: u64, first: nat) -> ArenaView {
        ArenaView {
            slots: Seq::new(
                self.slots.len(),
                |k: int|
                    if range.contains(k) {
                        SlotView {
                            owner: ring_id,
                            page: Some(wal_page::empty_page(self.page_size, k as nat, first)),
                        }
                    } else {
                        self.slots[k]
                    },
            ),
            ..self
        }
    }

    /// The arena with slot `k` set.
    pub open spec fn with_slot(self, k: int, owner: u64, page: Option<PageView>) -> ArenaView {
        ArenaView { slots: self.slots.update(k, SlotView { owner, page }), ..self }
    }

    /// The arena with nobody owning the slots of `range`.
    pub open spec fn released(self, range: SlotRange) -> ArenaView {
        ArenaView {
            slots: Seq::new(
                self.slots.len(),
                |k: int|
                    if range.contains(k) {
                        SlotView { owner: POOL_FREE, ..self.slots[k] }
                    } else {
                        self.slots[k]
                    },
            ),
            ..self
        }
    }

    /// What a ring is called.
    pub open spec fn name_of(self, ring_id: u64) -> Seq<char> {
        if self.labels.contains_key(ring_id) {
            self.labels[ring_id]
        } else {
            "ring "@ + text::decimal(ring_id as nat)
        }
    }

    /// Whether `out` names every ring that owns slots once, with how many it owns, those with
    /// the most slots first and equals by name. `ids` are the rings in the order of `out`.
    pub open spec fn lists_holders(self, ids: Seq<u64>, out: Seq<(String, usize)>) -> bool {
        &&& ids.len() == out.len()
        &&& ids.no_duplicates()
        &&& forall|id: u64| #[trigger] ids.contains(id) <==> id != POOL_FREE && held(self.slots, id) > 0
        &&& forall|i: int|
            0 <= i < out.len() ==> (#[trigger] out[i]).0@ == self.name_of(ids[i]) && out[i].1
                == held(self.slots, ids[i])
        &&& forall|i: int, j: int|
            0 <= i < j < out.len() ==> holder_le(#[trigger] out[i], #[trigger] out[j])
    }
}

/// How many of `slots` the ring `id` owns.
pub open spec fn held(slots: Seq<SlotView>, id: u64) -> nat
    decreases slots.len(),
{
    if slots.len() == 0 {
        0
    } else {
        held(slots.drop_last(), id) + if slots.last().owner == id {
            1nat
        } else {
            0nat
        }
    }
}

/// Whether holder `a` is listed no later than `b`.
pub open spec fn holder_le(a: (String, usize), b: (String, usize)) -> bool {
    a.1 > b.1 || a.1 == b.1 && text::text_le(a.0@, b.0@)
}

/// As many slots are held by a ring as have it as their owner.
pub proof fn lemma_held_counts_owners(slots: Seq<SlotView>, id: u64)
    ensures
        held(slots, id) == slots.filter(|slot: SlotView| slot.owner == id).len(),
    decreases slots.len(),
{
    reveal(Seq::filter);
    if slots.len() > 0 {
        lemma_held_counts_owners(slots.drop_last(), id);
    }
}

/// A range lies within its gap. The first in an arena keeps all the room above it; any other
/// has room on both sides, as evenly as it can be.
pub proof fn lemma_where_a_range_goes(start: int, len: int, pages: int)
    requires
        0 <= start,
        0 <= pages <= len,
    ensures
        ({
            let at = ArenaView::place(start, len, pages);
            let below = at - start;
            let above = start + len - (at + pages);
            &&& start <= at && at + pages <= start + len
            &&& start == 0 ==> below == 0
            &&& start > 0 ==> below <= above <= below + 1
        }),
{
}

/// The widest gap is free, is bounded by slots that are not, and no other run of free slots is
/// wider.
pub proof fn lemma_no_free_run_is_wider(arena: ArenaView, start: int, len: int, a: int, b: int)
    requires
        arena.widest_gap(start, len),
        0 <= a <= b <= arena.slots.len(),
        forall|k: int| a <= k < b ==> (#[trigger] arena.slots[k]).owner == POOL_FREE,
    ensures
        b - a <= len,
        b - a == len ==> start <= a,
        0 <= start && start + len <= arena.slots.len(),
        forall|k: int| start <= k < start + len ==> (#[trigger] arena.slots[k]).owner == POOL_FREE,
{
    assert forall|k: int| start <= k < start + len implies (#[trigger] arena.slots[k]).owner
        == POOL_FREE by {
        assert(arena.free(k));
    }
    assert(arena.free(start));
    assert(arena.free(start + len - 1));
    if a < b {
        let low = lemma_gap_begins(arena, a);
        let high = lemma_gap_ends(arena, a);
        assert(arena.gap(low, high - low)) by {
            assert forall|k: int| low <= k < high implies #[trigger] arena.free(k) by {}
        }
        if high < b {
            assert(arena.slots[high].owner == POOL_FREE);
            assert(arena.free(high));
        }
    }
}

proof fn lemma_gap_begins(arena: ArenaView, k: int) -> (low: int)
    requires
        arena.free(k),
    ensures
        0 <= low <= k,
        forall|j: int| low <= j <= k ==> #[trigger] arena.free(j),
        !arena.free(low - 1),
    decreases k,
{
    if arena.free(k - 1) {
        lemma_gap_begins(arena, k - 1)
    } else {
        k
    }
}

proof fn lemma_gap_ends(arena: ArenaView, k: int) -> (high: int)
    requires
        arena.free(k),
    ensures
        k < high <= arena.slots.len(),
        forall|j: int| k <= j < high ==> #[trigger] arena.free(j),
        !arena.free(high),
    decreases arena.slots.len() - k,
{
    if arena.free(k + 1) {
        lemma_gap_ends(arena, k + 1)
    } else {
        k + 1
    }
}

/// What a ring gets are empty pages that begin at its first id; every other slot stays as it
/// is.
pub proof fn lemma_reserved_pages_are_empty(
    arena: ArenaView,
    range: SlotRange,
    ring_id: u64,
    first: nat,
    k: int,
)
    requires
        0 <= k < arena.slots.len(),
    ensures
        ({
            let slot = arena.reserved(range, ring_id, first).slots[k];
            let mine = range.first_slot <= k < range.first_slot + range.page_count;
            &&& mine ==> slot.owner == ring_id && slot.page is Some && slot.page->0.records.len() == 0
                && slot.page->0.first == first && slot.page->0.pins == 0 && slot.page->0.size
                == arena.page_size && slot.page->0.page_id == k
            &&& !mine ==> slot == arena.slots[k]
            &&& arena.reserved(range, ring_id, first).page_size == arena.page_size
        }),
        ({
            let slot = arena.released(range).slots[k];
            let mine = range.first_slot <= k < range.first_slot + range.page_count;
            &&& mine ==> slot.owner == POOL_FREE && slot.page == arena.slots[k].page
            &&& !mine ==> slot == arena.slots[k]
            &&& arena.released(range).slots.len() == arena.slots.len()
            &&& arena.released(range).labels == arena.labels
        }),
{
}

/// A ring is called by its label, or else by its number.
pub proof fn lemma_what_a_ring_is_called(arena: ArenaView, ring_id: u64)
    ensures
        arena.labels.contains_key(ring_id) ==> arena.name_of(ring_id) == arena.labels[ring_id],
        !arena.labels.contains_key(ring_id) ==> arena.name_of(ring_id) == "ring "@ + text::decimal(
            ring_id as nat,
        ),
{
}

/// Holders are listed by how much they hold, the greatest first, and by name where they hold as
/// much; each is listed once, and nobody who holds a slot is left out.
pub proof fn lemma_holders_are_listed_by_size(
    arena: ArenaView,
    ids: Seq<u64>,
    out: Seq<(String, usize)>,
    k: int,
)
    requires
        arena.lists_holders(ids, out),
        0 <= k < arena.slots.len(),
    ensures
        forall|i: int, j: int|
            0 <= i < j < out.len() ==> (#[trigger] out[i]).1 >= (#[trigger] out[j]).1,
        forall|i: int, j: int|
            0 <= i < j < out.len() && (#[trigger] out[i]).1 == (#[trigger] out[j]).1
                ==> text::text_le(out[i].0@, out[j].0@),
        arena.slots[k].owner != POOL_FREE ==> exists|i: int|
            0 <= i < out.len() && #[trigger] ids[i] == arena.slots[k].owner && out[i].1
                == arena.slots.filter(|slot: SlotView| slot.owner == ids[i]).len(),
{
    assert forall|i: int, j: int| 0 <= i < j < out.len() implies (#[trigger] out[i]).1 >= (
    #[trigger] out[j]).1 by {
        assert(holder_le(out[i], out[j]));
    }
    assert forall|i: int, j: int|
        0 <= i < j < out.len() && (#[trigger] out[i]).1 == (
        #[trigger] out[j]).1 implies text::text_le(out[i].0@, out[j].0@) by {
        assert(holder_le(out[i], out[j]));
    }
    if arena.slots[k].owner != POOL_FREE {
        let id = arena.slots[k].owner;
        lemma_held_of_owner(arena.slots, k);
        assert(ids.contains(id));
        let i = ids.index_of(id);
        lemma_held_counts_owners(arena.slots, ids[i]);
        assert(out[i].1 == held(arena.slots, ids[i]));
    }
}

proof fn lemma_held_bound(slots: Seq<SlotView>, id: u64)
    ensures
        held(slots, id) <= slots.len(),
    decreases slots.len(),
{
    if slots.len() > 0 {
        lemma_held_bound(slots.drop_last(), id);
    }
}

proof fn lemma_held_of_owner(slots: Seq<SlotView>, k: int)
    requires
        0 <= k < slots.len(),
    ensures
        held(slots, slots[k].owner) > 0,
    decreases slots.len(),
{
    if k < slots.len() - 1 {
        lemma_held_of_owner(slots.drop_last(), k);
    }
}

proof fn lemma_holder_of_held(slots: Seq<SlotView>, id: u64) -> (k: int)
    requires
        held(slots, id) > 0,
    ensures
        0 <= k < slots.len(),
        slots[k].owner == id,
    decreases slots.len(),
{
    if slots.last().owner == id {
        slots.len() - 1
    } else {
        lemma_holder_of_held(slots.drop_last(), id)
    }
}

proof fn lemma_held_moves(
    before: Seq<SlotView>,
    after: Seq<SlotView>,
    a: int,
    b: int,
    from: u64,
    to: u64,
    other: u64,
)
    requires
        before.len() == after.len(),
        0 <= a <= b <= before.len(),
        from != to,
        other != from,
        other != to,
        forall|k: int|
            0 <= k < before.len() ==> if a <= k < b {
                (#[trigger] before[k]).owner == from && after[k].owner == to
            } else {
                after[k].owner == before[k].owner
            },
    ensures
        held(after, to) == held(before, to) + (b - a),
        held(after, from) == held(before, from) - (b - a),
        held(after, other) == held(before, other),
    decreases before.len(),
{
    if before.len() > 0 {
        let n = before.len() - 1;
        let top = if b > n {
            n
        } else {
            b
        };
        let low = if a > n {
            n
        } else {
            a
        };
        assert forall|k: int| 0 <= k < n implies if low <= k < top {
            (#[trigger] before.drop_last()[k]).owner == from && after.drop_last()[k].owner == to
        } else {
            after.drop_last()[k].owner == before.drop_last()[k].owner
        } by {
            assert(before.drop_last()[k] == before[k]);
        }
        assert(before[n as int].owner == before.last().owner);
        lemma_held_moves(before.drop_last(), after.drop_last(), low, top, from, to, other);
    }
}

/// Reserving moves pages from nobody to a ring: no page is made or lost, and no other ring
/// loses or gains one.
pub proof fn lemma_reserving_moves_pages(
    arena: ArenaView,
    range: SlotRange,
    ring_id: u64,
    first: nat,
    other: u64,
)
    requires
        ring_id != POOL_FREE,
        other != ring_id,
        other != POOL_FREE,
        range.first_slot + range.page_count <= arena.slots.len(),
        forall|k: int| range.contains(k) ==> #[trigger] arena.free(k),
    ensures
        ({
            let after = arena.reserved(range, ring_id, first).slots;
            &&& after.len() == arena.slots.len()
            &&& held(after, ring_id) == held(arena.slots, ring_id) + range.page_count
            &&& held(after, POOL_FREE) == held(arena.slots, POOL_FREE) - range.page_count
            &&& held(after, other) == held(arena.slots, other)
        }),
{
    let after = arena.reserved(range, ring_id, first).slots;
    assert forall|k: int| 0 <= k < arena.slots.len() implies if range.first_slot <= k
        < range.first_slot + range.page_count {
        (#[trigger] arena.slots[k]).owner == POOL_FREE && after[k].owner == ring_id
    } else {
        after[k].owner == arena.slots[k].owner
    } by {
        if range.contains(k) {
            assert(arena.free(k));
        }
    }
    lemma_held_moves(
        arena.slots,
        after,
        range.first_slot as int,
        range.first_slot + range.page_count,
        POOL_FREE,
        ring_id,
        other,
    );
}

/// Releasing moves pages from their ring to nobody: no page is made or lost, and no other
/// ring loses or gains one.
pub proof fn lemma_releasing_moves_pages(
    arena: ArenaView,
    range: SlotRange,
    ring_id: u64,
    other: u64,
)
    requires
        ring_id != POOL_FREE,
        other != ring_id,
        other != POOL_FREE,
        range.first_slot + range.page_count <= arena.slots.len(),
        forall|k: int| range.contains(k) ==> (#[trigger] arena.slots[k]).owner == ring_id,
    ensures
        ({
            let after = arena.released(range).slots;
            &&& after.len() == arena.slots.len()
            &&& held(after, POOL_FREE) == held(arena.slots, POOL_FREE) + range.page_count
            &&& held(after, ring_id) == held(arena.slots, ring_id) - range.page_count
            &&& held(after, other) == held(arena.slots, other)
        }),
{
    let after = arena.released(range).slots;
    lemma_held_moves(
        arena.slots,
        after,
        range.first_slot as int,
        range.first_slot + range.page_count,
        ring_id,
        POOL_FREE,
        other,
    );
}

struct Slot {
    owner: u64,
    page: Option<WalPage>,
}

impl View for Slot {
    type V = SlotView;

    closed spec fn view(&self) -> SlotView {
        SlotView {
            owner: self.owner,
            page: match self.page {
                Some(page) => Some(page@),
                None => None,
            },
        }
    }
}

/// The process-wide page arena.
pub struct WalArena {
    slots: Vec<Slot>,
    page_size: usize,
    labels: HashMap<u64, String>,
}

impl View for WalArena {
    type V = ArenaView;

    closed spec fn view(&self) -> ArenaView {
        ArenaView {
            page_size: self.page_size as nat,
            slots: Seq::new(self.slots@.len(), |k: int| self.slots@[k]@),
            labels: Map::new(|id: u64| self.labels@.contains_key(id), |id: u64| self.labels@[id]@),
        }
    }
}

impl WalArena {
    /// The view is that of an arena, and every page holds what its view says.
    pub closed spec fn inv(&self) -> bool {
        &&& self@.inv()
        &&& forall|k: int|
            0 <= k < self.slots@.len() ==> match (#[trigger] self.slots@[k]).page {
                Some(page) => page.inv(),
                None => true,
            }
    }

    pub proof fn lemma_inv(&self)
        requires
            self.inv(),
        ensures
            self@.inv(),
    {
    }

    /// `page_count` pages of `page_size` bytes, all free.
    pub fn new(page_count: usize, page_size: usize) -> (arena: WalArena)
        requires
            page_count >= 1,
            MIN_PAGE_SIZE <= page_size <= u32::MAX,
        ensures
            arena.inv(),
            arena@ == (ArenaView {
                page_size: page_size as nat,
                slots: Seq::new(
                    page_count as nat,
                    |k: int| SlotView {
                        owner: POOL_FREE,
                        page: Some(wal_page::empty_page(page_size as nat, k as nat, 0)),
                    },
                ),
                labels: Map::empty(),
            }),
    {
        let mut slots: Vec<Slot> = Vec::new();
        let mut k: usize = 0;
        while k < page_count
            invariant
                k <= page_count,
                k == slots@.len(),
                MIN_PAGE_SIZE <= page_size <= u32::MAX,
                forall|j: int|
                    0 <= j < k ==> {
                        &&& (#[trigger] slots@[j]).owner == POOL_FREE
                        &&& slots@[j].page is Some
                        &&& slots@[j].page->0.inv()
                        &&& slots@[j].page->0@ == wal_page::empty_page(page_size as nat, j as nat, 0)
                    },
            decreases page_count - k,
        {
            slots.push(Slot { owner: POOL_FREE, page: Some(WalPage::new(page_size, k as u64, 0)) });
            k = k + 1;
        }
        let arena = WalArena { slots, page_size, labels: HashMap::new() };
        assert(arena@.slots =~= Seq::new(
            page_count as nat,
            |k: int| SlotView {
                owner: POOL_FREE,
                page: Some(wal_page::empty_page(page_size as nat, k as nat, 0)),
            },
        ));
        assert(arena@.labels =~= Map::empty());
        arena
    }

    pub fn page_size(&self) -> (n: usize)
        ensures
            n as nat == self@.page_size,
    {
        self.page_size
    }

    pub fn page_count(&self) -> (n: usize)
        ensures
            n as nat == self@.slots.len(),
    {
        self.slots.len()
    }

    /// Who owns slot `slot`, or [`POOL_FREE`].
    pub fn owner_of(&self, slot: usize) -> (owner: u64)
        requires
            slot < self@.slots.len(),
        ensures
            owner == self@.slots[slot as int].owner,
    {
        self.slots[slot].owner
    }

    /// The run of free slots that `slot` is in, as its start and its length.
    fn gap_at(&self, slot: usize) -> (r: (usize, usize))
        requires
            self.inv(),
            self@.free(slot as int),
        ensures
            self@.gap(r.0 as int, r.1 as int),
            r.0 <= slot < r.0 + r.1 <= self@.slots.len(),
    {
        let n: usize = self.slots.len();
        let mut start: usize = slot;
        while start > 0 && self.slots[start - 1].owner == POOL_FREE
            invariant
                start <= slot < n == self.slots@.len() == self@.slots.len(),
                forall|k: int| start <= k <= slot ==> #[trigger] self@.free(k),
            decreases start,
        {
            assert(self@.free(start - 1));
            start = start - 1;
        }
        let mut end: usize = slot;
        while end < n && self.slots[end].owner == POOL_FREE
            invariant
                slot <= end <= n == self.slots@.len() == self@.slots.len(),
                forall|k: int| slot <= k < end ==> #[trigger] self@.free(k),
            decreases n - end,
        {
            assert(self@.free(end as int));
            end = end + 1;
        }
        (start, end - start)
    }

    /// The widest run of free slots and its length, the lowest of those.
    fn largest_gap(&self) -> (r: Option<(usize, usize)>)
        requires
            self.inv(),
        ensures
            match r {
                Some((start, len)) => self@.widest_gap(start as int, len as int) && start + len
                    <= self@.slots.len(),
                None => forall|k: int| !#[trigger] self@.free(k),
            },
    {
        let ghost arena = self@;
        let n: usize = self.slots.len();
        let mut best: Option<(usize, usize)> = None;
        let mut k: usize = 0;
        while k < n
            invariant
                self.inv(),
                arena == self@,
                k <= n == arena.slots.len(),
                !arena.free(k - 1) || !arena.free(k as int),
                best is Some ==> {
                    &&& arena.gap((best->0).0 as int, (best->0).1 as int)
                    &&& (best->0).0 < k
                    &&& (best->0).0 + (best->0).1 <= n
                    &&& forall|s: int, l: int| #[trigger]
                        arena.gap(s, l) && s < k ==> l < (best->0).1 || l == (best->0).1 && (best->0).0 <= s
                },
                best is None ==> forall|j: int| 0 <= j < k ==> !#[trigger] arena.free(j),
            decreases n - k,
        {
            if self.slots[k].owner != POOL_FREE {
                assert(!arena.free(k as int));
                proof {
                    assert forall|s: int, l: int| #[trigger] arena.gap(s, l) && s < k + 1 implies s
                        < k by {
                        if s == k {
                            assert(arena.free(s));
                        }
                    }
                }
                k = k + 1;
            } else {
                assert(arena.free(k as int));
                let (start, len): (usize, usize) = self.gap_at(k);
                assert(start == k) by {
                    if start < k {
                        assert(arena.free(k - 1));
                    }
                }
                proof {
                    assert forall|s: int, l: int| #[trigger]
                        arena.gap(s, l) && s < k + len implies s < k || s == k && l == len by {
                        if s > k {
                            assert(arena.free(s - 1));
                        }
                        if s == k {
                            if l < len {
                                assert(arena.free(s + l));
                            }
                            if l > len {
                                assert(arena.free(k + len));
                            }
                        }
                    }
                    if best is None {
                        assert forall|s: int, l: int| #[trigger] arena.gap(s, l) && s < k implies false by {
                            assert(arena.free(s));
                        }
                    }
                }
                let wider: bool = match best {
                    Some((_, best_len)) => len > best_len,
                    None => true,
                };
                if wider {
                    best = Some((k, len));
                }
                k = k + len;
            }
        }
        proof {
            assert forall|s: int, l: int| #[trigger] arena.gap(s, l) implies s < k by {
                assert(arena.free(s));
            }
        }
        best
    }

    /// Reserves `pages` slots for `ring_id`, empty and with ids from `first_entry_id` on.
    /// `None` if no gap is that wide.
    ///
    /// The range goes in the widest gap. Half of the room that stays is left below it, for
    /// the range that ends where the gap begins; the rest stays above. The first range in an
    /// empty arena keeps all of it above.
    pub fn reserve(&mut self, pages: usize, ring_id: u64, first_entry_id: u64) -> (r: Option<SlotRange>)
        requires
            old(self).inv(),
            ring_id != POOL_FREE,
        ensures
            final(self).inv(),
            match r {
                Some(range) => {
                    &&& range.page_count == pages
                    &&& range.first_slot + pages <= old(self)@.slots.len()
                    &&& forall|k: int| range.contains(k) ==> #[trigger] old(self)@.free(k)
                    &&& final(self)@ == old(self)@.reserved(range, ring_id, first_entry_id as nat)
                    &&& exists|start: int, len: int|
                        {
                            &&& #[trigger] old(self)@.widest_gap(start, len)
                            &&& len >= pages
                            &&& range.first_slot == ArenaView::place(start, len, pages as int)
                        }
                },
                None => {
                    &&& forall|start: int, len: int| #[trigger] old(self)@.gap(start, len) ==> len < pages
                    &&& final(self)@ == old(self)@
                },
            },
    {
        let ghost before = self@;
        let (start, len): (usize, usize) = match self.largest_gap() {
            Some((s, l)) => (s, l),
            None => {
                proof {
                    assert forall|s: int, l: int| #[trigger] before.gap(s, l) implies false by {
                        assert(before.free(s));
                    }
                }
                return None;
            },
        };
        if len < pages {
            return None;
        }
        let n: usize = self.slots.len();
        let below: usize = if start > 0 {
            (len - pages) / 2
        } else {
            0
        };
        let first_slot: usize = start + below;
        let range = SlotRange { first_slot, page_count: pages };
        assert(forall|k: int| range.contains(k) ==> #[trigger] before.free(k)) by {
            assert forall|k: int| range.contains(k) implies #[trigger] before.free(k) by {
                assert(start <= k < start + len);
            }
        }
        let ghost after = before.reserved(range, ring_id, first_entry_id as nat);
        let mut k: usize = 0;
        while k < pages
            invariant
                k <= pages,
                range == (SlotRange { first_slot, page_count: pages }),
                first_slot + pages <= n == self.slots@.len() == before.slots.len(),
                ring_id != POOL_FREE,
                before.inv(),
                forall|k: int| range.contains(k) ==> #[trigger] before.free(k),
                after == before.reserved(range, ring_id, first_entry_id as nat),
                self@.page_size == before.page_size,
                self@.labels == before.labels,
                forall|j: int|
                    0 <= j < self.slots@.len() ==> match (#[trigger] self.slots@[j]).page {
                        Some(page) => page.inv(),
                        None => true,
                    },
                forall|j: int|
                    0 <= j < self.slots@.len() ==> (#[trigger] self.slots@[j])@ == if first_slot <= j
                        < first_slot + k {
                        after.slots[j]
                    } else {
                        before.slots[j]
                    },
            decreases pages - k,
        {
            let slot: usize = first_slot + k;
            assert(range.contains(slot as int));
            assert(before.free(slot as int));
            assert(self.slots@[slot as int]@ == before.slots[slot as int]);
            let mut taken = Slot { owner: ring_id, page: None };
            std::mem::swap(&mut taken, &mut self.slots[slot]);
            let ghost seen = taken@;
            match taken.page {
                Some(mut page) => {
                    page.init(slot as u64, first_entry_id);
                    self.slots[slot] = Slot { owner: ring_id, page: Some(page) };
                },
                None => {},
            }
            assert(self.slots@[slot as int]@ == after.slots[slot as int]);
            k = k + 1;
        }
        assert(self@.slots =~= after.slots);
        assert(before.widest_gap(start as int, len as int));
        Some(range)
    }

    /// Hands a whole range back, for a queue that is shutting down.
    ///
    /// `min_essential_id` is the durable watermark of the queue: a page that somebody holds,
    /// or with an entry that is not yet on disk, cannot be handed back. A slot of the range
    /// that is free already stays free.
    pub fn release(&mut self, range: SlotRange, ring_id: u64, min_essential_id: u64)
        requires
            old(self).inv(),
            range.first_slot + range.page_count <= old(self)@.slots.len(),
            forall|k: int|
                range.contains(k) ==> {
                    let slot = #[trigger] old(self)@.slots[k];
                    slot.owner == POOL_FREE || slot.owner == ring_id && slot.page is Some
                        && slot.page->0.reusable(min_essential_id as nat)
                },
        ensures
            final(self).inv(),
            final(self)@ == old(self)@.released(range),
    {
        let ghost before = self@;
        let n: usize = self.slots.len();
        let mut k: usize = 0;
        while k < range.page_count
            invariant
                k <= range.page_count,
                range.first_slot + range.page_count <= n == self.slots@.len() == before.slots.len(),
                before.inv(),
                self@.page_size == before.page_size,
                self@.labels == before.labels,
                forall|j: int| range.contains(j) ==> (#[trigger] before.slots[j]).page is Some,
                forall|j: int|
                    0 <= j < self.slots@.len() ==> match (#[trigger] self.slots@[j]).page {
                        Some(page) => page.inv(),
                        None => true,
                    },
                forall|j: int|
                    0 <= j < self.slots@.len() ==> (#[trigger] self.slots@[j])@ == if range.first_slot
                        <= j < range.first_slot + k {
                        before.released(range).slots[j]
                    } else {
                        before.slots[j]
                    },
            decreases range.page_count - k,
        {
            let slot: usize = range.first_slot + k;
            assert(range.contains(slot as int));
            assert(self.slots@[slot as int]@ == before.slots[slot as int]);
            let mut given = Slot { owner: POOL_FREE, page: None };
            std::mem::swap(&mut given, &mut self.slots[slot]);
            self.slots[slot] = Slot { owner: POOL_FREE, page: given.page };
            k = k + 1;
        }
        assert(self@.slots =~= before.released(range).slots);
    }

    /// The lowest free slot.
    pub fn any_free_slot(&self) -> (r: Option<usize>)
        ensures
            match r {
                Some(slot) => self@.free(slot as int) && forall|k: int| #[trigger]
                    self@.free(k) ==> slot <= k,
                None => forall|k: int| !#[trigger] self@.free(k),
            },
    {
        let mut k: usize = 0;
        while k < self.slots.len()
            invariant
                k <= self.slots@.len() == self@.slots.len(),
                forall|j: int| 0 <= j < k ==> !#[trigger] self@.free(j),
            decreases self.slots@.len() - k,
        {
            if self.slots[k].owner == POOL_FREE {
                assert(self@.free(k as int));
                return Some(k);
            }
            k = k + 1;
        }
        None
    }

    /// How many slots the ring `id` owns.
    fn held_by(&self, id: u64) -> (n: usize)
        ensures
            n == held(self@.slots, id),
    {
        let ghost slots = self@.slots;
        let mut n: usize = 0;
        let mut k: usize = 0;
        assert(slots.take(0) =~= Seq::empty());
        while k < self.slots.len()
            invariant
                slots == self@.slots,
                k <= self.slots@.len() == slots.len(),
                n == held(slots.take(k as int), id),
                n <= k,
            decreases self.slots@.len() - k,
        {
            assert(slots.take(k + 1).drop_last() =~= slots.take(k as int));
            assert(slots[k as int] == self.slots@[k as int]@);
            if self.slots[k].owner == id {
                n = n + 1;
            }
            k = k + 1;
        }
        assert(slots.take(k as int) =~= slots);
        n
    }

    /// How many slots no ring holds.
    pub fn free_pages(&self) -> (n: usize)
        ensures
            n == held(self@.slots, POOL_FREE),
    {
        self.held_by(POOL_FREE)
    }

    /// Names a ring, for [`WalArena::holders`].
    pub fn set_label(&mut self, ring_id: u64, label: &str)
        requires
            old(self).inv(),
        ensures
            final(self).inv(),
            final(self)@ == (ArenaView {
                labels: old(self)@.labels.insert(ring_id, label@),
                ..old(self)@
            }),
    {
        broadcast use vstd::std_specs::hash::group_hash_axioms;

        let ghost before = self@;
        self.labels.insert(ring_id, label.to_owned());
        assert(self@.labels =~= before.labels.insert(ring_id, label@));
    }

    /// Forgets the name of a ring.
    pub fn forget_label(&mut self, ring_id: u64)
        requires
            old(self).inv(),
        ensures
            final(self).inv(),
            final(self)@ == (ArenaView { labels: old(self)@.labels.remove(ring_id), ..old(self)@ }),
    {
        broadcast use vstd::std_specs::hash::group_hash_axioms;

        let ghost before = self@;
        self.labels.remove(&ring_id);
        assert(self@.labels =~= before.labels.remove(ring_id));
    }

    /// What a ring is called.
    fn name(&self, ring_id: u64) -> (name: String)
        ensures
            name@ == self@.name_of(ring_id),
    {
        broadcast use vstd::std_specs::hash::group_hash_axioms;

        match self.labels.get(&ring_id) {
            Some(label) => label.clone(),
            None => {
                let mut name: String = "ring ".to_owned();
                text::push_decimal(&mut name, ring_id);
                name
            },
        }
    }

    /// Who holds the arena, as names and slots held, most slots first and equals by name.
    pub fn holders(&self) -> (out: Vec<(String, usize)>)
        ensures
            exists|ids: Seq<u64>| #[trigger] self@.lists_holders(ids, out@),
    {
        let ghost arena = self@;
        let mut out: Vec<(String, usize)> = Vec::new();
        let mut seen: Vec<u64> = Vec::new();
        let ghost mut ids: Seq<u64> = Seq::empty();
        let mut k: usize = 0;
        while k < self.slots.len()
            invariant
                arena == self@,
                k <= self.slots@.len() == arena.slots.len(),
                ids.len() == out@.len(),
                ids.no_duplicates(),
                forall|id: u64| #[trigger] ids.contains(id) <==> seen@.contains(id),
                forall|id: u64| #[trigger]
                    ids.contains(id) ==> id != POOL_FREE && held(arena.slots, id) > 0,
                forall|j: int|
                    0 <= j < k && (#[trigger] arena.slots[j]).owner != POOL_FREE ==> ids.contains(
                        arena.slots[j].owner,
                    ),
                forall|i: int|
                    0 <= i < out@.len() ==> (#[trigger] out@[i]).0@ == arena.name_of(ids[i])
                        && out@[i].1 == held(arena.slots, ids[i]),
                forall|i: int, j: int|
                    0 <= i < j < out@.len() ==> holder_le(#[trigger] out@[i], #[trigger] out@[j]),
            decreases self.slots@.len() - k,
        {
            let owner: u64 = self.slots[k].owner;
            assert(arena.slots[k as int].owner == owner);
            let known: bool = has(&seen, owner);
            if owner != POOL_FREE && !known {
                proof {
                    lemma_held_of_owner(arena.slots, k as int);
                }
                let holder: (String, usize) = (self.name(owner), self.held_by(owner));
                let ghost was = out@;
                let ghost was_ids = ids;
                let at: usize = insert_holder(&mut out, holder);
                proof {
                    ids = was_ids.insert(at as int, owner);
                    assert(forall|id: u64| #[trigger]
                        ids.contains(id) <==> was_ids.contains(id) || id == owner) by {
                        assert forall|id: u64| #[trigger] ids.contains(id) <==> was_ids.contains(id)
                            || id == owner by {
                            if ids.contains(id) {
                                let i = ids.index_of(id);
                                if i < at {
                                    assert(was_ids[i] == id);
                                } else if i > at {
                                    assert(was_ids[i - 1] == id);
                                }
                            }
                            if was_ids.contains(id) {
                                let i = was_ids.index_of(id);
                                if i < at {
                                    assert(ids[i] == id);
                                } else {
                                    assert(ids[i + 1] == id);
                                }
                            }
                            if id == owner {
                                assert(ids[at as int] == owner);
                            }
                        }
                    }
                    assert forall|i: int, j: int|
                        0 <= i < ids.len() && 0 <= j < ids.len() && i != j implies ids[i]
                        != ids[j] by {
                        let a = if i < at {
                            i
                        } else {
                            i - 1
                        };
                        let b = if j < at {
                            j
                        } else {
                            j - 1
                        };
                        if i == at {
                            assert(was_ids.contains(was_ids[b]));
                        } else if j == at {
                            assert(was_ids.contains(was_ids[a]));
                        }
                    }
                }
                let ghost was_seen = seen@;
                seen.push(owner);
                proof {
                    assert forall|id: u64| #[trigger] ids.contains(id) <==> seen@.contains(id) by {
                        if was_seen.contains(id) {
                            let i = was_seen.index_of(id);
                            assert(seen@[i] == id);
                        }
                        if id == owner {
                            assert(seen@[was_seen.len() as int] == id);
                        }
                        if seen@.contains(id) {
                            let i = seen@.index_of(id);
                            if i < was_seen.len() {
                                assert(was_seen[i] == id);
                            }
                        }
                    }
                }
            }
            k = k + 1;
        }
        proof {
            assert forall|id: u64| id != POOL_FREE && held(arena.slots, id) > 0 implies #[trigger] ids.contains(
            id) by {
                let j = lemma_holder_of_held(arena.slots, id);
                assert(arena.slots[j].owner == id);
            }
            assert(arena.lists_holders(ids, out@));
        }
        out
    }

    /// Takes the page of slot `slot` out of the arena, for the ring `ring_id`.
    pub(crate) fn take_page(&mut self, slot: usize, ring_id: u64) -> (page: WalPage)
        requires
            old(self).inv(),
            slot < old(self)@.slots.len(),
            old(self)@.slots[slot as int].page is Some,
            ring_id != POOL_FREE,
        ensures
            final(self).inv(),
            page.inv(),
            page@ == old(self)@.slots[slot as int].page->0,
            final(self)@ == old(self)@.with_slot(slot as int, ring_id, None),
    {
        let ghost before = self@;
        let mut taken = Slot { owner: ring_id, page: None };
        std::mem::swap(&mut taken, &mut self.slots[slot]);
        assert(taken@ == before.slots[slot as int]);
        assert(self@.slots =~= before.with_slot(slot as int, ring_id, None).slots);
        match taken.page {
            Some(page) => page,
            None => vstd::pervasive::unreached(),
        }
    }

    /// Puts a page back into slot `slot`, which `owner` then owns.
    pub(crate) fn put_page(&mut self, slot: usize, page: WalPage, owner: u64)
        requires
            old(self).inv(),
            slot < old(self)@.slots.len(),
            page.inv(),
            page@.size == old(self)@.page_size,
        ensures
            final(self).inv(),
            final(self)@ == old(self)@.with_slot(slot as int, owner, Some(page@)),
    {
        let ghost before = self@;
        let ghost view = page@;
        self.slots[slot] = Slot { owner, page: Some(page) };
        assert(self@.slots =~= before.with_slot(slot as int, owner, Some(view)).slots);
    }
}

/// Whether `ids` holds `id`.
fn has(ids: &Vec<u64>, id: u64) -> (b: bool)
    ensures
        b == ids@.contains(id),
{
    let mut i: usize = 0;
    while i < ids.len()
        invariant
            i <= ids@.len(),
            forall|j: int| 0 <= j < i ==> ids@[j] != id,
        decreases ids@.len() - i,
    {
        if ids[i] == id {
            return true;
        }
        i = i + 1;
    }
    false
}

/// Puts a holder into the ordered list `out`, from behind, and says where.
fn insert_holder(out: &mut Vec<(String, usize)>, holder: (String, usize)) -> (at: usize)
    requires
        forall|i: int, j: int|
            0 <= i < j < old(out)@.len() ==> holder_le(
                #[trigger] old(out)@[i],
                #[trigger] old(out)@[j],
            ),
    ensures
        at <= old(out)@.len(),
        final(out)@ == old(out)@.insert(at as int, holder),
        forall|i: int, j: int|
            0 <= i < j < final(out)@.len() ==> holder_le(
                #[trigger] final(out)@[i],
                #[trigger] final(out)@[j],
            ),
{
    let ghost before = out@;
    let mut at: usize = out.len();
    while at > 0 && !is_holder_le(&out[at - 1], &holder)
        invariant
            at <= out@.len(),
            out@ == before,
            forall|i: int| at <= i < out@.len() ==> holder_le(holder, #[trigger] out@[i]),
        decreases at,
    {
        proof {
            text::lemma_bytes_le_total(
                vstd::utf8::encode_utf8(out@[at - 1].0@),
                vstd::utf8::encode_utf8(holder.0@),
            );
        }
        at = at - 1;
    }
    proof {
        assert forall|i: int| 0 <= i < at implies holder_le(#[trigger] out@[i], holder) by {
            let last = out@[at - 1];
            if i < at - 1 && out@[i].1 == last.1 && last.1 == holder.1 {
                text::lemma_bytes_le_transitive(
                    vstd::utf8::encode_utf8(out@[i].0@),
                    vstd::utf8::encode_utf8(last.0@),
                    vstd::utf8::encode_utf8(holder.0@),
                );
            }
        }
    }
    out.insert(at, holder);
    at
}

/// Whether holder `a` is listed no later than `b`.
fn is_holder_le(a: &(String, usize), b: &(String, usize)) -> (r: bool)
    ensures
        r == holder_le(*a, *b),
{
    a.1 > b.1 || a.1 == b.1 && text::is_text_le(a.0.as_str(), b.0.as_str())
}

} // verus!
