//! One page of the log in memory: entries from the front, their offsets from the back.

use vstd::prelude::*;
use vstd::slice::slice_subrange;

use crate::le;
use crate::varint;
use crate::wal_entry_v1;
use crate::wal_entry_v1::WalEntryV1;

verus! {

/// Size of one slot of the offset table that grows down from the end of a page.
pub const OFFSET_SIZE: usize = 4;

/// The smallest page: one empty record and its offset.
pub const MIN_PAGE_SIZE: usize = 9;

/// The entries of `records`, one after the other.
pub open spec fn frames(records: Seq<Seq<u8>>) -> Seq<u8>
    decreases records.len(),
{
    if records.len() == 0 {
        Seq::empty()
    } else {
        frames(records.drop_last()) + wal_entry_v1::frame(records.last())
    }
}

/// A page as its readers see it.
#[verifier::ext_equal]
pub struct PageView {
    /// Size of the page in bytes.
    pub size: nat,
    /// The number that rotation stamped on the page.
    pub page_id: nat,
    /// Id of the first entry.
    pub first: nat,
    /// How many readers hold the page.
    pub pins: nat,
    /// The records, in the order of their ids.
    pub records: Seq<Seq<u8>>,
}

impl PageView {
    /// Bytes of the page that entries take.
    pub open spec fn used(self) -> nat {
        frames(self.records).len()
    }

    /// One past the last entry id.
    pub open spec fn end(self) -> nat {
        self.first + self.records.len()
    }

    /// Whether the page holds the entry `id`.
    pub open spec fn holds(self, id: nat) -> bool {
        self.first <= id < self.end()
    }

    /// The record of the entry `id`, where the page holds it.
    pub open spec fn record_of(self, id: nat) -> Seq<u8> {
        self.records[id - self.first]
    }

    /// Whether the entry of `record` and its offset still fit.
    pub open spec fn fits(self, record: Seq<u8>) -> bool {
        self.used() + 4 * self.records.len() + wal_entry_v1::frame(record).len() + 4 <= self.size
    }

    /// Whether the page may be discarded when ids below `essential` are on disk.
    pub open spec fn reusable(self, essential: nat) -> bool {
        self.pins == 0 && (self.records.len() == 0 || self.end() - 1 < essential)
    }

    /// The page with `record` after its last entry.
    pub open spec fn pushed(self, record: Seq<u8>) -> PageView {
        PageView { records: self.records.push(record), ..self }
    }

    /// The page emptied, under another number and first id.
    pub open spec fn reset(self, page_id: nat, first: nat) -> PageView {
        PageView { page_id, first, records: Seq::empty(), ..self }
    }
}

/// An empty page of `size` bytes that nobody holds.
pub open spec fn empty_page(size: nat, page_id: nat, first: nat) -> PageView {
    PageView { size, page_id, first, pins: 0, records: Seq::empty() }
}

/// A page may be discarded exactly if nobody holds it and every entry on it is on disk.
pub proof fn lemma_when_a_page_may_be_discarded(page: PageView, essential: nat)
    ensures
        page.reusable(essential) <==> page.pins == 0 && forall|id: nat| #[trigger]
            page.holds(id) ==> id < essential,
{
    if page.pins == 0 && page.records.len() > 0 {
        let last = (page.first + page.records.len() - 1) as nat;
        assert(page.holds(last));
    }
}

/// A page holds its records under consecutive ids from its first on; one more is held under the
/// next, and a page that is emptied holds none.
pub proof fn lemma_what_a_page_holds(page: PageView, record: Seq<u8>, i: int, id: nat, first: nat)
    requires
        0 <= i < page.records.len(),
    ensures
        page.holds((page.first + i) as nat),
        page.record_of((page.first + i) as nat) == page.records[i],
        page.holds(id) <==> page.first <= id < page.first + page.records.len(),
        page.pushed(record).record_of((page.first + i) as nat) == page.records[i],
        page.pushed(record).holds((page.first + page.records.len()) as nat),
        page.pushed(record).record_of((page.first + page.records.len()) as nat) == record,
        page.pushed(record).pins == page.pins,
        !page.reset(first, first).holds(id),
        page.reset(first, first).first == first,
{
}

pub proof fn lemma_frames_push(records: Seq<Seq<u8>>, record: Seq<u8>)
    ensures
        frames(records.push(record)) == frames(records) + wal_entry_v1::frame(record),
{
    assert(records.push(record).drop_last() =~= records);
}

pub proof fn lemma_frames_concat(a: Seq<Seq<u8>>, b: Seq<Seq<u8>>)
    ensures
        frames(a + b) == frames(a) + frames(b),
    decreases b.len(),
{
    if b.len() == 0 {
        assert(a + b =~= a);
        assert(frames(a) + frames(b) =~= frames(a));
    } else {
        assert((a + b).drop_last() =~= a + b.drop_last());
        lemma_frames_concat(a, b.drop_last());
        assert(frames(a + b) =~= frames(a) + frames(b));
    }
}

/// The `i`-th entry starts where the entries before it end.
pub proof fn lemma_frames_at(records: Seq<Seq<u8>>, i: int)
    requires
        0 <= i < records.len(),
    ensures
        ({
            let at = frames(records.take(i)).len();
            let n = wal_entry_v1::frame(records[i]).len();
            &&& at + n <= frames(records).len()
            &&& frames(records).subrange(at as int, at as int + n) == wal_entry_v1::frame(
                records[i],
            )
            &&& frames(records.take(i + 1)).len() == at + n
        }),
{
    let head = records.take(i);
    let tail = records.skip(i + 1);
    let one = seq![records[i]];
    assert(records =~= head.push(records[i]) + tail);
    lemma_frames_push(head, records[i]);
    lemma_frames_concat(head.push(records[i]), tail);
    assert(records.take(i + 1) =~= head.push(records[i]));
    let at = frames(head).len() as int;
    let n = wal_entry_v1::frame(records[i]).len();
    assert(frames(records).subrange(at, at + n) =~= wal_entry_v1::frame(records[i]));
}

pub proof fn lemma_frames_len(records: Seq<Seq<u8>>)
    ensures
        frames(records).len() >= 5 * records.len(),
    decreases records.len(),
{
    if records.len() > 0 {
        lemma_frames_len(records.drop_last());
        wal_entry_v1::lemma_frame_len(records.last());
    }
}

/// Puts `data` over the bytes of `buf` from `at` on.
fn overwrite(buf: &mut Vec<u8>, at: usize, data: &[u8])
    requires
        at + data@.len() <= old(buf)@.len(),
    ensures
        final(buf)@ == old(buf)@.take(at as int) + data@ + old(buf)@.skip(at + data@.len()),
{
    let ghost start = buf@;
    let n: usize = data.len();
    let size: usize = buf.len();
    let mut i: usize = 0;
    while i < n
        invariant
            i <= n == data@.len(),
            at + n <= size == start.len(),
            buf@.len() == start.len(),
            forall|k: int|
                0 <= k < start.len() ==> buf@[k] == if at <= k < at + i {
                    data@[k - at]
                } else {
                    start[k]
                },
        decreases n - i,
    {
        buf.set(at + i, data[i]);
        i = i + 1;
    }
    assert(buf@ =~= start.take(at as int) + data@ + start.skip(at + n));
}

/// One page of the log in memory.
pub struct WalPage {
    /// The whole page.
    buf: Vec<u8>,
    /// How far entries reach from the front.
    used: usize,
    /// How many entries there are.
    count: u32,
    page_id: u64,
    first_entry_id: u64,
    pin_count: u32,
    records: Ghost<Seq<Seq<u8>>>,
}

impl View for WalPage {
    type V = PageView;

    closed spec fn view(&self) -> PageView {
        PageView {
            size: self.buf@.len(),
            page_id: self.page_id as nat,
            first: self.first_entry_id as nat,
            pins: self.pin_count as nat,
            records: self.records@,
        }
    }
}

impl WalPage {
    /// Where the slot of entry `i` begins in a page of `size` bytes.
    spec fn slot(size: nat, i: int) -> int {
        size - 4 * (i + 1)
    }

    spec fn table_holds(buf: Seq<u8>, records: Seq<Seq<u8>>) -> bool {
        forall|i: int|
            #![trigger records.take(i)]
            0 <= i < records.len() ==> le::value(
                buf.subrange(Self::slot(buf.len(), i), Self::slot(buf.len(), i) + 4),
            ) == frames(records.take(i)).len()
    }

    /// The bytes of the page say what its view says.
    pub closed spec fn inv(&self) -> bool {
        let records = self.records@;
        &&& MIN_PAGE_SIZE <= self.buf@.len() <= u32::MAX
        &&& self.count as nat == records.len()
        &&& self.used as nat == frames(records).len()
        &&& self.used + 4 * self.count <= self.buf@.len()
        &&& self.buf@.take(self.used as int) == frames(records)
        &&& Self::table_holds(self.buf@, records)
        &&& self.first_entry_id + self.count <= u64::MAX
        &&& forall|i: int| 0 <= i < records.len() ==> (#[trigger] records[i]).len() <= u32::MAX
    }

    pub proof fn lemma_inv(&self)
        requires
            self.inv(),
        ensures
            MIN_PAGE_SIZE <= self@.size <= u32::MAX,
            self@.used() + 4 * self@.records.len() <= self@.size,
            self@.end() <= u64::MAX,
            self@.pins <= u32::MAX,
            self@.page_id <= u64::MAX,
            forall|i: int|
                0 <= i < self@.records.len() ==> (#[trigger] self@.records[i]).len() <= u32::MAX,
    {
    }

    /// An empty page.
    pub fn new(size: usize, page_id: u64, first_entry_id: u64) -> (page: WalPage)
        requires
            MIN_PAGE_SIZE <= size <= u32::MAX,
        ensures
            page.inv(),
            page@ == empty_page(size as nat, page_id as nat, first_entry_id as nat),
    {
        let mut buf: Vec<u8> = Vec::new();
        buf.resize(size, 0);
        let page = WalPage {
            buf,
            used: 0,
            count: 0,
            page_id,
            first_entry_id,
            pin_count: 0,
            records: Ghost(Seq::empty()),
        };
        assert(page.buf@.take(0) =~= frames(Seq::empty()));
        page
    }

    /// Empties the page and gives it another number and first id; nobody holds it.
    pub fn init(&mut self, page_id: u64, first_entry_id: u64)
        requires
            old(self).inv(),
        ensures
            final(self).inv(),
            final(self)@ == empty_page(old(self)@.size, page_id as nat, first_entry_id as nat),
    {
        self.used = 0;
        self.count = 0;
        self.page_id = page_id;
        self.first_entry_id = first_entry_id;
        self.pin_count = 0;
        self.records = Ghost(Seq::empty());
        assert(self.buf@.take(0) =~= frames(Seq::empty()));
    }

    /// Whether the entry of a record of `record_size` bytes would fit.
    pub fn has_room(&self, record_size: u32) -> (b: bool)
        requires
            self.inv(),
        ensures
            forall|record: Seq<u8>|
                record.len() == record_size ==> b == #[trigger] self@.fits(record),
    {
        let entry: u64 = varint::encoded_len(record_size as u64) as u64 + record_size as u64 + 4;
        let taken: u64 = self.used as u64 + 4 * (self.count as u64);
        proof {
            assert forall|record: Seq<u8>| record.len() == record_size implies (taken + entry + 4
                <= self.buf@.len()) == #[trigger] self@.fits(record) by {
                wal_entry_v1::lemma_frame_len(record);
            }
        }
        taken + entry + 4 <= self.buf.len() as u64
    }

    /// Appends `record`, which fits.
    pub fn append(&mut self, record: &[u8])
        requires
            old(self).inv(),
            record@.len() <= u32::MAX,
            old(self)@.fits(record@),
            old(self)@.end() < u64::MAX,
        ensures
            final(self).inv(),
            final(self)@ == old(self)@.pushed(record@),
    {
        let ghost records = self.records@;
        let ghost before = self.buf@;
        let ghost now = records.push(record@);
        let mut entry: Vec<u8> = Vec::new();
        wal_entry_v1::push_frame(&mut entry, record);
        assert(entry@ =~= wal_entry_v1::frame(record@));
        let mut slot: Vec<u8> = Vec::new();
        le::push(&mut slot, self.used as u64, OFFSET_SIZE);
        let size: usize = self.buf.len();
        let slot_at: usize = size - 4 * (self.count as usize + 1);
        proof {
            assert(slot@ =~= le::bytes(self.used as nat, 4));
            le::lemma_bytes_len(self.used as nat, 4);
            le::lemma_span_values();
            le::lemma_value_of_bytes(self.used as nat, 4);
            lemma_frames_push(records, record@);
            lemma_frames_len(now);
        }
        overwrite(&mut self.buf, self.used, entry.as_slice());
        let ghost mid = self.buf@;
        overwrite(&mut self.buf, slot_at, slot.as_slice());
        proof {
            let end = (self.used + entry@.len()) as int;
            assert(self.buf@.take(end) =~= before.take(self.used as int) + entry@);
            assert(self.buf@.len() == before.len());
            assert forall|i: int|
                #![trigger now.take(i)]
                0 <= i < now.len() implies le::value(
                self.buf@.subrange(Self::slot(size as nat, i), Self::slot(size as nat, i) + 4),
            ) == frames(now.take(i)).len() by {
                let at = Self::slot(size as nat, i);
                if i < records.len() {
                    assert(now.take(i) =~= records.take(i));
                    assert(self.buf@.subrange(at, at + 4) =~= before.subrange(at, at + 4));
                } else {
                    assert(now.take(i) =~= records);
                    assert(self.buf@.subrange(at, at + 4) =~= slot@);
                }
            }
        }
        self.used = self.used + entry.len();
        self.count = self.count + 1;
        self.records = Ghost(now);
    }

    /// The record of the `index`-th entry, where there is one.
    pub fn record(&self, index: u32) -> (r: Option<&[u8]>)
        requires
            self.inv(),
        ensures
            match r {
                Some(record) => index < self@.records.len() && record@ == self@.records[index as int],
                None => index >= self@.records.len(),
            },
    {
        if index >= self.count {
            return None;
        }
        let size: usize = self.buf.len();
        let slot: usize = size - 4 * (index as usize + 1);
        let whole: &[u8] = self.buf.as_slice();
        let offset: usize = le::read(whole, slot, OFFSET_SIZE) as usize;
        let ghost records = self.records@;
        proof {
            assert(records.take(index as int).len() == index);
            lemma_frames_at(records, index as int);
        }
        let framed: &[u8] = slice_subrange(whole, offset, size);
        proof {
            let f = wal_entry_v1::frame(records[index as int]);
            let stream = frames(records);
            assert(self.buf@.take(self.used as int).subrange(offset as int, offset + f.len())
                =~= self.buf@.subrange(offset as int, offset + f.len()));
            assert(framed@ =~= f + framed@.skip(f.len() as int));
            wal_entry_v1::lemma_parse_of_frame(
                records[index as int],
                framed@.skip(f.len() as int),
            );
        }
        match WalEntryV1::from_bytes(framed) {
            Ok((entry, _)) => Some(entry.record),
            Err(_) => None,
        }
    }

    /// The entries of the page, without the offset table.
    pub fn bytes(&self) -> (b: &[u8])
        requires
            self.inv(),
        ensures
            b@ == frames(self@.records),
    {
        let b: &[u8] = slice_subrange(self.buf.as_slice(), 0, self.used);
        assert(b@ =~= self.buf@.take(self.used as int));
        b
    }

    pub fn len(&self) -> (n: u32)
        requires
            self.inv(),
        ensures
            n as nat == self@.records.len(),
    {
        self.count
    }

    pub fn used(&self) -> (n: usize)
        requires
            self.inv(),
        ensures
            n as nat == self@.used(),
    {
        self.used
    }

    pub fn size(&self) -> (n: usize)
        ensures
            n as nat == self@.size,
    {
        self.buf.len()
    }

    pub fn first_entry_id(&self) -> (id: u64)
        ensures
            id as nat == self@.first,
    {
        self.first_entry_id
    }

    /// One past the last entry id.
    pub fn end(&self) -> (id: u64)
        requires
            self.inv(),
        ensures
            id as nat == self@.end(),
    {
        self.first_entry_id + self.count as u64
    }

    pub fn pin_count(&self) -> (n: u32)
        ensures
            n as nat == self@.pins,
    {
        self.pin_count
    }

    /// Whether the page may be discarded when ids below `min_essential_id` are on disk.
    pub fn reusable(&self, min_essential_id: u64) -> (b: bool)
        requires
            self.inv(),
        ensures
            b == self@.reusable(min_essential_id as nat),
    {
        self.pin_count == 0 && (self.count == 0 || self.first_entry_id + (self.count as u64 - 1)
            < min_essential_id)
    }

    /// One more reader holds the page. The count wraps.
    pub fn pin(&mut self)
        requires
            old(self).inv(),
        ensures
            final(self).inv(),
            final(self)@ == (PageView { pins: (old(self)@.pins + 1) % 0x1_0000_0000, ..old(self)@ }),
    {
        if self.pin_count == u32::MAX {
            self.pin_count = 0;
        } else {
            self.pin_count = self.pin_count + 1;
        }
    }

    /// One reader fewer holds the page. The count wraps.
    pub fn unpin(&mut self)
        requires
            old(self).inv(),
        ensures
            final(self).inv(),
            final(self)@ == (PageView {
                pins: if old(self)@.pins == 0 {
                    0xFFFF_FFFF
                } else {
                    (old(self)@.pins - 1) as nat
                },
                ..old(self)@
            }),
    {
        if self.pin_count == 0 {
            self.pin_count = u32::MAX;
        } else {
            self.pin_count = self.pin_count - 1;
        }
    }
}

} // verus!
