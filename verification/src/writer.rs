//! Writing entries in the order of their ids, and deciding where files end.

use bytes::{Bytes, BytesMut};
use vstd::prelude::*;

use crate::buf;
use crate::errors::WalError;
use crate::le;
use crate::page_pool;
use crate::page_pool::{FileFill, PendingWrite, Placement, PoolView, RotateHint};
use crate::reader;
use crate::reader::{BodyView, Found};
use crate::uintn::UintN;
use crate::varint;
use crate::wal_entry;
use crate::wal_entry_v1;
use crate::wal_entry_v1::WalEntryV1Error;
use crate::wal_header;
use crate::wal_header::{HeaderView, WalHeader, MAX_FIELD_WIDTH};
use crate::wal_header_v1;
use crate::wal_header_v1::{AnyWalHeaderError, WalHeaderV1, WalHeaderV1Error};
use crate::wal_page;

verus! {

/// An entry that is to be written.
#[derive(Debug)]
pub struct QueuedEntry {
    pub id: UintN,
    pub data: Bytes,
    pub placement: Placement,
}

/// Entries that wait for those before them.
pub struct OrderedBuffer {
    next: UintN,
    waiting: Vec<QueuedEntry>,
}

/// The ids of `entries`.
pub open spec fn ids(entries: Seq<QueuedEntry>) -> Seq<nat> {
    Seq::new(entries.len(), |i: int| entries[i].id@)
}

impl OrderedBuffer {
    /// The id that is written next.
    pub closed spec fn next(&self) -> nat {
        self.next@
    }

    /// The entries that wait, in the order of their ids.
    pub closed spec fn waiting(&self) -> Seq<QueuedEntry> {
        self.waiting@
    }

    pub open spec fn inv(&self) -> bool {
        &&& ordered(self.waiting())
        &&& forall|i: int| 0 <= i < self.waiting().len() ==> (#[trigger] self.waiting()[i]).id@
            > self.next()
    }

    /// Whether an entry with this id is taken: it is not written, and none with the id waits.
    pub open spec fn takes(&self, id: nat) -> bool {
        id >= self.next() && !ids(self.waiting()).contains(id)
    }

    /// A buffer for the entries after `last_entry_id`, or from zero on.
    pub fn new(last_entry_id: &Option<UintN>) -> (b: OrderedBuffer)
        ensures
            b.inv(),
            b.waiting() == Seq::<QueuedEntry>::empty(),
            b.next() == match last_entry_id {
                Some(id) => id@ + 1,
                None => 0,
            },
    {
        let next: UintN = match last_entry_id {
            Some(id) => id.increment(),
            None => UintN::zero(),
        };
        OrderedBuffer { next, waiting: Vec::new() }
    }

    /// Whether the entry `id` is the next to write.
    pub fn can_write(&self, id: &UintN) -> (b: bool)
        ensures
            b == (id@ == self.next()),
    {
        !id.is_below(&self.next) && !self.next.is_below(id)
    }

    /// Where an entry with this id belongs among those that wait: behind those below it.
    /// `None` if one with the id waits.
    fn slot(&self, id: &UintN) -> (r: Option<usize>)
        requires
            self.inv(),
        ensures
            match r {
                Some(at) => {
                    &&& at <= self.waiting().len()
                    &&& !ids(self.waiting()).contains(id@)
                    &&& forall|i: int|
                        0 <= i < at ==> (#[trigger] self.waiting()[i]).id@ < id@
                    &&& forall|i: int|
                        at <= i < self.waiting().len() ==> (#[trigger] self.waiting()[i]).id@ > id@
                },
                None => ids(self.waiting()).contains(id@),
            },
    {
        let mut at: usize = self.waiting.len();
        while at > 0 && id.is_below(&self.waiting[at - 1].id)
            invariant
                at <= self.waiting@.len(),
                forall|i: int|
                    at <= i < self.waiting@.len() ==> (#[trigger] self.waiting@[i]).id@ > id@,
            decreases at,
        {
            at = at - 1;
        }
        if at > 0 && !self.waiting[at - 1].id.is_below(id) {
            assert(ids(self.waiting@)[at - 1] == id@);
            return None;
        }
        proof {
            assert forall|i: int| 0 <= i < at implies (#[trigger] self.waiting()[i]).id@ < id@ by {
                if i < at - 1 {
                    assert(self.waiting()[i].id@ < self.waiting()[at - 1].id@);
                }
            }
            assert forall|i: int| 0 <= i < self.waiting().len() implies #[trigger] ids(
                self.waiting(),
            )[i] != id@ by {
                assert(self.waiting()[i].id@ != id@);
            }
        }
        Some(at)
    }

    /// Gives out the entries that nothing is missing before.
    fn release(&mut self) -> (ready: Vec<QueuedEntry>)
        requires
            ordered(old(self).waiting()),
            forall|i: int|
                0 <= i < old(self).waiting().len() ==> (#[trigger] old(self).waiting()[i]).id@
                    >= old(self).next(),
        ensures
            final(self).inv(),
            ready@ + final(self).waiting() == old(self).waiting(),
            final(self).next() == old(self).next() + ready@.len(),
            forall|i: int| 0 <= i < ready@.len() ==> (#[trigger] ready@[i]).id@ == old(self).next() + i,
            old(self).waiting().len() > 0 && old(self).waiting()[0].id@ == old(self).next()
                ==> ready@.len() > 0,
    {
        let ghost all = self.waiting@;
        let ghost first = self.next@;
        let mut ready: Vec<QueuedEntry> = Vec::new();
        assert(ready@ + self.waiting@ =~= all);
        while self.waiting.len() > 0 && self.can_write(&self.waiting[0].id)
            invariant
                ordered(all),
                forall|i: int| 0 <= i < all.len() ==> (#[trigger] all[i]).id@ >= first,
                ready@ + self.waiting@ == all,
                self.next@ == first + ready@.len(),
                forall|i: int| 0 <= i < ready@.len() ==> (#[trigger] ready@[i]).id@ == first + i,
            decreases self.waiting@.len(),
        {
            let ghost was = self.waiting@;
            let ghost given = ready@;
            let entry: QueuedEntry = self.waiting.remove(0);
            ready.push(entry);
            self.next = self.next.increment();
            assert(ready@ + self.waiting@ =~= given + was);
        }
        proof {
            let n = ready@.len() as int;
            assert forall|i: int| 0 <= i < self.waiting@.len() implies (
            #[trigger] self.waiting@[i]).id@ > self.next@ by {
                assert(all[n + i] == self.waiting@[i]);
                assert(all[n] == self.waiting@[0]);
                if n > 0 {
                    assert(all[n - 1] == ready@[n - 1]);
                    assert(all[n - 1].id@ < all[n].id@);
                }
                if i > 0 {
                    assert(all[n].id@ < all[n + i].id@);
                }
            }
            assert forall|i: int, j: int| 0 <= i < j < self.waiting@.len() implies (
            #[trigger] self.waiting@[i]).id@ < (#[trigger] self.waiting@[j]).id@ by {
                assert(all[n + i] == self.waiting@[i]);
                assert(all[n + j] == self.waiting@[j]);
            }
            if n == 0 && all.len() > 0 {
                assert(all[0] == self.waiting@[0]);
            }
        }
        ready
    }

    /// Takes an entry, and gives out those that are ready, in the order of their ids.
    ///
    /// An entry whose id is written already, or waits already, is dropped.
    pub fn wait_for_order(&mut self, entry: QueuedEntry) -> (ready: Vec<QueuedEntry>)
        requires
            old(self).inv(),
        ensures
            final(self).inv(),
            final(self).next() == old(self).next() + ready@.len(),
            forall|i: int| 0 <= i < ready@.len() ==> (#[trigger] ready@[i]).id@ == old(self).next() + i,
            old(self).takes(entry.id@) ==> ready@.to_multiset().add(
                final(self).waiting().to_multiset(),
            ) == old(self).waiting().to_multiset().insert(entry),
            !old(self).takes(entry.id@) ==> ready@.len() == 0 && final(self).waiting() == old(
                self
            ).waiting(),
            ready@.len() > 0 <==> entry.id@ == old(self).next(),
    {
        let ghost before = *self;
        let ghost given = entry;
        if entry.id.is_below(&self.next) {
            return Vec::new();
        }
        let at: usize = match self.slot(&entry.id) {
            Some(at) => at,
            None => {
                proof {
                    let i = ids(before.waiting()).index_of(entry.id@);
                    assert(before.waiting()[i].id@ == entry.id@);
                }
                return Vec::new();
            },
        };
        self.waiting.insert(at, entry);
        let ghost all = self.waiting@;
        proof {
            lemma_inserted_in_order(before.waiting(), at as int, given);
            assert(all[at as int] == given);
            if at > 0 {
                assert(all[0] == before.waiting()[0]);
            }
        }
        let ready: Vec<QueuedEntry> = self.release();
        proof {
            vstd::seq_lib::lemma_multiset_commutative(ready@, self.waiting@);
            if ready@.len() > 0 {
                assert(ready@[0] == (ready@ + self.waiting@)[0]);
            }
        }
        ready
    }
}

/// Whether the ids of `entries` grow.
pub open spec fn ordered(entries: Seq<QueuedEntry>) -> bool {
    forall|i: int, j: int|
        0 <= i < j < entries.len() ==> (#[trigger] entries[i]).id@ < (#[trigger] entries[j]).id@
}

proof fn lemma_inserted_in_order(entries: Seq<QueuedEntry>, at: int, entry: QueuedEntry)
    requires
        ordered(entries),
        0 <= at <= entries.len(),
        forall|i: int| 0 <= i < at ==> (#[trigger] entries[i]).id@ < entry.id@,
        forall|i: int| at <= i < entries.len() ==> (#[trigger] entries[i]).id@ > entry.id@,
    ensures
        ordered(entries.insert(at, entry)),
        entries.insert(at, entry).to_multiset() == entries.to_multiset().insert(entry),
        forall|i: int|
            0 <= i < entries.len() + 1 ==> (#[trigger] entries.insert(at, entry)[i]) == if i < at {
                entries[i]
            } else if i == at {
                entry
            } else {
                entries[i - 1]
            },
{
    vstd::seq_lib::to_multiset_insert(entries, at, entry);
}

/// How a file and its entries are written.
#[derive(Debug, Clone, Copy, PartialEq, Eq, Structural)]
pub enum WalEntryFormat {
    /// Entries with ids, in fields of the widths that the header gives.
    V0,
    /// Entries without ids, of any width.
    V1,
}

impl Default for WalEntryFormat {
    fn default() -> (format: Self)
        ensures
            format == WalEntryFormat::V1,
    {
        WalEntryFormat::V1
    }
}

impl WalEntryFormat {
    /// Whether a file can begin with this header.
    pub open spec fn opens(self, header: HeaderView) -> bool {
        match self {
            WalEntryFormat::V0 => wal_header::encodable(header),
            WalEntryFormat::V1 => wal_header_v1::valid(header),
        }
    }

    /// The bytes that a file with this header begins with.
    pub open spec fn header(self, header: HeaderView) -> Seq<u8> {
        match self {
            WalEntryFormat::V0 => wal_header::encode(header),
            WalEntryFormat::V1 => wal_header_v1::encode(header),
        }
    }

    /// Why no file can begin with this header.
    pub open spec fn header_error(self, header: HeaderView) -> AnyWalHeaderError {
        match self {
            WalEntryFormat::V0 => AnyWalHeaderError::V0(wal_header::encode_error(header)),
            WalEntryFormat::V1 => AnyWalHeaderError::V1(
                if header.before > u64::MAX {
                    WalHeaderV1Error::ValueTooLarge
                } else {
                    wal_header_v1::width_error(header.data_size, header.id_size)
                },
            ),
        }
    }

    /// Whether a file with this header takes an entry with a record of `len` bytes.
    pub open spec fn takes(self, header: HeaderView, id: nat, len: nat) -> bool {
        match self {
            WalEntryFormat::V0 => {
                &&& wal_header::valid_width(header.data_size)
                &&& wal_header::valid_width(header.id_size)
                &&& wal_entry::fits(id, len, header.id_size, header.data_size)
            },
            WalEntryFormat::V1 => len <= u32::MAX,
        }
    }

    /// The bytes of an entry, in a file with this header.
    pub open spec fn entry(self, header: HeaderView, id: nat, record: Seq<u8>) -> Seq<u8> {
        match self {
            WalEntryFormat::V0 => wal_entry::frame(id, record, header.id_size, header.data_size),
            WalEntryFormat::V1 => wal_entry_v1::frame(record),
        }
    }

    /// The bytes that a file with this header begins with.
    pub fn header_bytes(&self, header: &WalHeader) -> (r: Result<Bytes, AnyWalHeaderError>)
        ensures
            match r {
                Ok(b) => self.opens(header@) && buf::shown(b) == self.header(header@),
                Err(e) => !self.opens(header@) && e == self.header_error(header@),
            },
    {
        let mut out: BytesMut = buf::empty();
        match self {
            WalEntryFormat::V0 => {
                if let Err(e) = header.write_to_bytes(&mut out) {
                    return Err(AnyWalHeaderError::V0(e));
                }
            },
            WalEntryFormat::V1 => {
                let v1: WalHeaderV1 = match WalHeaderV1::from_v0(header) {
                    Ok(h) => h,
                    Err(e) => {
                        return Err(AnyWalHeaderError::V1(e));
                    },
                };
                if let Err(e) = v1.write_to_bytes(&mut out) {
                    return Err(AnyWalHeaderError::V1(e));
                }
            },
        }
        let b: Bytes = buf::freeze(out);
        assert(buf::shown(b) =~= self.header(header@));
        Ok(b)
    }

    /// The bytes of an entry, in a file with this header that takes it.
    pub fn entry_bytes(&self, header: &WalHeader, id: &UintN, data: &Bytes) -> (b: Bytes)
        requires
            self.takes(header@, id@, buf::shown(*data).len()),
        ensures
            buf::shown(b) == self.entry(header@, id@, buf::shown(*data)),
    {
        let mut out: Vec<u8> = Vec::new();
        match self {
            WalEntryFormat::V0 => {
                wal_entry::push_frame(
                    &mut out,
                    id,
                    buf::as_slice(data),
                    header.id_size_bytes as usize,
                    header.data_size_bytes as usize,
                );
            },
            WalEntryFormat::V1 => {
                wal_entry_v1::push_frame(&mut out, buf::as_slice(data));
            },
        }
        assert(out@ =~= self.entry(header@, id@, buf::shown(*data)));
        buf::copied(out.as_slice())
    }
}

/// Where an entry goes.
#[derive(Debug, Clone, Copy, PartialEq, Eq, Structural)]
pub enum Decision {
    /// Into the open file.
    Stay,
    /// Into the next file.
    Rotate,
    /// Into the open file if it has room for this many bytes, else into the next.
    AskRoom(u64),
}

/// How far the entry at the front has come.
#[derive(Debug, Clone, Copy, PartialEq, Eq, Structural)]
pub enum Stage {
    /// It is not decided where it goes.
    Begin,
    /// It is decided whether it goes into the next file.
    Decided(bool),
    /// The file before its own is closed, and its own is not open.
    Opening,
}

/// What is to be done for the entry at the front.
#[derive(Debug, Clone, Copy, PartialEq, Eq, Structural)]
pub enum Doing {
    /// There is no entry to write.
    Rest,
    /// Ask whether the open file has room for this many bytes.
    Ask(u64),
    /// Tell that the record was charged to another file than this one.
    Tell(u64),
    /// Close the open file.
    Close,
    /// Open the next file.
    Open,
    /// Add the entry to the open file.
    Write,
    /// The record is too wide for an entry.
    RefuseRecord(WalEntryV1Error),
    /// No file can begin with the header of the next file.
    RefuseHeader(AnyWalHeaderError),
}

/// What to do next.
#[derive(Debug)]
pub enum WriteStep {
    /// Nothing: every entry that is in order is written.
    Rest,
    /// Ask whether the open file has room for this many bytes.
    AskRoom(u64),
    /// Tell that the entry `id` was charged to the file `charged` in place of `expected`: its
    /// file may hold entries under wrong ids.
    Tell { id: UintN, charged: u64, expected: u64 },
    /// Close the open file. It is complete.
    CloseFile,
    /// Open the file that the writer is on, which begins with these bytes.
    OpenFile(Bytes),
    /// Add an entry to the open file.
    Write { id: UintN, bytes: Bytes, in_pool: bool },
    /// Say that the entry at the front cannot be written.
    Refuse(WalError),
}

/// How many bytes a file has, and how many it may have.
#[derive(Debug, Clone, Copy, PartialEq, Eq, Structural)]
pub struct FileRoom {
    pub used: u64,
    pub max: u64,
}

impl FileRoom {
    /// Whether `n` bytes more fit.
    pub open spec fn fits(self, n: u64) -> bool {
        page_pool::capped_sum(self.used, n) <= self.max
    }

    /// The file with `n` bytes more.
    pub open spec fn with(self, n: u64) -> FileRoom {
        FileRoom { used: page_pool::capped_sum(self.used, n), max: self.max }
    }

    /// Whether `n` bytes more fit.
    pub fn can_add(&self, n: u64) -> (b: bool)
        ensures
            b == self.fits(n),
    {
        self.used.saturating_add(n) <= self.max
    }

    /// Counts `n` bytes more, which the file takes whether they fit or not.
    pub fn add(&mut self, n: u64)
        ensures
            *final(self) == old(self).with(n),
    {
        self.used = self.used.saturating_add(n);
    }
}

/// Bytes fit exactly if the file is then no larger than it may be, and are all counted; a file
/// is never counted beyond what a count can say.
pub proof fn lemma_how_room_is_counted(room: FileRoom, a: u64, b: u64)
    ensures
        room.used + a <= u64::MAX ==> (room.fits(a) <==> room.used + a <= room.max) && room.with(
            a,
        ).used == room.used + a,
        room.used + a > u64::MAX ==> (room.fits(a) <==> room.max == u64::MAX) && room.with(a).used
            == u64::MAX,
        room.with(a).max == room.max,
        room.with(a).with(b) == room.with(b).with(a),
        room.fits(a) <==> room.with(a).used <= room.max,
{
}

/// What came of it.
#[derive(Debug, Clone, Copy, PartialEq, Eq, Structural)]
pub enum WriteReport {
    Done,
    /// Whether the open file has room.
    Room(bool),
    Failed,
}

/// A writer as its users see it.
#[verifier::ext_equal]
pub struct WriterView {
    pub format: WalEntryFormat,
    /// The file that is written.
    pub file: nat,
    pub header: HeaderView,
    /// Whether the file holds an entry.
    pub has_written: bool,
    /// The place of the next entry in the file.
    pub index: nat,
    /// How many files were opened before.
    pub epoch: nat,
    /// Entries in order that are to be written.
    pub ready: Seq<QueuedEntry>,
    pub stage: Stage,
    /// The id after those that are ready.
    pub next: nat,
    /// Entries that wait for those before them.
    pub waiting: Seq<QueuedEntry>,
}

impl WriterView {
    /// Where an entry of `len` bytes with this hint goes.
    ///
    /// With a pool the decision was taken before the record entered a page, and is carried
    /// out. Without one, a file that holds something ends where the next entry has no room.
    pub open spec fn decision(self, len: nat, hint: RotateHint) -> Decision {
        match hint {
            RotateHint::Before => Decision::Rotate,
            RotateHint::Keep => Decision::Stay,
            RotateHint::WriterDecides => if self.has_written {
                Decision::AskRoom(
                    if self.entry_len(len) > u64::MAX {
                        u64::MAX
                    } else {
                        self.entry_len(len) as u64
                    },
                )
            } else {
                Decision::Stay
            },
        }
    }

    /// How many bytes an entry with a record of `len` bytes takes.
    pub open spec fn entry_len(self, len: nat) -> nat {
        match self.format {
            WalEntryFormat::V0 => self.header.id_size + self.header.data_size + 8 + len,
            WalEntryFormat::V1 => varint::encode(len).len() + len + 4,
        }
    }

    /// The file that the pool should have charged a record to, under this hint.
    pub open spec fn charged(self, hint: RotateHint) -> Option<nat> {
        match hint {
            RotateHint::WriterDecides => None,
            RotateHint::Before => Some(self.epoch + 1),
            RotateHint::Keep => Some(self.epoch),
        }
    }

    /// The file that a record should have been charged to, where it was charged to another.
    pub open spec fn diverged(self, placement: Placement) -> Option<nat> {
        match self.charged(placement.rotate) {
            Some(e) if e != placement.epoch => Some(e),
            _ => None,
        }
    }

    /// Whether the open file takes the entry at the front.
    pub open spec fn takes_front(self) -> bool {
        self.ready.len() > 0 && self.format.takes(
            self.header,
            self.ready[0].id@,
            buf::shown(self.ready[0].data).len(),
        )
    }

    /// What is to be done for the entry at the front.
    pub open spec fn doing(self) -> Doing {
        if self.ready.len() == 0 {
            Doing::Rest
        } else {
            let entry = self.ready[0];
            let len = buf::shown(entry.data).len();
            let takes = self.format.takes(self.header, entry.id@, len);
            if self.format == WalEntryFormat::V1 && !takes {
                Doing::RefuseRecord(WalEntryV1Error::RecordTooLarge(len as usize))
            } else {
                match self.stage {
                    Stage::Opening => if self.format.opens(self.header) {
                        Doing::Open
                    } else {
                        Doing::RefuseHeader(self.format.header_error(self.header))
                    },
                    Stage::Decided(rotate) => if rotate || !takes {
                        Doing::Close
                    } else {
                        Doing::Write
                    },
                    Stage::Begin => if !takes {
                        Doing::Close
                    } else {
                        match self.decision(len, entry.placement.rotate) {
                            Decision::AskRoom(n) => Doing::Ask(n),
                            d => match self.diverged(entry.placement) {
                                Some(expected) => Doing::Tell(expected as u64),
                                None => if d == Decision::Rotate {
                                    Doing::Close
                                } else {
                                    Doing::Write
                                },
                            },
                        }
                    },
                }
            }
        }
    }

    /// The writer with the header of the file that begins with the entry at the front.
    pub open spec fn turned(self) -> WriterView {
        let id = self.ready[0].id@;
        let data_size = buf::shown(self.ready[0].data).len();
        WriterView {
            file: self.file + 1,
            header: HeaderView {
                data_size: wal_header::wider(self.header.data_size, wal_header::width_of(data_size)),
                id_size: wal_header::wider(self.header.id_size, wal_header::width_of(id)),
                before: id,
            },
            stage: Stage::Opening,
            ..self
        }
    }

    /// The writer on the file that it turned to.
    pub open spec fn opened(self) -> WriterView {
        WriterView {
            has_written: false,
            index: 0,
            epoch: self.epoch + 1,
            stage: Stage::Decided(false),
            ..self
        }
    }

    /// The writer after the entry at the front was added.
    pub open spec fn advanced(self) -> WriterView {
        WriterView {
            has_written: true,
            index: self.index + 1,
            ready: self.ready.skip(1),
            stage: Stage::Begin,
            ..self
        }
    }

    /// The writer after the entry at the front could not be written: those that were ready
    /// behind it go with it.
    pub open spec fn gave_up(self) -> WriterView {
        WriterView { ready: Seq::empty(), stage: Stage::Begin, ..self }
    }

    /// The writer after a report on what was to be done.
    pub open spec fn told(self, report: WriteReport) -> WriterView {
        match (self.doing(), report) {
            (Doing::Rest, _) => self,
            (Doing::Ask(_), WriteReport::Room(room)) => WriterView {
                stage: Stage::Decided(!room),
                ..self
            },
            (Doing::Tell(_), WriteReport::Done) => WriterView {
                stage: Stage::Decided(self.ready[0].placement.rotate == RotateHint::Before),
                ..self
            },
            (Doing::Close, WriteReport::Done) => self.turned(),
            (Doing::Open, WriteReport::Done) => self.opened(),
            (Doing::Write, WriteReport::Done) => self.advanced(),
            _ => self.gave_up(),
        }
    }

    /// The id of the entry that comes next in the file, or opens the next one.
    pub open spec fn position(self) -> nat {
        if self.stage == Stage::Opening {
            self.header.before
        } else {
            self.header.before + self.index
        }
    }

    /// Whether every entry has the id that a reader gives it: the count in the header of its
    /// file plus its place there.
    pub open spec fn in_position(self) -> bool {
        &&& forall|i: int|
            0 <= i < self.ready.len() ==> (#[trigger] self.ready[i]).id@ == self.position() + i
        &&& self.next == self.position() + self.ready.len()
    }
}

/// The writer of the files of a queue.
///
/// The caller hands it entries with [`WriterState::take`]. It then asks [`WriterState::step`]
/// what to do, does it, and tells [`WriterState::report`] what came of it, until there is
/// nothing left to do.
pub struct WriterState {
    format: WalEntryFormat,
    file_id: UintN,
    header: WalHeader,
    has_written: bool,
    entry_index: u64,
    file_epoch: u64,
    ready: Vec<QueuedEntry>,
    stage: Stage,
    buffer: OrderedBuffer,
}

impl View for WriterState {
    type V = WriterView;

    closed spec fn view(&self) -> WriterView {
        WriterView {
            format: self.format,
            file: self.file_id@,
            header: self.header@,
            has_written: self.has_written,
            index: self.entry_index as nat,
            epoch: self.file_epoch as nat,
            ready: self.ready@,
            stage: self.stage,
            next: self.buffer.next(),
            waiting: self.buffer.waiting(),
        }
    }
}

impl WriterState {
    pub closed spec fn inv(&self) -> bool {
        self.buffer.inv()
    }

    /// A writer on the file `file_id` with the given header, for the entries after
    /// `last_entry_id`, or from zero on.
    pub fn new(
        file_id: &UintN,
        header: WalHeader,
        format: WalEntryFormat,
        last_entry_id: &Option<UintN>,
    ) -> (w: WriterState)
        ensures
            w.inv(),
            w@ == (WriterView {
                format,
                file: file_id@,
                header: header@,
                has_written: false,
                index: 0,
                epoch: 0,
                ready: Seq::empty(),
                stage: Stage::Begin,
                next: match last_entry_id {
                    Some(id) => id@ + 1,
                    None => 0,
                },
                waiting: Seq::empty(),
            }),
    {
        WriterState {
            format,
            file_id: file_id.clone(),
            header,
            has_written: false,
            entry_index: 0,
            file_epoch: 0,
            ready: Vec::new(),
            stage: Stage::Begin,
            buffer: OrderedBuffer::new(last_entry_id),
        }
    }

    /// The file that is written.
    pub fn file_id(&self) -> (id: &UintN)
        ensures
            id@ == self@.file,
    {
        &self.file_id
    }

    pub fn header(&self) -> (h: &WalHeader)
        ensures
            h@ == self@.header,
    {
        &self.header
    }

    /// The place of the next entry in the file.
    pub fn entry_index(&self) -> (n: u64)
        ensures
            n as nat == self@.index,
    {
        self.entry_index
    }

    /// How many files were opened before.
    pub fn epoch(&self) -> (n: u64)
        ensures
            n as nat == self@.epoch,
    {
        self.file_epoch
    }

    /// Takes an entry. It and those that waited for it are to be written, in the order of
    /// their ids; unless entries before it are missing, and it waits for them.
    ///
    /// An entry whose id is written already, or waits already, is dropped.
    pub fn take(&mut self, entry: QueuedEntry)
        requires
            old(self).inv(),
            old(self)@.ready.len() == 0,
        ensures
            final(self).inv(),
            takes_in(old(self)@, entry, final(self)@),
    {
        self.ready = self.buffer.wait_for_order(entry);
    }

    /// Whether the open file takes the entry at the front.
    fn takes(&self) -> (b: bool)
        requires
            self@.ready.len() > 0,
        ensures
            b == self@.format.takes(
                self@.header,
                self@.ready[0].id@,
                buf::shown(self@.ready[0].data).len(),
            ),
    {
        let entry: &QueuedEntry = &self.ready[0];
        let len: usize = buf::as_slice(&entry.data).len();
        match self.format {
            WalEntryFormat::V0 => {
                let id_size: u64 = self.header.id_size_bytes;
                let data_size: u64 = self.header.data_size_bytes;
                if id_size < 1 || id_size > MAX_FIELD_WIDTH || data_size < 1 || data_size
                    > MAX_FIELD_WIDTH {
                    return false;
                }
                entry.id.fits(id_size as usize) && UintN::from(len as u64).fits(data_size as usize)
            },
            WalEntryFormat::V1 => len <= u32::MAX as usize,
        }
    }

    /// Where a record of `record_len` bytes goes that the open file takes.
    pub fn decide(&self, record_len: usize, placement: &Placement) -> (d: Decision)
        ensures
            d == self@.decision(record_len as nat, placement.rotate),
    {
        match placement.rotate {
            RotateHint::Before => Decision::Rotate,
            RotateHint::Keep => Decision::Stay,
            RotateHint::WriterDecides => {
                if !self.has_written {
                    return Decision::Stay;
                }
                let head: u64 = match self.format {
                    WalEntryFormat::V0 => self.header.id_size_bytes.saturating_add(
                        self.header.data_size_bytes,
                    ).saturating_add(8),
                    WalEntryFormat::V1 => varint::encoded_len(record_len as u64) as u64 + 4,
                };
                Decision::AskRoom(head.saturating_add(record_len as u64))
            },
        }
    }

    /// The file that a record should have been charged to, where it was charged to another:
    /// the two sides have diverged, and ids may not line up with the header.
    pub fn check_epoch(&self, placement: &Placement) -> (r: Option<u64>)
        requires
            self@.epoch < u64::MAX,
        ensures
            match r {
                Some(expected) => self@.diverged(*placement) == Some(expected as nat),
                None => self@.diverged(*placement) is None,
            },
    {
        let expected: u64 = match placement.rotate {
            RotateHint::WriterDecides => {
                return None;
            },
            RotateHint::Before => self.file_epoch + 1,
            RotateHint::Keep => self.file_epoch,
        };
        if placement.epoch != expected {
            Some(expected)
        } else {
            None
        }
    }

    /// What is to be done for the entry at the front.
    fn doing(&self) -> (d: Doing)
        requires
            self@.epoch < u64::MAX,
        ensures
            d == self@.doing(),
    {
        if self.ready.len() == 0 {
            return Doing::Rest;
        }
        let entry: &QueuedEntry = &self.ready[0];
        let len: usize = buf::as_slice(&entry.data).len();
        let takes: bool = self.takes();
        if self.format == WalEntryFormat::V1 && !takes {
            return Doing::RefuseRecord(WalEntryV1Error::RecordTooLarge(len));
        }
        match self.stage {
            Stage::Opening => match self.format.header_bytes(&self.header) {
                Ok(_) => Doing::Open,
                Err(e) => Doing::RefuseHeader(e),
            },
            Stage::Decided(rotate) => {
                if rotate || !takes {
                    Doing::Close
                } else {
                    Doing::Write
                }
            },
            Stage::Begin => {
                if !takes {
                    return Doing::Close;
                }
                let decision: Decision = self.decide(len, &entry.placement);
                if let Decision::AskRoom(n) = decision {
                    return Doing::Ask(n);
                }
                if let Some(expected) = self.check_epoch(&entry.placement) {
                    return Doing::Tell(expected);
                }
                if decision == Decision::Rotate {
                    Doing::Close
                } else {
                    Doing::Write
                }
            },
        }
    }

    /// What to do next.
    pub fn step(&self) -> (step: WriteStep)
        requires
            self@.epoch < u64::MAX,
        ensures
            is_step(self@, step),
    {
        match self.doing() {
            Doing::Rest => WriteStep::Rest,
            Doing::Ask(n) => WriteStep::AskRoom(n),
            Doing::Tell(expected) => WriteStep::Tell {
                id: self.ready[0].id.clone(),
                charged: self.ready[0].placement.epoch,
                expected,
            },
            Doing::Close => WriteStep::CloseFile,
            Doing::Open => match self.format.header_bytes(&self.header) {
                Ok(b) => WriteStep::OpenFile(b),
                Err(e) => WriteStep::Refuse(WalError::from(e)),
            },
            Doing::Write => WriteStep::Write {
                id: self.ready[0].id.clone(),
                bytes: self.format.entry_bytes(
                    &self.header,
                    &self.ready[0].id,
                    &self.ready[0].data,
                ),
                in_pool: self.ready[0].placement.in_pool,
            },
            Doing::RefuseRecord(e) => WriteStep::Refuse(WalError::from(e)),
            Doing::RefuseHeader(e) => WriteStep::Refuse(WalError::from(e)),
        }
    }

    /// Takes what came of the last step.
    pub fn report(&mut self, report: WriteReport)
        requires
            old(self).inv(),
            old(self)@.epoch < u64::MAX,
            old(self)@.index < u64::MAX,
        ensures
            final(self).inv(),
            final(self)@ == old(self)@.told(report),
    {
        let ghost before = self@;
        match (self.doing(), report) {
            (Doing::Rest, _) => {},
            (Doing::Ask(_), WriteReport::Room(room)) => {
                self.stage = Stage::Decided(!room);
            },
            (Doing::Tell(_), WriteReport::Done) => {
                self.stage = Stage::Decided(self.ready[0].placement.rotate == RotateHint::Before);
            },
            (Doing::Close, WriteReport::Done) => {
                let next_data_size: u64 = buf::as_slice(&self.ready[0].data).len() as u64;
                let mut header: WalHeader = self.header.resize(&self.ready[0].id, next_data_size);
                header.num_entries_before = self.ready[0].id.clone();
                self.file_id = self.file_id.increment();
                self.header = header;
                self.stage = Stage::Opening;
            },
            (Doing::Open, WriteReport::Done) => {
                self.has_written = false;
                self.entry_index = 0;
                self.file_epoch = self.file_epoch + 1;
                self.stage = Stage::Decided(false);
            },
            (Doing::Write, WriteReport::Done) => {
                self.ready.remove(0);
                assert(self.ready@ =~= before.ready.skip(1));
                self.has_written = true;
                self.entry_index = self.entry_index + 1;
                self.stage = Stage::Begin;
            },
            _ => {
                self.ready = Vec::new();
                self.stage = Stage::Begin;
            },
        }
    }
}

/// Whether the writer `w` becomes `after` when it takes `entry`.
pub open spec fn takes_in(w: WriterView, entry: QueuedEntry, after: WriterView) -> bool {
    &&& after == (WriterView {
        ready: after.ready,
        next: after.next,
        waiting: after.waiting,
        ..w
    })
    &&& after.next == w.next + after.ready.len()
    &&& forall|i: int| 0 <= i < after.ready.len() ==> (#[trigger] after.ready[i]).id@ == w.next + i
    &&& entry.id@ >= w.next && !ids(w.waiting).contains(entry.id@) ==> after.ready.to_multiset().add(
        after.waiting.to_multiset(),
    ) == w.waiting.to_multiset().insert(entry)
    &&& entry.id@ < w.next || ids(w.waiting).contains(entry.id@) ==> after.ready.len() == 0
        && after.waiting == w.waiting
    &&& after.ready.len() > 0 <==> entry.id@ == w.next
    &&& forall|i: int|
        0 <= i < after.waiting.len() ==> (#[trigger] after.waiting[i]).id@ > after.next
}

/// Whether `step` is what the writer `w` is to do.
pub open spec fn is_step(w: WriterView, step: WriteStep) -> bool {
    let entry = w.ready[0];
    match w.doing() {
        Doing::Rest => step is Rest,
        Doing::Ask(n) => step matches WriteStep::AskRoom(m) && m == n,
        Doing::Tell(e) => step matches WriteStep::Tell { id, charged, expected } && id@ == entry.id@
            && charged == entry.placement.epoch && expected == e,
        Doing::Close => step is CloseFile,
        Doing::Open => step matches WriteStep::OpenFile(b) && buf::shown(b) == w.format.header(
            w.header,
        ),
        Doing::Write => step matches WriteStep::Write { id, bytes, in_pool } && id@ == entry.id@
            && buf::shown(bytes) == w.format.entry(w.header, entry.id@, buf::shown(entry.data))
            && in_pool == entry.placement.in_pool,
        Doing::RefuseRecord(e) => step matches WriteStep::Refuse(r) && r
            == WalError::WalEntryV1Error(e),
        Doing::RefuseHeader(e) => step matches WriteStep::Refuse(r) && r
            == WalError::WalHeaderError(e),
    }
}

/// A writer gives every entry the id that a reader gives it, on the file that it is on and on
/// every file that it goes on to, as long as it writes every entry.
pub proof fn lemma_ids_stay_positions(w: WriterView, report: WriteReport)
    requires
        w.in_position(),
        w.told(report) != w.gave_up(),
    ensures
        w.told(report).in_position(),
        w.doing() == Doing::Write && report == WriteReport::Done ==> w.ready[0].id@
            == w.header.before + w.index,
{
    let after = w.told(report);
    if w.doing() == Doing::Write && report == WriteReport::Done {
        assert forall|i: int| 0 <= i < after.ready.len() implies (#[trigger] after.ready[i]).id@
            == after.position() + i by {
            assert(after.ready[i] == w.ready[i + 1]);
        }
    }
}

/// Entries that a writer takes stand behind those that it has written.
pub proof fn lemma_entries_are_taken_in_position(w: WriterView, entry: QueuedEntry, after: WriterView)
    requires
        w.in_position(),
        w.ready.len() == 0,
        takes_in(w, entry, after),
    ensures
        after.in_position(),
{
}

/// The file that a writer goes on to takes the entry that it went on for.
pub proof fn lemma_the_next_file_takes_the_entry(w: WriterView)
    requires
        w.doing() == Doing::Close,
        w.format.opens(w.turned().header),
    ensures
        w.told(WriteReport::Done).doing() == Doing::Open,
        w.told(WriteReport::Done).told(WriteReport::Done).doing() == Doing::Write,
{
    let header = w.turned().header;
    wal_header::lemma_fits_its_width(w.ready[0].id@, header.id_size);
    wal_header::lemma_fits_its_width(buf::shown(w.ready[0].data).len(), header.data_size);
}

/// What a writer writes is the entry of the record at the front, under its id, in the format of
/// the file; and what it opens a file with is the header of that file.
pub proof fn lemma_what_is_written(w: WriterView, step: WriteStep)
    requires
        is_step(w, step),
    ensures
        step matches WriteStep::Write { id, bytes, in_pool } ==> {
            &&& w.ready.len() > 0
            &&& id@ == w.ready[0].id@
            &&& in_pool == w.ready[0].placement.in_pool
            &&& w.format == WalEntryFormat::V1 ==> buf::shown(bytes) == wal_entry_v1::frame(
                buf::shown(w.ready[0].data),
            )
            &&& w.format == WalEntryFormat::V0 ==> buf::shown(bytes) == wal_entry::frame(
                w.ready[0].id@,
                buf::shown(w.ready[0].data),
                w.header.id_size,
                w.header.data_size,
            )
        },
        step matches WriteStep::OpenFile(bytes) ==> {
            &&& w.format == WalEntryFormat::V1 ==> buf::shown(bytes) == wal_header_v1::encode(
                w.header,
            )
            &&& w.format == WalEntryFormat::V0 ==> buf::shown(bytes) == wal_header::encode(w.header)
        },
        step is Rest <==> w.ready.len() == 0,
        w.ready.len() > 0 && w.format == WalEntryFormat::V1 && buf::shown(w.ready[0].data).len()
            > u32::MAX ==> step is Refuse,
        w.format == WalEntryFormat::V1 && step is Refuse ==> buf::shown(w.ready[0].data).len()
            > u32::MAX || !wal_header_v1::valid(w.header),
        step matches WriteStep::AskRoom(n) ==> w.has_written && (w.format == WalEntryFormat::V1 ==> n
            == wal_entry_v1::frame(buf::shown(w.ready[0].data)).len()),
{
    if w.ready.len() > 0 {
        let record = buf::shown(w.ready[0].data);
        wal_entry_v1::lemma_frame_len(record);
        if record.len() <= u32::MAX {
            varint::lemma_encode_len_32(record.len());
        }
    }
}

/// Why a file is not opened. In the second format, a count that has no 64 bits comes before any
/// width, and the width of a record size before that of an id; in the first, a count that its
/// width cannot hold is put down to that width.
pub proof fn lemma_why_a_file_is_not_opened(format: WalEntryFormat, h: HeaderView)
    requires
        !format.opens(h),
    ensures
        ({
            let e = format.header_error(h);
            &&& format == WalEntryFormat::V1 && h.before > u64::MAX ==> e == AnyWalHeaderError::V1(
                WalHeaderV1Error::ValueTooLarge,
            )
            &&& format == WalEntryFormat::V1 && h.before <= u64::MAX ==> e == if 1 <= h.data_size
                <= 8 {
                AnyWalHeaderError::V1(WalHeaderV1Error::InvalidIdSizeBytes(h.id_size as u64))
            } else {
                AnyWalHeaderError::V1(WalHeaderV1Error::InvalidDataSizeBytes(h.data_size as u64))
            }
            &&& format == WalEntryFormat::V0 ==> e == if 1 <= h.data_size <= 8 {
                AnyWalHeaderError::V0(wal_header::WalHeaderError::InvalidIdSizeBytes(h.id_size as u64))
            } else {
                AnyWalHeaderError::V0(wal_header::WalHeaderError::InvalidDataSizeBytes(h.data_size as u64))
            }
        }),
{
}

/// A file of the second format takes every record whose size has 32 bits; one of the first
/// takes those whose size and id fit the widths in its header.
pub proof fn lemma_what_a_file_takes(header: HeaderView, id: nat, len: nat)
    ensures
        WalEntryFormat::V1.takes(header, id, len) <==> len <= u32::MAX,
        WalEntryFormat::V0.takes(header, id, len) <==> 1 <= header.data_size <= 8 && 1
            <= header.id_size <= 8 && id < vstd::arithmetic::power::pow(256, header.id_size) && len
            < vstd::arithmetic::power::pow(256, header.data_size),
{
    le::lemma_span_is_a_power(header.id_size);
    le::lemma_span_is_a_power(header.data_size);
}

/// A record is charged to the file it is written to: the open one if it stays there, the next
/// one if the open one ends before it. Any other is told, with the file it should have been. A
/// record that the writer decides about is charged to none.
pub proof fn lemma_which_charge_is_told(w: WriterView, placement: Placement)
    ensures
        match placement.rotate {
            RotateHint::WriterDecides => w.diverged(placement) is None,
            RotateHint::Keep => if placement.epoch == w.epoch {
                w.diverged(placement) is None
            } else {
                w.diverged(placement) == Some(w.epoch)
            },
            RotateHint::Before => if placement.epoch == w.epoch + 1 {
                w.diverged(placement) is None
            } else {
                w.diverged(placement) == Some(w.epoch + 1)
            },
        },
{
}

/// A file that is gone on to has the next number, begins with the entry that it was gone on
/// for, and holds nothing; the count of files goes up by one once it is open.
pub proof fn lemma_what_the_next_file_is(w: WriterView)
    requires
        w.doing() == Doing::Close,
    ensures
        ({
            let next = w.told(WriteReport::Done);
            &&& next.file == w.file + 1
            &&& next.header.before == w.ready[0].id@
            &&& next.ready == w.ready && next.waiting == w.waiting && next.next == w.next
            &&& next.epoch == w.epoch
            &&& next.doing() == Doing::Open ==> {
                let open = next.told(WriteReport::Done);
                &&& open.file == next.file && open.header == next.header
                &&& open.index == 0 && !open.has_written
                &&& open.epoch == w.epoch + 1
                &&& open.ready == w.ready
            }
        }),
{
}

/// An entry that could not be written, and those that were ready behind it, are given up; the
/// file, its header and its entries stay as they are, and so do the entries that wait.
pub proof fn lemma_what_a_failure_costs(w: WriterView)
    requires
        w.ready.len() > 0,
    ensures
        ({
            let after = w.told(WriteReport::Failed);
            &&& after.ready.len() == 0
            &&& after.stage == Stage::Begin
            &&& after.file == w.file && after.header == w.header && after.index == w.index
                && after.has_written == w.has_written && after.epoch == w.epoch && after.next
                == w.next && after.waiting == w.waiting
        }),
{
}

/// Widths only grow from file to file.
pub proof fn lemma_widths_only_grow(w: WriterView, report: WriteReport)
    ensures
        w.told(report).header.data_size >= w.header.data_size,
        w.told(report).header.id_size >= w.header.id_size,
{
}

/// A writer that carries out what a pool decided counts files as the pool does: a record is
/// never found to be charged to another file.
pub proof fn lemma_pool_and_writer_agree(w: WriterView, fill: FileFill, entry_len: u64, rotate: bool, in_pool: bool)
    requires
        w.epoch == fill.epoch,
        fill.epoch < u64::MAX,
    ensures
        ({
            let charged = fill.charged(entry_len, rotate);
            let placement = page_pool::hinted(in_pool, rotate, charged.epoch);
            &&& w.diverged(placement) is None
            &&& charged.epoch == if rotate {
                w.turned().opened().epoch
            } else {
                w.advanced().epoch
            }
        }),
{
}

/// What a writer puts into a file reads back: a header and the entries of `records`, and
/// whatever of one more entry got there, are read as the records under consecutive ids from
/// the count in the header on.
pub proof fn lemma_a_file_reads_back(header: HeaderView, records: Seq<Seq<u8>>, tail: Seq<u8>)
    requires
        wal_header_v1::valid(header),
        forall|i: int| 0 <= i < records.len() ==> (#[trigger] records[i]).len() <= u32::MAX,
        header.before + records.len() <= u64::MAX,
        reader::cut(tail),
    ensures
        ({
            let content = wal_header_v1::encode(header) + wal_page::frames(records) + tail;
            let n = wal_header_v1::encode(header).len();
            &&& wal_header_v1::parse_any(content) == Ok::<
                (wal_header_v1::AnyHeaderView, nat),
                wal_header_v1::AnyWalHeaderError,
            >(
                (
                    (wal_header_v1::AnyHeaderView {
                        version: wal_header_v1::WAL_HEADER_V1_VERSION,
                        header,
                    }),
                    n,
                ),
            )
            &&& reader::find(
                BodyView::V1 { next: header.before },
                content.skip(n as int),
                content.len(),
            ) == (Found { entries: reader::numbered(header.before, records), torn: None })
        }),
{
    let head = wal_header_v1::encode(header);
    let body = wal_page::frames(records) + tail;
    let content = head + wal_page::frames(records) + tail;
    assert(content =~= head + body);
    wal_header_v1::lemma_parse_of_encode(header, body);
    wal_header_v1::lemma_fields_len(header);
    wal_header_v1::lemma_version_word(header, body);
    assert(content.skip(head.len() as int) =~= body);
    reader::lemma_what_was_written_reads_back(header.before, records, tail, content.len());
}

/// What a writer puts into a file of the first format reads back: a header and the entries of
/// `entries`, and whatever of one more entry got there, are read as those entries.
pub proof fn lemma_a_first_format_file_reads_back(
    header: HeaderView,
    entries: Seq<reader::Entry>,
    tail: Seq<u8>,
)
    requires
        wal_header::encodable(header),
        forall|i: int|
            0 <= i < entries.len() ==> WalEntryFormat::V0.takes(
                header,
                (#[trigger] entries[i]).0,
                entries[i].1.len(),
            ),
        reader::first_cut(tail, header.id_size, header.data_size),
    ensures
        ({
            let content = wal_header::encode(header) + reader::first_frames(
                entries,
                header.id_size,
                header.data_size,
            ) + tail;
            let n = wal_header::encode(header).len();
            let any = wal_header_v1::AnyHeaderView {
                version: wal_header::WAL_HEADER_V0_VERSION,
                header,
            };
            &&& wal_header_v1::parse_any(content) == Ok::<
                (wal_header_v1::AnyHeaderView, nat),
                AnyWalHeaderError,
            >((any, n))
            &&& reader::find(BodyView::of(any), content.skip(n as int), content.len()).entries
                == entries
        }),
{
    let head = wal_header::encode(header);
    let body = reader::first_frames(entries, header.id_size, header.data_size) + tail;
    let content = head + reader::first_frames(entries, header.id_size, header.data_size) + tail;
    assert(content =~= head + body);
    wal_header::lemma_parse_of_encode(header, body);
    assert(content.skip(head.len() as int) =~= body);
    reader::lemma_the_first_format_reads_back(
        header.id_size,
        header.data_size,
        entries,
        tail,
        content.len(),
    );
}

/// What a pool hands to a file reads back under the ids that the pool gave: the run of a page
/// behind a header that counts the entries before it.
pub proof fn lemma_what_the_pool_holds_reads_back(
    pool: PoolView,
    k: int,
    item: (PendingWrite, Vec<u8>),
    n: int,
    header: HeaderView,
)
    requires
        pool.inv(),
        0 <= k < pool.ring.pages.len(),
        pool.is_run(k, item),
        0 <= n <= pool.ring.pages[k].records.len(),
        pool.written[k] == page_pool::first_bytes(pool.ring.pages[k].records, n),
        forall|i: int|
            0 <= i < pool.ring.pages[k].records.len() ==> (
            #[trigger] pool.ring.pages[k].records[i]).len() <= u32::MAX,
        wal_header_v1::valid(header),
        header.before == pool.ring.pages[k].first + n,
        pool.ring.pages[k].end() <= u64::MAX,
    ensures
        ({
            let page = pool.ring.pages[k];
            let content = wal_header_v1::encode(header) + item.1@;
            let found = reader::find(
                BodyView::V1 { next: header.before },
                content.skip(wal_header_v1::encode(header).len() as int),
                content.len(),
            );
            &&& found.torn is None
            &&& found.entries.len() == page.records.len() - n
            &&& forall|i: int|
                n <= i < page.records.len() ==> found.entries[i - n] == (
                    page.first + i as nat,
                    #[trigger] page.records[i],
                )
        }),
{
    let page = pool.ring.pages[k];
    let rest = page.records.skip(n);
    page_pool::lemma_a_run_is_whole_entries(pool, k, item, n);
    assert forall|i: int| 0 <= i < rest.len() implies (#[trigger] rest[i]).len() <= u32::MAX by {
        assert(rest[i] == page.records[n + i]);
    }
    assert(reader::cut(Seq::empty())) by {
        let record = Seq::<u8>::empty();
        wal_entry_v1::lemma_frame_len(record);
        assert(wal_entry_v1::frame(record).take(0) =~= Seq::empty());
    }
    lemma_a_file_reads_back(header, rest, Seq::empty());
    assert(wal_header_v1::encode(header) + wal_page::frames(rest) + Seq::<u8>::empty()
        =~= wal_header_v1::encode(header) + item.1@);
    assert forall|i: int| n <= i < page.records.len() implies reader::numbered(
        header.before,
        rest,
    )[i - n] == (page.first + i as nat, #[trigger] page.records[i]) by {
        assert(rest[i - n] == page.records[i]);
    }
}

} // verus!
