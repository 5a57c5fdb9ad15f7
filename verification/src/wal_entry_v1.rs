//! Framing of one record: its size, the record, and a checksum over both.

use bytes::BytesMut;
use vstd::prelude::*;
use vstd::slice::slice_subrange;
use vstd::string::StringExecFns;

use crate::buf;
use crate::crc32c;
use crate::le;
use crate::text;
use crate::varint;
use crate::varint::VarintError;

verus! {

/// Size of the checksum that ends an entry.
pub const WAL_ENTRY_V1_CRC_SIZE: usize = 4;

/// Size of the entry of an empty record.
pub const WAL_ENTRY_V1_MIN_SIZE: usize = 5;

/// Most bytes that an entry adds to its record.
pub const WAL_ENTRY_V1_MAX_OVERHEAD: usize = 9;

/// Why an entry could not be written or read.
#[derive(Debug, Clone, Copy, PartialEq, Eq, Structural)]
pub enum WalEntryV1Error {
    /// The bytes end inside the entry.
    Truncated,
    /// The record size does not fit 32 bits.
    Overflow,
    /// The record size has a shorter encoding.
    NonCanonical,
    /// The checksum does not match the size and the record.
    CrcMismatch,
    /// The id of the entry does not fit 64 bits.
    IdOverflow,
    /// A record of this many bytes does not fit an entry.
    RecordTooLarge(usize),
}

impl WalEntryV1Error {
    /// The error in words.
    pub fn message(&self) -> (s: String)
        ensures
            s@ == match self {
                WalEntryV1Error::Truncated => "Truncated V1 WAL entry"@,
                WalEntryV1Error::Overflow => "V1 WAL entry record size exceeds u32"@,
                WalEntryV1Error::NonCanonical => "Non-canonical V1 WAL entry record size"@,
                WalEntryV1Error::CrcMismatch => "V1 WAL entry failed its CRC32C check"@,
                WalEntryV1Error::IdOverflow => "Derived entry ID exceeds u64"@,
                WalEntryV1Error::RecordTooLarge(size) => "Record of "@ + text::decimal(
                    *size as nat,
                ) + " bytes exceeds the u32 V1 entry limit"@,
            },
    {
        match self {
            WalEntryV1Error::Truncated => "Truncated V1 WAL entry".to_owned(),
            WalEntryV1Error::Overflow => "V1 WAL entry record size exceeds u32".to_owned(),
            WalEntryV1Error::NonCanonical => "Non-canonical V1 WAL entry record size".to_owned(),
            WalEntryV1Error::CrcMismatch => "V1 WAL entry failed its CRC32C check".to_owned(),
            WalEntryV1Error::IdOverflow => "Derived entry ID exceeds u64".to_owned(),
            WalEntryV1Error::RecordTooLarge(size) => text::with_decimal(
                "Record of ",
                *size as u64,
            ).concat(" bytes exceeds the u32 V1 entry limit"),
        }
    }
}

/// The part of an entry that its checksum covers.
pub open spec fn covered(record: Seq<u8>) -> Seq<u8> {
    varint::encode(record.len()) + record
}

/// The bytes of the entry that holds `record`.
pub open spec fn frame(record: Seq<u8>) -> Seq<u8> {
    covered(record) + le::bytes(crc32c::checksum(0, covered(record)) as nat, 4)
}

/// What a malformed record size makes of an entry.
pub open spec fn size_error(e: VarintError) -> WalEntryV1Error {
    match e {
        VarintError::Truncated => WalEntryV1Error::Truncated,
        VarintError::Overflow => WalEntryV1Error::Overflow,
        VarintError::NonCanonical => WalEntryV1Error::NonCanonical,
    }
}

/// What reading an entry at the front of `data` gives: the record and the length of the
/// entry, or the reason why there is none.
pub open spec fn parse(data: Seq<u8>) -> Result<(Seq<u8>, nat), WalEntryV1Error> {
    match varint::decode_32(data) {
        Err(e) => Err(size_error(e)),
        Ok((size, at)) => {
            let end = at + size;
            if data.len() < end + 4 {
                Err(WalEntryV1Error::Truncated)
            } else if le::value(data.subrange(end as int, end as int + 4)) != crc32c::checksum(
                0,
                data.take(end as int),
            ) {
                Err(WalEntryV1Error::CrcMismatch)
            } else {
                Ok((data.subrange(at as int, end as int), (end + 4) as nat))
            }
        },
    }
}

pub proof fn lemma_frame_len(record: Seq<u8>)
    ensures
        frame(record).len() == varint::encode(record.len()).len() + record.len() + 4,
        frame(record).len() >= record.len() + 5,
        record.len() <= u32::MAX ==> frame(record).len() <= record.len() + 9,
{
    le::lemma_bytes_len(crc32c::checksum(0, covered(record)) as nat, 4);
    varint::lemma_encode_shape(record.len());
    if record.len() <= u32::MAX {
        varint::lemma_encode_len_32(record.len());
    }
}

/// Reading back what was written gives the record, whatever follows it.
pub proof fn lemma_parse_of_frame(record: Seq<u8>, rest: Seq<u8>)
    requires
        record.len() <= u32::MAX,
    ensures
        parse(frame(record) + rest) == Ok::<(Seq<u8>, nat), WalEntryV1Error>(
            (record, frame(record).len()),
        ),
{
    let size = varint::encode(record.len());
    let crc = crc32c::checksum(0, covered(record)) as nat;
    let tail = le::bytes(crc, 4);
    let data = frame(record) + rest;
    varint::lemma_encode_len_32(record.len());
    assert(data =~= size + (record + tail + rest));
    varint::lemma_decode_of_encode(record.len(), record + tail + rest, 5, u32::MAX as nat);
    le::lemma_span_values();
    le::lemma_value_of_bytes(crc, 4);
    let end = (size.len() + record.len()) as int;
    assert(data.subrange(end, end + 4) =~= tail);
    assert(data.take(end) =~= covered(record));
    assert(data.subrange(size.len() as int, end) =~= record);
}

/// Only what writing would produce is accepted.
pub proof fn lemma_parse_is_exact(data: Seq<u8>)
    requires
        parse(data) is Ok,
    ensures
        ({
            let (record, consumed) = parse(data)->Ok_0;
            &&& record.len() <= u32::MAX
            &&& consumed <= data.len()
            &&& data.take(consumed as int) == frame(record)
        }),
{
    varint::lemma_decode_is_canonical(data, 5, u32::MAX as nat);
    let (size, at) = varint::decode_32(data)->Ok_0;
    let end = (at + size) as int;
    let record = data.subrange(at as int, end);
    assert(data.take(end) =~= data.take(at as int) + record);
    assert(data.take(end) == covered(record));
    let tail = data.subrange(end, end + 4);
    le::lemma_bytes_of_value(tail);
    assert(data.take(end + 4) =~= data.take(end) + tail);
}

/// More bytes after an entry change nothing about a result that did not run out of bytes.
pub proof fn lemma_parse_extends(data: Seq<u8>, more: Seq<u8>)
    requires
        parse(data) !== Err::<(Seq<u8>, nat), WalEntryV1Error>(WalEntryV1Error::Truncated),
    ensures
        parse(data + more) == parse(data),
{
    varint::lemma_decode_extends(data, more, 5, u32::MAX as nat);
    let all = data + more;
    if let Ok((size, at)) = varint::decode_32(data) {
        let end = (at + size) as int;
        assert(all.subrange(end, end + 4) =~= data.subrange(end, end + 4));
        assert(all.take(end) =~= data.take(end));
        assert(all.subrange(at as int, end) =~= data.subrange(at as int, end));
    }
}

/// A prefix of an entry is never mistaken for an entry: it is reported as cut short.
pub proof fn lemma_parse_of_cut_frame(record: Seq<u8>, n: int)
    requires
        record.len() <= u32::MAX,
        0 <= n < frame(record).len(),
    ensures
        parse(frame(record).take(n)) == Err::<(Seq<u8>, nat), WalEntryV1Error>(
            WalEntryV1Error::Truncated,
        ),
{
    let whole = frame(record);
    let cut = whole.take(n);
    let rest = whole.skip(n);
    assert(parse(whole) == Ok::<(Seq<u8>, nat), WalEntryV1Error>((record, whole.len()))) by {
        lemma_parse_of_frame(record, Seq::empty());
        assert(whole + Seq::<u8>::empty() =~= whole);
    }
    assert(cut + rest =~= whole);
    let p = parse(cut);
    if p !== Err::<(Seq<u8>, nat), WalEntryV1Error>(WalEntryV1Error::Truncated) {
        assert(parse(whole) == p) by {
            lemma_parse_extends(cut, rest);
        }
        assert((p->Ok_0).1 <= cut.len()) by {
            lemma_parse_is_exact(cut);
        }
    }
}

/// A record with one byte changed is refused: the entry is damaged, and is not read.
pub proof fn lemma_changed_record_is_refused(record: Seq<u8>, at: int, b: u8, rest: Seq<u8>)
    requires
        record.len() <= u32::MAX,
        0 <= at < record.len(),
        record[at] != b,
    ensures
        parse(frame(record).update(varint::encode(record.len()).len() + at, b) + rest) == Err::<
            (Seq<u8>, nat),
            WalEntryV1Error,
        >(WalEntryV1Error::CrcMismatch),
{
    let size = varint::encode(record.len());
    let good = covered(record);
    let crc = crc32c::checksum(0, good) as nat;
    let tail = le::bytes(crc, 4);
    let changed = record.update(at, b);
    let data = frame(record).update(size.len() + at, b) + rest;
    lemma_frame_len(record);
    varint::lemma_encode_len_32(record.len());
    le::lemma_span_values();
    le::lemma_value_of_bytes(crc, 4);
    assert(data =~= size + (changed + tail + rest));
    varint::lemma_decode_of_encode(record.len(), changed + tail + rest, 5, u32::MAX as nat);
    let end = (size.len() + record.len()) as int;
    assert(data.subrange(end, end + 4) =~= tail);
    assert(data.take(end) =~= good.update(size.len() + at, b));
    crc32c::lemma_one_changed_byte_is_seen(0, good, size.len() + at, b);
}

/// An entry is the size of its record, the record, and a checksum of both.
pub proof fn lemma_what_an_entry_is(record: Seq<u8>)
    ensures
        ({
            let f = frame(record);
            let n = varint::encode(record.len()).len() as int;
            &&& f.len() == n + record.len() + 4
            &&& f.subrange(0, n) == varint::encode(record.len())
            &&& f.subrange(n, n + record.len()) == record
            &&& le::value(f.skip(n + record.len())) == crc32c::checksum(
                0,
                f.take(n + record.len()),
            )
        }),
{
    let f = frame(record);
    let n = varint::encode(record.len()).len() as int;
    let crc = crc32c::checksum(0, covered(record)) as nat;
    lemma_frame_len(record);
    le::lemma_span_values();
    le::lemma_bytes_len(crc, 4);
    le::lemma_value_of_bytes(crc, 4);
    assert(f.subrange(0, n) =~= varint::encode(record.len()));
    assert(f.subrange(n, n + record.len()) =~= record);
    assert(f.take(n + record.len()) =~= covered(record));
    assert(f.skip(n + record.len()) =~= le::bytes(crc, 4));
}

/// An entry with another checksum than that of its size and record is refused.
pub proof fn lemma_another_checksum_is_refused(record: Seq<u8>, tail: Seq<u8>, rest: Seq<u8>)
    requires
        record.len() <= u32::MAX,
        tail.len() == 4,
        tail != frame(record).skip(frame(record).len() - 4),
    ensures
        parse(covered(record) + tail + rest) == Err::<(Seq<u8>, nat), WalEntryV1Error>(
            WalEntryV1Error::CrcMismatch,
        ),
{
    let size = varint::encode(record.len());
    let good = covered(record);
    let crc = crc32c::checksum(0, good) as nat;
    let data = good + tail + rest;
    lemma_frame_len(record);
    le::lemma_span_values();
    le::lemma_bytes_len(crc, 4);
    assert(frame(record).skip(frame(record).len() - 4) =~= le::bytes(crc, 4));
    assert(data =~= size + (record + tail + rest));
    varint::lemma_decode_of_encode(record.len(), record + tail + rest, 5, u32::MAX as nat);
    let end = (size.len() + record.len()) as int;
    assert(data.subrange(end, end + 4) =~= tail);
    assert(data.take(end) =~= good);
    le::lemma_bytes_of_value(tail);
}

/// An entry takes between five bytes and nine more than its record: five up to a length of 127,
/// and nine from 2 to the 28th on.
pub proof fn lemma_how_large_an_entry_is(record: Seq<u8>)
    ensures
        record.len() < 128 ==> frame(record).len() == record.len() + WAL_ENTRY_V1_MIN_SIZE,
        0x1000_0000 <= record.len() <= u32::MAX ==> frame(record).len() == record.len()
            + WAL_ENTRY_V1_MAX_OVERHEAD,
        record.len() <= u32::MAX ==> record.len() + 5 <= frame(record).len() <= record.len() + 9,
{
    lemma_frame_len(record);
    if 0x1000_0000 <= record.len() <= u32::MAX {
        reveal_with_fuel(varint::encode, 6);
    }
}

/// An entry whose size does not have 32 bits overflows, and one whose size has a zero at its
/// end is not canonical.
pub proof fn lemma_which_sizes_are_refused(v: nat, rest: Seq<u8>)
    ensures
        v > u32::MAX && varint::encode(v).len() <= 5 ==> parse(varint::encode(v) + rest) == Err::<
            (Seq<u8>, nat),
            WalEntryV1Error,
        >(WalEntryV1Error::Overflow),
        parse(seq![128u8, 0u8] + rest) == Err::<(Seq<u8>, nat), WalEntryV1Error>(
            WalEntryV1Error::NonCanonical,
        ),
        parse(Seq::empty()) == Err::<(Seq<u8>, nat), WalEntryV1Error>(WalEntryV1Error::Truncated),
{
    if v > u32::MAX && varint::encode(v).len() <= 5 {
        varint::lemma_encode_shape(v);
        varint::lemma_why_a_varint_is_refused(v, 0, rest, 5, u32::MAX as nat);
    }
    varint::lemma_which_spellings_are_refused(seq![128u8, 0u8] + rest, 1, 5, u32::MAX as nat);
}

/// Id of the `index`-th entry of a file that `num_entries_before` entries precede. Entries
/// do not store their id.
pub fn derive_entry_id(num_entries_before: u64, index: u64) -> (r: Result<u64, WalEntryV1Error>)
    ensures
        num_entries_before + index <= u64::MAX ==> r == Ok::<u64, WalEntryV1Error>(
            (num_entries_before + index) as u64,
        ),
        num_entries_before + index > u64::MAX ==> r == Err::<u64, WalEntryV1Error>(
            WalEntryV1Error::IdOverflow,
        ),
{
    match num_entries_before.checked_add(index) {
        Some(id) => Ok(id),
        None => Err(WalEntryV1Error::IdOverflow),
    }
}

/// Size of the entry of a record of `record_size` bytes.
pub fn encoded_len(record_size: u32) -> (n: usize)
    requires
        record_size + WAL_ENTRY_V1_MAX_OVERHEAD <= usize::MAX,
    ensures
        n as nat == varint::encode(record_size as nat).len() + record_size + 4,
        record_size + 5 <= n <= record_size + 9,
{
    varint::encoded_len(record_size as u64) + record_size as usize + WAL_ENTRY_V1_CRC_SIZE
}

/// Appends the entry of `record` to `out`.
pub fn push_frame(out: &mut Vec<u8>, record: &[u8])
    ensures
        final(out)@ == old(out)@ + frame(record@),
{
    let mut head: Vec<u8> = Vec::new();
    varint::push(&mut head, record.len() as u64);
    let crc: u32 = crc32c::crc32c(crc32c::crc32c(0, head.as_slice()), record);
    proof {
        crc32c::lemma_checksum_concatenates(0, varint::encode(record@.len()), record@);
        assert(head@ =~= varint::encode(record@.len()));
    }
    let ghost start = out@;
    out.extend_from_slice(head.as_slice());
    out.extend_from_slice(record);
    le::push(out, crc as u64, WAL_ENTRY_V1_CRC_SIZE);
    assert(out@ =~= start + frame(record@));
}

/// One record of the log, framed as its size, the record, and a checksum over both.
///
/// Reading borrows the record from the source.
#[derive(Debug, Clone, Copy, PartialEq, Eq)]
pub struct WalEntryV1<'a> {
    pub record: &'a [u8],
}

impl<'a> WalEntryV1<'a> {
    pub fn new(record: &'a [u8]) -> (entry: Self)
        ensures
            entry.record == record,
    {
        WalEntryV1 { record }
    }

    fn record_size(&self) -> (r: Result<u32, WalEntryV1Error>)
        ensures
            r == if self.record@.len() <= u32::MAX {
                Ok::<u32, WalEntryV1Error>(self.record@.len() as u32)
            } else {
                Err::<u32, WalEntryV1Error>(
                    WalEntryV1Error::RecordTooLarge(self.record@.len() as usize),
                )
            },
    {
        let n: usize = self.record.len();
        if n <= u32::MAX as usize {
            Ok(n as u32)
        } else {
            Err(WalEntryV1Error::RecordTooLarge(n))
        }
    }

    /// Size of the entry.
    pub fn size(&self) -> (r: Result<usize, WalEntryV1Error>)
        requires
            self.record@.len() <= u32::MAX ==> self.record@.len() + WAL_ENTRY_V1_MAX_OVERHEAD
                <= usize::MAX,
        ensures
            match r {
                Ok(n) => self.record@.len() <= u32::MAX && n as nat == frame(self.record@).len(),
                Err(e) => self.record@.len() > u32::MAX && e == WalEntryV1Error::RecordTooLarge(
                    self.record@.len() as usize,
                ),
            },
    {
        proof {
            lemma_frame_len(self.record@);
        }
        match self.record_size() {
            Ok(n) => Ok(encoded_len(n)),
            Err(e) => Err(e),
        }
    }

    /// Appends the entry to `dest` and says how many bytes it took.
    pub fn write_to_bytes(&self, dest: &mut BytesMut) -> (r: Result<usize, WalEntryV1Error>)
        requires
            self.record@.len() <= u32::MAX ==> buf::filled(*old(dest)).len() + frame(
                self.record@,
            ).len() <= isize::MAX,
        ensures
            match r {
                Ok(n) => {
                    &&& self.record@.len() <= u32::MAX
                    &&& n as nat == frame(self.record@).len()
                    &&& buf::filled(*final(dest)) == buf::filled(*old(dest)) + frame(self.record@)
                },
                Err(e) => {
                    &&& self.record@.len() > u32::MAX
                    &&& e == WalEntryV1Error::RecordTooLarge(self.record@.len() as usize)
                    &&& *final(dest) == *old(dest)
                },
            },
    {
        match self.record_size() {
            Ok(_) => {
                let mut entry: Vec<u8> = Vec::new();
                push_frame(&mut entry, self.record);
                assert(entry@ =~= frame(self.record@));
                buf::extend(dest, entry.as_slice());
                Ok(entry.len())
            },
            Err(e) => Err(e),
        }
    }

    /// Reads the entry at the front of `data`: the entry and the bytes it took.
    pub fn from_bytes(data: &'a [u8]) -> (r: Result<(Self, usize), WalEntryV1Error>)
        ensures
            match r {
                Ok((entry, consumed)) => parse(data@) == Ok::<(Seq<u8>, nat), WalEntryV1Error>(
                    (entry.record@, consumed as nat),
                ),
                Err(e) => parse(data@) == Err::<(Seq<u8>, nat), WalEntryV1Error>(e),
            },
    {
        assert(data@.skip(0) =~= data@);
        let (size, at): (u32, usize) = match varint::read_32(data, 0) {
            Ok((v, n)) => (v, n),
            Err(VarintError::Truncated) => {
                return Err(WalEntryV1Error::Truncated);
            },
            Err(VarintError::Overflow) => {
                return Err(WalEntryV1Error::Overflow);
            },
            Err(VarintError::NonCanonical) => {
                return Err(WalEntryV1Error::NonCanonical);
            },
        };
        proof {
            varint::lemma_decode_is_canonical(data@, 5, u32::MAX as nat);
        }
        let total: u64 = at as u64 + size as u64 + WAL_ENTRY_V1_CRC_SIZE as u64;
        if (data.len() as u64) < total {
            return Err(WalEntryV1Error::Truncated);
        }
        let end: usize = at + size as usize;
        let stored: u64 = le::read(data, end, WAL_ENTRY_V1_CRC_SIZE);
        let body: &[u8] = slice_subrange(data, 0, end);
        assert(body@ =~= data@.take(end as int));
        if stored != crc32c::crc32c(0, body) as u64 {
            return Err(WalEntryV1Error::CrcMismatch);
        }
        let record: &[u8] = slice_subrange(data, at, end);
        Ok((WalEntryV1 { record }, end + WAL_ENTRY_V1_CRC_SIZE))
    }

    /// Reads the entry at the front of `data`, the `index`-th of a file that
    /// `num_entries_before` entries precede: the entry, its id and the bytes it took.
    pub fn iter_next(data: &'a [u8], num_entries_before: u64, index: u64) -> (r: Result<
        (Self, u64, usize),
        WalEntryV1Error,
    >)
        ensures
            match parse(data@) {
                Ok((record, n)) => if num_entries_before + index <= u64::MAX {
                    r matches Ok((entry, id, consumed)) && entry.record@ == record && id
                        == num_entries_before + index && consumed as nat == n
                } else {
                    r == Err::<(Self, u64, usize), WalEntryV1Error>(WalEntryV1Error::IdOverflow)
                },
                Err(e) => r == Err::<(Self, u64, usize), WalEntryV1Error>(e),
            },
    {
        match Self::from_bytes(data) {
            Ok((entry, consumed)) => match derive_entry_id(num_entries_before, index) {
                Ok(id) => Ok((entry, id, consumed)),
                Err(e) => Err(e),
            },
            Err(e) => Err(e),
        }
    }
}

} // verus!
