//! Entries of the first file format: an id, a record size and a hash, and then the record.

use vstd::prelude::*;

use crate::le;
use crate::uintn::UintN;

verus! {

/// Size of the hash of an entry.
pub const WAL_ENTRY_HASH_SIZE: usize = 8;

/// Why an entry could not be read.
#[derive(Debug, Clone, Copy, PartialEq, Eq, Structural)]
pub enum WalEntryError {
    /// The bytes end inside the entry.
    SliceTooShort,
}

/// The 64-bit xxHash of `data` under `seed`.
pub uninterp spec fn xxh64_of(data: Seq<u8>, seed: u64) -> u64;

/// `xxhash_rust::xxh64::xxh64`: the hash depends on the bytes and the seed alone.
#[verifier::external_body]
pub(crate) fn xxh64(data: &[u8], seed: u64) -> (h: u64)
    ensures
        h == xxh64_of(data@, seed),
{
    xxhash_rust::xxh64::xxh64(data, seed)
}

/// What stands before the record of an entry.
pub struct EntryHeaderView {
    pub id: nat,
    pub record_size: nat,
    pub hash: u64,
}

/// What the header of an entry at the front of `data` says, where it is whole.
pub open spec fn parse_header(data: Seq<u8>, id_size: nat, data_size: nat) -> Option<EntryHeaderView> {
    if data.len() < id_size + data_size + 8 {
        None
    } else {
        let a = id_size as int;
        let b = (id_size + data_size) as int;
        Some(
            EntryHeaderView {
                id: le::value(data.subrange(0, a)),
                record_size: le::value(data.subrange(a, b)),
                hash: le::value(data.subrange(b, b + 8)) as u64,
            },
        )
    }
}

/// The bytes of an entry.
pub open spec fn frame(id: nat, record: Seq<u8>, id_size: nat, data_size: nat) -> Seq<u8> {
    le::bytes(id, id_size) + le::bytes(record.len(), data_size) + le::bytes(
        xxh64_of(record, 0) as nat,
        8,
    ) + record
}

/// Whether an id and a record size fit fields of these widths.
pub open spec fn fits(id: nat, len: nat, id_size: nat, data_size: nat) -> bool {
    id < le::span(id_size) && len < le::span(data_size)
}

pub proof fn lemma_frame_len(id: nat, record: Seq<u8>, id_size: nat, data_size: nat)
    ensures
        frame(id, record, id_size, data_size).len() == id_size + data_size + 8 + record.len(),
{
    le::lemma_bytes_len(id, id_size);
    le::lemma_bytes_len(record.len(), data_size);
    le::lemma_bytes_len(xxh64_of(record, 0) as nat, 8);
}

/// An entry of the first format is its id, the size of its record, the hash of the record, and
/// the record, each number least byte first.
pub proof fn lemma_what_an_entry_is(id: nat, record: Seq<u8>, id_size: nat, data_size: nat)
    requires
        id < le::span(id_size),
        record.len() < le::span(data_size),
    ensures
        ({
            let f = frame(id, record, id_size, data_size);
            let a = id_size as int;
            let b = (id_size + data_size) as int;
            &&& f.len() == b + 8 + record.len()
            &&& le::value(f.subrange(0, a)) == id
            &&& le::value(f.subrange(a, b)) == record.len()
            &&& le::value(f.subrange(b, b + 8)) == xxh64_of(record, 0)
            &&& f.skip(b + 8) == record
        }),
{
    let f = frame(id, record, id_size, data_size);
    let hash = xxh64_of(record, 0) as nat;
    let a = id_size as int;
    let b = (id_size + data_size) as int;
    lemma_frame_len(id, record, id_size, data_size);
    le::lemma_span_values();
    le::lemma_bytes_len(id, id_size);
    le::lemma_bytes_len(record.len(), data_size);
    le::lemma_bytes_len(hash, 8);
    le::lemma_value_of_bytes(id, id_size);
    le::lemma_value_of_bytes(record.len(), data_size);
    le::lemma_value_of_bytes(hash, 8);
    assert(f.subrange(0, a) =~= le::bytes(id, id_size));
    assert(f.subrange(a, b) =~= le::bytes(record.len(), data_size));
    assert(f.subrange(b, b + 8) =~= le::bytes(hash, 8));
    assert(f.skip(b + 8) =~= record);
}

/// The header of an entry that was written is read back, as soon as it is there.
pub proof fn lemma_header_of_frame(id: nat, record: Seq<u8>, id_size: nat, data_size: nat, data: Seq<u8>)
    requires
        fits(id, record.len(), id_size, data_size),
        data.len() >= id_size + data_size + 8,
        frame(id, record, id_size, data_size).is_prefix_of(data) || data.is_prefix_of(
            frame(id, record, id_size, data_size),
        ),
    ensures
        parse_header(data, id_size, data_size) == Some(
            EntryHeaderView { id, record_size: record.len(), hash: xxh64_of(record, 0) },
        ),
{
    let hash = xxh64_of(record, 0) as nat;
    let whole = frame(id, record, id_size, data_size);
    let a = id_size as int;
    let b = (id_size + data_size) as int;
    lemma_frame_len(id, record, id_size, data_size);
    le::lemma_span_values();
    le::lemma_bytes_len(id, id_size);
    le::lemma_bytes_len(record.len(), data_size);
    le::lemma_bytes_len(hash, 8);
    le::lemma_value_of_bytes(id, id_size);
    le::lemma_value_of_bytes(record.len(), data_size);
    le::lemma_value_of_bytes(hash, 8);
    assert(data.subrange(0, a) =~= whole.subrange(0, a));
    assert(data.subrange(a, b) =~= whole.subrange(a, b));
    assert(data.subrange(b, b + 8) =~= whole.subrange(b, b + 8));
    assert(whole.subrange(0, a) =~= le::bytes(id, id_size));
    assert(whole.subrange(a, b) =~= le::bytes(record.len(), data_size));
    assert(whole.subrange(b, b + 8) =~= le::bytes(hash, 8));
}

/// Appends the entry of a record to `out`.
pub fn push_frame(out: &mut Vec<u8>, id: &UintN, record: &[u8], id_size: usize, data_size: usize)
    requires
        fits(id@, record@.len(), id_size as nat, data_size as nat),
    ensures
        final(out)@ == old(out)@ + frame(id@, record@, id_size as nat, data_size as nat),
{
    let ghost start = out@;
    id.push_le(out, id_size);
    le::push(out, record.len() as u64, data_size);
    le::push(out, xxh64(record, 0), WAL_ENTRY_HASH_SIZE);
    out.extend_from_slice(record);
    assert(out@ =~= start + frame(id@, record@, id_size as nat, data_size as nat));
}

/// The header of an entry.
#[derive(Debug, Clone, Copy, PartialEq, Eq, Structural)]
pub struct WalEntryHeader {
    pub entry_id: u64,
    pub record_size: u64,
    pub xxhash: u64,
}

impl View for WalEntryHeader {
    type V = EntryHeaderView;

    open spec fn view(&self) -> EntryHeaderView {
        EntryHeaderView {
            id: self.entry_id as nat,
            record_size: self.record_size as nat,
            hash: self.xxhash,
        }
    }
}

impl WalEntryHeader {
    /// Reads the header of an entry at the front of `data`, for the given widths of the id
    /// and the record size.
    pub fn from_bytes(data: &[u8], id_size: usize, data_size: usize) -> (r: Result<
        WalEntryHeader,
        WalEntryError,
    >)
        requires
            id_size <= 8,
            data_size <= 8,
        ensures
            match r {
                Ok(h) => parse_header(data@, id_size as nat, data_size as nat) == Some(h@),
                Err(e) => e == WalEntryError::SliceTooShort && parse_header(
                    data@,
                    id_size as nat,
                    data_size as nat,
                ) is None,
            },
    {
        let hash_at: usize = id_size + data_size;
        if data.len() < hash_at + WAL_ENTRY_HASH_SIZE {
            return Err(WalEntryError::SliceTooShort);
        }
        Ok(
            WalEntryHeader {
                entry_id: le::read(data, 0, id_size),
                record_size: le::read(data, id_size, data_size),
                xxhash: le::read(data, hash_at, WAL_ENTRY_HASH_SIZE),
            },
        )
    }

    /// Whether a record with this hash is the one that the entry announced.
    pub fn accepts(&self, hash: u64) -> (b: bool)
        ensures
            b == (hash == self@.hash),
    {
        hash == self.xxhash
    }
}

} // verus!
