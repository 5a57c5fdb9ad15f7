//! The header of a file, with a checksum over its fields, and headers of either format.
//!
//! Entry ids are the entries before the file plus the place in it, so a flipped bit in the
//! header would renumber every entry while each entry still checks out. The checksum that
//! ends the header closes that.

use bytes::BytesMut;
use vstd::prelude::*;
use vstd::slice::slice_subrange;
use vstd::std_specs::convert::FromSpecImpl;
use vstd::string::StringExecFns;

use crate::buf;
use crate::crc32c;
use crate::le;
use crate::text;
use crate::uintn::UintN;
use crate::varint;
use crate::varint::VarintError;
use crate::wal_entry_v1::{derive_entry_id, WalEntryV1Error};
use crate::wal_header;
use crate::wal_header::{
    HeaderView, WalHeader, WalHeaderError, MAX_FIELD_WIDTH, WAL_HEADER_V0_VERSION,
    WAL_HEADER_VERSION_SIZE,
};

verus! {

/// The version word of this format.
pub const WAL_HEADER_V1_VERSION: u64 = 1;

/// The shortest that the fields can be.
pub const WAL_HEADER_V1_MIN_SIZE: usize = 11;

/// The longest that the fields can be.
pub const WAL_HEADER_V1_MAX_SIZE: usize = 20;

/// Size of the checksum that follows the fields.
pub const WAL_HEADER_V1_CRC_SIZE: usize = 4;

/// What a file is charged for its header: the most that one can take, with its checksum. The
/// widths of the next header are not known before it is written.
pub const WAL_HEADER_V1_CHARGE: u64 = 24;

/// Why a header could not be made, written or read.
#[derive(Debug, Clone, Copy, PartialEq, Eq, Structural)]
pub enum WalHeaderV1Error {
    /// The bytes end inside the header.
    Truncated,
    /// A field does not fit 64 bits.
    Overflow,
    /// A field has a shorter encoding.
    NonCanonical,
    /// The file has another version.
    UnsupportedVersion(u64),
    InvalidDataSizeBytes(u64),
    InvalidIdSizeBytes(u64),
    /// A value does not fit a 64-bit field.
    ValueTooLarge,
    /// The checksum does not match the fields.
    CrcMismatch { stored: u32, computed: u32 },
}

impl WalHeaderV1Error {
    /// The error in words.
    pub open spec fn words(self) -> Seq<char> {
        match self {
            WalHeaderV1Error::Truncated => "Truncated V1 WAL header"@,
            WalHeaderV1Error::Overflow => "V1 WAL header varint exceeds u64"@,
            WalHeaderV1Error::NonCanonical => "Non-canonical V1 WAL header varint"@,
            WalHeaderV1Error::UnsupportedVersion(v) => "Unsupported WAL version: "@
                + text::decimal(v as nat),
            WalHeaderV1Error::InvalidDataSizeBytes(n) => "Invalid data size bytes: "@
                + text::decimal(n as nat),
            WalHeaderV1Error::InvalidIdSizeBytes(n) => "Invalid ID size bytes: "@
                + text::decimal(n as nat),
            WalHeaderV1Error::ValueTooLarge =>
                "Value does not fit in a u64 V1 WAL header field"@,
            WalHeaderV1Error::CrcMismatch { stored, computed } =>
                "V1 WAL header CRC mismatch: stored 0x"@ + text::hex(stored as nat, 8)
                + ", computed 0x"@ + text::hex(computed as nat, 8),
        }
    }

    /// The error in words.
    pub fn message(&self) -> (s: String)
        ensures
            s@ == self.words(),
    {
        match self {
            WalHeaderV1Error::Truncated => "Truncated V1 WAL header".to_owned(),
            WalHeaderV1Error::Overflow => "V1 WAL header varint exceeds u64".to_owned(),
            WalHeaderV1Error::NonCanonical => "Non-canonical V1 WAL header varint".to_owned(),
            WalHeaderV1Error::UnsupportedVersion(v) => {
                text::with_decimal("Unsupported WAL version: ", *v)
            },
            WalHeaderV1Error::InvalidDataSizeBytes(n) => {
                text::with_decimal("Invalid data size bytes: ", *n)
            },
            WalHeaderV1Error::InvalidIdSizeBytes(n) => {
                text::with_decimal("Invalid ID size bytes: ", *n)
            },
            WalHeaderV1Error::ValueTooLarge => {
                "Value does not fit in a u64 V1 WAL header field".to_owned()
            },
            WalHeaderV1Error::CrcMismatch { stored, computed } => {
                let mut s: String = "V1 WAL header CRC mismatch: stored 0x".to_owned();
                text::push_hex(&mut s, *stored as u64, 8);
                s.append(", computed 0x");
                text::push_hex(&mut s, *computed as u64, 8);
                s
            },
        }
    }
}

/// What a malformed field makes of a header.
pub open spec fn field_error(e: VarintError) -> WalHeaderV1Error {
    match e {
        VarintError::Truncated => WalHeaderV1Error::Truncated,
        VarintError::Overflow => WalHeaderV1Error::Overflow,
        VarintError::NonCanonical => WalHeaderV1Error::NonCanonical,
    }
}

impl From<VarintError> for WalHeaderV1Error {
    fn from(e: VarintError) -> (r: Self) {
        match e {
            VarintError::Truncated => WalHeaderV1Error::Truncated,
            VarintError::Overflow => WalHeaderV1Error::Overflow,
            VarintError::NonCanonical => WalHeaderV1Error::NonCanonical,
        }
    }
}

impl FromSpecImpl<VarintError> for WalHeaderV1Error {
    open spec fn obeys_from_spec() -> bool {
        true
    }

    open spec fn from_spec(e: VarintError) -> Self {
        field_error(e)
    }
}

/// The fields of a header, before its checksum.
pub open spec fn fields(h: HeaderView) -> Seq<u8> {
    le::bytes(WAL_HEADER_V1_VERSION as nat, 8) + varint::encode(h.data_size) + varint::encode(
        h.id_size,
    ) + varint::encode(h.before)
}

/// The bytes of a header.
pub open spec fn encode(h: HeaderView) -> Seq<u8> {
    fields(h) + le::bytes(crc32c::checksum(0, fields(h)) as nat, 4)
}

/// Whether the widths of a header are valid and its count fits 64 bits.
pub open spec fn valid(h: HeaderView) -> bool {
    wal_header::valid_width(h.data_size) && wal_header::valid_width(h.id_size) && h.before
        <= u64::MAX
}

/// What is wrong with the widths of a header, the first of them first.
pub open spec fn width_error(data_size: nat, id_size: nat) -> WalHeaderV1Error {
    if !wal_header::valid_width(data_size) {
        WalHeaderV1Error::InvalidDataSizeBytes(data_size as u64)
    } else {
        WalHeaderV1Error::InvalidIdSizeBytes(id_size as u64)
    }
}

/// What reading the field at `at` gives: the value and where the next field starts.
pub open spec fn field_at(data: Seq<u8>, at: nat) -> Result<(nat, nat), WalHeaderV1Error> {
    match varint::decode_64(data.skip(at as int)) {
        Ok((v, n)) => Ok((v, at + n)),
        Err(e) => Err(field_error(e)),
    }
}

/// What reading the fields of a header at the front of `data` gives: the header and their
/// length, or the reason why there is none.
pub open spec fn parse_fields(data: Seq<u8>) -> Result<(HeaderView, nat), WalHeaderV1Error> {
    if data.len() < 8 {
        Err(WalHeaderV1Error::Truncated)
    } else if le::value(data.subrange(0, 8)) != WAL_HEADER_V1_VERSION {
        Err(WalHeaderV1Error::UnsupportedVersion(le::value(data.subrange(0, 8)) as u64))
    } else {
        match field_at(data, 8) {
            Err(e) => Err(e),
            Ok((data_size, a)) => match field_at(data, a) {
                Err(e) => Err(e),
                Ok((id_size, b)) => match field_at(data, b) {
                    Err(e) => Err(e),
                    Ok((before, c)) => {
                        let h = HeaderView { data_size, id_size, before };
                        if valid(h) {
                            Ok((h, c))
                        } else {
                            Err(width_error(data_size, id_size))
                        }
                    },
                },
            },
        }
    }
}

/// What checking the checksum after `n` bytes of `data` gives: the length with it.
pub open spec fn check_trailer(data: Seq<u8>, n: nat) -> Result<nat, WalHeaderV1Error> {
    if data.len() < n + 4 {
        Err(WalHeaderV1Error::Truncated)
    } else {
        let stored = le::value(data.subrange(n as int, n as int + 4)) as u32;
        let computed = crc32c::checksum(0, data.take(n as int));
        if stored != computed {
            Err(WalHeaderV1Error::CrcMismatch { stored, computed })
        } else {
            Ok(n + 4)
        }
    }
}

/// What reading a header at the front of `data` gives: the header and its length, or the
/// reason why there is none.
pub open spec fn parse(data: Seq<u8>) -> Result<(HeaderView, nat), WalHeaderV1Error> {
    match parse_fields(data) {
        Err(e) => Err(e),
        Ok((h, n)) => match check_trailer(data, n) {
            Err(e) => Err(e),
            Ok(total) => Ok((h, total)),
        },
    }
}

proof fn lemma_field_shape(data: Seq<u8>, at: nat)
    requires
        at <= data.len(),
        field_at(data, at) is Ok,
    ensures
        ({
            let (v, next) = field_at(data, at)->Ok_0;
            &&& at < next <= data.len()
            &&& next <= at + 10
            &&& v <= u64::MAX
            &&& data.subrange(at as int, next as int) == varint::encode(v)
        }),
{
    let rest = data.skip(at as int);
    varint::lemma_decode_is_canonical(rest, 10, u64::MAX as nat);
    let (v, n) = varint::decode_64(rest)->Ok_0;
    assert(rest.take(n as int) =~= data.subrange(at as int, at as int + n));
}

proof fn lemma_field_of_encode(data: Seq<u8>, at: nat, v: nat, rest: Seq<u8>)
    requires
        at <= data.len(),
        v <= u64::MAX,
        data.skip(at as int) == varint::encode(v) + rest,
    ensures
        field_at(data, at) == Ok::<(nat, nat), WalHeaderV1Error>(
            (v, at + varint::encode(v).len()),
        ),
{
    varint::lemma_encode_len_64(v);
    varint::lemma_decode_of_encode(v, rest, 10, u64::MAX as nat);
}

proof fn lemma_width_field_len(v: nat)
    requires
        wal_header::valid_width(v),
    ensures
        varint::encode(v).len() == 1,
{
}

pub proof fn lemma_fields_len(h: HeaderView)
    requires
        valid(h),
    ensures
        fields(h).len() == 10 + varint::encode(h.before).len(),
        WAL_HEADER_V1_MIN_SIZE <= fields(h).len() <= WAL_HEADER_V1_MAX_SIZE,
        encode(h).len() == fields(h).len() + 4,
{
    le::lemma_bytes_len(1, 8);
    le::lemma_bytes_len(crc32c::checksum(0, fields(h)) as nat, 4);
    lemma_width_field_len(h.data_size);
    lemma_width_field_len(h.id_size);
    varint::lemma_encode_len_64(h.before);
}

/// A header is its version least byte first, three varints, and a checksum of all of them: the
/// widths of a record size and of an id, and the count. Every header whose widths are between
/// one byte and eight, and whose count has 64 bits, can be written; no other can.
pub proof fn lemma_what_a_header_is(h: HeaderView)
    ensures
        valid(h) <==> 1 <= h.data_size <= 8 && 1 <= h.id_size <= 8 && h.before <= u64::MAX,
        valid(h) ==> {
            let s = encode(h);
            let n = s.len() - 4;
            &&& le::value(s.subrange(0, 8)) == 1
            &&& s.subrange(8, n) == varint::encode(h.data_size) + varint::encode(h.id_size)
                + varint::encode(h.before)
            &&& le::value(s.skip(n)) == crc32c::checksum(0, s.take(n))
        },
{
    if valid(h) {
        let s = encode(h);
        let n = s.len() - 4;
        let crc = crc32c::checksum(0, fields(h)) as nat;
        lemma_fields_len(h);
        le::lemma_span_values();
        le::lemma_bytes_len(1, 8);
        le::lemma_value_of_bytes(1, 8);
        le::lemma_bytes_len(crc, 4);
        le::lemma_value_of_bytes(crc, 4);
        assert(s.subrange(0, 8) =~= le::bytes(1, 8));
        assert(s.subrange(8, n) =~= varint::encode(h.data_size) + varint::encode(h.id_size)
            + varint::encode(h.before));
        assert(s.take(n) =~= fields(h));
        assert(s.skip(n) =~= le::bytes(crc, 4));
    }
}

/// A field that spells too large a number overflows, and one with a zero at its end is not
/// canonical; a version that is not one is not supported.
pub proof fn lemma_which_fields_are_refused(v: nat, rest: Seq<u8>, data: Seq<u8>)
    ensures
        v > u64::MAX && varint::encode(v).len() <= 10 ==> parse(
            le::bytes(1, 8) + varint::encode(v) + rest,
        ) == Err::<(HeaderView, nat), WalHeaderV1Error>(WalHeaderV1Error::Overflow),
        parse(le::bytes(1, 8) + seq![128u8, 0u8] + rest) == Err::<
            (HeaderView, nat),
            WalHeaderV1Error,
        >(WalHeaderV1Error::NonCanonical),
        data.len() >= 8 && le::value(data.take(8)) != 1 ==> parse(data) == Err::<
            (HeaderView, nat),
            WalHeaderV1Error,
        >(WalHeaderV1Error::UnsupportedVersion(le::value(data.take(8)) as u64)),
        data.len() < 8 ==> parse(data) == Err::<(HeaderView, nat), WalHeaderV1Error>(
            WalHeaderV1Error::Truncated,
        ),
{
    le::lemma_span_values();
    le::lemma_bytes_len(1, 8);
    le::lemma_value_of_bytes(1, 8);
    let a = le::bytes(1, 8) + varint::encode(v) + rest;
    assert(a.subrange(0, 8) =~= le::bytes(1, 8));
    assert(a.skip(8) =~= varint::encode(v) + rest);
    if v > u64::MAX && varint::encode(v).len() <= 10 {
        varint::lemma_encode_shape(v);
        varint::lemma_why_a_varint_is_refused(v, 0, rest, 10, u64::MAX as nat);
    }
    let b = le::bytes(1, 8) + seq![128u8, 0u8] + rest;
    assert(b.subrange(0, 8) =~= le::bytes(1, 8));
    varint::lemma_which_spellings_are_refused(b.skip(8), 1, 10, u64::MAX as nat);
    assert(data.take(8) =~= data.subrange(0, 8));
}

/// The fields of a header stand one after the other, at the places that follow from their
/// lengths.
proof fn lemma_fields_stand_there(h: HeaderView, rest: Seq<u8>)
    requires
        h.data_size <= u64::MAX,
        h.id_size <= u64::MAX,
        h.before <= u64::MAX,
    ensures
        ({
            let data = fields(h) + rest;
            let a = (8 + varint::encode(h.data_size).len()) as nat;
            let b = (a + varint::encode(h.id_size).len()) as nat;
            &&& data.len() >= 8
            &&& le::value(data.subrange(0, 8)) == 1
            &&& field_at(data, 8) == Ok::<(nat, nat), WalHeaderV1Error>((h.data_size, a))
            &&& field_at(data, a) == Ok::<(nat, nat), WalHeaderV1Error>((h.id_size, b))
            &&& field_at(data, b) == Ok::<(nat, nat), WalHeaderV1Error>(
                (h.before, fields(h).len()),
            )
        }),
{
    let word = le::bytes(1, 8);
    let x = varint::encode(h.data_size);
    let y = varint::encode(h.id_size);
    let z = varint::encode(h.before);
    let data = fields(h) + rest;
    le::lemma_span_values();
    le::lemma_bytes_len(1, 8);
    le::lemma_value_of_bytes(1, 8);
    assert(data =~= word + x + y + z + rest);
    lemma_three_parts(word, x, y, z, rest);
    lemma_field_of_encode(data, 8, h.data_size, y + z + rest);
    lemma_field_of_encode(data, (8 + x.len()) as nat, h.id_size, z + rest);
    lemma_field_of_encode(data, (8 + x.len() + y.len()) as nat, h.before, rest);
}

proof fn lemma_three_parts(word: Seq<u8>, x: Seq<u8>, y: Seq<u8>, z: Seq<u8>, rest: Seq<u8>)
    requires
        word.len() == 8,
    ensures
        ({
            let data = word + x + y + z + rest;
            &&& data.subrange(0, 8) == word
            &&& data.skip(8) == x + (y + z + rest)
            &&& data.skip(8 + x.len() as int) == y + (z + rest)
            &&& data.skip(8 + x.len() as int + y.len() as int) == z + rest
        }),
{
    let data = word + x + y + z + rest;
    assert(data.subrange(0, 8) =~= word);
    assert(data.skip(8) =~= x + (y + z + rest));
    assert(data.skip(8 + x.len() as int) =~= y + (z + rest));
    assert(data.skip(8 + x.len() as int + y.len() as int) =~= z + rest);
}

/// A header that names no width of one byte to eight is refused, and says which width it is:
/// that of a record size if that is none, and otherwise that of an id.
pub proof fn lemma_which_widths_are_refused(h: HeaderView, rest: Seq<u8>)
    requires
        h.data_size <= u64::MAX,
        h.id_size <= u64::MAX,
        h.before <= u64::MAX,
    ensures
        !(1 <= h.data_size <= 8) ==> parse(fields(h) + rest) == Err::<
            (HeaderView, nat),
            WalHeaderV1Error,
        >(WalHeaderV1Error::InvalidDataSizeBytes(h.data_size as u64)),
        1 <= h.data_size <= 8 && !(1 <= h.id_size <= 8) ==> parse(fields(h) + rest) == Err::<
            (HeaderView, nat),
            WalHeaderV1Error,
        >(WalHeaderV1Error::InvalidIdSizeBytes(h.id_size as u64)),
{
    lemma_fields_stand_there(h, rest);
}

/// A header with another checksum than its own is refused, and says which stands there and
/// which should.
pub proof fn lemma_another_checksum_is_refused(h: HeaderView, tail: Seq<u8>, rest: Seq<u8>)
    requires
        valid(h),
        tail.len() == 4,
        tail != encode(h).skip(encode(h).len() - 4),
    ensures
        parse(fields(h) + tail + rest) == Err::<(HeaderView, nat), WalHeaderV1Error>(
            WalHeaderV1Error::CrcMismatch {
                stored: le::value(tail) as u32,
                computed: le::value(encode(h).skip(encode(h).len() - 4)) as u32,
            },
        ),
{
    let data = fields(h) + tail + rest;
    let crc = crc32c::checksum(0, fields(h)) as nat;
    let n = fields(h).len() as int;
    le::lemma_span_values();
    le::lemma_bytes_len(crc, 4);
    le::lemma_value_of_bytes(crc, 4);
    assert(encode(h).skip(encode(h).len() - 4) =~= le::bytes(crc, 4));
    assert(data =~= fields(h) + (tail + rest));
    lemma_fields_stand_there(h, tail + rest);
    assert(data.subrange(n, n + 4) =~= tail);
    assert(data.take(n) =~= fields(h));
    le::lemma_bytes_of_value(tail);
    le::lemma_value_bound(tail);
}

/// No header takes more than a file is charged for it, and the widest takes as much.
pub proof fn lemma_the_charge_covers_every_header(h: HeaderView)
    requires
        valid(h),
    ensures
        encode(h).len() <= WAL_HEADER_V1_CHARGE,
        h.before == u64::MAX ==> encode(h).len() == WAL_HEADER_V1_CHARGE,
        WAL_HEADER_V1_CHARGE == WAL_HEADER_V1_MAX_SIZE + WAL_HEADER_V1_CRC_SIZE,
{
    lemma_fields_len(h);
    if h.before == u64::MAX {
        reveal_with_fuel(varint::encode, 11);
    }
}

/// Reading back what was written gives the header, whatever follows it.
pub proof fn lemma_parse_of_encode(h: HeaderView, rest: Seq<u8>)
    requires
        valid(h),
    ensures
        parse(encode(h) + rest) == Ok::<(HeaderView, nat), WalHeaderV1Error>((h, encode(h).len())),
{
    let word = le::bytes(1, 8);
    let x = varint::encode(h.data_size);
    let y = varint::encode(h.id_size);
    let z = varint::encode(h.before);
    let crc = crc32c::checksum(0, fields(h));
    let tail = le::bytes(crc as nat, 4);
    let data = encode(h) + rest;
    lemma_fields_len(h);
    le::lemma_span_values();
    le::lemma_value_of_bytes(1, 8);
    le::lemma_value_of_bytes(crc as nat, 4);
    assert(data.subrange(0, 8) =~= word);
    assert(data.skip(8) =~= x + (y + z + tail + rest));
    lemma_field_of_encode(data, 8, h.data_size, y + z + tail + rest);
    let a = 8 + x.len();
    assert(data.skip(a as int) =~= y + (z + tail + rest));
    lemma_field_of_encode(data, a, h.id_size, z + tail + rest);
    let b = a + y.len();
    assert(data.skip(b as int) =~= z + (tail + rest));
    lemma_field_of_encode(data, b, h.before, tail + rest);
    let c = b + z.len();
    assert(data.subrange(c as int, c as int + 4) =~= tail);
    assert(data.take(c as int) =~= fields(h));
}

/// A header that was written starts with the version word of its format.
pub proof fn lemma_version_word(h: HeaderView, rest: Seq<u8>)
    ensures
        (encode(h) + rest).len() >= 8,
        le::value((encode(h) + rest).subrange(0, 8)) == WAL_HEADER_V1_VERSION,
{
    let word = le::bytes(1, 8);
    le::lemma_bytes_len(1, 8);
    le::lemma_span_values();
    le::lemma_value_of_bytes(1, 8);
    assert((encode(h) + rest).subrange(0, 8) =~= word);
}

/// Only what writing would produce is accepted.
pub proof fn lemma_parse_is_exact(data: Seq<u8>)
    requires
        parse(data) is Ok,
    ensures
        ({
            let (h, n) = parse(data)->Ok_0;
            &&& valid(h)
            &&& n <= data.len()
            &&& data.take(n as int) == encode(h)
        }),
{
    let (data_size, a) = field_at(data, 8)->Ok_0;
    lemma_field_shape(data, 8);
    let (id_size, b) = field_at(data, a)->Ok_0;
    lemma_field_shape(data, a);
    let (before, c) = field_at(data, b)->Ok_0;
    lemma_field_shape(data, b);
    let h = HeaderView { data_size, id_size, before };
    le::lemma_bytes_of_value(data.subrange(0, 8));
    assert(data.take(c as int) =~= data.subrange(0, 8) + data.subrange(8, a as int)
        + data.subrange(a as int, b as int) + data.subrange(b as int, c as int));
    assert(data.take(c as int) == fields(h));
    let tail = data.subrange(c as int, c as int + 4);
    le::lemma_span_values();
    le::lemma_value_bound(tail);
    le::lemma_bytes_of_value(tail);
    assert(data.take(c as int + 4) =~= data.take(c as int) + tail);
}

/// A header with one byte of its fields changed is not read as a header of the same length:
/// either it is malformed, or the checksum gives the change away.
pub proof fn lemma_changed_field_is_refused(h: HeaderView, at: int, b: u8, rest: Seq<u8>)
    requires
        valid(h),
        0 <= at < fields(h).len(),
        fields(h)[at] != b,
    ensures
        ({
            let data = encode(h).update(at, b) + rest;
            parse(data) is Ok ==> (parse(data)->Ok_0).1 != encode(h).len()
        }),
{
    let data = encode(h).update(at, b) + rest;
    lemma_fields_len(h);
    if parse(data) is Ok && (parse(data)->Ok_0).1 == encode(h).len() {
        let n = fields(h).len();
        let crc = crc32c::checksum(0, fields(h));
        le::lemma_span_values();
        le::lemma_value_of_bytes(crc as nat, 4);
        assert(data.subrange(n as int, n as int + 4) =~= le::bytes(crc as nat, 4));
        assert(data.take(n as int) =~= fields(h).update(at, b));
        crc32c::lemma_one_changed_byte_is_seen(0, fields(h), at, b);
    }
}

proof fn lemma_field_extends(data: Seq<u8>, more: Seq<u8>, at: nat)
    requires
        at <= data.len(),
    ensures
        field_at(data, at) !== Err::<(nat, nat), WalHeaderV1Error>(WalHeaderV1Error::Truncated)
            ==> field_at(data + more, at) == field_at(data, at),
        data.len() >= at + 10 ==> field_at(data, at) !== Err::<(nat, nat), WalHeaderV1Error>(
            WalHeaderV1Error::Truncated,
        ),
{
    let rest = data.skip(at as int);
    assert((data + more).skip(at as int) =~= rest + more);
    if varint::decode_64(rest) !== Err::<(nat, nat), VarintError>(VarintError::Truncated) {
        varint::lemma_decode_extends(rest, more, 10, u64::MAX as nat);
    }
}

/// More bytes after a header change nothing about a result that did not run out of bytes,
/// and a header never needs more than 42.
pub proof fn lemma_parse_extends(data: Seq<u8>, more: Seq<u8>)
    ensures
        parse(data) !== Err::<(HeaderView, nat), WalHeaderV1Error>(WalHeaderV1Error::Truncated)
            ==> parse(data + more) == parse(data),
        parse(data) is Ok ==> 15 <= (parse(data)->Ok_0).1 <= data.len(),
        data.len() >= 42 ==> parse(data) !== Err::<(HeaderView, nat), WalHeaderV1Error>(
            WalHeaderV1Error::Truncated,
        ),
{
    let all = data + more;
    if data.len() >= 8 {
        assert(all.subrange(0, 8) =~= data.subrange(0, 8));
        lemma_field_extends(data, more, 8);
        if let Ok((data_size, a)) = field_at(data, 8) {
            lemma_field_shape(data, 8);
            lemma_field_extends(data, more, a);
            if let Ok((id_size, b)) = field_at(data, a) {
                lemma_field_shape(data, a);
                lemma_field_extends(data, more, b);
                if let Ok((before, c)) = field_at(data, b) {
                    lemma_field_shape(data, b);
                    if data.len() >= c + 4 {
                        assert(all.subrange(c as int, c as int + 4) =~= data.subrange(
                            c as int,
                            c as int + 4,
                        ));
                        assert(all.take(c as int) =~= data.take(c as int));
                    }
                }
            }
        }
    }
}

/// The version word of a header of either format, without the rest of it.
pub fn peek_version(data: &[u8]) -> (r: Result<u64, WalHeaderV1Error>)
    ensures
        match r {
            Ok(v) => data@.len() >= 8 && v as nat == le::value(data@.subrange(0, 8)),
            Err(e) => data@.len() < 8 && e == WalHeaderV1Error::Truncated,
        },
{
    if data.len() < WAL_HEADER_VERSION_SIZE {
        Err(WalHeaderV1Error::Truncated)
    } else {
        Ok(le::read(data, 0, 8))
    }
}

/// A header: the widths that entries of the first format have, and how many entries precede
/// the file.
#[derive(Debug, Clone, Copy, PartialEq, Eq, Structural)]
pub struct WalHeaderV1 {
    pub data_size_bytes: u64,
    pub id_size_bytes: u64,
    pub num_entries_before: u64,
}

impl View for WalHeaderV1 {
    type V = HeaderView;

    open spec fn view(&self) -> HeaderView {
        HeaderView {
            data_size: self.data_size_bytes as nat,
            id_size: self.id_size_bytes as nat,
            before: self.num_entries_before as nat,
        }
    }
}

impl WalHeaderV1 {
    /// A header with the given widths, where they are valid.
    pub fn new(data_size_bytes: u64, id_size_bytes: u64, num_entries_before: u64) -> (r: Result<
        Self,
        WalHeaderV1Error,
    >)
        ensures
            match r {
                Ok(h) => valid(h@) && h == (WalHeaderV1 {
                    data_size_bytes,
                    id_size_bytes,
                    num_entries_before,
                }),
                Err(e) => !(wal_header::valid_width(data_size_bytes as nat)
                    && wal_header::valid_width(id_size_bytes as nat)) && e == width_error(
                    data_size_bytes as nat,
                    id_size_bytes as nat,
                ),
            },
    {
        if data_size_bytes < 1 || data_size_bytes > MAX_FIELD_WIDTH {
            return Err(WalHeaderV1Error::InvalidDataSizeBytes(data_size_bytes));
        }
        if id_size_bytes < 1 || id_size_bytes > MAX_FIELD_WIDTH {
            return Err(WalHeaderV1Error::InvalidIdSizeBytes(id_size_bytes));
        }
        Ok(WalHeaderV1 { data_size_bytes, id_size_bytes, num_entries_before })
    }

    /// The header with what `header` says. Fails when the count does not fit 64 bits.
    pub fn from_v0(header: &WalHeader) -> (r: Result<Self, WalHeaderV1Error>)
        ensures
            match r {
                Ok(h) => valid(header@) && h@ == header@,
                Err(e) => !valid(header@) && e == if header@.before > u64::MAX {
                    WalHeaderV1Error::ValueTooLarge
                } else {
                    width_error(header@.data_size, header@.id_size)
                },
            },
    {
        match header.num_entries_before.to_u64() {
            Ok(before) => Self::new(header.data_size_bytes, header.id_size_bytes, before),
            Err(_) => Err(WalHeaderV1Error::ValueTooLarge),
        }
    }

    /// Id of the `index`-th entry of the file.
    ///
    /// Because ids are positions, a damaged entry ends the usable part of the file: the ids
    /// of what follows it are not known.
    pub fn entry_id(&self, index: u64) -> (r: Result<u64, WalEntryV1Error>)
        ensures
            self.num_entries_before + index <= u64::MAX ==> r == Ok::<u64, WalEntryV1Error>(
                (self.num_entries_before + index) as u64,
            ),
            self.num_entries_before + index > u64::MAX ==> r == Err::<u64, WalEntryV1Error>(
                WalEntryV1Error::IdOverflow,
            ),
    {
        derive_entry_id(self.num_entries_before, index)
    }

    /// Checks the checksum that follows `fields_len` bytes in `data`, and gives the length
    /// with it.
    pub fn verify_crc_trailer(data: &[u8], fields_len: usize) -> (r: Result<usize, WalHeaderV1Error>)
        requires
            fields_len + WAL_HEADER_V1_CRC_SIZE <= usize::MAX,
        ensures
            match r {
                Ok(n) => check_trailer(data@, fields_len as nat) == Ok::<nat, WalHeaderV1Error>(
                    n as nat,
                ),
                Err(e) => check_trailer(data@, fields_len as nat) == Err::<nat, WalHeaderV1Error>(e),
            },
    {
        let end: usize = fields_len + WAL_HEADER_V1_CRC_SIZE;
        if data.len() < end {
            return Err(WalHeaderV1Error::Truncated);
        }
        proof {
            le::lemma_span_values();
        }
        let stored: u32 = le::read(data, fields_len, WAL_HEADER_V1_CRC_SIZE) as u32;
        let body: &[u8] = slice_subrange(data, 0, fields_len);
        assert(body@ =~= data@.take(fields_len as int));
        let computed: u32 = crc32c::crc32c(0, body);
        if stored != computed {
            return Err(WalHeaderV1Error::CrcMismatch { stored, computed });
        }
        Ok(end)
    }

    /// The fields of the header, before its checksum.
    fn field_bytes(&self) -> (out: Vec<u8>)
        ensures
            out@ == fields(self@),
    {
        let mut out: Vec<u8> = Vec::new();
        le::push(&mut out, WAL_HEADER_V1_VERSION, WAL_HEADER_VERSION_SIZE);
        varint::push(&mut out, self.data_size_bytes);
        varint::push(&mut out, self.id_size_bytes);
        varint::push(&mut out, self.num_entries_before);
        assert(out@ =~= fields(self@));
        out
    }

    /// Size of the header, its checksum included.
    pub fn size(&self) -> (n: usize)
        ensures
            n as nat == encode(self@).len(),
    {
        proof {
            le::lemma_bytes_len(1, 8);
            le::lemma_bytes_len(crc32c::checksum(0, fields(self@)) as nat, 4);
        }
        WAL_HEADER_VERSION_SIZE + varint::encoded_len(self.data_size_bytes) + varint::encoded_len(
            self.id_size_bytes,
        ) + varint::encoded_len(self.num_entries_before) + WAL_HEADER_V1_CRC_SIZE
    }

    /// Appends the header to `dest` and says how many bytes it took.
    pub fn write_to_bytes(&self, dest: &mut BytesMut) -> (r: Result<usize, WalHeaderV1Error>)
        requires
            buf::filled(*old(dest)).len() + WAL_HEADER_V1_MAX_SIZE + WAL_HEADER_V1_CRC_SIZE
                <= isize::MAX,
        ensures
            match r {
                Ok(n) => {
                    &&& valid(self@)
                    &&& n as nat == encode(self@).len()
                    &&& buf::filled(*final(dest)) == buf::filled(*old(dest)) + encode(self@)
                },
                Err(e) => {
                    &&& !valid(self@)
                    &&& e == width_error(self@.data_size, self@.id_size)
                    &&& *final(dest) == *old(dest)
                },
            },
    {
        match Self::new(self.data_size_bytes, self.id_size_bytes, self.num_entries_before) {
            Ok(_) => {},
            Err(e) => {
                return Err(e);
            },
        }
        proof {
            lemma_fields_len(self@);
        }
        let mut out: Vec<u8> = self.field_bytes();
        let crc: u32 = crc32c::crc32c(0, out.as_slice());
        le::push(&mut out, crc as u64, WAL_HEADER_V1_CRC_SIZE);
        assert(out@ =~= encode(self@));
        buf::extend(dest, out.as_slice());
        Ok(out.len())
    }

    /// Reads the field at `at`: the value and where the next field starts.
    fn read_field(data: &[u8], at: usize) -> (r: Result<(u64, usize), WalHeaderV1Error>)
        requires
            at <= data@.len(),
        ensures
            match r {
                Ok((v, next)) => field_at(data@, at as nat) == Ok::<(nat, nat), WalHeaderV1Error>(
                    (v as nat, next as nat),
                ) && at < next <= data@.len(),
                Err(e) => field_at(data@, at as nat) == Err::<(nat, nat), WalHeaderV1Error>(e),
            },
    {
        let len: usize = data.len();
        match varint::read_64(data, at) {
            Ok((v, n)) => {
                proof {
                    varint::lemma_decode_is_canonical(data@.skip(at as int), 10, u64::MAX as nat);
                }
                Ok((v, at + n))
            },
            Err(e) => Err(WalHeaderV1Error::from(e)),
        }
    }

    /// Reads the fields of a header at the front of `data`: the header and their length.
    fn read_fields(data: &[u8]) -> (r: Result<(Self, usize), WalHeaderV1Error>)
        ensures
            match r {
                Ok((h, n)) => parse_fields(data@) == Ok::<(HeaderView, nat), WalHeaderV1Error>(
                    (h@, n as nat),
                ) && n <= data@.len(),
                Err(e) => parse_fields(data@) == Err::<(HeaderView, nat), WalHeaderV1Error>(e),
            },
    {
        let version: u64 = match peek_version(data) {
            Ok(v) => v,
            Err(e) => {
                return Err(e);
            },
        };
        if version != WAL_HEADER_V1_VERSION {
            return Err(WalHeaderV1Error::UnsupportedVersion(version));
        }
        let (data_size, a): (u64, usize) = match Self::read_field(data, WAL_HEADER_VERSION_SIZE) {
            Ok(x) => x,
            Err(e) => {
                return Err(e);
            },
        };
        let (id_size, b): (u64, usize) = match Self::read_field(data, a) {
            Ok(x) => x,
            Err(e) => {
                return Err(e);
            },
        };
        let (before, c): (u64, usize) = match Self::read_field(data, b) {
            Ok(x) => x,
            Err(e) => {
                return Err(e);
            },
        };
        match Self::new(data_size, id_size, before) {
            Ok(h) => Ok((h, c)),
            Err(e) => Err(e),
        }
    }

    /// Reads the header at the front of `data`: the header and the bytes it took.
    pub fn from_bytes(data: &[u8]) -> (r: Result<(Self, usize), WalHeaderV1Error>)
        ensures
            match r {
                Ok((h, n)) => parse(data@) == Ok::<(HeaderView, nat), WalHeaderV1Error>(
                    (h@, n as nat),
                ) && n <= data@.len(),
                Err(e) => parse(data@) == Err::<(HeaderView, nat), WalHeaderV1Error>(e),
            },
    {
        let (header, n): (Self, usize) = match Self::read_fields(data) {
            Ok(x) => x,
            Err(e) => {
                return Err(e);
            },
        };
        let len: usize = data.len();
        if len - n < WAL_HEADER_V1_CRC_SIZE {
            return Err(WalHeaderV1Error::Truncated);
        }
        match Self::verify_crc_trailer(data, n) {
            Ok(total) => Ok((header, total)),
            Err(e) => Err(e),
        }
    }
}

/// Why a header of either format could not be read.
#[derive(Debug, Clone, Copy, PartialEq, Eq, Structural)]
pub enum AnyWalHeaderError {
    V0(WalHeaderError),
    V1(WalHeaderV1Error),
}

impl AnyWalHeaderError {
    /// The error in words.
    pub fn message(&self) -> (s: String)
        ensures
            s@ == match self {
                AnyWalHeaderError::V0(e) => e.words(),
                AnyWalHeaderError::V1(e) => e.words(),
            },
    {
        match self {
            AnyWalHeaderError::V0(e) => e.message(),
            AnyWalHeaderError::V1(e) => e.message(),
        }
    }

    /// Whether the bytes ended inside the header.
    pub open spec fn cut_short(self) -> bool {
        self == AnyWalHeaderError::V0(WalHeaderError::SliceTooShort) || self
            == AnyWalHeaderError::V1(WalHeaderV1Error::Truncated)
    }

    /// Whether the bytes ended inside the header, so that nothing has finished writing it.
    pub fn is_cut_short(&self) -> (b: bool)
        ensures
            b == self.cut_short(),
    {
        match self {
            AnyWalHeaderError::V0(WalHeaderError::SliceTooShort) => true,
            AnyWalHeaderError::V1(WalHeaderV1Error::Truncated) => true,
            _ => false,
        }
    }
}

impl From<WalHeaderError> for AnyWalHeaderError {
    fn from(e: WalHeaderError) -> (r: Self) {
        AnyWalHeaderError::V0(e)
    }
}

impl FromSpecImpl<WalHeaderError> for AnyWalHeaderError {
    open spec fn obeys_from_spec() -> bool {
        true
    }

    open spec fn from_spec(e: WalHeaderError) -> Self {
        AnyWalHeaderError::V0(e)
    }
}

impl From<WalHeaderV1Error> for AnyWalHeaderError {
    fn from(e: WalHeaderV1Error) -> (r: Self) {
        AnyWalHeaderError::V1(e)
    }
}

impl FromSpecImpl<WalHeaderV1Error> for AnyWalHeaderError {
    open spec fn obeys_from_spec() -> bool {
        true
    }

    open spec fn from_spec(e: WalHeaderV1Error) -> Self {
        AnyWalHeaderError::V1(e)
    }
}

/// What a header of either format says, and its version.
pub struct AnyHeaderView {
    pub version: u64,
    pub header: HeaderView,
}

/// What reading a header of either format at the front of `data` gives: the header and its
/// length, or the reason why there is none. The version word decides the format.
pub open spec fn parse_any(data: Seq<u8>) -> Result<(AnyHeaderView, nat), AnyWalHeaderError> {
    if data.len() < 8 {
        Err(AnyWalHeaderError::V1(WalHeaderV1Error::Truncated))
    } else if le::value(data.subrange(0, 8)) == WAL_HEADER_V0_VERSION {
        match wal_header::parse(data) {
            Ok((header, n)) => Ok((AnyHeaderView { version: WAL_HEADER_V0_VERSION, header }, n)),
            Err(e) => Err(AnyWalHeaderError::V0(e)),
        }
    } else {
        match parse(data) {
            Ok((header, n)) => Ok((AnyHeaderView { version: WAL_HEADER_V1_VERSION, header }, n)),
            Err(e) => Err(AnyWalHeaderError::V1(e)),
        }
    }
}

/// The first eight bytes tell the format: zero is the first, and what is not zero is read as the
/// second. Fewer than eight are the start of a header of the second.
pub proof fn lemma_how_a_format_is_told(data: Seq<u8>)
    ensures
        data.len() < 8 ==> parse_any(data) == Err::<(AnyHeaderView, nat), AnyWalHeaderError>(
            AnyWalHeaderError::V1(WalHeaderV1Error::Truncated),
        ),
        data.len() >= 8 && le::value(data.take(8)) == 0 ==> match parse_any(data) {
            Ok((any, n)) => any.version == 0 && wal_header::parse(data) == Ok::<
                (HeaderView, nat),
                WalHeaderError,
            >((any.header, n)),
            Err(e) => e matches AnyWalHeaderError::V0(e) && wal_header::parse(data) == Err::<
                (HeaderView, nat),
                WalHeaderError,
            >(e),
        },
        data.len() >= 8 && le::value(data.take(8)) != 0 ==> match parse_any(data) {
            Ok((any, n)) => any.version == 1 && parse(data) == Ok::<
                (HeaderView, nat),
                WalHeaderV1Error,
            >((any.header, n)),
            Err(e) => e matches AnyWalHeaderError::V1(e) && parse(data) == Err::<
                (HeaderView, nat),
                WalHeaderV1Error,
            >(e),
        },
{
    assert(data.take(8) =~= data.subrange(0, 8));
}

/// More bytes after a header change nothing about a result that did not run out of bytes,
/// and a header never needs more than 42.
pub proof fn lemma_parse_any_extends(data: Seq<u8>, more: Seq<u8>)
    ensures
        !(parse_any(data) is Err && parse_any(data)->Err_0.cut_short()) ==> parse_any(data + more)
            == parse_any(data),
        parse_any(data) is Ok ==> (parse_any(data)->Ok_0).1 <= data.len(),
        data.len() >= 42 ==> !(parse_any(data) is Err && parse_any(data)->Err_0.cut_short()),
{
    wal_header::lemma_parse_extends(data, more);
    lemma_parse_extends(data, more);
    if data.len() >= 8 {
        assert((data + more).subrange(0, 8) =~= data.subrange(0, 8));
    }
}

/// What a header of either format that was read says is valid.
pub proof fn lemma_parse_any_valid(data: Seq<u8>)
    requires
        parse_any(data) is Ok,
    ensures
        ({
            let (any, n) = parse_any(data)->Ok_0;
            &&& valid(any.header)
            &&& any.version == WAL_HEADER_V0_VERSION || any.version == WAL_HEADER_V1_VERSION
            &&& n <= data.len()
        }),
{
    lemma_parse_any_extends(data, Seq::empty());
    let (any, n) = parse_any(data)->Ok_0;
    if any.version == WAL_HEADER_V0_VERSION {
        let id_size = any.header.id_size;
        let part = data.subrange(24, 24 + id_size as int);
        le::lemma_value_bound(part);
        le::lemma_span_monotone(id_size, 8);
        le::lemma_span_values();
    }
}

/// A header of either format.
#[derive(Debug, PartialEq, Eq)]
pub enum AnyWalHeader {
    V0(WalHeader),
    V1(WalHeaderV1),
}

impl View for AnyWalHeader {
    type V = AnyHeaderView;

    open spec fn view(&self) -> AnyHeaderView {
        match self {
            AnyWalHeader::V0(header) => AnyHeaderView {
                version: WAL_HEADER_V0_VERSION,
                header: header@,
            },
            AnyWalHeader::V1(header) => AnyHeaderView {
                version: WAL_HEADER_V1_VERSION,
                header: header@,
            },
        }
    }
}

impl Clone for AnyWalHeader {
    fn clone(&self) -> (h: Self)
        ensures
            h@ == self@,
    {
        match self {
            AnyWalHeader::V0(header) => AnyWalHeader::V0(header.clone()),
            AnyWalHeader::V1(header) => AnyWalHeader::V1(*header),
        }
    }
}

impl AnyWalHeader {
    /// Reads the header at the front of `data`: the header and the bytes it took.
    pub fn from_bytes(data: &[u8]) -> (r: Result<(Self, usize), AnyWalHeaderError>)
        ensures
            match r {
                Ok((h, n)) => parse_any(data@) == Ok::<(AnyHeaderView, nat), AnyWalHeaderError>(
                    (h@, n as nat),
                ) && n <= data@.len(),
                Err(e) => parse_any(data@) == Err::<(AnyHeaderView, nat), AnyWalHeaderError>(e),
            },
    {
        let version: u64 = match peek_version(data) {
            Ok(v) => v,
            Err(e) => {
                return Err(AnyWalHeaderError::from(e));
            },
        };
        if version == WAL_HEADER_V0_VERSION {
            proof {
                wal_header::lemma_parse_extends(data@, Seq::empty());
            }
            match WalHeader::from_bytes(data) {
                Ok((header, n)) => Ok((AnyWalHeader::V0(header), n)),
                Err(e) => Err(AnyWalHeaderError::from(e)),
            }
        } else {
            match WalHeaderV1::from_bytes(data) {
                Ok((header, n)) => Ok((AnyWalHeader::V1(header), n)),
                Err(e) => Err(AnyWalHeaderError::from(e)),
            }
        }
    }

    /// How many bytes more are needed to read a header of which `data` is the front, without
    /// reading past its end. Zero when `data` decides what reading it gives.
    pub fn bytes_wanted(data: &[u8]) -> (n: usize)
        ensures
            n == 0 <==> !(parse_any(data@) is Err && parse_any(data@)->Err_0.cut_short()),
            forall|more: Seq<u8>| #[trigger]
                parse_any(data@ + more) is Ok && n > 0 ==> (parse_any(data@ + more)->Ok_0).1
                    >= data@.len() + n,
    {
        let len: usize = data.len();
        let version: u64 = match peek_version(data) {
            Ok(v) => v,
            Err(_) => {
                proof {
                    assert forall|more: Seq<u8>| #[trigger] parse_any(data@ + more) is Ok implies (
                    parse_any(data@ + more)->Ok_0).1 >= 8 by {
                        lemma_parse_extends(data@ + more, Seq::empty());
                    }
                }
                return WAL_HEADER_VERSION_SIZE - len;
            },
        };
        if version == WAL_HEADER_V0_VERSION {
            match WalHeader::from_bytes(data) {
                Err(WalHeaderError::SliceTooShort) => {},
                _ => {
                    return 0;
                },
            }
            proof {
                assert forall|more: Seq<u8>| true implies (#[trigger] (data@ + more)).subrange(0, 8)
                    == data@.subrange(0, 8) by {
                    assert((data@ + more).subrange(0, 8) =~= data@.subrange(0, 8));
                }
            }
            if len < wal_header::WAL_HEADER_V0_FIXED_SIZE {
                return wal_header::WAL_HEADER_V0_FIXED_SIZE - len;
            }
            let id_size: u64 = le::read(data, 16, 8);
            proof {
                assert forall|more: Seq<u8>| true implies (#[trigger] (data@ + more)).subrange(16, 24)
                    == data@.subrange(16, 24) by {
                    assert((data@ + more).subrange(16, 24) =~= data@.subrange(16, 24));
                }
            }
            wal_header::WAL_HEADER_V0_FIXED_SIZE + id_size as usize - len
        } else {
            proof {
                assert forall|more: Seq<u8>| true implies (#[trigger] (data@ + more)).subrange(0, 8)
                    == data@.subrange(0, 8) by {
                    assert((data@ + more).subrange(0, 8) =~= data@.subrange(0, 8));
                }
            }
            match WalHeaderV1::read_fields(data) {
                Ok((_, end)) => {
                    if len - end >= WAL_HEADER_V1_CRC_SIZE {
                        return 0;
                    }
                    proof {
                        assert forall|more: Seq<u8>| #[trigger]
                            parse_any(data@ + more) is Ok implies (parse_any(data@ + more)->Ok_0).1
                            == end + 4 by {
                            lemma_fields_extend(data@, more);
                        }
                    }
                    WAL_HEADER_V1_CRC_SIZE - (len - end)
                },
                Err(WalHeaderV1Error::Truncated) => {
                    proof {
                        assert forall|more: Seq<u8>| #[trigger]
                            parse_any(data@ + more) is Ok implies (parse_any(data@ + more)->Ok_0).1
                            >= data@.len() + 1 by {
                            let all = data@ + more;
                            lemma_parse_is_exact(all);
                            let (h, n) = parse(all)->Ok_0;
                            if n <= data@.len() {
                                let rest = data@.skip(n as int);
                                assert(data@ =~= all.take(n as int) + rest);
                                lemma_parse_of_encode(h, rest);
                            }
                        }
                    }
                    1
                },
                Err(_) => 0,
            }
        }
    }

    pub fn version(&self) -> (v: u64)
        ensures
            v == self@.version,
    {
        match self {
            AnyWalHeader::V0(_) => WAL_HEADER_V0_VERSION,
            AnyWalHeader::V1(_) => WAL_HEADER_V1_VERSION,
        }
    }

    pub fn data_size_bytes(&self) -> (n: u64)
        ensures
            n as nat == self@.header.data_size,
    {
        match self {
            AnyWalHeader::V0(header) => header.data_size_bytes,
            AnyWalHeader::V1(header) => header.data_size_bytes,
        }
    }

    pub fn id_size_bytes(&self) -> (n: u64)
        ensures
            n as nat == self@.header.id_size,
    {
        match self {
            AnyWalHeader::V0(header) => header.id_size_bytes,
            AnyWalHeader::V1(header) => header.id_size_bytes,
        }
    }

    pub fn num_entries_before(&self) -> (n: UintN)
        ensures
            n@ == self@.header.before,
    {
        match self {
            AnyWalHeader::V0(header) => header.num_entries_before.clone(),
            AnyWalHeader::V1(header) => UintN::from(header.num_entries_before),
        }
    }

    /// What the header says, whatever its format.
    pub fn to_header(&self) -> (h: WalHeader)
        ensures
            h@ == self@.header,
    {
        match self {
            AnyWalHeader::V0(header) => header.clone(),
            AnyWalHeader::V1(header) => WalHeader {
                data_size_bytes: header.data_size_bytes,
                id_size_bytes: header.id_size_bytes,
                num_entries_before: UintN::from(header.num_entries_before),
            },
        }
    }
}

impl From<&AnyWalHeader> for WalHeader {
    fn from(header: &AnyWalHeader) -> (h: Self)
        ensures
            h@ == header@.header,
    {
        header.to_header()
    }
}

impl FromSpecImpl<&AnyWalHeader> for WalHeader {
    open spec fn obeys_from_spec() -> bool {
        false
    }

    open spec fn from_spec(header: &AnyWalHeader) -> Self {
        arbitrary()
    }
}

proof fn lemma_fields_extend(data: Seq<u8>, more: Seq<u8>)
    requires
        parse_fields(data) is Ok,
    ensures
        parse_fields(data + more) == parse_fields(data),
{
    let all = data + more;
    assert(all.subrange(0, 8) =~= data.subrange(0, 8));
    lemma_field_extends(data, more, 8);
    let a = (field_at(data, 8)->Ok_0).1;
    lemma_field_shape(data, 8);
    lemma_field_extends(data, more, a);
    let b = (field_at(data, a)->Ok_0).1;
    lemma_field_shape(data, a);
    lemma_field_extends(data, more, b);
}

} // verus!
