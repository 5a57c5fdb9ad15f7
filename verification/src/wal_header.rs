//! The header of the first file format: the widths of the fields of an entry, and how many
//! entries precede the file.

use bytes::BytesMut;
use vstd::prelude::*;

use crate::buf;
use crate::le;
use crate::text;
use crate::uintn::UintN;

verus! {

/// The version word of this format.
pub const WAL_HEADER_V0_VERSION: u64 = 0;

/// Size of the version word that starts a file of any format.
pub const WAL_HEADER_VERSION_SIZE: usize = 8;

/// Size of the version word and the two widths.
pub const WAL_HEADER_V0_FIXED_SIZE: usize = 24;

/// The widest field of an entry.
pub const MAX_FIELD_WIDTH: u64 = 8;

/// Why a header could not be made or read.
#[derive(Debug, Clone, Copy, PartialEq, Eq, Structural)]
pub enum WalHeaderError {
    /// The bytes end inside the header.
    SliceTooShort,
    /// The file has another version.
    UnsupportedVersion(u64),
    InvalidDataSizeBytes(u64),
    InvalidIdSizeBytes(u64),
}

impl WalHeaderError {
    /// The error in words.
    pub open spec fn words(self) -> Seq<char> {
        match self {
            WalHeaderError::SliceTooShort => "Truncated WAL header"@,
            WalHeaderError::UnsupportedVersion(v) => "Unsupported WAL version: "@ + text::decimal(
                v as nat,
            ),
            WalHeaderError::InvalidDataSizeBytes(n) => "Invalid data size bytes: "@
                + text::decimal(n as nat),
            WalHeaderError::InvalidIdSizeBytes(n) => "Invalid ID size bytes: "@ + text::decimal(
                n as nat,
            ),
        }
    }

    /// The error in words.
    pub fn message(&self) -> (s: String)
        ensures
            s@ == self.words(),
    {
        match self {
            WalHeaderError::SliceTooShort => "Truncated WAL header".to_owned(),
            WalHeaderError::UnsupportedVersion(v) => {
                text::with_decimal("Unsupported WAL version: ", *v)
            },
            WalHeaderError::InvalidDataSizeBytes(n) => {
                text::with_decimal("Invalid data size bytes: ", *n)
            },
            WalHeaderError::InvalidIdSizeBytes(n) => {
                text::with_decimal("Invalid ID size bytes: ", *n)
            },
        }
    }
}

/// What a header says, in either format.
pub struct HeaderView {
    /// Bytes of a record size.
    pub data_size: nat,
    /// Bytes of an entry id.
    pub id_size: nat,
    /// Entries before the first of the file.
    pub before: nat,
}

/// Whether a field of an entry may have `width` bytes.
pub open spec fn valid_width(width: nat) -> bool {
    1 <= width <= MAX_FIELD_WIDTH
}

/// The bytes that `v` needs, at least one.
pub open spec fn width_of(v: nat) -> nat
    decreases v,
{
    if v < 256 {
        1
    } else {
        1 + width_of(v / 256)
    }
}

/// The larger of two widths.
pub open spec fn wider(a: nat, b: nat) -> nat {
    if a < b {
        b
    } else {
        a
    }
}

/// What reading a header at the front of `data` gives: the header and its length, or the
/// reason why there is none.
pub open spec fn parse(data: Seq<u8>) -> Result<(HeaderView, nat), WalHeaderError> {
    if data.len() < 8 {
        Err(WalHeaderError::SliceTooShort)
    } else if le::value(data.subrange(0, 8)) != WAL_HEADER_V0_VERSION {
        Err(WalHeaderError::UnsupportedVersion(le::value(data.subrange(0, 8)) as u64))
    } else if data.len() < 24 {
        Err(WalHeaderError::SliceTooShort)
    } else {
        let data_size = le::value(data.subrange(8, 16));
        let id_size = le::value(data.subrange(16, 24));
        if !valid_width(data_size) {
            Err(WalHeaderError::InvalidDataSizeBytes(data_size as u64))
        } else if !valid_width(id_size) {
            Err(WalHeaderError::InvalidIdSizeBytes(id_size as u64))
        } else if data.len() < 24 + id_size {
            Err(WalHeaderError::SliceTooShort)
        } else {
            Ok(
                (
                    HeaderView {
                        data_size,
                        id_size,
                        before: le::value(data.subrange(24, 24 + id_size as int)),
                    },
                    24 + id_size,
                ),
            )
        }
    }
}

/// The bytes of a header.
pub open spec fn encode(h: HeaderView) -> Seq<u8> {
    le::bytes(WAL_HEADER_V0_VERSION as nat, 8) + le::bytes(h.data_size, 8) + le::bytes(h.id_size, 8)
        + le::bytes(h.before, h.id_size)
}

/// Whether a header can be written: its widths are valid, and its count fits an id.
pub open spec fn encodable(h: HeaderView) -> bool {
    valid_width(h.data_size) && valid_width(h.id_size) && h.before < le::span(h.id_size)
}

/// Why a header cannot be written.
pub open spec fn encode_error(h: HeaderView) -> WalHeaderError {
    if !valid_width(h.data_size) {
        WalHeaderError::InvalidDataSizeBytes(h.data_size as u64)
    } else {
        WalHeaderError::InvalidIdSizeBytes(h.id_size as u64)
    }
}

pub proof fn lemma_encode_len(h: HeaderView)
    ensures
        encode(h).len() == 24 + h.id_size,
{
    le::lemma_bytes_len(WAL_HEADER_V0_VERSION as nat, 8);
    le::lemma_bytes_len(h.data_size, 8);
    le::lemma_bytes_len(h.id_size, 8);
    le::lemma_bytes_len(h.before, h.id_size);
}

/// A header that was written is read back.
pub proof fn lemma_parse_of_encode(h: HeaderView, more: Seq<u8>)
    requires
        encodable(h),
    ensures
        parse(encode(h) + more) == Ok::<(HeaderView, nat), WalHeaderError>(
            (h, encode(h).len()),
        ),
        (encode(h) + more).len() >= 8,
        le::value((encode(h) + more).subrange(0, 8)) == WAL_HEADER_V0_VERSION,
{
    let version = le::bytes(WAL_HEADER_V0_VERSION as nat, 8);
    let data_size = le::bytes(h.data_size, 8);
    let id_size = le::bytes(h.id_size, 8);
    let before = le::bytes(h.before, h.id_size);
    let data = encode(h) + more;
    lemma_encode_len(h);
    le::lemma_span_values();
    le::lemma_bytes_len(WAL_HEADER_V0_VERSION as nat, 8);
    le::lemma_bytes_len(h.data_size, 8);
    le::lemma_bytes_len(h.id_size, 8);
    le::lemma_bytes_len(h.before, h.id_size);
    le::lemma_value_of_bytes(WAL_HEADER_V0_VERSION as nat, 8);
    le::lemma_value_of_bytes(h.data_size, 8);
    le::lemma_value_of_bytes(h.id_size, 8);
    le::lemma_value_of_bytes(h.before, h.id_size);
    assert(data.subrange(0, 8) =~= version);
    assert(data.subrange(8, 16) =~= data_size);
    assert(data.subrange(16, 24) =~= id_size);
    assert(data.subrange(24, 24 + h.id_size as int) =~= before);
}

/// A header of the first format is four numbers, least byte first: the version, the widths of a
/// record size and of an id, and the count in the width of an id. Every header whose widths are
/// between one byte and eight, and whose count fits, can be written; no other can.
pub proof fn lemma_what_a_header_is(h: HeaderView)
    ensures
        encodable(h) <==> 1 <= h.data_size <= 8 && 1 <= h.id_size <= 8 && h.before
            < vstd::arithmetic::power::pow(256, h.id_size),
        encodable(h) ==> {
            let s = encode(h);
            &&& s.len() == 24 + h.id_size
            &&& le::value(s.subrange(0, 8)) == 0
            &&& le::value(s.subrange(8, 16)) == h.data_size
            &&& le::value(s.subrange(16, 24)) == h.id_size
            &&& le::value(s.skip(24)) == h.before
        },
{
    le::lemma_span_is_a_power(h.id_size);
    if encodable(h) {
        let s = encode(h);
        lemma_parse_of_encode(h, Seq::empty());
        lemma_encode_len(h);
        assert(s + Seq::<u8>::empty() =~= s);
        assert(s.subrange(24, 24 + h.id_size as int) =~= s.skip(24));
    }
}

/// A version that is not zero is not supported, and a width that is not one byte to eight is
/// refused, that of a record size before that of an id; whatever ends before the header does is
/// too short.
pub proof fn lemma_which_headers_are_refused(data: Seq<u8>, d: u64, i: u64, rest: Seq<u8>)
    ensures
        data.len() < 8 ==> parse(data) == Err::<(HeaderView, nat), WalHeaderError>(
            WalHeaderError::SliceTooShort,
        ),
        data.len() >= 8 && le::value(data.take(8)) != 0 ==> parse(data) == Err::<
            (HeaderView, nat),
            WalHeaderError,
        >(WalHeaderError::UnsupportedVersion(le::value(data.take(8)) as u64)),
        8 <= data.len() < 24 && le::value(data.take(8)) == 0 ==> parse(data) == Err::<
            (HeaderView, nat),
            WalHeaderError,
        >(WalHeaderError::SliceTooShort),
        ({
            let s = le::bytes(0, 8) + le::bytes(d as nat, 8) + le::bytes(i as nat, 8) + rest;
            &&& !(1 <= d <= 8) ==> parse(s) == Err::<(HeaderView, nat), WalHeaderError>(
                WalHeaderError::InvalidDataSizeBytes(d),
            )
            &&& 1 <= d <= 8 && !(1 <= i <= 8) ==> parse(s) == Err::<
                (HeaderView, nat),
                WalHeaderError,
            >(WalHeaderError::InvalidIdSizeBytes(i))
            &&& 1 <= d <= 8 && 1 <= i <= 8 && rest.len() < i ==> parse(s) == Err::<
                (HeaderView, nat),
                WalHeaderError,
            >(WalHeaderError::SliceTooShort)
            &&& 1 <= d <= 8 && 1 <= i <= 8 && rest.len() >= i ==> parse(s) == Ok::<
                (HeaderView, nat),
                WalHeaderError,
            >(
                (
                    HeaderView {
                        data_size: d as nat,
                        id_size: i as nat,
                        before: le::value(rest.take(i as int)),
                    },
                    (24 + i) as nat,
                ),
            )
        }),
{
    let s = le::bytes(0, 8) + le::bytes(d as nat, 8) + le::bytes(i as nat, 8) + rest;
    le::lemma_span_values();
    le::lemma_bytes_len(0, 8);
    le::lemma_bytes_len(d as nat, 8);
    le::lemma_bytes_len(i as nat, 8);
    le::lemma_value_of_bytes(0, 8);
    le::lemma_value_of_bytes(d as nat, 8);
    le::lemma_value_of_bytes(i as nat, 8);
    assert(data.take(8) =~= data.subrange(0, 8));
    assert(s.subrange(0, 8) =~= le::bytes(0, 8));
    assert(s.subrange(8, 16) =~= le::bytes(d as nat, 8));
    assert(s.subrange(16, 24) =~= le::bytes(i as nat, 8));
    if 1 <= i <= 8 && rest.len() >= i {
        assert(s.subrange(24, 24 + i as int) =~= rest.take(i as int));
    }
}

/// More bytes after a header change nothing about a result that did not run out of bytes,
/// and a header never needs more than 32.
pub proof fn lemma_parse_extends(data: Seq<u8>, more: Seq<u8>)
    ensures
        parse(data) !== Err::<(HeaderView, nat), WalHeaderError>(WalHeaderError::SliceTooShort)
            ==> parse(data + more) == parse(data),
        parse(data) is Ok ==> (parse(data)->Ok_0).1 <= data.len() && (parse(data)->Ok_0).1 <= 32,
        data.len() >= 32 ==> parse(data) !== Err::<(HeaderView, nat), WalHeaderError>(
            WalHeaderError::SliceTooShort,
        ),
{
    let all = data + more;
    if data.len() >= 8 {
        assert(all.subrange(0, 8) =~= data.subrange(0, 8));
    }
    if data.len() >= 24 {
        assert(all.subrange(8, 16) =~= data.subrange(8, 16));
        assert(all.subrange(16, 24) =~= data.subrange(16, 24));
        let id_size = le::value(data.subrange(16, 24));
        if data.len() >= 24 + id_size {
            assert(all.subrange(24, 24 + id_size as int) =~= data.subrange(
                24,
                24 + id_size as int,
            ));
        }
    }
}

/// A header of the first format, and what either format says of its entries.
#[derive(Debug, PartialEq, Eq)]
pub struct WalHeader {
    pub data_size_bytes: u64,
    pub id_size_bytes: u64,
    pub num_entries_before: UintN,
}

impl View for WalHeader {
    type V = HeaderView;

    open spec fn view(&self) -> HeaderView {
        HeaderView {
            data_size: self.data_size_bytes as nat,
            id_size: self.id_size_bytes as nat,
            before: self.num_entries_before@,
        }
    }
}

impl Clone for WalHeader {
    fn clone(&self) -> (h: Self)
        ensures
            h@ == self@,
    {
        WalHeader {
            data_size_bytes: self.data_size_bytes,
            id_size_bytes: self.id_size_bytes,
            num_entries_before: self.num_entries_before.clone(),
        }
    }
}

impl Default for WalHeader {
    fn default() -> (h: Self)
        ensures
            h@ == (HeaderView { data_size: 8, id_size: 8, before: 0 }),
    {
        WalHeader { data_size_bytes: 8, id_size_bytes: 8, num_entries_before: UintN::zero() }
    }
}

/// The bytes that `v` needs, at least one.
fn width(v: u64) -> (n: u64)
    ensures
        n as nat == width_of(v as nat),
        1 <= n <= 8,
{
    let mut rest: u64 = v;
    let mut n: u64 = 1;
    proof {
        le::lemma_span_values();
        lemma_width_bound(v as nat, 8);
    }
    while rest >= 256
        invariant
            n + width_of(rest as nat) == width_of(v as nat) + 1,
            n <= width_of(v as nat) <= 8,
        decreases rest,
    {
        proof {
            assert(width_of(rest as nat) == 1 + width_of((rest / 256) as nat));
            assert(width_of((rest / 256) as nat) >= 1);
        }
        rest = rest / 256;
        n = n + 1;
    }
    n
}

proof fn lemma_width_bound(v: nat, n: nat)
    requires
        n >= 1,
        v < le::span(n),
    ensures
        1 <= width_of(v) <= n,
    decreases n,
{
    if v >= 256 {
        if n == 1 {
            le::lemma_span_values();
        } else {
            assert(le::span(n) == 256 * le::span((n - 1) as nat));
            lemma_width_bound(v / 256, (n - 1) as nat);
        }
    }
}

/// A number fits the bytes that it needs, and any more of them.
pub proof fn lemma_fits_its_width(v: nat, n: nat)
    requires
        n >= width_of(v),
    ensures
        v < le::span(n),
    decreases v,
{
    le::lemma_span_values();
    if v < 256 {
        le::lemma_span_monotone(1, n);
    } else {
        lemma_fits_its_width(v / 256, (n - 1) as nat);
        assert(le::span(n) == 256 * le::span((n - 1) as nat));
    }
}

/// The width of a number is the least number of bytes that it fits, and the wider of two widths
/// is one of them and holds what either holds.
pub proof fn lemma_a_width_is_the_least(v: nat, a: nat, b: nat)
    ensures
        1 <= width_of(v),
        v < vstd::arithmetic::power::pow(256, width_of(v)),
        width_of(v) > 1 ==> v >= vstd::arithmetic::power::pow(256, (width_of(v) - 1) as nat),
        wider(a, b) >= a && wider(a, b) >= b,
        wider(a, b) == a || wider(a, b) == b,
    decreases v,
{
    reveal(vstd::arithmetic::power::pow);
    if v < 256 {
        vstd::arithmetic::power::lemma_pow1(256);
    } else {
        lemma_a_width_is_the_least(v / 256, a, b);
        let w = width_of(v);
        assert(vstd::arithmetic::power::pow(256, w) == 256 * vstd::arithmetic::power::pow(
            256,
            (w - 1) as nat,
        ));
        if w == 2 {
            vstd::arithmetic::power::lemma_pow1(256);
        } else {
            assert(vstd::arithmetic::power::pow(256, (w - 1) as nat) == 256
                * vstd::arithmetic::power::pow(256, (w - 2) as nat));
        }
    }
}

proof fn lemma_width_exact(v: nat, n: nat)
    requires
        n >= 1,
        v < le::span(n),
        n == 1 || v >= le::span((n - 1) as nat),
    ensures
        width_of(v) == n,
    decreases n,
{
    le::lemma_span_values();
    if n > 1 {
        assert(le::span(n) == 256 * le::span((n - 1) as nat));
        le::lemma_span_monotone(1, (n - 1) as nat);
        if n > 2 {
            assert(le::span((n - 1) as nat) == 256 * le::span((n - 2) as nat));
        }
        lemma_width_exact(v / 256, (n - 1) as nat);
    }
}

impl WalHeader {
    /// A header with the given widths, where they are valid.
    pub fn new(data_size_bytes: u64, id_size_bytes: u64, num_entries_before: UintN) -> (r: Result<
        Self,
        WalHeaderError,
    >)
        ensures
            match r {
                Ok(h) => valid_width(data_size_bytes as nat) && valid_width(id_size_bytes as nat)
                    && h@ == (HeaderView {
                    data_size: data_size_bytes as nat,
                    id_size: id_size_bytes as nat,
                    before: num_entries_before@,
                }),
                Err(e) => e == if !valid_width(data_size_bytes as nat) {
                    WalHeaderError::InvalidDataSizeBytes(data_size_bytes)
                } else {
                    WalHeaderError::InvalidIdSizeBytes(id_size_bytes)
                } && !(valid_width(data_size_bytes as nat) && valid_width(id_size_bytes as nat)),
            },
    {
        if data_size_bytes < 1 || data_size_bytes > MAX_FIELD_WIDTH {
            return Err(WalHeaderError::InvalidDataSizeBytes(data_size_bytes));
        }
        if id_size_bytes < 1 || id_size_bytes > MAX_FIELD_WIDTH {
            return Err(WalHeaderError::InvalidIdSizeBytes(id_size_bytes));
        }
        Ok(WalHeader { data_size_bytes, id_size_bytes, num_entries_before })
    }

    /// Reads the header at the front of `data`: the header and the bytes it took.
    pub fn from_bytes(data: &[u8]) -> (r: Result<(Self, usize), WalHeaderError>)
        ensures
            match r {
                Ok((h, n)) => parse(data@) == Ok::<(HeaderView, nat), WalHeaderError>(
                    (h@, n as nat),
                ),
                Err(e) => parse(data@) == Err::<(HeaderView, nat), WalHeaderError>(e),
            },
    {
        let len: usize = data.len();
        if len < WAL_HEADER_VERSION_SIZE {
            return Err(WalHeaderError::SliceTooShort);
        }
        let version: u64 = le::read(data, 0, 8);
        if version != WAL_HEADER_V0_VERSION {
            return Err(WalHeaderError::UnsupportedVersion(version));
        }
        if len < WAL_HEADER_V0_FIXED_SIZE {
            return Err(WalHeaderError::SliceTooShort);
        }
        let data_size: u64 = le::read(data, 8, 8);
        let id_size: u64 = le::read(data, 16, 8);
        if data_size < 1 || data_size > MAX_FIELD_WIDTH {
            return Err(WalHeaderError::InvalidDataSizeBytes(data_size));
        }
        if id_size < 1 || id_size > MAX_FIELD_WIDTH {
            return Err(WalHeaderError::InvalidIdSizeBytes(id_size));
        }
        let end: usize = WAL_HEADER_V0_FIXED_SIZE + id_size as usize;
        if len < end {
            return Err(WalHeaderError::SliceTooShort);
        }
        let before: &[u8] = vstd::slice::slice_subrange(data, WAL_HEADER_V0_FIXED_SIZE, end);
        let header = WalHeader {
            data_size_bytes: data_size,
            id_size_bytes: id_size,
            num_entries_before: UintN::from_le_bytes(before),
        };
        Ok((header, end))
    }

    /// Appends the header to `dest` and says how many bytes it took. Fails when a width is not
    /// valid, or the count does not fit the width of an id.
    pub fn write_to_bytes(&self, dest: &mut BytesMut) -> (r: Result<usize, WalHeaderError>)
        requires
            buf::filled(*old(dest)).len() + 32 <= isize::MAX,
        ensures
            match r {
                Ok(n) => {
                    &&& encodable(self@)
                    &&& n as nat == encode(self@).len()
                    &&& buf::filled(*final(dest)) == buf::filled(*old(dest)) + encode(self@)
                },
                Err(e) => {
                    &&& !encodable(self@)
                    &&& e == encode_error(self@)
                    &&& *final(dest) == *old(dest)
                },
            },
    {
        if self.data_size_bytes < 1 || self.data_size_bytes > MAX_FIELD_WIDTH {
            return Err(WalHeaderError::InvalidDataSizeBytes(self.data_size_bytes));
        }
        if self.id_size_bytes < 1 || self.id_size_bytes > MAX_FIELD_WIDTH {
            return Err(WalHeaderError::InvalidIdSizeBytes(self.id_size_bytes));
        }
        if !self.num_entries_before.fits(self.id_size_bytes as usize) {
            return Err(WalHeaderError::InvalidIdSizeBytes(self.id_size_bytes));
        }
        let mut out: Vec<u8> = Vec::new();
        le::push(&mut out, WAL_HEADER_V0_VERSION, WAL_HEADER_VERSION_SIZE);
        le::push(&mut out, self.data_size_bytes, 8);
        le::push(&mut out, self.id_size_bytes, 8);
        self.num_entries_before.push_le(&mut out, self.id_size_bytes as usize);
        assert(out@ =~= encode(self@));
        proof {
            lemma_encode_len(self@);
        }
        buf::extend(dest, out.as_slice());
        Ok(out.len())
    }

    /// The header with its widths raised where the next entry id or the next record size
    /// needs more. Widths never shrink.
    pub fn resize(&self, next_id: &UintN, next_data_size: u64) -> (h: Self)
        ensures
            h@ == (HeaderView {
                data_size: wider(self@.data_size, width_of(next_data_size as nat)),
                id_size: wider(self@.id_size, width_of(next_id@)),
                before: self@.before,
            }),
    {
        let data_width: u64 = width(next_data_size);
        let id_bytes: usize = next_id.byte_len();
        let id_width: u64 = if id_bytes == 0 {
            1
        } else {
            id_bytes as u64
        };
        proof {
            le::lemma_span_values();
            lemma_width_exact(next_id@, id_width as nat);
        }
        WalHeader {
            data_size_bytes: if self.data_size_bytes < data_width {
                data_width
            } else {
                self.data_size_bytes
            },
            id_size_bytes: if self.id_size_bytes < id_width {
                id_width
            } else {
                self.id_size_bytes
            },
            num_entries_before: self.num_entries_before.clone(),
        }
    }
}

} // verus!
