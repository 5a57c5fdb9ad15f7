//! The formats of entries and headers, byte by byte.

use bytes::BytesMut;
use normfs::crc32c::crc32c;
use normfs::le;
use normfs::uintn::UintN;
use normfs::varint::{self, VarintError};
use normfs::wal_entry::{WalEntryError, WalEntryHeader};
use normfs::wal_entry_v1::{derive_entry_id, encoded_len, push_frame, WalEntryV1, WalEntryV1Error};
use normfs::wal_header::{WalHeader, WalHeaderError};
use normfs::wal_header_v1::{
    peek_version, AnyWalHeader, AnyWalHeaderError, WalHeaderV1, WalHeaderV1Error,
    WAL_HEADER_V1_MAX_SIZE,
};

fn varint_of(v: u64) -> Vec<u8> {
    let mut out = Vec::new();
    varint::push(&mut out, v);
    out
}

#[test]
fn the_checksum_is_the_castagnoli_one() {
    assert_eq!(crc32c(0, b""), 0);
    assert_eq!(crc32c(0, b"123456789"), 0xE306_9283);
    assert_eq!(crc32c(0, &[0u8; 32]), 0x8A91_36AA);
    assert_eq!(crc32c(0, &[0xFFu8; 32]), 0x62A8_AB43);
    // A checksum goes on where another ended.
    assert_eq!(crc32c(crc32c(0, b"12345"), b"6789"), 0xE306_9283);
    // One changed byte is seen.
    assert_ne!(crc32c(0, b"123456780"), 0xE306_9283);
}

#[test]
fn numbers_are_little_endian() {
    let mut out = vec![9u8];
    le::push(&mut out, 0x0102_0304, 4);
    le::push(&mut out, 0xFFEE, 1);
    assert_eq!(out, vec![9, 4, 3, 2, 1, 0xEE]);
    assert_eq!(le::read(&out, 1, 4), 0x0102_0304);
    assert_eq!(le::read(&out, 2, 0), 0);
    assert_eq!(le::read(&u64::MAX.to_le_bytes(), 0, 8), u64::MAX);
}

#[test]
fn varints_have_seven_bits_per_byte() {
    assert_eq!(varint_of(0), vec![0]);
    assert_eq!(varint_of(127), vec![0x7F]);
    assert_eq!(varint_of(128), vec![0x80, 0x01]);
    assert_eq!(varint_of(300), vec![0xAC, 0x02]);
    assert_eq!(varint_of(u64::MAX).len(), 10);
    for v in [0, 1, 127, 128, 16383, 16384, u32::MAX as u64, u64::MAX] {
        let bytes = varint_of(v);
        assert_eq!(varint::encoded_len(v), bytes.len());
        assert_eq!(varint::read_64(&bytes, 0), Ok((v, bytes.len())));
        // Bytes behind it do not matter, and every shorter piece is cut short.
        let mut more = vec![1, 2];
        more.extend_from_slice(&bytes);
        more.push(0xFF);
        assert_eq!(varint::read_64(&more, 2), Ok((v, bytes.len())));
        for n in 0..bytes.len() {
            assert_eq!(varint::read_64(&bytes[..n], 0), Err(VarintError::Truncated));
        }
    }
}

#[test]
fn varints_that_are_too_wide_or_too_long_are_refused() {
    assert_eq!(varint::read_32(&varint_of(u32::MAX as u64), 0), Ok((u32::MAX, 5)));
    assert_eq!(varint::read_32(&varint_of(1 << 32), 0), Err(VarintError::Overflow));
    assert_eq!(varint::read_32(&[0xFF; 6], 0), Err(VarintError::Overflow));
    assert_eq!(varint::read_64(&[0xFF; 11], 0), Err(VarintError::Overflow));
    assert_eq!(varint::read_64(&[0x80, 0x00], 0), Err(VarintError::NonCanonical));
    assert_eq!(varint::read_32(&[0xFF, 0x80, 0x00], 0), Err(VarintError::NonCanonical));
}

fn frame(record: &[u8]) -> Vec<u8> {
    let mut out = Vec::new();
    push_frame(&mut out, record);
    out
}

#[test]
fn an_entry_is_its_size_its_record_and_a_checksum_of_both() {
    let entry = frame(b"123456789");
    assert_eq!(entry[0], 9);
    assert_eq!(&entry[1..10], b"123456789");
    assert_eq!(entry[10..], crc32c(0, &entry[..10]).to_le_bytes());
    assert_eq!(entry.len(), encoded_len(9));

    let record = vec![7u8; 300];
    let mut dest = BytesMut::from(&b"before"[..]);
    assert_eq!(WalEntryV1::new(&record).size(), Ok(306));
    assert_eq!(WalEntryV1::new(&record).write_to_bytes(&mut dest), Ok(306));
    assert_eq!(&dest[..6], b"before");
    assert_eq!(&dest[6..], &frame(&record)[..]);
}

#[test]
fn an_entry_reads_back_and_says_where_it_ends() {
    for record in [&b""[..], b"x", &[0xAB; 127], &[0xAB; 128], &[0; 70000]] {
        let mut data = frame(record);
        let len = data.len();
        data.extend_from_slice(b"tail");
        let (entry, consumed) = WalEntryV1::from_bytes(&data).unwrap();
        assert_eq!(entry.record, record);
        assert_eq!(consumed, len);
    }
}

#[test]
fn every_cut_entry_is_truncated() {
    let data = frame(b"some record");
    for n in 0..data.len() {
        assert_eq!(
            WalEntryV1::from_bytes(&data[..n]).err(),
            Some(WalEntryV1Error::Truncated),
            "{n} bytes"
        );
    }
}

#[test]
fn a_damaged_entry_is_refused() {
    let data = frame(b"some record");
    for at in 1..data.len() {
        let mut damaged = data.clone();
        damaged[at] ^= 0x10;
        assert_eq!(
            WalEntryV1::from_bytes(&damaged).err(),
            Some(WalEntryV1Error::CrcMismatch),
            "byte {at}"
        );
    }
    assert_eq!(
        WalEntryV1::from_bytes(&[0x80, 0x00]).err(),
        Some(WalEntryV1Error::NonCanonical)
    );
    assert_eq!(
        WalEntryV1::from_bytes(&[0xFF; 8]).err(),
        Some(WalEntryV1Error::Overflow)
    );
}

#[test]
fn ids_are_the_entries_before_and_the_position() {
    assert_eq!(derive_entry_id(5, 2), Ok(7));
    assert_eq!(derive_entry_id(u64::MAX, 0), Ok(u64::MAX));
    assert_eq!(derive_entry_id(u64::MAX, 1), Err(WalEntryV1Error::IdOverflow));
    let header = WalHeaderV1::new(8, 8, 40).unwrap();
    assert_eq!(header.entry_id(2), Ok(42));
    assert_eq!(header.entry_id(u64::MAX), Err(WalEntryV1Error::IdOverflow));

    let data = frame(b"x");
    let (entry, id, consumed) = WalEntryV1::iter_next(&data, 40, 2).unwrap();
    assert_eq!((id, entry.record, consumed), (42, &b"x"[..], 6));
}

#[test]
fn an_entry_of_the_first_format_has_a_head_of_fixed_width() {
    let data = [5, 0, 3, 1, 2, 3, 4, 5, 6, 7, 8, b'a', b'b', b'c'];
    let head = WalEntryHeader::from_bytes(&data, 2, 1).unwrap();
    assert_eq!((head.entry_id, head.record_size), (5, 3));
    assert_eq!(head.xxhash, 0x0807_0605_0403_0201);
    assert!(head.accepts(0x0807_0605_0403_0201));
    assert!(!head.accepts(1));
    assert_eq!(
        WalEntryHeader::from_bytes(&data[..10], 2, 1),
        Err(WalEntryError::SliceTooShort)
    );
}

fn header_bytes(header: &WalHeaderV1) -> Vec<u8> {
    let mut out = BytesMut::new();
    assert_eq!(header.write_to_bytes(&mut out), Ok(header.size()));
    assert_eq!(out.len(), header.size());
    out.to_vec()
}

#[test]
fn a_header_is_its_fields_and_a_checksum() {
    let header = WalHeaderV1::new(8, 4, 300).unwrap();
    let bytes = header_bytes(&header);
    assert_eq!(&bytes[..12], &[1, 0, 0, 0, 0, 0, 0, 0, 8, 4, 0xAC, 0x02]);
    assert_eq!(bytes[12..], crc32c(0, &bytes[..12]).to_le_bytes());
    assert_eq!(WalHeaderV1::from_bytes(&bytes), Ok((header, 16)));
    assert_eq!(WalHeaderV1::verify_crc_trailer(&bytes, 12), Ok(16));
    assert_eq!(peek_version(&bytes), Ok(1));

    let widest = WalHeaderV1::new(8, 8, u64::MAX).unwrap();
    assert!(header_bytes(&widest).len() <= WAL_HEADER_V1_MAX_SIZE + 4);
}

#[test]
fn a_header_that_is_damaged_or_cut_is_refused() {
    let bytes = header_bytes(&WalHeaderV1::new(8, 4, 300).unwrap());
    for n in 0..bytes.len() {
        assert_eq!(WalHeaderV1::from_bytes(&bytes[..n]), Err(WalHeaderV1Error::Truncated));
    }
    let mut damaged = bytes.clone();
    damaged[9] = 5;
    match WalHeaderV1::from_bytes(&damaged) {
        Err(WalHeaderV1Error::CrcMismatch { stored, computed }) => {
            assert_eq!(stored.to_le_bytes(), bytes[12..]);
            assert_eq!(computed, crc32c(0, &damaged[..12]));
        }
        other => panic!("{other:?}"),
    }
    let mut other = bytes.clone();
    other[0] = 2;
    assert_eq!(
        WalHeaderV1::from_bytes(&other),
        Err(WalHeaderV1Error::UnsupportedVersion(2))
    );
    let mut long = bytes[..8].to_vec();
    long.extend_from_slice(&[0x88, 0x00]);
    assert_eq!(WalHeaderV1::from_bytes(&long), Err(WalHeaderV1Error::NonCanonical));
    let mut wide = bytes[..8].to_vec();
    wide.extend_from_slice(&[0xFF; 11]);
    assert_eq!(WalHeaderV1::from_bytes(&wide), Err(WalHeaderV1Error::Overflow));
}

#[test]
fn widths_of_a_header_are_from_one_to_eight() {
    assert_eq!(
        WalHeaderV1::new(0, 8, 0),
        Err(WalHeaderV1Error::InvalidDataSizeBytes(0))
    );
    assert_eq!(
        WalHeaderV1::new(8, 9, 0),
        Err(WalHeaderV1Error::InvalidIdSizeBytes(9))
    );
    assert_eq!(
        WalHeader::new(9, 8, UintN::zero()),
        Err(WalHeaderError::InvalidDataSizeBytes(9))
    );
    assert_eq!(
        WalHeader::new(8, 0, UintN::zero()),
        Err(WalHeaderError::InvalidIdSizeBytes(0))
    );
    let wide = UintN::from(u64::MAX).increment();
    let header = WalHeader::new(8, 8, wide).unwrap();
    assert_eq!(WalHeaderV1::from_v0(&header), Err(WalHeaderV1Error::ValueTooLarge));
}

fn v0_header(data_size: u64, id_size: u64, before: u64) -> Vec<u8> {
    let mut out = vec![0u8; 8];
    out.extend_from_slice(&data_size.to_le_bytes());
    out.extend_from_slice(&id_size.to_le_bytes());
    out.extend_from_slice(&before.to_le_bytes()[..id_size as usize]);
    out
}

#[test]
fn either_format_of_a_header_is_recognised() {
    let old = v0_header(2, 3, 0x01_0203);
    let (header, n) = AnyWalHeader::from_bytes(&old).unwrap();
    assert_eq!(n, 27);
    assert_eq!(header.version(), 0);
    assert_eq!(header.data_size_bytes(), 2);
    assert_eq!(header.id_size_bytes(), 3);
    assert_eq!(header.num_entries_before(), UintN::from(0x01_0203u64));
    assert_eq!(
        WalHeader::from(&header),
        WalHeader::new(2, 3, UintN::from(0x01_0203u64)).unwrap()
    );

    let new = header_bytes(&WalHeaderV1::new(8, 4, 300).unwrap());
    let (header, n) = AnyWalHeader::from_bytes(&new).unwrap();
    assert_eq!((n, header.version()), (16, 1));
    assert_eq!(header.num_entries_before(), UintN::from(300u64));

    assert_eq!(
        AnyWalHeader::from_bytes(&old[..7]).err(),
        Some(AnyWalHeaderError::V1(WalHeaderV1Error::Truncated))
    );
    assert_eq!(
        AnyWalHeader::from_bytes(&old[..26]).err(),
        Some(AnyWalHeaderError::V0(WalHeaderError::SliceTooShort))
    );
    assert_eq!(
        WalHeader::from_bytes(&new).err(),
        Some(WalHeaderError::UnsupportedVersion(1))
    );
    assert_eq!(
        AnyWalHeader::from_bytes(&v0_header(9, 8, 0)).err(),
        Some(AnyWalHeaderError::V0(WalHeaderError::InvalidDataSizeBytes(9)))
    );
}

#[test]
fn a_header_is_read_without_reading_past_it() {
    let mut sources = vec![v0_header(8, 8, 7), v0_header(1, 1, 7)];
    for before in [0, 300, u64::MAX] {
        sources.push(header_bytes(&WalHeaderV1::new(8, 8, before).unwrap()));
    }
    for source in sources {
        let mut data: Vec<u8> = Vec::new();
        let mut left = &source[..];
        loop {
            let n = AnyWalHeader::bytes_wanted(&data);
            if n == 0 {
                break;
            }
            data.extend_from_slice(&left[..n]);
            left = &left[n..];
        }
        assert!(left.is_empty());
        assert_eq!(AnyWalHeader::from_bytes(&data).unwrap().1, source.len());
    }
    // What can never become a header asks for nothing more.
    assert_eq!(AnyWalHeader::bytes_wanted(&[2, 0, 0, 0, 0, 0, 0, 0]), 0);
}

#[test]
fn widths_of_a_header_grow_and_never_shrink() {
    let header = WalHeader::new(1, 1, UintN::zero()).unwrap();
    let wider = header.resize(&UintN::from(256u64), 70000);
    assert_eq!((wider.data_size_bytes, wider.id_size_bytes), (3, 2));
    assert_eq!(wider.num_entries_before, UintN::zero());
    let same = wider.resize(&UintN::from(1u64), 1);
    assert_eq!(same, wider);
    let default = WalHeader::default();
    assert_eq!((default.data_size_bytes, default.id_size_bytes), (8, 8));
}

#[test]
fn errors_are_told_in_words() {
    let words = |e: WalEntryV1Error| e.message();
    assert_eq!(words(WalEntryV1Error::Truncated), "Truncated V1 WAL entry");
    assert_eq!(words(WalEntryV1Error::Overflow), "V1 WAL entry record size exceeds u32");
    assert_eq!(words(WalEntryV1Error::NonCanonical), "Non-canonical V1 WAL entry record size");
    assert_eq!(words(WalEntryV1Error::CrcMismatch), "V1 WAL entry failed its CRC32C check");
    assert_eq!(words(WalEntryV1Error::IdOverflow), "Derived entry ID exceeds u64");
    assert_eq!(
        words(WalEntryV1Error::RecordTooLarge(5000000000)),
        "Record of 5000000000 bytes exceeds the u32 V1 entry limit"
    );

    let words = |e: WalHeaderV1Error| AnyWalHeaderError::V1(e).message();
    assert_eq!(words(WalHeaderV1Error::Truncated), "Truncated V1 WAL header");
    assert_eq!(words(WalHeaderV1Error::Overflow), "V1 WAL header varint exceeds u64");
    assert_eq!(words(WalHeaderV1Error::NonCanonical), "Non-canonical V1 WAL header varint");
    assert_eq!(words(WalHeaderV1Error::UnsupportedVersion(7)), "Unsupported WAL version: 7");
    assert_eq!(words(WalHeaderV1Error::InvalidDataSizeBytes(9)), "Invalid data size bytes: 9");
    assert_eq!(words(WalHeaderV1Error::InvalidIdSizeBytes(0)), "Invalid ID size bytes: 0");
    assert_eq!(
        words(WalHeaderV1Error::ValueTooLarge),
        "Value does not fit in a u64 V1 WAL header field"
    );
    assert_eq!(
        words(WalHeaderV1Error::CrcMismatch { stored: 0xbeef, computed: 0xE306_9283 }),
        "V1 WAL header CRC mismatch: stored 0x0000beef, computed 0xe3069283"
    );
    assert_eq!(
        AnyWalHeaderError::V0(WalHeaderError::InvalidIdSizeBytes(12)).message(),
        "Invalid ID size bytes: 12"
    );
    assert_eq!(
        AnyWalHeaderError::V0(WalHeaderError::UnsupportedVersion(1)).message(),
        "Unsupported WAL version: 1"
    );
    assert_eq!(WalHeaderError::InvalidDataSizeBytes(0).message(), "Invalid data size bytes: 0");
    assert_eq!(WalHeaderError::SliceTooShort.message(), "Truncated WAL header");
}
