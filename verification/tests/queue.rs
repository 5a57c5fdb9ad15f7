//! Files written entry by entry, and read back.

use bytes::Bytes;
use normfs::errors::WalError;
use normfs::page_pool::{PagePool, Placement, RotateHint};
use normfs::reader::{
    get_wal_content, get_wal_header, read_wal_bytes_range, read_wal_header, ReadEntry,
    ReadRangeResult, READ_AHEAD,
};
use normfs::stream::{FileRangeReader, FileScan, ReadAction, ScanAction};
use normfs::uintn::UintN;
use normfs::wal_entry::WalEntryError;
use normfs::wal_header::{WalHeader, WalHeaderError};
use normfs::wal_header_v1::{AnyWalHeaderError, WalHeaderV1Error};
use normfs::writer::{
    Decision, FileRoom, OrderedBuffer, QueuedEntry, WalEntryFormat, WriteReport, WriteStep,
    WriterState,
};

fn id(n: u64) -> UintN {
    UintN::from(n)
}

/// The files of a queue, each with its content.
struct Queue {
    writer: WriterState,
    max_file_size: u64,
    files: Vec<(UintN, Vec<u8>)>,
    complete: Vec<UintN>,
    refused: Vec<WalError>,
    told: Vec<(UintN, u64, u64)>,
}

impl Queue {
    fn start(file_id: u64, header: WalHeader, max_file_size: u64, last: Option<UintN>) -> Queue {
        Queue::start_as(WalEntryFormat::default(), file_id, header, max_file_size, last)
    }

    fn start_as(
        format: WalEntryFormat,
        file_id: u64,
        header: WalHeader,
        max_file_size: u64,
        last: Option<UintN>,
    ) -> Queue {
        let first = format.header_bytes(&header).unwrap();
        Queue {
            writer: WriterState::new(&id(file_id), header, format, &last),
            max_file_size,
            files: vec![(id(file_id), first.to_vec())],
            complete: Vec::new(),
            refused: Vec::new(),
            told: Vec::new(),
        }
    }

    fn enqueue(&mut self, n: u64, data: &[u8]) {
        self.place(n, data, Placement::legacy());
    }

    fn place(&mut self, n: u64, data: &[u8], placement: Placement) {
        self.writer.take(QueuedEntry { id: id(n), data: Bytes::copy_from_slice(data), placement });
        loop {
            let report = match self.writer.step() {
                WriteStep::Rest => return,
                WriteStep::AskRoom(n) => {
                    let used = self.files.last().unwrap().1.len() as u64;
                    WriteReport::Room(FileRoom { used, max: self.max_file_size }.can_add(n))
                }
                WriteStep::Tell { id, charged, expected } => {
                    self.told.push((id, charged, expected));
                    WriteReport::Done
                }
                WriteStep::CloseFile => {
                    self.complete.push(self.writer.file_id().clone());
                    WriteReport::Done
                }
                WriteStep::OpenFile(bytes) => {
                    self.files.push((self.writer.file_id().clone(), bytes.to_vec()));
                    WriteReport::Done
                }
                WriteStep::Write { bytes, .. } => {
                    self.files.last_mut().unwrap().1.extend_from_slice(&bytes);
                    WriteReport::Done
                }
                WriteStep::Refuse(e) => {
                    self.refused.push(e);
                    WriteReport::Failed
                }
            };
            self.writer.report(report);
        }
    }

    fn content(&self, n: usize) -> Bytes {
        Bytes::copy_from_slice(&self.files[n].1)
    }
}

/// Reads a file in pieces of at most `piece` bytes.
fn read_wal_file_range(
    content: &[u8],
    from: u64,
    until: Option<u64>,
    step: usize,
    piece: usize,
) -> Result<(Vec<ReadEntry>, ReadRangeResult), WalError> {
    let mut reader = FileRangeReader::new(&id(from), &until.map(id), step, content.len());
    let mut left = content;
    let mut entries = Vec::new();
    loop {
        match reader.poll(false)? {
            ReadAction::Fill(n) => {
                let n = n.min(piece).min(left.len());
                reader.feed(&left[..n]);
                left = &left[n..];
            }
            ReadAction::Deliver(entry) => entries.push(entry),
            ReadAction::Finished(result) => return Ok((entries, result)),
        }
    }
}

/// Scans a file in pieces of at most `piece` bytes.
fn get_wal_range(
    content: &[u8],
    file_id: u64,
    piece: usize,
) -> Result<(WalHeader, Option<(UintN, UintN)>), WalError> {
    let mut scan = FileScan::new(&id(file_id), content.len());
    let mut left = content;
    loop {
        match scan.poll()? {
            ScanAction::Fill(n) => {
                let n = n.min(piece).min(left.len());
                scan.feed(&left[..n]);
                left = &left[n..];
            }
            ScanAction::Finished(header, ids) => return Ok((header, ids)),
        }
    }
}

fn plain(entries: &[ReadEntry]) -> Vec<(UintN, Bytes)> {
    entries.iter().map(|e| (e.id.clone(), e.data.clone())).collect()
}

fn expected(entries: &[(u64, &[u8])]) -> Vec<(UintN, Bytes)> {
    entries.iter().map(|(n, data)| (id(*n), Bytes::copy_from_slice(data))).collect()
}

#[test]
fn test_enqueue_and_read() {
    let mut store = Queue::start(1, WalHeader::default(), 1024, None);
    store.enqueue(0, b"hello");
    store.enqueue(1, b"world");

    let (entries, result) =
        read_wal_file_range(&store.content(0), 0, Some(1), 1, usize::MAX).unwrap();
    assert!(matches!(result, ReadRangeResult::Complete));
    assert_eq!(plain(&entries), expected(&[(0, b"hello"), (1, b"world")]));
}

#[test]
fn test_enqueue_batch_and_read() {
    let mut store = Queue::start(1, WalHeader::default(), 1024, None);
    for (n, data) in [(0, &b"hello"[..]), (1, b"world")] {
        store.enqueue(n, data);
    }
    let (entries, result) = read_wal_file_range(&store.content(0), 0, Some(1), 1, 5).unwrap();
    assert!(matches!(result, ReadRangeResult::Complete));
    assert_eq!(plain(&entries), expected(&[(0, b"hello"), (1, b"world")]));
}

#[test]
fn test_size_based_rotation() {
    let mut store = Queue::start(1, WalHeader::default(), 128, None);
    store.enqueue(0, &[0; 64]);
    store.enqueue(1, &[0; 64]);

    assert_eq!(store.complete, vec![id(1)]);
    assert_eq!(store.files.len(), 2);
    assert_eq!(store.files[1].0, id(1).increment());
    let content1 = get_wal_content(store.content(0)).unwrap();
    assert_eq!(content1.num_entries, id(1));
    let content2 = get_wal_content(store.content(1)).unwrap();
    assert_eq!(content2.num_entries, id(1));
    assert_eq!(content2.entries_before, id(1));
}

#[test]
fn test_v1_enqueue_read_and_scan() {
    let mut store = Queue::start(1, WalHeader::default(), 4096, None);
    let records: [&[u8]; 3] = [
        b"alpha",
        b"",
        b"a longer gamma record crossing a two byte varint boundary ..............",
    ];
    for (i, r) in records.iter().enumerate() {
        store.enqueue(i as u64, r);
    }
    let raw = store.content(0);
    assert_eq!(raw[0], 1, "new file must carry the V1 header version");

    let (entries, result) = read_wal_file_range(&raw, 0, Some(2), 1, 7).unwrap();
    assert!(matches!(result, ReadRangeResult::Complete));
    let all: Vec<(u64, &[u8])> = (0..3).map(|i| (i as u64, records[i])).collect();
    assert_eq!(plain(&entries), expected(&all));

    let content = get_wal_content(raw.clone()).unwrap();
    assert_eq!(content.num_entries, id(3));
    assert_eq!(content.entries_before, id(0));
    let (_, range) = get_wal_range(&raw, 1, usize::MAX).unwrap();
    assert_eq!(range, Some((id(0), id(2))));

    let (entries, _) = read_wal_bytes_range(&content.content, &id(0), &Some(id(2)), 2).unwrap();
    assert_eq!(plain(&entries), expected(&[(0, records[0]), (2, records[2])]));
}

#[test]
fn test_v1_truncated_tail_is_dropped() {
    let mut store = Queue::start(1, WalHeader::default(), 4096, None);
    for i in 0..3u64 {
        store.enqueue(i, format!("record-{i}").as_bytes());
    }
    let bytes = store.content(0);
    let cut = bytes.slice(..bytes.len() - 3);

    // Only the first two entries survive; ids 0 and 1.
    let (_, range) = get_wal_range(&cut, 1, 4).unwrap();
    assert_eq!(range, Some((id(0), id(1))));
    let content = get_wal_content(cut).unwrap();
    assert_eq!(content.num_entries, id(2));
}

#[test]
fn test_v1_rotates_on_file_size_not_field_width() {
    let header = WalHeader { data_size_bytes: 1, ..Default::default() };
    let mut store = Queue::start(1, header, 4096, None);
    store.enqueue(0, b"a");
    store.enqueue(1, &[b'x'; 512]);

    let content1 = get_wal_content(store.content(0)).unwrap();
    assert_eq!(
        content1.num_entries,
        id(2),
        "V1 has no fixed-width size field to overflow, so both entries belong to file 1"
    );
    assert_eq!(
        store.files.len(),
        1,
        "no rotation should have happened, but file 2 exists"
    );
    let (entries, _) = read_wal_file_range(&store.content(0), 1, Some(1), 1, 100).unwrap();
    assert_eq!(plain(&entries), expected(&[(1, &[b'x'; 512])]));
}

fn xxh64(data: &[u8]) -> u64 {
    xxhash_rust::xxh64::xxh64(data, 0)
}

fn v0_store(header: WalHeader, max_file_size: u64) -> Queue {
    Queue::start_as(WalEntryFormat::V0, 1, header, max_file_size, None)
}

#[test]
fn test_enqueue_and_read_v0_compat() {
    let mut store = v0_store(WalHeader::default(), 1024);
    store.enqueue(0, b"hello");
    store.enqueue(1, b"world");

    let raw = store.content(0);
    assert_eq!(raw[0], 0, "compat file must carry the V0 header version");

    let (entries, result) = read_wal_file_range(&raw, 0, Some(1), 1, usize::MAX).unwrap();
    assert!(matches!(result, ReadRangeResult::Complete));
    assert_eq!(plain(&entries), expected(&[(0, b"hello"), (1, b"world")]));
}

#[test]
fn test_enqueue_batch_and_read_v0_compat() {
    let mut store = v0_store(WalHeader::default(), 1024);
    for (n, data) in [(0, &b"hello"[..]), (1, b"world")] {
        store.enqueue(n, data);
    }
    let (entries, result) = read_wal_file_range(&store.content(0), 0, Some(1), 1, 9).unwrap();
    assert!(matches!(result, ReadRangeResult::Complete));
    assert_eq!(plain(&entries), expected(&[(0, b"hello"), (1, b"world")]));
}

#[test]
fn test_size_based_rotation_v0_compat() {
    let mut store = v0_store(WalHeader::default(), 128);
    store.enqueue(0, &[0; 64]);
    store.enqueue(1, &[0; 64]);

    assert_eq!(store.complete, vec![id(1)]);
    let content1 = get_wal_content(store.content(0)).unwrap();
    assert_eq!(content1.num_entries, id(1));
    let content2 = get_wal_content(store.content(1)).unwrap();
    assert_eq!(content2.num_entries, id(1));
}

/// Pinned to V0: the trigger only exists there. A V0 entry stores its record size in a
/// `data_size_bytes`-wide field, so a record too wide for it forces a new file. V1 frames the
/// size as a varint and has no width to overflow.
#[test]
fn test_data_size_based_rotation() {
    let header = WalHeader {
        data_size_bytes: 1, // Set data size limit to 1 byte
        ..Default::default()
    };
    let mut store = v0_store(header, 1024);
    store.enqueue(0, b"a"); // 1 byte - fits in data_size_bytes = 1
    let wide = "data too large for writing into file, data too large for writing into file, data too large for writing into file, data too large for writing into file,
    data too large for writing into file, data too large for writing into file, data too large for writing into file, data too large for writing into file
    data too large for writing into file, data too large for writing into file, data too large for writing into file, data too large for writing into file";
    store.enqueue(1, wide.as_bytes()); // > 1 byte - triggers rotation

    assert_eq!(store.complete, vec![id(1)]);
    let content1 = get_wal_content(store.content(0)).unwrap();
    assert_eq!(content1.num_entries, id(1));
    let content2 = get_wal_content(store.content(1)).unwrap();
    assert_eq!(content2.num_entries, id(1));
    assert_eq!(content2.entries_before, id(1));
}

#[test]
fn a_file_of_the_first_format_is_written_as_it_is_read() {
    let header = WalHeader::new(1, 2, id(0)).unwrap();
    let mut store = v0_store(header, 1024);
    store.enqueue(0, b"zero");
    store.enqueue(1, b"");
    assert_eq!(store.files[0].1, v0_file(0, &[(0, b"zero"), (1, b"")]));
}

#[test]
fn a_count_too_wide_for_its_field_is_refused() {
    let header = WalHeader::new(8, 1, id(256)).unwrap();
    assert_eq!(
        WalEntryFormat::V0.header_bytes(&header).err(),
        Some(AnyWalHeaderError::V0(WalHeaderError::InvalidIdSizeBytes(1)))
    );
    let header = WalHeader { data_size_bytes: 9, ..Default::default() };
    assert_eq!(
        WalEntryFormat::V0.header_bytes(&header).err(),
        Some(AnyWalHeaderError::V0(WalHeaderError::InvalidDataSizeBytes(9)))
    );
    assert_eq!(
        WalEntryFormat::V1.header_bytes(&header).err(),
        Some(AnyWalHeaderError::V1(WalHeaderV1Error::InvalidDataSizeBytes(9)))
    );
}

/// A file of the first format, with ids of two bytes and sizes of one.
fn v0_file(before: u16, entries: &[(u16, &[u8])]) -> Vec<u8> {
    let mut out = vec![0u8; 8];
    out.extend_from_slice(&1u64.to_le_bytes());
    out.extend_from_slice(&2u64.to_le_bytes());
    out.extend_from_slice(&before.to_le_bytes());
    for (id, record) in entries {
        out.extend_from_slice(&id.to_le_bytes());
        out.push(record.len() as u8);
        out.extend_from_slice(&xxh64(record).to_le_bytes());
        out.extend_from_slice(record);
    }
    out
}

#[test]
fn test_mixed_v0_and_v1_files_in_one_queue() {
    // File 1: legacy V0, entries 0 and 1.
    let mut store = Queue::start_as(WalEntryFormat::V0, 1, WalHeader::default(), 4096, None);
    store.enqueue(0, b"v0-zero");
    store.enqueue(1, b"v0-one");
    let raw1 = store.content(0);
    // File 2: V1, entries 2 and 3.
    let header2 = WalHeader::new(8, 4, id(2)).unwrap();
    let mut store = Queue::start(2, header2, 4096, Some(id(1)));
    store.enqueue(2, b"v1-two");
    store.enqueue(3, b"v1-three");
    let raw2 = store.content(0);
    assert_eq!(raw1[0], 0, "file 1 must be V0");
    assert_eq!(raw2[0], 1, "file 2 must be V1");

    let (_, range1) = get_wal_range(&raw1, 1, 3).unwrap();
    assert_eq!(range1, Some((id(0), id(1))));
    let (_, range2) = get_wal_range(&raw2, 2, usize::MAX).unwrap();
    assert_eq!(range2, Some((id(2), id(3))));

    let (entries, _) = read_wal_file_range(&raw1, 0, None, 1, 1).unwrap();
    assert_eq!(plain(&entries), expected(&[(0, b"v0-zero"), (1, b"v0-one")]));
    let (entries, _) = read_wal_file_range(&raw2, 2, Some(3), 1, usize::MAX).unwrap();
    assert_eq!(plain(&entries), expected(&[(2, b"v1-two"), (3, b"v1-three")]));
}

#[test]
fn a_read_in_pieces_gives_what_a_read_of_the_whole_gives() {
    let mut store = Queue::start(1, WalHeader::default(), 1 << 20, None);
    for n in 0..40u64 {
        store.enqueue(n, &vec![n as u8; (n * 7) as usize]);
    }
    let mut torn = v0_file(3, &[(3, b"three"), (4, b"four"), (5, b"five")]);
    let last = torn.len() - 1;
    torn[last] ^= 1;
    let mut damaged = store.files[0].1.clone();
    let at = damaged.len() / 2;
    damaged[at] ^= 1;
    let cut = store.files[0].1[..store.files[0].1.len() - 10].to_vec();
    let empty: Vec<u8> = Vec::new();
    let head = store.files[0].1[..9].to_vec();
    for content in [store.files[0].1.clone(), torn, damaged, cut, empty, head] {
        for (from, until, step) in [(0, None, 1), (3, Some(30), 4), (5, Some(5), 1), (50, None, 1)] {
            let whole = read_wal_bytes_range(
                &Bytes::copy_from_slice(&content),
                &id(from),
                &until.map(id),
                step,
            )
            .unwrap();
            for piece in [1, 13, 1000, usize::MAX] {
                let parts = read_wal_file_range(&content, from, until, step, piece).unwrap();
                assert_eq!(plain(&parts.0), plain(&whole.0));
                assert_eq!(parts.1, whole.1);
            }
        }
    }
}

#[test]
fn a_read_says_where_the_file_ended() {
    let mut store = Queue::start(1, WalHeader::default(), 4096, None);
    for n in 0..3u64 {
        store.enqueue(n, b"x");
    }
    let content = store.content(0);
    let (entries, result) = read_wal_bytes_range(&content, &id(1), &Some(id(9)), 5).unwrap();
    assert_eq!(plain(&entries), expected(&[(1, b"x")]));
    assert_eq!(
        result,
        ReadRangeResult::PartialRead { last_read_id: Some(id(1)), last_id_in_file: id(2) }
    );
    let (entries, result) = read_wal_bytes_range(&content, &id(7), &None, 1).unwrap();
    assert!(entries.is_empty());
    assert_eq!(
        result,
        ReadRangeResult::PartialRead { last_read_id: None, last_id_in_file: id(2) }
    );
    // Nothing has finished writing a header: there is nothing to read yet.
    let (entries, result) = read_wal_bytes_range(&Bytes::new(), &id(7), &None, 1).unwrap();
    assert!(entries.is_empty());
    assert_eq!(
        result,
        ReadRangeResult::PartialRead { last_read_id: None, last_id_in_file: id(7) }
    );
}

#[test]
fn a_damaged_entry_of_the_first_format_ends_the_file() {
    let mut content = v0_file(0, &[(0, b"good"), (1, b"bad"), (2, b"behind")]);
    let at = 26 + 11 + 4 + 11;
    assert_eq!(content[at], b'b');
    content[at] = b'B';
    let content = Bytes::from(content);
    let (entries, _) = read_wal_bytes_range(&content, &id(0), &None, 1).unwrap();
    assert_eq!(plain(&entries), expected(&[(0, b"good")]));
    assert_eq!(get_wal_content(content).unwrap().num_entries, id(1));
}

/// How a read ends, of the whole and in pieces alike.
fn ends(content: &[u8], from: u64, until: u64, step: usize) -> (usize, ReadRangeResult) {
    let whole = Bytes::copy_from_slice(content);
    let (entries, result) =
        read_wal_bytes_range(&whole, &id(from), &Some(id(until)), step).unwrap();
    let (pieces, ended) = read_wal_file_range(content, from, Some(until), step, 7).unwrap();
    assert_eq!(plain(&pieces), plain(&entries));
    assert_eq!(ended, result);
    (entries.len(), result)
}

#[test]
fn a_read_up_to_a_damaged_entry_is_not_complete() {
    let whole = v0_file(0, &[(0, b"good"), (1, b"bad"), (2, b"behind")]);
    let at = 26 + 11 + 4 + 11;
    let mut damaged = whole.clone();
    damaged[at] = b'B';
    let partial = |last: Option<u64>, in_file: u64| ReadRangeResult::PartialRead {
        last_read_id: last.map(id),
        last_id_in_file: id(in_file),
    };
    for content in [&damaged[..], &whole[..at + 1]] {
        // The entry that is asked for last cannot be read.
        assert_eq!(ends(content, 0, 1, 1), (1, partial(Some(0), 1)));
        assert_eq!(ends(content, 1, 1, 1), (0, partial(None, 1)));
        assert_eq!(ends(content, 0, 2, 1), (1, partial(Some(0), 1)));
        // It is not asked for: all that is asked for was read.
        assert_eq!(ends(content, 0, 0, 1), (1, ReadRangeResult::Complete));
        assert_eq!(ends(content, 0, 1, 2), (1, ReadRangeResult::Complete));
    }
    assert_eq!(ends(&whole, 0, 1, 1), (2, ReadRangeResult::Complete));
}

/// Reads a file that had `opened` bytes when it was opened, and has `content` by now. Says how
/// many bytes were asked for at once, at most.
fn read_grown(content: &[u8], opened: usize) -> (Vec<(UintN, Bytes)>, ReadRangeResult, usize) {
    let mut reader = FileRangeReader::new(&id(0), &None, 1, opened);
    let (mut left, mut entries, mut most) = (content, Vec::new(), 0);
    loop {
        match reader.poll(false).unwrap() {
            ReadAction::Fill(n) => {
                most = most.max(n);
                assert!(reader.unread_len() + n <= opened.max(reader.unread_len() + READ_AHEAD));
                let n = n.min(left.len());
                reader.feed(&left[..n]);
                left = &left[n..];
            }
            ReadAction::Deliver(entry) => entries.push(entry),
            ReadAction::Finished(result) => return (plain(&entries), result, most),
        }
    }
}

#[test]
fn a_file_of_the_first_format_is_read_as_far_as_it_has_grown() {
    let record = vec![0x33u8; 100];
    let content = v0_file(0, &[(0, &record)]);
    assert_eq!(content.len(), 137);
    let (entries, result, _) = read_grown(&content, 26);
    assert_eq!(entries, expected(&[(0, &record)]));
    assert_eq!(
        result,
        ReadRangeResult::PartialRead { last_read_id: Some(id(0)), last_id_in_file: id(0) }
    );

    let mut scan = FileScan::new(&id(1), 26);
    let mut left = &content[..];
    let ids = loop {
        match scan.poll().unwrap() {
            ScanAction::Fill(n) => {
                let n = n.min(left.len());
                assert!(scan.unread_len() + left.len() <= content.len());
                scan.feed(&left[..n]);
                left = &left[n..];
            }
            ScanAction::Finished(_, ids) => break ids,
        }
    };
    assert_eq!(ids, Some((id(0), id(0))));
}

#[test]
fn a_damaged_size_of_the_first_format_does_not_ask_for_too_much() {
    let header = WalHeader::new(8, 8, id(0)).unwrap();
    let mut content = WalEntryFormat::V0.header_bytes(&header).unwrap().to_vec();
    // An entry that claims more bytes than there can be.
    content.extend_from_slice(&5u64.to_le_bytes());
    content.extend_from_slice(&u64::MAX.to_le_bytes());
    content.extend_from_slice(&[0; 8]);
    content.resize(200_000, 7);
    for opened in [26, content.len()] {
        let (entries, result, most) = read_grown(&content, opened);
        assert!(entries.is_empty());
        assert_eq!(
            result,
            ReadRangeResult::PartialRead { last_read_id: None, last_id_in_file: id(5) }
        );
        assert!(most <= content.len());
    }
}

#[test]
fn a_damaged_size_of_the_second_format_ends_the_file() {
    let mut store = Queue::start(1, WalHeader::default(), 4096, None);
    store.enqueue(0, &[1; 100]);
    let content = store.content(0);
    let (entries, _, _) = read_grown(&content, content.len());
    assert_eq!(entries.len(), 1);
    // An entry longer than the file was.
    let (entries, _, _) = read_grown(&content, 50);
    assert!(entries.is_empty());
}

#[test]
fn a_file_that_was_empty_is_not_read() {
    let content = v0_file(0, &[(0, b"late")]);
    let (entries, result, most) = read_grown(&content, 0);
    assert!(entries.is_empty());
    assert_eq!(most, 0);
    assert_eq!(
        result,
        ReadRangeResult::PartialRead { last_read_id: None, last_id_in_file: id(0) }
    );
    assert!(matches!(FileScan::new(&id(4), 0).poll(), Err(WalError::WalEmpty(n)) if n == id(4)));
}

#[test]
fn a_read_ends_when_nobody_takes_the_entries() {
    let content = v0_file(0, &[(0, b"one"), (1, b"two")]);
    let mut reader = FileRangeReader::new(&id(0), &Some(id(0)), 1, content.len());
    // The header comes first.
    assert!(matches!(reader.poll(true), Ok(ReadAction::Fill(_))));
    reader.feed(&content);
    assert!(matches!(reader.poll(true), Ok(ReadAction::Fill(_))));
    reader.feed(&[]);
    assert!(matches!(
        reader.poll(true),
        Ok(ReadAction::Finished(ReadRangeResult::ChannelClosed))
    ));
    // What was asked for was taken: the read is complete.
    assert!(matches!(reader.poll(false), Ok(ReadAction::Deliver(_))));
    assert!(matches!(reader.poll(true), Ok(ReadAction::Finished(ReadRangeResult::Complete))));
}

#[test]
fn entries_that_arrive_out_of_order_are_read_under_their_ids() {
    let mut store = Queue::start(1, WalHeader::default(), 64, None);
    for n in [2u64, 0, 1, 5, 3, 4, 4, 6] {
        store.enqueue(n, &[n as u8; 20]);
    }
    let mut read = Vec::new();
    for file in 0..store.files.len() {
        let (entries, _) = read_wal_bytes_range(&store.content(file), &id(0), &None, 1).unwrap();
        read.extend(plain(&entries));
    }
    let all: Vec<(UintN, Bytes)> =
        (0..7u64).map(|n| (id(n), Bytes::copy_from_slice(&[n as u8; 20]))).collect();
    assert_eq!(read, all);
}

#[test]
fn a_file_has_room_up_to_its_maximum() {
    let mut room = FileRoom { used: 10, max: 30 };
    assert!(room.can_add(20));
    assert!(!room.can_add(21));
    room.add(25);
    assert_eq!(room, FileRoom { used: 35, max: 30 });
    assert!(!room.can_add(0));
    room.add(u64::MAX);
    assert_eq!(room.used, u64::MAX);
}

#[test]
fn what_is_read_is_no_copy() {
    let mut store = Queue::start(1, WalHeader::default(), 4096, None);
    store.enqueue(0, b"some record");
    let content = store.content(0);
    let (entries, _) = read_wal_bytes_range(&content, &id(0), &None, 1).unwrap();
    let inside = content.as_ptr_range();
    assert!(inside.contains(&entries[0].data.as_ptr()));
}

#[test]
fn a_file_without_a_whole_header_is_empty() {
    let file = id(9);
    let header = WalEntryFormat::V1.header_bytes(&WalHeader::new(8, 8, id(5)).unwrap()).unwrap();
    assert_eq!(read_wal_header(&header, &file).unwrap().num_entries_before, id(5));
    assert_eq!(get_wal_header(&header).unwrap().num_entries_before, id(5));
    for n in 0..header.len() {
        assert_eq!(read_wal_header(&header[..n], &file), Err(WalError::WalEmpty(id(9))));
        assert_eq!(get_wal_range(&header[..n], 9, 3).err(), Some(WalError::WalEmpty(id(9))));
    }
    let unsupported = [7u8, 0, 0, 0, 0, 0, 0, 0];
    let e = AnyWalHeaderError::V1(WalHeaderV1Error::UnsupportedVersion(7));
    assert_eq!(
        read_wal_header(&unsupported, &file),
        Err(WalError::WalHeaderError(e))
    );
    assert_eq!(
        get_wal_range(&unsupported, 9, 3).err(),
        Some(WalError::WalHeaderError(e))
    );
    assert_eq!(
        read_wal_file_range(&unsupported, 0, None, 1, 3).err(),
        Some(WalError::WalHeaderError(e))
    );
    assert_eq!(
        get_wal_content(Bytes::new()).err(),
        Some(WalError::WalEntryError(WalEntryError::SliceTooShort))
    );
}

#[test]
fn a_file_that_holds_no_entries_has_no_ids() {
    let header = WalEntryFormat::V1.header_bytes(&WalHeader::new(8, 8, id(5)).unwrap()).unwrap();
    let (h, range) = get_wal_range(&header, 1, usize::MAX).unwrap();
    assert_eq!(h.num_entries_before, id(5));
    assert_eq!(range, None);
}

#[test]
fn entries_are_written_in_the_order_of_their_ids() {
    let mut store = Queue::start(1, WalHeader::default(), 4096, None);
    store.enqueue(2, b"two");
    store.enqueue(1, b"one");
    store.enqueue(1, b"again");
    assert_eq!(get_wal_content(store.content(0)).unwrap().num_entries, id(0));
    store.enqueue(0, b"zero");
    store.enqueue(0, b"late");
    let (entries, _) = read_wal_bytes_range(&store.content(0), &id(0), &None, 1).unwrap();
    assert_eq!(plain(&entries), expected(&[(0, b"zero"), (1, b"one"), (2, b"two")]));
}

#[test]
fn a_buffer_starts_behind_the_last_entry() {
    let entry = |n: u64| QueuedEntry {
        id: id(n),
        data: Bytes::new(),
        placement: Placement::legacy(),
    };
    let mut buffer = OrderedBuffer::new(&Some(id(4)));
    assert!(buffer.can_write(&id(5)));
    assert!(!buffer.can_write(&id(4)));
    assert!(buffer.wait_for_order(entry(4)).is_empty());
    assert!(buffer.wait_for_order(entry(6)).is_empty());
    let ready: Vec<UintN> = buffer.wait_for_order(entry(5)).into_iter().map(|e| e.id).collect();
    assert_eq!(ready, vec![id(5), id(6)]);
    assert!(buffer.can_write(&id(7)));
    assert!(OrderedBuffer::new(&None).can_write(&id(0)));
}

#[test]
fn a_writer_carries_out_what_the_pool_decided() {
    let mut pool = PagePool::new(4, 64, 0);
    pool.arm_file_fill(37, 16);
    let mut store = Queue::start(1, WalHeader::default(), 10, None);
    for n in 0..8u64 {
        let record = [n as u8; 16];
        let placement = pool.place(n, &record).unwrap().unwrap();
        pool.mark_durable(n);
        store.place(n, &record, placement);
    }
    assert!(store.told.is_empty());
    // Two records to a page, and every page ends a file.
    assert_eq!(store.files.len(), 4);
    for n in 0..4u64 {
        let content = get_wal_content(store.content(n as usize)).unwrap();
        assert_eq!(content.entries_before, id(2 * n));
        assert_eq!(content.num_entries, id(2));
    }
}

#[test]
fn a_record_charged_to_another_file_is_told_and_written_all_the_same() {
    let mut store = Queue::start(1, WalHeader::default(), 4096, None);
    store.place(0, b"x", Placement { in_pool: true, rotate: RotateHint::Keep, epoch: 3 });
    store.place(1, b"y", Placement { in_pool: true, rotate: RotateHint::Before, epoch: 3 });
    assert_eq!(store.told, vec![(id(0), 3, 0), (id(1), 3, 1)]);
    assert_eq!(store.files.len(), 2);
    assert_eq!(store.writer.epoch(), 1);
    let (entries, _) = read_wal_bytes_range(&store.content(1), &id(0), &None, 1).unwrap();
    assert_eq!(plain(&entries), expected(&[(1, b"y")]));
}

#[test]
fn a_failed_write_takes_what_was_ready_behind_it_along() {
    let entry = |n: u64| QueuedEntry {
        id: id(n),
        data: Bytes::from_static(b"x"),
        placement: Placement::legacy(),
    };
    let mut writer = WriterState::new(&id(1), WalHeader::default(), WalEntryFormat::V1, &None);
    writer.take(entry(1));
    assert!(matches!(writer.step(), WriteStep::Rest));
    writer.take(entry(0));
    assert!(matches!(writer.step(), WriteStep::Write { .. }));
    writer.report(WriteReport::Failed);
    assert!(matches!(writer.step(), WriteStep::Rest));
    // The next id is the one after them.
    writer.take(entry(2));
    match writer.step() {
        WriteStep::Write { id: n, in_pool, .. } => assert_eq!((n, in_pool), (id(2), false)),
        other => panic!("{other:?}"),
    }
}

#[test]
fn the_widths_of_the_next_file_fit_its_first_entry() {
    let header = WalHeader::new(1, 1, id(0)).unwrap();
    let mut store = Queue::start(1, header, 4096, None);
    store.enqueue(0, b"x");
    store.place(1, &[7; 300], Placement { in_pool: false, rotate: RotateHint::Before, epoch: 1 });
    let header = store.writer.header();
    assert_eq!(
        (header.data_size_bytes, header.id_size_bytes, &header.num_entries_before),
        (2, 1, &id(1))
    );
    assert_eq!(get_wal_header(&store.content(1)).unwrap(), *store.writer.header());
}

#[test]
fn a_count_too_wide_for_a_header_is_refused() {
    let wide = UintN::from(u64::MAX).increment();
    let last = Some(UintN::from(u64::MAX));
    let mut writer = WriterState::new(&id(1), WalHeader::default(), WalEntryFormat::V1, &last);
    writer.take(QueuedEntry {
        id: wide,
        data: Bytes::from_static(b"x"),
        placement: Placement { in_pool: false, rotate: RotateHint::Before, epoch: 1 },
    });
    assert!(matches!(writer.step(), WriteStep::CloseFile));
    writer.report(WriteReport::Done);
    match writer.step() {
        WriteStep::Refuse(e) => assert_eq!(
            e,
            WalError::WalHeaderError(AnyWalHeaderError::V1(WalHeaderV1Error::ValueTooLarge))
        ),
        other => panic!("{other:?}"),
    }
    writer.report(WriteReport::Failed);
    assert!(matches!(writer.step(), WriteStep::Rest));
}

#[test]
fn an_entry_is_framed_as_it_is_read() {
    let header = WalHeader::new(1, 1, id(0)).unwrap();
    let data = Bytes::from_static(b"abc");
    let bytes = WalEntryFormat::V1.entry_bytes(&header, &id(7), &data);
    assert_eq!(&bytes[..4], b"\x03abc");
    assert_eq!(bytes.len(), 8);
    let bytes = WalEntryFormat::V0.entry_bytes(&header, &id(7), &data);
    assert_eq!(bytes[..2], [7, 3]);
    assert_eq!(bytes[2..10], xxh64(b"abc").to_le_bytes());
    assert_eq!(&bytes[10..], b"abc");
}

#[test]
fn room_is_asked_for_once_a_file_holds_something() {
    let mut writer = WriterState::new(&id(1), WalHeader::default(), WalEntryFormat::V1, &None);
    let legacy = Placement::legacy();
    assert_eq!(writer.decide(300, &legacy), Decision::Stay);
    writer.take(QueuedEntry { id: id(0), data: Bytes::new(), placement: legacy });
    assert!(matches!(writer.step(), WriteStep::Write { .. }));
    writer.report(WriteReport::Done);
    assert_eq!(writer.entry_index(), 1);
    assert_eq!(writer.decide(300, &legacy), Decision::AskRoom(306));
    let keep = Placement { rotate: RotateHint::Keep, ..legacy };
    assert_eq!(writer.decide(300, &keep), Decision::Stay);
    assert_eq!(writer.check_epoch(&keep), None);
    let before = Placement { rotate: RotateHint::Before, ..legacy };
    assert_eq!(writer.decide(300, &before), Decision::Rotate);
    assert_eq!(writer.check_epoch(&before), Some(1));
}
