use normfs::fs::scan::{scan_ids, Scan, ScanResult};
use normfs::uintn::UintN;

fn names(files: &[&str]) -> Vec<Vec<u8>> {
    files.iter().map(|f| f.as_bytes().to_vec()).collect()
}

#[test]
fn scans_the_chunked_layout() {
    let files = names(&["000/00a.store", "000/0ff.store", "001/000.store", "001/000.wal"]);

    assert_eq!(
        scan_ids(&files, b"store", Scan::Min),
        ScanResult::One(UintN::from(0x00000au64))
    );
    assert_eq!(
        scan_ids(&files, b"store", Scan::Max),
        ScanResult::One(UintN::from(0x001000u64))
    );
    match scan_ids(&files, b"store", Scan::All) {
        ScanResult::All(ids) => assert_eq!(ids.len(), 3),
        other => panic!("{other:?}"),
    }
    assert_eq!(
        scan_ids(&files, b"wal", Scan::Max),
        ScanResult::One(UintN::from(0x001000u64))
    );
}

#[test]
fn nothing_is_none() {
    assert_eq!(scan_ids(&names(&[]), b"wal", Scan::Min), ScanResult::Nothing);
    assert_eq!(scan_ids(&names(&[]), b"wal", Scan::All), ScanResult::Nothing);
    assert_eq!(
        scan_ids(&names(&["001.store", "x.wal", "01.wal", "001wal"]), b"wal", Scan::Max),
        ScanResult::Nothing
    );
}

#[test]
fn ids_of_more_than_one_piece_are_scanned() {
    let files = names(&["abc/def.wal", "abc/001.wal"]);
    assert_eq!(
        scan_ids(&files, b"wal", Scan::Max),
        ScanResult::One(UintN::from(0xabcdefu64))
    );
    assert_eq!(
        scan_ids(&files, b"wal", Scan::Min),
        ScanResult::One(UintN::from(0xabc001u64))
    );
}
