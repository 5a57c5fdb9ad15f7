//! Ids of any width, and the files that they name.

use normfs::fs::path::{same_path, split};
use normfs::paths::read_file_id;
use normfs::text::{is_text_le, push_decimal};
use normfs::uintn::{TooWide, UintN};

#[test]
fn ids_count_past_every_width() {
    let max = UintN::from(u64::MAX);
    assert_eq!(max.to_u64(), Ok(u64::MAX));
    assert_eq!(max.byte_len(), 8);
    let next = max.increment();
    assert_eq!(next.to_u64(), Err(TooWide));
    assert_eq!(next.byte_len(), 9);
    assert!(max < next);
    assert!(max.is_below(&next));
    assert!(!next.is_below(&max));
    assert_eq!(next, UintN::from_le_bytes(&[0, 0, 0, 0, 0, 0, 0, 0, 1, 0, 0]));
    assert_eq!(UintN::from(255u64).increment(), UintN::from(256u64));
    assert_eq!(UintN::zero(), UintN::default());
    assert!(UintN::zero().is_zero());
    assert_eq!(next.clone(), next);
}

#[test]
fn ids_are_in_step_from_the_start_of_a_range() {
    let from = UintN::from(3u64);
    let picked: Vec<u64> = (3..20)
        .filter(|&id| UintN::from(id).in_step(&from, 5))
        .collect();
    assert_eq!(picked, vec![3, 8, 13, 18]);
}

#[test]
fn an_id_names_a_file_by_three_digits_a_piece() {
    assert_eq!(UintN::from(1u64).to_file_path(b"wal", b"wal"), b"wal/001.wal");
    assert_eq!(UintN::from(0u64).to_file_path(b"wal", b"wal"), b"wal/000.wal");
    assert_eq!(
        UintN::from(0xabcdefu64).to_file_path(b"store", b"store"),
        b"store/abc/def.store"
    );
    assert_eq!(
        UintN::from(0x1000u64).to_file_path(b"q", b"wal"),
        b"q/001/000.wal"
    );
}

#[test]
fn the_name_of_a_file_gives_its_id_back() {
    for id in [0u64, 1, 0xfff, 0x1000, 0xabcdef, u64::MAX] {
        let id = UintN::from(id);
        let path = id.to_file_path(b"", b"wal");
        assert_eq!(path[0], b'/');
        assert_eq!(read_file_id(&path[1..], b"wal"), Some(id.clone()));
        assert_eq!(read_file_id(&path[1..], b"store"), None);
    }
    for name in ["", ".wal", "1.wal", "00g.wal", "001.walx", "001/.wal", "001"] {
        assert_eq!(read_file_id(name.as_bytes(), b"wal"), None, "{name}");
    }
}

#[test]
fn digits_of_an_id_are_taken_and_added() {
    let id = UintN::from(0xabcu64);
    assert_eq!(id.low_digit(), 0xc);
    assert_eq!(id.div_16(), UintN::from(0xabu64));
    assert_eq!(id.times_16_plus(0xd), UintN::from(0xabcdu64));
}

#[test]
fn paths_are_the_same_when_their_pieces_are() {
    assert!(same_path(b"/a/b", b"/a//./b/"));
    assert!(!same_path(b"/a/b", b"a/b"));
    assert!(!same_path(b"/a/../a", b"/a"));
    assert!(!same_path(b"./a", b"a"));
    assert!(same_path(b"a/.", b"a"));
    assert_eq!(split(b"/a//./b/"), vec![b"a".to_vec(), b"b".to_vec()]);
}

#[test]
fn numbers_are_written_in_decimal() {
    let mut s = String::from("n=");
    for n in [0, 7, 10, 1234567890, u64::MAX] {
        push_decimal(&mut s, n);
        s.push(' ');
    }
    assert_eq!(s, format!("n=0 7 10 1234567890 {} ", u64::MAX));
    assert!(is_text_le("abc", "abd"));
    assert!(is_text_le("ab", "abc"));
    assert!(is_text_le("z", "\u{e9}"));
    assert!(!is_text_le("b", "abc"));
}
