use normfs::fs::read::{ReadStep, ReadWindow, SeekFrom, MAX_READ};

/// Reads up to `wanted` bytes from `file`.
fn read(window: &mut ReadWindow, file: &[u8], wanted: usize) -> Vec<u8> {
    if let ReadStep::Fetch { offset, len } = window.step(wanted) {
        let mut buffer = window.take_buffer();
        let from = (offset as usize).min(file.len());
        let n = len.min(file.len() - from);
        buffer.clear();
        buffer.extend_from_slice(&file[from..from + n]);
        window.fetched(buffer, n);
    }
    window.serve(wanted)
}

#[test]
fn pool_reader_keeps_bytes_when_a_read_is_cancelled_or_resized() {
    let file = b"0123456789";
    let mut window = ReadWindow::new();
    // A read of ten bytes is begun, and given up once its bytes are there.
    assert_eq!(window.step(10), ReadStep::Fetch { offset: 0, len: 10 });
    let buffer = window.take_buffer();
    assert!(buffer.is_empty());
    window.fetched(file.to_vec(), 10);

    assert_eq!(read(&mut window, file, 3), b"012");
    assert_eq!(read(&mut window, file, 100), b"3456789");
    assert_eq!(read(&mut window, file, 100), b"");
    assert_eq!(window.seek(SeekFrom::End(-2), 10), Some(8));
    assert_eq!(read(&mut window, file, 100), b"89");
}

#[test]
fn sequential_reads_and_seek_reuse_the_allocation() {
    let file = vec![0x5a; 3 * 1024 * 1024];
    let mut window = ReadWindow::new();
    assert_eq!(read(&mut window, &file, 1024 * 1024), &file[..1024 * 1024]);
    let buffer = window.take_buffer();
    let allocation = buffer.as_ptr();
    assert!(buffer.capacity() >= 1024 * 1024);
    window.fetched(buffer, 0);
    for _ in 0..2 {
        let block = read(&mut window, &file, 1024 * 1024);
        assert!(block.iter().all(|&b| b == 0x5a));
        let buffer = window.take_buffer();
        assert_eq!(buffer.as_ptr(), allocation);
        window.fetched(buffer, 0);
    }
    window.seek(SeekFrom::Start(0), file.len() as u64);
    assert_eq!(read(&mut window, &file, 4096).len(), 4096);
    assert_eq!(window.take_buffer().as_ptr(), allocation);
}

#[test]
fn one_read_asks_for_a_bounded_block() {
    let window = ReadWindow::new();
    assert_eq!(window.step(0), ReadStep::Ready);
    assert_eq!(
        window.step(MAX_READ + 1),
        ReadStep::Fetch { offset: 0, len: MAX_READ }
    );
}

#[test]
fn a_seek_goes_where_there_is_a_place() {
    let mut window = ReadWindow::new();
    assert_eq!(window.seek(SeekFrom::Start(u64::MAX), 10), Some(u64::MAX));
    assert_eq!(window.seek(SeekFrom::Current(1), 10), None);
    assert_eq!(window.seek(SeekFrom::Current(i64::MIN), 10), Some(u64::MAX - (1 << 63)));
    assert_eq!(window.seek(SeekFrom::End(-11), 10), None);
    assert_eq!(window.seek(SeekFrom::End(5), 10), Some(15));
    // A seek drops what was read ahead.
    window.seek(SeekFrom::Start(0), 10);
    window.fetched(b"abc".to_vec(), 3);
    assert_eq!(window.serve(1), b"a");
    assert_eq!(window.seek(SeekFrom::Current(1), 10), Some(2));
    assert_eq!(window.step(4), ReadStep::Fetch { offset: 2, len: 4 });
}

#[test]
fn the_buffer_is_lent_out_whole_and_once() {
    let mut window = ReadWindow::new();
    window.fetched(b"abcdef".to_vec(), 3);
    assert_eq!(window.serve(10), b"abc");
    assert_eq!(window.take_buffer(), b"abcdef");
    assert_eq!(window.take_buffer(), b"");
    // Neither the place nor what is needed next depends on the buffer.
    assert_eq!(window.step(4), ReadStep::Fetch { offset: 3, len: 4 });
    // A seek keeps the buffer.
    window.fetched(b"xyz".to_vec(), 3);
    assert_eq!(window.seek(SeekFrom::Start(1), 6), Some(1));
    assert_eq!(window.take_buffer(), b"xyz");
}
