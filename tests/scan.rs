use rhtail::{rfind_count, ByteSource, CursorError, MemCursor, RevReader, BUFFER_SIZE};

#[test]
fn test_rfind_count() {
    let mut file = MemCursor::new(b"Hello world!".to_vec());
    let (offset, size) = rfind_count(&mut file, b'l', 2, false).unwrap();
    assert_eq!(offset, Some(3));
    assert_eq!(size, 12);
}

#[test]
fn test_rfind_count_empty_line() {
    let mut file = MemCursor::new(b"1\n2\n3\n4\n5\n".to_vec());
    let (offset, size) = rfind_count(&mut file, b'\n', 2, true).unwrap();
    assert_eq!(offset, Some(5));
    assert_eq!(size, 10);
}

#[test]
fn test_rfind_count_not_found() {
    let mut file = MemCursor::new(b"123456".to_vec());
    let (offset, size) = rfind_count(&mut file, b'1', 2, false).unwrap();
    assert_eq!(offset, None);
    assert_eq!(size, 6);
}

#[test]
fn rfind_count_without_exclusion_counts_last_byte() {
    let mut file = MemCursor::new(b"1\n2\n3\n4\n5\n".to_vec());
    let (offset, size) = rfind_count(&mut file, b'\n', 2, false).unwrap();
    assert_eq!(offset, Some(7));
    assert_eq!(size, 10);
}

#[test]
fn rfind_count_zero_finds_nothing() {
    let mut file = MemCursor::new(b"a\nb\n".to_vec());
    let (offset, size) = rfind_count(&mut file, b'\n', 0, true).unwrap();
    assert_eq!(offset, None);
    assert_eq!(size, 4);
}

#[test]
fn rfind_count_on_empty_source() {
    let mut file = MemCursor::new(Vec::new());
    assert_eq!(rfind_count(&mut file, b'\n', 3, true).unwrap(), (None, 0));
    let mut file = MemCursor::new(Vec::new());
    assert_eq!(rfind_count(&mut file, b'\n', 1, false).unwrap(), (None, 0));
}

#[test]
fn rfind_count_delimiter_at_offset_zero() {
    let mut file = MemCursor::new(b"\nabc".to_vec());
    assert_eq!(rfind_count(&mut file, b'\n', 1, true).unwrap(), (Some(0), 4));
}

#[test]
fn rfind_count_across_windows() {
    let mut data = vec![b'x'; 3000];
    data[5] = b'\n';
    data[1500] = b'\n';
    data[2999] = b'\n';
    let mut file = MemCursor::new(data.clone());
    assert_eq!(rfind_count(&mut file, b'\n', 2, true).unwrap(), (Some(5), 3000));
    let mut file = MemCursor::new(data);
    assert_eq!(rfind_count(&mut file, b'\n', 3, true).unwrap(), (None, 3000));
}

#[test]
fn rev_reader_hands_out_bytes_backwards() {
    let data: Vec<u8> = (0..2500u32).map(|i| (i % 251) as u8).collect();
    let mut file = MemCursor::new(data.clone());
    let mut reader = RevReader::new(&mut file).unwrap();
    assert_eq!(reader.size(), 2500);
    assert_eq!(reader.offset(), 2500);
    let mut seen = Vec::new();
    while let Some(c) = reader.read_byte(&mut file).unwrap() {
        seen.push(c);
        assert_eq!(reader.offset() as usize, 2500 - seen.len());
    }
    assert_eq!(reader.offset(), 0);
    assert_eq!(reader.read_byte(&mut file).unwrap(), None);
    seen.reverse();
    assert_eq!(seen, data);
    assert!(BUFFER_SIZE < 2500);
}

#[test]
fn cursor_read_exact_past_end_fails() {
    let mut file = MemCursor::new(b"abc".to_vec());
    let mut buf = Vec::new();
    file.seek_to(1).unwrap();
    assert_eq!(file.read_exact(&mut buf, 3), Err(CursorError::UnexpectedEof));
    file.seek_to(1).unwrap();
    assert_eq!(file.read_exact(&mut buf, 2), Ok(()));
    assert_eq!(buf, b"bc".to_vec());
    assert_eq!(file.position(), 3);
}

#[test]
fn cursor_seek_end_reports_length() {
    let mut file = MemCursor::new(b"abcdef".to_vec());
    assert_eq!(file.seek_end(), Ok(6));
    assert_eq!(file.position(), 6);
}
