use rhtail::{follow_step, print_file, tail, ByteSink, CursorError, MemCursor};

fn tail_of(data: &[u8], lines: u64) -> Vec<u8> {
    let mut file = MemCursor::new(data.to_vec());
    let mut out: Vec<u8> = Vec::new();
    tail(&mut file, &mut out, lines).unwrap();
    assert_eq!(file.position() as usize, data.len());
    out
}

#[test]
fn tail_skips_trailing_newline() {
    assert_eq!(tail_of(b"1\n2\n3\n4\n5\n", 2), b"4\n5\n".to_vec());
}

#[test]
fn tail_without_trailing_newline() {
    assert_eq!(tail_of(b"1\n2\n3", 2), b"2\n3".to_vec());
    assert_eq!(tail_of(b"1\n2\n3", 1), b"3".to_vec());
}

#[test]
fn tail_with_more_lines_than_source() {
    assert_eq!(tail_of(b"a\nb\n", 10), b"a\nb\n".to_vec());
    assert_eq!(tail_of(b"single", 1), b"single".to_vec());
}

#[test]
fn tail_of_zero_lines_is_empty() {
    assert_eq!(tail_of(b"a\nb\n", 0), Vec::<u8>::new());
}

#[test]
fn tail_of_empty_source_is_empty() {
    assert_eq!(tail_of(b"", 1), Vec::<u8>::new());
    assert_eq!(tail_of(b"", 10), Vec::<u8>::new());
}

#[test]
fn tail_keeps_empty_lines() {
    assert_eq!(tail_of(b"a\n\n\nb\n", 3), b"\n\nb\n".to_vec());
}

#[test]
fn tail_appends_to_output() {
    let mut file = MemCursor::new(b"x\ny\n".to_vec());
    let mut out: Vec<u8> = b"head:".to_vec();
    tail(&mut file, &mut out, 1).unwrap();
    assert_eq!(out, b"head:y\n".to_vec());
}

#[test]
fn tail_twice_gives_the_same_output() {
    let data = b"one\ntwo\nthree\nfour\n".to_vec();
    let mut file = MemCursor::new(data);
    let mut first: Vec<u8> = Vec::new();
    let mut second: Vec<u8> = Vec::new();
    tail(&mut file, &mut first, 2).unwrap();
    tail(&mut file, &mut second, 2).unwrap();
    assert_eq!(first, b"three\nfour\n".to_vec());
    assert_eq!(first, second);
}

#[test]
fn tail_of_many_lines_spanning_windows() {
    let mut data = Vec::new();
    for i in 0..1000u32 {
        data.extend_from_slice(format!("line {}\n", i).as_bytes());
    }
    let out = tail_of(&data, 3);
    assert_eq!(out, b"line 997\nline 998\nline 999\n".to_vec());
    let out = tail_of(&data, 1000);
    assert_eq!(out, data);
}

#[test]
fn print_file_copies_a_range_across_windows() {
    let data: Vec<u8> = (0..3000u32).map(|i| (i * 7 % 256) as u8).collect();
    let mut file = MemCursor::new(data.clone());
    let mut out: Vec<u8> = Vec::new();
    print_file(&mut file, &mut out, 100, 2900).unwrap();
    assert_eq!(out, data[100..2900].to_vec());
    assert_eq!(file.position(), 2900);
}

#[test]
fn print_file_of_empty_range_writes_nothing() {
    let mut file = MemCursor::new(b"abc".to_vec());
    let mut out: Vec<u8> = Vec::new();
    print_file(&mut file, &mut out, 2, 2).unwrap();
    assert!(out.is_empty());
    assert_eq!(file.position(), 2);
}

#[test]
fn follow_forwards_only_appended_bytes() {
    let mut file = MemCursor::new(b"old 1\nold 2\n".to_vec());
    let mut out: Vec<u8> = Vec::new();
    tail(&mut file, &mut out, 1).unwrap();
    assert_eq!(out, b"old 2\n".to_vec());

    let mut buffer = Vec::new();
    assert_eq!(follow_step(&mut file, &mut out, &mut buffer).unwrap(), 0);
    assert_eq!(out, b"old 2\n".to_vec());

    file.append(&b"new 3\n".to_vec());
    assert_eq!(follow_step(&mut file, &mut out, &mut buffer).unwrap(), 6);
    assert_eq!(out, b"old 2\nnew 3\n".to_vec());

    let big = vec![b'z'; 1500];
    file.append(&big);
    assert_eq!(follow_step(&mut file, &mut out, &mut buffer).unwrap(), 1024);
    assert_eq!(follow_step(&mut file, &mut out, &mut buffer).unwrap(), 476);
    assert_eq!(follow_step(&mut file, &mut out, &mut buffer).unwrap(), 0);
    let mut expected = b"old 2\nnew 3\n".to_vec();
    expected.extend_from_slice(&big);
    assert_eq!(out, expected);
}

#[test]
fn vec_sink_appends() {
    let mut out: Vec<u8> = b"ab".to_vec();
    let r: Result<(), CursorError> = out.write_all(&b"cd".to_vec());
    assert!(r.is_ok());
    assert_eq!(out, b"abcd".to_vec());
}
