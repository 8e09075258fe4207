use password_crack::PasswordReader;
use password_crack::password_reader_count;

#[test]
fn read_dic_test() {
    let data = b"apple\nhello\nworld\n".to_vec();
    assert_eq!(password_reader_count(&data), 3);
    let mut reader = PasswordReader::new(data);
    assert_eq!(reader.next().as_deref(), Some("apple"));
    assert_eq!(reader.next().as_deref(), Some("hello"));
    assert_eq!(reader.next().as_deref(), Some("world"));
    assert!(reader.next().is_none());
}

#[test]
fn count_edge_cases() {
    assert_eq!(password_reader_count(&Vec::new()), 0);
    assert_eq!(password_reader_count(&b"a".to_vec()), 1);
    assert_eq!(password_reader_count(&b"a\n".to_vec()), 1);
    assert_eq!(password_reader_count(&b"\n\n".to_vec()), 2);
    assert_eq!(password_reader_count(&b"a\nb".to_vec()), 2);
}

#[test]
fn crlf_is_stripped_only_before_a_separator() {
    let mut reader = PasswordReader::new(b"one\r\ntwo\r".to_vec());
    assert_eq!(reader.next().as_deref(), Some("one"));
    assert_eq!(reader.next().as_deref(), Some("two\r"));
    assert!(reader.next().is_none());
}

#[test]
fn empty_lines_are_still_candidates() {
    let mut reader = PasswordReader::new(b"\nx\n\n".to_vec());
    assert_eq!(reader.next().as_deref(), Some(""));
    assert_eq!(reader.next().as_deref(), Some("x"));
    assert_eq!(reader.next().as_deref(), Some(""));
    assert!(reader.next().is_none());
}

#[test]
fn dictionary_round_trip() {
    // writing lines with LF separators, then counting and reading, gives
    // back exactly what was written
    let lines = ["alpha", "beta", "gamma", "delta"];
    let mut data = Vec::new();
    for line in &lines {
        data.extend_from_slice(line.as_bytes());
        data.push(b'\n');
    }
    assert_eq!(password_reader_count(&data) as usize, lines.len());
    let mut reader = PasswordReader::new(data);
    for line in &lines {
        assert_eq!(reader.next().as_deref(), Some(*line));
    }
    assert!(reader.next().is_none());
}

#[test]
fn non_ascii_lines_decode() {
    let mut data = Vec::new();
    data.extend_from_slice("caf\u{e9}".as_bytes());
    data.push(b'\n');
    let mut reader = PasswordReader::new(data);
    assert_eq!(reader.next().as_deref(), Some("caf\u{e9}"));
}
