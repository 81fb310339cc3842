use lines_lossy::lossy::decode_line;
use lines_lossy::{ByteCursor, ByteSource, LinesLossyExt};

fn test_case(input: &[u8], output: &[&str]) {
    let mut rdr = ByteCursor::new(input.to_vec()).lines_lossy();
    let lines1 = rdr.collect_lines().unwrap();
    let lines2 = output
        .iter()
        .map(|s| s.to_string())
        .collect::<Vec<String>>();
    assert_eq!(lines1, lines2);
}

fn lines_by_next(input: &[u8]) -> Vec<String> {
    let mut rdr = ByteCursor::new(input.to_vec()).lines_lossy();
    let mut out = Vec::new();
    while let Some(r) = rdr.next() {
        out.push(r.unwrap());
    }
    out
}

#[test]
fn copied_from_std_io() {
    test_case(b"12\r", &["12\r"]);
    test_case(b"12\r\n\n", &["12", ""]);
}

#[test]
fn basic() {
    test_case(b"", &[]);
    test_case(b"hello\nworld", &["hello", "world"]);
    test_case(b"hello\r\nworld", &["hello", "world"]);
    test_case(b"hello\nworld\n", &["hello", "world"]);
    test_case(b"hello\r\nworld\r\n", &["hello", "world"]);
}

#[test]
fn lossy() {
    test_case(b"what\xaas\nup", &["what\u{fffd}s", "up"]);
    test_case(
        b"\xaa\xbb\xcc\r\n\xee \xff",
        &["\u{fffd}\u{fffd}\u{fffd}", "\u{fffd} \u{fffd}"],
    );
}

#[test]
fn single_line_without_delimiter() {
    test_case(b"h\xc3\xa9llo w\xe2\x82\xacrld", &["h\u{e9}llo w\u{20ac}rld"]);
    test_case(b"\xf0\x9f\x98\x80", &["\u{1f600}"]);
}

#[test]
fn segments_joined_by_line_feeds() {
    test_case(b"a\r\nb\nc\r\n", &["a", "b", "c"]);
    test_case(b"a\n\nb", &["a", "", "b"]);
    test_case(b"\n", &[""]);
    test_case(b"\r\n\r\n", &["", ""]);
    test_case(b"a\rb\r\nc", &["a\rb", "c"]);
}

#[test]
fn lone_carriage_returns_are_kept() {
    test_case(b"\r", &["\r"]);
    test_case(b"x\r\r\ny", &["x\r", "y"]);
    test_case(b"\rx\ny\r", &["\rx", "y\r"]);
}

#[test]
fn next_yields_lines_in_order() {
    assert_eq!(lines_by_next(b"12\r\n\n"), vec!["12".to_string(), String::new()]);
    assert_eq!(
        lines_by_next(b"what\xaas\nup"),
        vec!["what\u{fffd}s".to_string(), "up".to_string()]
    );
}

#[test]
fn exhaustion_is_final() {
    let mut rdr = ByteCursor::new(b"one\ntwo".to_vec()).lines_lossy();
    assert_eq!(rdr.next().unwrap().unwrap(), "one");
    assert_eq!(rdr.next().unwrap().unwrap(), "two");
    for _ in 0..5 {
        assert!(rdr.next().is_none());
    }
    let mut empty = ByteCursor::new(Vec::new()).lines_lossy();
    assert!(empty.next().is_none());
    assert!(empty.next().is_none());
    assert_eq!(empty.collect_lines().unwrap(), Vec::<String>::new());
}

#[test]
fn round_trip_of_valid_text() {
    let text = "first\nsecond \u{263a}\n\nlast\n";
    let mut rdr = ByteCursor::new(text.as_bytes().to_vec()).lines_lossy();
    let lines = rdr.collect_lines().unwrap();
    let mut rebuilt = String::new();
    for l in &lines {
        rebuilt.push_str(l);
        rebuilt.push('\n');
    }
    assert_eq!(rebuilt, text);
    let crlf = "first\r\nsecond\r\n";
    let lines = ByteCursor::new(crlf.as_bytes().to_vec()).lines_lossy().collect_lines().unwrap();
    assert_eq!(lines.join("\n") + "\n", "first\nsecond\n");
}

#[test]
fn decode_line_replaces_malformed_bytes() {
    assert_eq!(decode_line(b"\xaa"), "\u{fffd}");
    assert_eq!(decode_line(b"a\xe2\x82b"), "a\u{fffd}b");
    assert_eq!(decode_line(b"\xf0\x9f\x98\x80"), "\u{1f600}");
    assert_eq!(decode_line(b""), "");
}

#[test]
fn cursor_reads_up_to_delimiter() {
    let mut c = ByteCursor::new(b"ab;cd".to_vec());
    let mut buf = vec![7u8];
    assert_eq!(c.read_until(b';', &mut buf).unwrap(), 3);
    assert_eq!(buf, vec![7u8, b'a', b'b', b';']);
    assert_eq!(c.read_until(b';', &mut buf).unwrap(), 2);
    assert_eq!(buf, vec![7u8, b'a', b'b', b';', b'c', b'd']);
    assert_eq!(c.read_until(b';', &mut buf).unwrap(), 0);
}
