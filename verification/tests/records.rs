use lazycsv::csv::{decode_field, decode_text, find2, next_record, parse_record, sniff_delimiter};
use lazycsv::numeric::looks_numeric;
use lazycsv::path::{extension, file_name, join, parent};

#[test]
fn parse_and_decode() {
    let data = b"a,\"b,\"\"c\"\"\",d\r\nx";
    let mut f = Vec::new();
    let next = parse_record(data, 0, b',', &mut f);
    assert_eq!(f.len(), 3);
    let mut s = String::new();
    decode_field(&data[f[1].0..f[1].1], 100, false, &mut s);
    assert_eq!(s, "b,\"c\"");
    decode_field(&data[f[2].0..f[2].1], 100, false, &mut s);
    assert_eq!(s, "d");
    assert_eq!(&data[next..], b"x");
    assert_eq!(decode_field(b"abcdef", 3, false, &mut s), (3, true));
    assert_eq!(s, "abc");
}

#[test]
fn sniffing() {
    assert_eq!(sniff_delimiter(b"a;b;c\n1;2;3\n", b"x.csv"), b';');
    assert_eq!(sniff_delimiter(b"a\tb\n1\t2\n", b"x.txt"), b'\t');
    assert_eq!(sniff_delimiter(b"a,b\n1,2\n", b"x.csv"), b',');
}

#[test]
fn sniffing_by_extension() {
    assert_eq!(sniff_delimiter(b"a,b\n", b"dir/x.TSV"), b'\t');
    assert_eq!(sniff_delimiter(b"a,b\n", b"x.tab"), b'\t');
    assert_eq!(sniff_delimiter(b"a,b\n", b"/tmp/x.Psv"), b'|');
    assert_eq!(sniff_delimiter(b"a;b\n", b"/tmp/.tsv"), b';');
    assert_eq!(sniff_delimiter(b"a;b\n", b"x.tsv/.."), b';');
    assert_eq!(sniff_delimiter(b"", b"x"), b',');
    assert_eq!(sniff_delimiter(b"single\ncolumn\n", b"x"), b',');
}

#[test]
fn sniffing_prefers_consistency() {
    // Semicolons split every line alike, commas only the first.
    assert_eq!(sniff_delimiter(b"a,b;c\n1;2\n3;4\n", b"x"), b';');
    // As consistent, but more fields.
    assert_eq!(sniff_delimiter(b"a,b|c|d\n1,2|3|4\n", b"x"), b'|');
    // As good as each other: the comma comes first.
    assert_eq!(sniff_delimiter(b"a,b;c\n1,2;3\n", b"x"), b',');
    // A record that the sample cuts does not count.
    let mut long = b"a;b\n1;2\n".to_vec();
    long.extend_from_slice(&vec![b'x'; 0x1_0000]);
    assert_eq!(sniff_delimiter(&long, b"x"), b';');
}

#[test]
fn finding_bytes() {
    assert_eq!(find2(b"0123456789abcdefX\"", b'"', b'\n'), Some(17));
    assert_eq!(find2(b"0123456789abcdef\n\"", b'"', b'\n'), Some(16));
    assert_eq!(find2(b"", b'a', b'b'), None);
    assert_eq!(find2(b"xyz", b'a', b'b'), None);
}

#[test]
fn records_end_outside_quotes() {
    let data = b"a,\"x\ny\"\nb\n";
    assert_eq!(next_record(data, 0), 8);
    assert_eq!(next_record(data, 8), 10);
    assert_eq!(next_record(data, 10), 10);
    assert_eq!(next_record(b"no newline", 0), 10);
    assert_eq!(next_record(b"\"never closed\n", 0), 14);
}

#[test]
fn fields_tile_a_record() {
    let data = b"one,,\"t,w\",three\r\nnext";
    let mut f = Vec::new();
    let end = parse_record(data, 0, b',', &mut f);
    assert_eq!(f, vec![(0, 3), (4, 4), (5, 10), (11, 16)]);
    assert_eq!(end, 18);
    assert_eq!(next_record(data, 0), end);
    parse_record(data, end, b',', &mut f);
    assert_eq!(f, vec![(18, 22)]);
    assert_eq!(parse_record(b"", 0, b',', &mut f), 0);
    assert_eq!(f, vec![(0, 0)]);
    assert_eq!(parse_record(b"a,b\r", 0, b',', &mut f), 4);
    assert_eq!(f, vec![(0, 1), (2, 3)]);
}

fn decode(raw: &[u8], max_w: usize, multiline: bool) -> (String, usize, bool) {
    let mut s = "left over".to_string();
    let (w, cut) = decode_field(raw, max_w, multiline, &mut s);
    (s, w, cut)
}

#[test]
fn decoding_for_display() {
    assert_eq!(decode(b"", 5, false), ("".to_string(), 0, false));
    assert_eq!(decode(b"a\tb\x01\x7f", 9, false), ("a→b··".to_string(), 5, false));
    assert_eq!(decode(b"a\r\nb", 9, false), ("a↵b".to_string(), 3, false));
    assert_eq!(decode(b"a\r\nb", 9, true), ("a\nb".to_string(), 2, false));
    assert_eq!(decode(b"\"\"\"\"", 9, false), ("\"".to_string(), 1, false));
    assert_eq!(decode(b"\"a\"b", 9, false), ("ab".to_string(), 2, false));
    assert_eq!(decode(b"a\"\"b", 9, false), ("a\"\"b".to_string(), 4, false));
    assert_eq!(decode("日本語".as_bytes(), 5, false), ("日本".to_string(), 4, true));
    assert_eq!(decode("e\u{301}x".as_bytes(), 1, false), ("e\u{301}".to_string(), 1, true));
    assert_eq!(decode(b"abc", 0, false), ("".to_string(), 0, true));
}

#[test]
fn decoding_bytes_that_are_no_text() {
    assert_eq!(decode(b"a\xffb", 9, false), ("a\u{fffd}b".to_string(), 3, false));
    assert_eq!(decode(b"\xe6\x97", 9, false), ("\u{fffd}".to_string(), 1, false));
}

#[test]
fn decoding_looks_at_a_bounded_prefix() {
    let long = vec![b'x'; 1000];
    assert_eq!(decode(&long, 3, false), ("xxx".to_string(), 3, true));
    // Nothing but combining marks: no column is filled, yet the prefix ends.
    let marks = "\u{301}".repeat(100);
    let (s, w, cut) = decode(marks.as_bytes(), 2, false);
    assert_eq!((w, cut), (0, true));
    assert_eq!(s, "\u{301}".repeat(8));
}

#[test]
fn quoting_is_undone() {
    for text in ["plain", "with \"quotes\"", "comma, semicolon;", "日本, \"語\"", "\"", ""] {
        let raw = format!("\"{}\"", text.replace('"', "\"\""));
        let data = format!("{raw},rest\n");
        let mut f = Vec::new();
        parse_record(data.as_bytes(), 0, b',', &mut f);
        assert_eq!(f.len(), 2);
        let (s, _, cut) = decode(&data.as_bytes()[f[0].0..f[0].1], 100, false);
        assert_eq!((s.as_str(), cut), (text, false));
    }
}

#[test]
fn decoding_decoded_text() {
    let mut s = String::new();
    assert_eq!(decode_text("a\"\"b\"", true, 10, false, &mut s), (3, false));
    assert_eq!(s, "a\"b");
    assert_eq!(decode_text("a\"\"b\"", false, 10, false, &mut s), (5, false));
    assert_eq!(s, "a\"\"b\"");
}

#[test]
fn numbers_as_floating_point_reads_them() {
    let reads = |s: &str| {
        let s = s.trim();
        let Some(first) = s.bytes().next() else { return false };
        (first.is_ascii_digit() || matches!(first, b'-' | b'+' | b'.'))
            && (s.parse::<f64>().is_ok() || s.replace(',', ".").parse::<f64>().is_ok())
    };
    for s in [
        "", " ", "0", "12", "-3", "+4", "1.5", ".5", "5.", ".", "-", "+", "--1", "1,5", "1,234,5",
        "1e5", "1E5", "1e+5", "1e-5", "1e", "1e+", "e5", "1.5e10", "1.e5", ".e5", ".5e5", "1 2",
        " 12 ", "\u{a0}7\u{2003}", "12x", "x12", "inf", "+inf", "-INF", "+infinity", "-Infinity",
        "+nan", "-NaN", "+in", "+infinit", "nan", "1_000", "0x10", "٣", "1e5e5", "1.2.3", "-.5",
        "-,5", ",5", "+-5", "1e5.5", "00012", "\u{7f}1", "1\u{85}",
    ] {
        assert_eq!(looks_numeric(s), reads(s), "{s:?}");
    }
    assert!(looks_numeric("-1,5"));
    assert!(!looks_numeric("inf"));
    assert!(looks_numeric("+inf"));
}

#[test]
fn taking_paths_apart() {
    let name = |p: &[u8]| file_name(p).map(|n| String::from_utf8(n).unwrap());
    assert_eq!(name(b"/a/b.csv").as_deref(), Some("b.csv"));
    assert_eq!(name(b"b.csv").as_deref(), Some("b.csv"));
    assert_eq!(name(b"/a/b/").as_deref(), Some("b"));
    assert_eq!(name(b"/a/b/./").as_deref(), Some("b"));
    assert_eq!(name(b"/"), None);
    assert_eq!(name(b""), None);
    assert_eq!(name(b"."), None);
    assert_eq!(name(b"a/.."), None);
    let up = |p: &[u8]| parent(p).map(|n| String::from_utf8(n).unwrap());
    assert_eq!(up(b"/a/b").as_deref(), Some("/a"));
    assert_eq!(up(b"/a").as_deref(), Some("/"));
    assert_eq!(up(b"a").as_deref(), Some(""));
    assert_eq!(up(b"/"), None);
    assert_eq!(up(b""), None);
    for p in ["/a/b.csv", "a", "/", "", ".", "a/..", "/a/b/", "a/./b", "./a", "..", "a//b", ".x"] {
        let path = std::path::Path::new(p);
        assert_eq!(name(p.as_bytes()).as_deref(), path.file_name().map(|n| n.to_str().unwrap()));
        assert_eq!(up(p.as_bytes()).as_deref(), path.parent().map(|n| n.to_str().unwrap()), "{p}");
        let ext = file_name(p.as_bytes()).and_then(|n| extension(&n));
        assert_eq!(ext.as_deref(), path.extension().map(|n| n.to_str().unwrap().as_bytes()));
    }
    assert_eq!(join(b"/", b"x"), b"/x");
    assert_eq!(join(b"/a", b"x"), b"/a/x");
    assert_eq!(join(b"", b"x"), b"x");
    assert_eq!(parent(&join(b"/a/b", b"c")), Some(b"/a/b".to_vec()));
}
