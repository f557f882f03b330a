use lazycsv::base64::base64;
use lazycsv::util::{
    add_signed, contains, delim_name, fmt_len, fmt_num, home_relative, human_size, pad_left,
    percent, tail_fit,
};
use lazycsv::wrap::wrap;

#[test]
fn utils() {
    assert_eq!(base64(b"hello"), "aGVsbG8=");
    assert_eq!(base64(b"hi!"), "aGkh");
    assert_eq!(fmt_num(1234567), "1,234,567");
    assert_eq!(fmt_num(12), "12");
    assert_eq!(human_size(1536), "1.5K");
    assert_eq!(wrap("aa bb cc", 4, 100), vec!["aa ", "bb ", "cc"]);
    assert_eq!(tail_fit("/very/long/path", 8), "…ng/path");
}

#[test]
fn groups_of_three() {
    assert_eq!(fmt_num(0), "0");
    assert_eq!(fmt_num(999), "999");
    assert_eq!(fmt_num(1000), "1,000");
    assert_eq!(fmt_num(100000), "100,000");
    assert_eq!(fmt_len(100000), 7);
    assert_eq!(fmt_num(usize::MAX), "18,446,744,073,709,551,615");
}

fn size_in_floating_point(n: u64) -> String {
    const UNITS: [&str; 5] = ["B", "K", "M", "G", "T"];
    let mut v = n as f64;
    let mut u = 0;
    while v >= 1024.0 && u < UNITS.len() - 1 {
        v /= 1024.0;
        u += 1;
    }
    if u == 0 {
        format!("{n}B")
    } else if v < 10.0 {
        format!("{v:.1}{}", UNITS[u])
    } else {
        format!("{v:.0}{}", UNITS[u])
    }
}

#[test]
fn sizes_as_floating_point_gives_them() {
    assert_eq!(human_size(0), "0B");
    assert_eq!(human_size(1023), "1023B");
    assert_eq!(human_size(1024), "1.0K");
    assert_eq!(human_size(10 * 1024 - 1), "10.0K");
    assert_eq!(human_size(1 << 40), "1.0T");
    for n in 0..20_000u64 {
        assert_eq!(human_size(n), size_in_floating_point(n), "{n}");
    }
    let mut n: u64 = 1;
    for i in 0..4000u64 {
        n = n.wrapping_mul(6364136223846793005).wrapping_add(1442695040888963407);
        let v = n >> (i % 64);
        assert_eq!(human_size(v), size_in_floating_point(v), "{v}");
    }
    for k in 0..64 {
        let p = 1u64 << k;
        for d in 0..3 {
            for v in [p.wrapping_sub(d), p.wrapping_add(d), p.wrapping_mul(3) / 2 + d] {
                assert_eq!(human_size(v), size_in_floating_point(v), "{v}");
            }
        }
    }
}

#[test]
fn percent_as_floating_point_gives_it() {
    assert_eq!(percent(0, 0), 0);
    assert_eq!(percent(1, 2), 50);
    assert_eq!(percent(1, 200), 0);
    assert_eq!(percent(3, 200), 2);
    assert_eq!(percent(199, 200), 100);
    let check = |a: usize, b: usize| {
        let pct = a as f64 * 100.0 / b.max(1) as f64;
        assert_eq!(percent(a, b).to_string(), format!("{pct:.0}"), "{a} of {b}");
    };
    for b in 0..300 {
        for a in 0..=b {
            check(a, b);
        }
    }
    let mut n: u64 = 7;
    for i in 0..4000u64 {
        n = n.wrapping_mul(6364136223846793005).wrapping_add(1442695040888963407);
        let b = (n >> (i % 60)) as usize;
        n = n.wrapping_mul(6364136223846793005).wrapping_add(1442695040888963407);
        let a = if b == 0 { 0 } else { n as usize % (b + (b < usize::MAX) as usize).max(1) };
        check(a.min(b), b);
    }
    for k in 1..64 {
        let b = 1usize << k;
        check(b / 2 - 1, b);
        check(b / 2, b);
        check(b / 200, b);
        check(b - 1, b);
        check(b, b);
    }
}

#[test]
fn names_of_delimiters() {
    assert_eq!(delim_name(b','), "comma");
    assert_eq!(delim_name(b';'), "semicolon");
    assert_eq!(delim_name(b'\t'), "tab");
    assert_eq!(delim_name(b'|'), "pipe");
    assert_eq!(delim_name(b'x'), "?");
}

#[test]
fn fitting_the_tail() {
    assert_eq!(tail_fit("short", 5), "short");
    assert_eq!(tail_fit("long text", 1), "long text");
    assert_eq!(tail_fit("日本語", 4), "…語");
    assert_eq!(tail_fit("", 0), "");
}

#[test]
fn home_is_shown_as_a_tilde() {
    let home = Some("/home/me".to_string());
    assert_eq!(home_relative("/home/me/data", &home), "~/data");
    assert_eq!(home_relative("/home/me", &home), "~");
    assert_eq!(home_relative("/srv", &home), "/srv");
    assert_eq!(home_relative("/srv", &None), "/srv");
    assert_eq!(home_relative("/srv", &Some(String::new())), "/srv");
}

#[test]
fn wrapping_text() {
    assert_eq!(wrap("", 10, 100), vec![""]);
    assert_eq!(wrap("a\n\nb", 10, 100), vec!["a", "", "b"]);
    assert_eq!(wrap("a\n", 10, 100), vec!["a", ""]);
    assert_eq!(wrap("abcdefgh", 3, 100), vec!["abc", "def", "gh"]);
    assert_eq!(wrap("xx abcdefgh", 4, 100), vec!["xx ", "abcd", "efgh"]);
    assert_eq!(wrap("日本語", 4, 100), vec!["日本", "語"]);
    assert_eq!(wrap("1\n2\n3\n4", 4, 2), vec!["1", "2", "…"]);
    let text = "The quick brown fox jumps over the lazy dog";
    let lines = wrap(text, 10, 100);
    assert!(lines.iter().all(|l| l.len() <= 10));
    assert_eq!(lines.concat(), text);
}

#[test]
fn finding_text_in_cells() {
    assert!(contains("Hello", "hell", true));
    assert!(!contains("Hello", "hell", false));
    assert!(contains("Hello", "Hell", false));
    assert!(!contains("He", "Hello", true));
}

#[test]
fn moving_stops_at_the_ends() {
    assert_eq!(add_signed(3, -5), 0);
    assert_eq!(add_signed(3, -3), 0);
    assert_eq!(add_signed(3, 4), 7);
    assert_eq!(add_signed(usize::MAX, 1), usize::MAX);
    assert_eq!(add_signed(5, isize::MIN), 0);
    assert_eq!(add_signed(5, isize::MAX), 5 + isize::MAX as usize);
}

#[test]
fn padding() {
    assert_eq!(pad_left("7", 3), "  7");
    assert_eq!(pad_left("1234", 3), "1234");
}

#[test]
fn base64_lengths() {
    assert_eq!(base64(b""), "");
    assert_eq!(base64(b"f"), "Zg==");
    assert_eq!(base64(b"fo"), "Zm8=");
    assert_eq!(base64(b"foo"), "Zm9v");
    assert_eq!(base64(b"foobar"), "Zm9vYmFy");
    assert_eq!(base64(&[0xff, 0xef, 0xbe]), "/+++");
}
