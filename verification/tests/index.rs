use lazycsv::csv::next_record;
use lazycsv::index::{Index, Indexer, FIRST_PUBLISH, STREAM_BUF};
use lazycsv::search::{search, search_until, Searcher, CHUNK};
use lazycsv::source::Mmap;
use std::sync::atomic::AtomicBool;

fn index(data: &[u8]) -> Index {
    let mut i = Index::new();
    i.build(&Mmap::from_vec(data.to_vec()));
    i
}

fn naive_records(data: &[u8]) -> Vec<usize> {
    let mut starts = Vec::new();
    let mut pos = 0;
    while pos < data.len() {
        starts.push(pos);
        pos = next_record(data, pos);
    }
    starts
}

#[test]
fn index_matches_naive_scan() {
    let mut data = Vec::new();
    for i in 0..5000 {
        match i % 4 {
            0 => data.extend_from_slice(format!("{i},plain,row\n").as_bytes()),
            1 => data.extend_from_slice(format!("{i},\"multi\nline\",x\r\n").as_bytes()),
            2 => data.extend_from_slice(format!("{i},\"esc \"\"q\"\"\",y\n").as_bytes()),
            _ => data.extend_from_slice(format!("{i},{}\n", "z".repeat(i % 200)).as_bytes()),
        }
    }
    data.extend_from_slice(b"last,no,newline");
    let idx = index(&data);
    let starts = naive_records(&data);
    assert_eq!(idx.rows(), starts.len());
    for (r, &s) in starts.iter().enumerate() {
        assert_eq!(idx.record_start(&data, r), Some(s), "row {r}");
        assert_eq!(idx.record_of_offset(&data, s), r);
    }
}

#[test]
fn edge_cases() {
    assert_eq!(index(b"").rows(), 0);
    assert_eq!(index(b"a").rows(), 1);
    assert_eq!(index(b"a\n").rows(), 1);
    assert_eq!(index(b"a\n\nb").rows(), 3);
    assert_eq!(index(b"\"a\nb\"\nc\n").rows(), 2);
}

fn large_file() -> Vec<u8> {
    let mut data = Vec::new();
    let mut i = 0;
    while data.len() < 3 << 20 {
        data.extend_from_slice(format!("{i},\"two\nlines\",{}\n", "w".repeat(i % 61)).as_bytes());
        i += 1;
    }
    data
}

#[test]
fn index_is_right_while_it_is_built() {
    let data = large_file();
    let starts = naive_records(&data);
    let mut idx = Index::new();
    let mut pass = Indexer::new(data.len());
    let mut published = 0;
    for chunk in data.chunks(STREAM_BUF) {
        if pass.feed(chunk) {
            idx.publish(pass.take());
            published += 1;
            assert!(!idx.done());
            let rows = idx.rows();
            assert!(rows > 0 && idx.scanned() <= data.len());
            for r in [0, 1, 127, 128, 129, rows / 2, rows - 1] {
                assert_eq!(idx.record_start(&data, r), Some(starts[r]));
            }
            assert_eq!(idx.record_start(&data, rows), None);
        }
    }
    assert_eq!(published, 1);
    idx.publish(pass.finish());
    assert!(idx.done());
    assert_eq!(idx.scanned(), data.len());
    assert_eq!(idx.rows(), starts.len());
}

#[test]
fn cancelled_index_stops_early() {
    let data = large_file();
    let mut idx = Index::new();
    idx.cancel();
    idx.build(&Mmap::from_vec(data.clone()));
    assert!(!idx.done());
    assert_eq!(idx.scanned(), FIRST_PUBLISH);
    let small = b"a\nb\n";
    let mut idx = Index::new();
    idx.cancel();
    idx.build(&Mmap::from_vec(small.to_vec()));
    assert!(idx.done());
    assert_eq!(idx.rows(), 2);
}

#[test]
fn offsets_inside_records() {
    let data = b"first\n\"se\ncond\"\nthird";
    let idx = index(data);
    for (off, row) in [(0, 0), (5, 0), (6, 1), (9, 1), (15, 1), (16, 2), (20, 2)] {
        assert_eq!(idx.record_of_offset(data, off), row, "{off}");
    }
    assert_eq!(idx.record_start(data, 3), None);
}

#[test]
fn reading_a_file() {
    let m = Mmap::from_vec(b"0123456789".to_vec());
    let mut buf = [b'.'; 4];
    assert_eq!(m.read_at(&mut buf, 8), 2);
    assert_eq!(&buf, b"89..");
    assert_eq!(m.read_at(&mut buf, 3), 4);
    assert_eq!(&buf, b"3456");
    assert_eq!(m.read_at(&mut buf, 10), 0);
    assert_eq!(m.len(), 10);
    let m = Mmap::from_mapping(b"abc");
    assert_eq!(m.bytes(), b"abc");
}

#[test]
fn searching() {
    let c = AtomicBool::new(false);
    let data = &Mmap::from_vec(b"hello world, Hello again".to_vec());
    assert_eq!(search(data, "hello", 1, true, &c), Some((13, false)));
    assert_eq!(search(data, "Hello", 14, true, &c), Some((13, true)));
    assert_eq!(search(data, "hello", 13, false, &c), Some((0, false)));
    assert_eq!(search(data, "nope", 0, true, &c), None);
}

#[test]
fn searching_at_the_edges() {
    let c = AtomicBool::new(false);
    let data = &Mmap::from_vec(b"abcabc".to_vec());
    assert_eq!(search(data, "", 0, true, &c), None);
    assert_eq!(search(data, "abcabca", 0, true, &c), None);
    assert_eq!(search(data, "abcabc", 0, true, &c), Some((0, false)));
    assert_eq!(search(data, "c", 6, true, &c), Some((2, true)));
    assert_eq!(search(data, "c", 99, true, &c), Some((2, true)));
    assert_eq!(search(data, "a", 0, false, &c), Some((3, true)));
    assert_eq!(search(data, "a", 1, false, &c), Some((0, false)));
    // A match that straddles the start counts as one before it.
    assert_eq!(search(data, "abc", 4, false, &c), Some((3, false)));
    assert_eq!(search(data, "bca", 2, true, &c), Some((1, true)));
    assert_eq!(search(data, "B", 0, true, &c), None);
}

#[test]
fn searching_across_windows() {
    let c = AtomicBool::new(false);
    let mut data = vec![b'.'; 3 * CHUNK + 17];
    for p in [CHUNK - 2, 2 * CHUNK - 1, 3 * CHUNK + 12] {
        data[p..p + 5].copy_from_slice(b"match");
    }
    let m = Mmap::from_vec(data);
    let mut found = Vec::new();
    let mut from = 0;
    while let Some((p, false)) = search(&m, "match", from, true, &c) {
        found.push(p);
        from = p + 1;
    }
    assert_eq!(found, vec![CHUNK - 2, 2 * CHUNK - 1, 3 * CHUNK + 12]);
    let mut back = Vec::new();
    let mut from = m.len();
    while let Some((p, false)) = search(&m, "match", from, false, &c) {
        back.push(p);
        from = p;
    }
    back.reverse();
    assert_eq!(back, found);
}

#[test]
fn searching_can_be_cancelled() {
    let data = Mmap::from_vec(b"hello".to_vec());
    let c = AtomicBool::new(true);
    assert_eq!(search(&data, "hello", 0, true, &c), None);
    assert_eq!(search_until(&data, "hello", 0, true, Some(&c)), (None, true));
    assert_eq!(search_until(&data, "hello", 0, true, None), (Some((0, false)), false));
    assert_eq!(search_until(&data, "xyz", 0, true, None), (None, false));
}

#[test]
fn searching_step_by_step() {
    let data = b"one two three two";
    let mut s = Searcher::new("two", data.len(), 5, true).unwrap();
    assert_eq!(s.window(), Some((5, 17)));
    assert_eq!(s.check(&data[5..17]), Some((14, false)));
    let mut s = Searcher::new("one", data.len(), 5, true).unwrap();
    assert_eq!(s.check(&data[5..17]), None);
    assert_eq!(s.window(), Some((0, 7)));
    assert_eq!(s.check(&data[0..7]), Some((0, true)));
    let mut s = Searcher::new("none", data.len(), 5, true).unwrap();
    assert_eq!(s.check(&data[5..17]), None);
    assert_eq!(s.check(&data[0..8]), None);
    assert_eq!(s.window(), None);
    assert!(Searcher::new("", 5, 0, true).is_none());
    assert!(Searcher::new("long", 3, 0, true).is_none());
}
