use lazycsv::doc::{col_name, Doc, MAX_COL_W};
use lazycsv::index::Indexer;
use lazycsv::source::Mmap;
use std::sync::Arc;

#[test]
fn col_names() {
    assert_eq!(col_name(0), "A");
    assert_eq!(col_name(25), "Z");
    assert_eq!(col_name(26), "AA");
    assert_eq!(col_name(701), "ZZ");
    assert_eq!(col_name(702), "AAA");
}

#[test]
fn column_names_differ() {
    let names: std::collections::HashSet<String> = (0..20_000).map(col_name).collect();
    assert_eq!(names.len(), 20_000);
}

fn open(name: &str, data: &[u8]) -> Doc {
    let mut d = Doc::open(name.as_bytes().to_vec(), Arc::new(Mmap::from_vec(data.to_vec())));
    let mut pass = Indexer::new(data.len());
    pass.feed(data);
    d.publish(pass.finish());
    d
}

#[test]
fn opening_a_file() {
    let data = b"name,age,\nAnn,41,x\nBartholomew,7,\n\"C\",,y\n";
    let d = open("/tmp/people.csv", data);
    assert_eq!(d.name, "people.csv");
    assert_eq!(d.delim, b',');
    assert_eq!(d.headers, vec!["name", "age", "C"]);
    assert_eq!(d.widths, vec![11, 3, 3]);
    assert_eq!(d.numeric, vec![false, true, false]);
    assert_eq!((d.rows(), d.ncols(), d.size()), (3, 3, data.len()));
    assert_eq!(d.data(), data);
    assert_eq!(d.map().len(), data.len());
    assert!(d.has_header);
    assert_eq!(Doc::open(b"/".to_vec(), Arc::new(Mmap::from_vec(vec![]))).name, "");
}

#[test]
fn files_without_rows() {
    let d = open("x", b"");
    assert_eq!((d.rows(), d.ncols()), (0, 1));
    assert_eq!(d.headers, vec!["A"]);
    assert_eq!(d.widths, vec![3]);
    let d = open("x", b"only,header\n");
    assert_eq!((d.rows(), d.ncols()), (0, 2));
    assert_eq!(d.record_start(0), None);
}

#[test]
fn widths_have_limits() {
    let long = "w".repeat(300);
    let d = open("x", format!("a,b\n{long},1\n").as_bytes());
    assert_eq!(d.widths, vec![MAX_COL_W, 3]);
    let d = open("x", format!("{long}\n1\n").as_bytes());
    assert_eq!(d.headers[0].len(), 200);
    assert_eq!(d.widths, vec![MAX_COL_W]);
}

#[test]
fn numeric_columns() {
    let mut data = "n,m\n".to_string();
    for i in 0..9 {
        data += &format!("{i},{i}\n");
    }
    data += "x,\n";
    let d = open("x", data.as_bytes());
    assert_eq!(d.numeric, vec![true, true]);
    let d = open("x", (data + "y,z\n").as_bytes());
    assert_eq!(d.numeric, vec![false, true]);
}

#[test]
fn only_a_sample_is_analyzed() {
    let mut data = "a\n".to_string();
    data += &"1\n".repeat(999);
    data += "wider,row\n";
    let mut d = open("x", data.as_bytes());
    assert_eq!(d.ncols(), 1);
    d.ensure_cols(3);
    assert_eq!(d.headers, vec!["a", "B", "C"]);
    assert_eq!(d.widths, vec![3, 8, 8]);
    d.ensure_cols(2);
    assert_eq!(d.ncols(), 3);
}

#[test]
fn reading_rows() {
    let d = open("x", b"h,i\n1,\"2\n3\"\n4,5\n");
    let mut f = Vec::new();
    assert!(d.read_row(0, &mut f));
    assert_eq!(f, vec![(4, 5), (6, 11)]);
    assert!(!d.read_row(2, &mut f));
    assert_eq!(d.record_start(1), Some(12));
    assert_eq!(d.record_start(usize::MAX), None);
}

#[test]
fn locating_bytes() {
    let d = open("x", b"h,i\n10,20\n30,40\n");
    let mut f = Vec::new();
    assert_eq!(d.locate(4, &mut f), (0, 0));
    assert_eq!(d.locate(5, &mut f), (0, 0));
    assert_eq!(d.locate(6, &mut f), (0, 1));
    assert_eq!(d.locate(8, &mut f), (0, 1));
    assert_eq!(d.locate(9, &mut f), (0, 1));
    assert_eq!(d.locate(13, &mut f), (1, 1));
    assert_eq!(f, vec![(10, 12), (13, 15)]);
    assert_eq!(d.locate(0, &mut f), (0, 0));
    assert_eq!(f, vec![(0, 1), (2, 3)]);
    for row in 0..2 {
        let mut fields = Vec::new();
        d.read_row(row, &mut fields);
        for (c, &(a, b)) in fields.iter().enumerate() {
            for off in a..b {
                assert_eq!(d.locate(off, &mut f), (row, c));
            }
        }
    }
}

#[test]
fn locating_while_indexing() {
    let data = b"h\nrow\nlast";
    let mut d = Doc::open(b"x".to_vec(), Arc::new(Mmap::from_vec(data.to_vec())));
    let mut f = Vec::new();
    assert_eq!((d.rows(), d.index.done()), (0, false));
    assert!(!d.index.cancel);
    assert_eq!(d.locate(3, &mut f), (0, 0));
    let mut pass = Indexer::new(data.len());
    pass.feed(data);
    d.publish(pass.take());
    assert_eq!((d.rows(), d.index.scanned()), (1, 10));
    d.index.cancel();
    d.publish(pass.finish());
    assert_eq!(d.rows(), 2);
    assert!(d.index.cancel);
    assert_eq!(d.locate(8, &mut f), (1, 0));
}

#[test]
fn toggling_the_header() {
    let mut d = open("x", b"h,i\n1,2\n3,4\n");
    d.row = 1;
    let at = d.record_start(d.row);
    d.toggle_header();
    assert_eq!((d.row, d.rows()), (2, 3));
    assert_eq!(d.record_start(d.row), at);
    assert_eq!(d.headers, vec!["A", "B"]);
    d.toggle_header();
    assert_eq!((d.row, d.rows()), (1, 2));
    assert_eq!(d.headers, vec!["h", "i"]);
    d.row = 0;
    d.toggle_header();
    d.row = 0;
    d.toggle_header();
    assert_eq!(d.row, 0);
}

#[test]
fn cycling_the_delimiter() {
    let mut d = open("x", b"a,b;c\n1,2;3\n");
    d.col = 1;
    assert_eq!(d.delim, b',');
    let mut seen = Vec::new();
    for _ in 0..4 {
        d.cycle_delimiter();
        seen.push((d.delim, d.ncols(), d.col));
    }
    assert_eq!(seen, vec![(b';', 2, 0), (b'\t', 1, 0), (b'|', 1, 0), (b',', 2, 0)]);
    d.delim = b'x';
    d.cycle_delimiter();
    assert_eq!(d.delim, b',');
}

#[test]
fn resizing_columns() {
    let mut d = open("x", b"a,b\n1,2\n");
    d.resize_col(2);
    assert_eq!(d.widths, vec![5, 3]);
    d.resize_col(-20);
    assert_eq!(d.widths, vec![1, 3]);
    d.resize_col(i16::MAX);
    assert_eq!(d.widths, vec![500, 3]);
    d.col = 7;
    d.resize_col(2);
    assert_eq!(d.widths, vec![500, 3]);
}

#[test]
fn fitting_columns() {
    let long = "y".repeat(250);
    let mut d = open("x", format!("title,b\n1,2\n333,4\n{long},5\n").as_bytes());
    d.autofit(0, 2);
    assert_eq!(d.widths[0], 5);
    d.autofit(1, 9);
    assert_eq!(d.widths[0], 200);
    d.autofit(9, 9);
    assert_eq!(d.widths[0], 5);
    d.col = 1;
    d.autofit(0, 3);
    assert_eq!(d.widths[1], 1);
}

#[test]
fn moving_the_cursor() {
    let mut d = open("x", b"a,b,c\n1,2,3\n4,5,6\n");
    d.move_row(1);
    d.move_col(2);
    assert_eq!((d.row, d.col), (1, 2));
    d.move_row(5);
    d.move_col(5);
    assert_eq!((d.row, d.col), (1, 2));
    d.move_row(isize::MIN);
    d.move_col(-1);
    assert_eq!((d.row, d.col), (0, 1));
    d.row = 100;
    d.col = 100;
    d.clamp();
    assert_eq!((d.row, d.col), (1, 2));
}
