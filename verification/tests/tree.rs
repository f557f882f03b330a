use lazycsv::order::{sort_order, SortKey};
use lazycsv::path::{count_parts, same};
use lazycsv::tree::{is_hidden, is_tabular, DirItem, Listing, Tree, TreeOp};
use std::path::{Component, Path};

fn item(name: &str, is_dir: bool) -> DirItem {
    DirItem { file_name: name.as_bytes().to_vec(), is_dir, size: name.len() as u64 }
}

fn listing(dir: &str, items: &[(&str, bool)]) -> Listing {
    Listing {
        dir: dir.as_bytes().to_vec(),
        items: items.iter().map(|&(n, d)| item(n, d)).collect(),
    }
}

fn disk() -> Vec<Listing> {
    vec![
        listing("/", &[("home", true), ("etc", true)]),
        listing("/home", &[("b.csv", false), ("Zoo", true), ("alpha", true), (".git", true), ("A.csv", false)]),
        listing("/home/alpha", &[("inner", true), ("x.tsv", false)]),
        listing("/home/alpha/inner", &[("deep.csv", false)]),
        listing("/home/Zoo", &[]),
    ]
}

fn show(t: &Tree) -> Vec<String> {
    t.entries
        .iter()
        .enumerate()
        .map(|(i, e)| {
            let mark = if i == t.sel { ">" } else { "" };
            let kind = if e.expanded {
                "-"
            } else if e.is_dir {
                "+"
            } else {
                ""
            };
            format!("{mark}{}{kind}{}", " ".repeat(e.depth as usize), e.name)
        })
        .collect()
}

fn tree() -> Tree {
    Tree::new(b"/home".to_vec(), &disk())
}

#[test]
fn listings_are_sorted() {
    assert_eq!(show(&tree()), vec![">+alpha", "+Zoo", "A.csv", "b.csv"]);
    assert_eq!(tree().entries[2].path, b"/home/A.csv");
    assert_eq!(tree().entries[2].size, 5);
}

#[test]
fn order_of_keys_is_stable() {
    let key = |is_dir, name: &str| SortKey { is_dir, name: name.chars().collect() };
    let ks = vec![key(false, "b"), key(true, "z"), key(false, "a"), key(false, "b"), key(false, "ab"), key(true, "")];
    assert_eq!(sort_order(&ks), vec![5, 1, 2, 4, 0, 3]);
    assert_eq!(sort_order(&vec![]), Vec::<usize>::new());
}

#[test]
fn expanding_and_collapsing() {
    let mut t = tree();
    t.expand(&disk());
    assert_eq!(show(&t), vec![">-alpha", " +inner", " x.tsv", "+Zoo", "A.csv", "b.csv"]);
    t.expand(&disk());
    assert_eq!(t.entries.len(), 6);
    t.sel = 1;
    t.expand(&disk());
    assert_eq!(show(&t)[1..4], [">".to_string() + " -inner", "  deep.csv".into(), " x.tsv".into()]);
    t.sel = 0;
    t.collapse();
    assert_eq!(show(&t), show(&tree()));
    t.toggle(&disk());
    assert_eq!(t.entries.len(), 6);
    t.toggle(&disk());
    assert_eq!(show(&t), show(&tree()));
    t.sel = 2;
    t.expand(&disk());
    t.collapse();
    assert_eq!(t.entries.len(), 4);
}

#[test]
fn going_to_the_parent_entry() {
    let mut t = tree();
    t.expand(&disk());
    t.sel = 2;
    t.collapse_or_parent();
    assert_eq!(t.sel, 0);
    t.collapse_or_parent();
    assert_eq!(show(&t), show(&tree()));
    t.collapse_or_parent();
    assert_eq!(t.sel, 0);
}

#[test]
fn reloading_keeps_what_is_open() {
    let mut t = tree();
    t.expand(&disk());
    t.sel = 1;
    t.expand(&disk());
    t.select_path(b"/home/alpha/x.tsv");
    let before = show(&t);
    t.reload(&disk());
    assert_eq!(show(&t), before);
    // The selected file is gone, and so is a directory that was open.
    let mut gone = disk();
    gone[2].items.clear();
    t.reload(&gone);
    assert_eq!(show(&t), vec![">-alpha", "+Zoo", "A.csv", "b.csv"]);
    t.reload(&vec![]);
    assert_eq!(show(&t), Vec::<String>::new());
    assert_eq!(t.sel, 0);
    assert!(t.selected().is_none());
}

#[test]
fn hidden_files() {
    let mut t = tree();
    t.toggle_hidden(&disk());
    assert_eq!(show(&t), vec!["+.git", ">+alpha", "+Zoo", "A.csv", "b.csv"]);
    t.toggle_hidden(&disk());
    assert_eq!(show(&t), show(&tree()));
    assert!(is_hidden(".x") && !is_hidden("x.") && !is_hidden(""));
}

#[test]
fn changing_the_root() {
    let mut t = tree();
    t.go_up(&disk());
    assert_eq!(t.root, b"/");
    assert_eq!(show(&t), vec!["+etc", ">+home"]);
    t.go_up(&disk());
    assert_eq!(t.root, b"/");
    t.enter_dir(&disk());
    assert_eq!(t.root, b"/home");
    assert_eq!(show(&t), show(&tree()));
    t.sel = 3;
    t.enter_dir(&disk());
    assert_eq!(t.root, b"/home");
}

#[test]
fn paths_are_compared_by_components() {
    let mut t = Tree::new(b"/home/".to_vec(), &disk());
    assert_eq!(t.entries[0].path, b"/home/alpha");
    t.select_path(b"//home/./b.csv/");
    assert_eq!(t.sel, 3);
    t.select_path(b"home/alpha");
    assert_eq!(t.sel, 3);
    t.select_path(b"/home/alpha/");
    assert_eq!(t.sel, 0);
    // Going up finds the old root whatever separators it was written with.
    t.go_up(&disk());
    assert_eq!(t.root, b"/");
    assert_eq!(show(&t), vec!["+etc", ">+home"]);
    // A directory stays open under another spelling of its path.
    let mut t = tree();
    t.expand(&disk());
    let open = t.entries.len();
    t.root = b"/home/.//".to_vec();
    t.entries[0].path = b"/home//alpha/.".to_vec();
    t.reload(&disk());
    assert_eq!(t.entries.len(), open);
    assert!(t.entries[0].expanded);
    assert_eq!(t.sel, 0);
}

#[test]
fn same_paths() {
    let paths = [
        "", ".", "./", "/", "//", "/.", "a", "a/", "./a", "a/.", "a//b", "a/./b/", "a/b", "a/../b",
        "..", "../", "/a", "//a/", "/./a", "/a/.b", "/a/b.", ".a", "a.", "/a/..", "././a", "a/b/.",
        "a/.b", "é/b", "é//b", "./.", ".//a",
    ];
    for p in paths {
        for q in paths {
            let std = Path::new(p) == Path::new(q);
            assert_eq!(same(p.as_bytes(), q.as_bytes()), std, "{p:?} {q:?}");
        }
        let n = Path::new(p).components().filter(|c| *c != Component::RootDir).count();
        assert_eq!(count_parts(p.as_bytes()), n, "{p:?}");
    }
}

#[test]
fn moving_the_selection() {
    let mut t = tree();
    t.move_by(2);
    assert_eq!(t.sel, 2);
    t.move_by(isize::MAX);
    assert_eq!(t.sel, 3);
    t.move_by(-1);
    assert_eq!(t.sel, 2);
    t.move_by(-9);
    assert_eq!(t.sel, 0);
    let mut none = Tree::new(b"/none".to_vec(), &disk());
    none.move_by(1);
    assert_eq!(none.sel, 0);
}

#[test]
fn scrolling_to_the_selection() {
    let mut t = tree();
    t.sel = 3;
    t.scroll_into_view(2);
    assert_eq!(t.off, 2);
    t.sel = 1;
    t.scroll_into_view(2);
    assert_eq!(t.off, 1);
    t.scroll_into_view(9);
    assert_eq!(t.off, 0);
    t.sel = 3;
    t.scroll_into_view(0);
    assert_eq!(t.off, 0);
}

#[test]
fn directories_to_read() {
    let mut t = tree();
    assert_eq!(t.dirs_for(TreeOp::Reload), vec![b"/home".to_vec()]);
    assert_eq!(t.dirs_for(TreeOp::Expand), vec![b"/home/alpha".to_vec()]);
    assert_eq!(t.dirs_for(TreeOp::GoUp), vec![b"/".to_vec()]);
    t.apply(TreeOp::Expand, &disk());
    assert_eq!(t.dirs_for(TreeOp::ToggleHidden), vec![b"/home".to_vec(), b"/home/alpha".to_vec()]);
    // What else was read makes no difference.
    let mut a = tree();
    a.apply(TreeOp::Expand, &disk());
    let mut b = tree();
    b.apply(TreeOp::Expand, &vec![disk().remove(2)]);
    assert_eq!(show(&a), show(&b));
    t.sel = t.entries.len() - 1;
    assert_eq!(t.dirs_for(TreeOp::EnterDir), Vec::<Vec<u8>>::new());
}

#[test]
fn names_of_tables() {
    for n in ["a.csv", "A.CSV", ".tsv", "x.y.tab", "x.Psv"] {
        assert!(is_tabular(n), "{n}");
    }
    for n in ["csv", "a.csv.gz", "a_csv", "", "a.tsvx", "a\u{e}csv"] {
        assert!(!is_tabular(n), "{n}");
    }
}

#[test]
fn names_that_are_no_text() {
    let ls = vec![Listing {
        dir: b"/".to_vec(),
        items: vec![DirItem { file_name: b"x\xff.csv".to_vec(), is_dir: false, size: 0 }],
    }];
    let t = Tree::new(b"/".to_vec(), &ls);
    assert_eq!(t.entries[0].name, "x\u{fffd}.csv");
    assert_eq!(t.entries[0].path, b"/x\xff.csv");
}

#[test]
fn names_sort_regardless_of_case() {
    let ls = vec![listing("/", &[("Éa", false), ("éB", false), ("ÉC", false), ("z", false)])];
    let t = Tree::new(b"/".to_vec(), &ls);
    assert_eq!(show(&t), vec![">z", "Éa", "éB", "ÉC"]);
}
