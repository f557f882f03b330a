use lazycsv::app::{release_due, wait_ms, without_line_end, Action, App, Overlay};
use lazycsv::index::Indexer;
use lazycsv::screen::{char_width, Color, Screen, CONT};
use lazycsv::search::search_until;
use lazycsv::source::Mmap;
use lazycsv::state::{Focus, Poll};
use lazycsv::term::{Event, Key};
use lazycsv::tree::{DirItem, Listing, TreeOp};
use std::sync::Arc;

fn listing(dir: &str, items: &[(&str, bool, u64)]) -> Listing {
    Listing {
        dir: dir.as_bytes().to_vec(),
        items: items
            .iter()
            .map(|&(n, is_dir, size)| DirItem { file_name: n.as_bytes().to_vec(), is_dir, size })
            .collect(),
    }
}

fn disk() -> Vec<Listing> {
    vec![
        listing("/data", &[("sub", true, 0), ("people.csv", false, 1536), ("notes.txt", false, 7)]),
        listing("/data/sub", &[("inner.csv", false, 1)]),
        listing("/", &[("data", true, 0)]),
    ]
}

const PEOPLE: &[u8] = b"name,age\nAnn,41\nBob,7\n\"Eve, \"\"E\"\"\",123456\n";

fn start() -> App {
    let (app, action) = App::new(b"/data".to_vec(), None, None, &disk());
    assert!(matches!(action, Action::Nothing));
    app
}

/// Opens a file and indexes it in full.
fn load(app: &mut App, path: &[u8], data: &[u8]) {
    app.opened(path.to_vec(), Arc::new(Mmap::from_vec(data.to_vec())));
    let mut pass = Indexer::new(data.len());
    pass.feed(data);
    app.publish(pass.finish());
}

fn people() -> App {
    let mut app = start();
    load(&mut app, b"/data/people.csv", PEOPLE);
    app
}

fn key(app: &mut App, k: Key) -> Action {
    app.handle(Event::Key(k))
}

fn typed(app: &mut App, s: &str) {
    for c in s.chars() {
        assert!(matches!(key(app, Key::Char(c)), Action::Nothing), "{c}");
    }
}

fn msg(app: &App) -> Option<(&str, bool)> {
    app.msg.as_ref().map(|(s, e)| (s.as_str(), *e))
}

fn cursor(app: &App) -> (usize, usize) {
    let d = app.doc.as_ref().unwrap();
    (d.row, d.col)
}

/// Runs a search to its end, as the surroundings would.
fn run_search(app: &mut App, action: Action) {
    let Action::Search(needle, from, forward) = action else { panic!("no search") };
    let map = app.doc.as_ref().unwrap().map().clone();
    let (found, _) = search_until(&map, &needle, from, forward, None);
    app.tick(Poll::Done(found));
}

#[test]
fn starting_with_a_file() {
    let file = b"/data/people.csv".to_vec();
    let (app, action) = App::new(b"/data".to_vec(), Some(file.clone()), None, &disk());
    assert!(matches!(action, Action::Open(p) if p == file));
    assert_eq!(app.tree.selected().unwrap().name, "people.csv");
    assert_eq!(app.focus, Focus::Tree);
}

#[test]
fn opening_files() {
    let mut app = start();
    typed(&mut app, "jj");
    let action = key(&mut app, Key::Enter);
    assert!(matches!(action, Action::Open(p) if p == b"/data/people.csv"));
    load(&mut app, b"/data/people.csv", PEOPLE);
    assert_eq!(app.focus, Focus::Table);
    // The open file is not opened again.
    key(&mut app, Key::Char('1'));
    assert_eq!(app.focus, Focus::Tree);
    assert!(matches!(key(&mut app, Key::Enter), Action::Nothing));
    assert_eq!(app.focus, Focus::Table);
    app.open_failed(b"/x\xff", "no such file");
    assert_eq!(msg(&app), Some(("Cannot open /x\u{fffd}: no such file", true)));
}

#[test]
fn opening_the_open_file_again() {
    let mut app = people();
    assert!(matches!(app.open_file(b"/data//people.csv/."), Action::Nothing));
    let (_, lines) = draw(&mut app, 60, 9);
    assert!(lines[3].contains("● people.csv"));
    app.doc.as_mut().unwrap().path = b"//data/./people.csv".to_vec();
    let (_, lines) = draw(&mut app, 60, 9);
    assert!(lines[3].contains("● people.csv"));
    assert!(matches!(app.open_file(b"data/people.csv"), Action::Open(_)));
}

#[test]
fn browsing_directories() {
    let mut app = start();
    let action = key(&mut app, Key::Enter);
    assert!(matches!(action, Action::Tree(TreeOp::Expand)));
    assert_eq!(app.dirs_for(TreeOp::Expand), vec![b"/data/sub".to_vec()]);
    app.listed(TreeOp::Expand, &disk());
    assert_eq!(app.tree.entries.len(), 4);
    assert!(matches!(key(&mut app, Key::Right), Action::Nothing));
    assert_eq!(app.tree.entries.len(), 4);
    assert!(matches!(key(&mut app, Key::Enter), Action::Nothing));
    assert_eq!(app.tree.entries.len(), 3);
    assert!(matches!(key(&mut app, Key::Backspace), Action::Tree(TreeOp::GoUp)));
    app.listed(TreeOp::GoUp, &disk());
    assert_eq!(app.tree.root, b"/");
    assert!(matches!(key(&mut app, Key::Char('.')), Action::Tree(TreeOp::ToggleHidden)));
    assert!(matches!(key(&mut app, Key::Char('R')), Action::Tree(TreeOp::Reload)));
    assert!(matches!(key(&mut app, Key::Char('c')), Action::Tree(TreeOp::EnterDir)));
    assert!(matches!(key(&mut app, Key::Char('-')), Action::Tree(TreeOp::GoUp)));
}

#[test]
fn moving_in_the_explorer() {
    let mut app = start();
    typed(&mut app, "j");
    assert_eq!(app.tree.sel, 1);
    key(&mut app, Key::PageDown);
    assert_eq!(app.tree.sel, 2);
    key(&mut app, Key::Ctrl('u'));
    assert_eq!(app.tree.sel, 0);
    typed(&mut app, "G");
    assert_eq!(app.tree.sel, 2);
    typed(&mut app, "gk");
    assert_eq!(app.tree.sel, 0);
}

#[test]
fn switching_panels() {
    let mut app = start();
    key(&mut app, Key::Tab);
    assert_eq!(app.focus, Focus::Tree);
    assert_eq!(msg(&app), Some(("No file open: pick one in the explorer", false)));
    let mut app = people();
    key(&mut app, Key::Tab);
    assert_eq!(app.focus, Focus::Tree);
    key(&mut app, Key::BackTab);
    assert_eq!(app.focus, Focus::Table);
    key(&mut app, Key::Char('1'));
    key(&mut app, Key::Char('e'));
    assert_eq!((app.show_tree, app.focus), (false, Focus::Table));
    key(&mut app, Key::Char('1'));
    assert_eq!((app.show_tree, app.focus), (true, Focus::Tree));
    key(&mut app, Key::Char('2'));
    assert_eq!(app.focus, Focus::Table);
    key(&mut app, Key::Char('q'));
    assert!(app.quit);
}

#[test]
fn moving_in_the_table() {
    let mut app = people();
    typed(&mut app, "jl");
    assert_eq!(cursor(&app), (1, 1));
    typed(&mut app, "G0");
    assert_eq!(cursor(&app), (2, 0));
    typed(&mut app, "g$");
    assert_eq!(cursor(&app), (0, 1));
    typed(&mut app, "bw");
    assert_eq!(cursor(&app), (0, 1));
    key(&mut app, Key::End);
    key(&mut app, Key::Left);
    key(&mut app, Key::Ctrl('u'));
    assert_eq!(cursor(&app), (0, 0));
    key(&mut app, Key::Ctrl('d'));
    assert_eq!(cursor(&app), (2, 0));
}

#[test]
fn changing_the_table() {
    let mut app = people();
    typed(&mut app, "T");
    assert!(!app.doc.as_ref().unwrap().has_header);
    typed(&mut app, "TD");
    assert_eq!(msg(&app), Some(("Delimiter: semicolon", false)));
    typed(&mut app, "DDD");
    assert_eq!(msg(&app), Some(("Delimiter: comma", false)));
    let width = |app: &App| app.doc.as_ref().unwrap().widths[0];
    let w = width(&app);
    typed(&mut app, "+>");
    assert_eq!(width(&app), w + 4);
    typed(&mut app, "<");
    assert_eq!(width(&app), w + 2);
    typed(&mut app, "=");
    assert_eq!(width(&app), 8);
}

#[test]
fn going_to_a_row() {
    let mut app = people();
    typed(&mut app, ":r3");
    key(&mut app, Key::Enter);
    assert_eq!(cursor(&app), (2, 0));
    typed(&mut app, ":99999");
    key(&mut app, Key::Enter);
    assert_eq!(cursor(&app), (2, 0));
    assert_eq!(msg(&app), None);
    for bad in ["x", "0", "99999999999999999999999"] {
        typed(&mut app, ":");
        typed(&mut app, bad);
        key(&mut app, Key::Enter);
        assert_eq!(msg(&app), Some((format!("Invalid row number: {bad}").as_str(), true)));
    }
    // Not indexed yet.
    app.opened(b"/x".to_vec(), Arc::new(Mmap::from_vec(PEOPLE.to_vec())));
    typed(&mut app, ":5");
    key(&mut app, Key::Enter);
    assert_eq!(msg(&app), Some(("Only 0 rows indexed so far", false)));
}

#[test]
fn editing_the_prompt() {
    let mut app = people();
    typed(&mut app, "/ab");
    key(&mut app, Key::Backspace);
    assert_eq!(app.prompt.as_ref().unwrap().1, "a");
    key(&mut app, Key::Ctrl('u'));
    assert_eq!(app.prompt.as_ref().unwrap().1, "");
    key(&mut app, Key::Up);
    assert!(app.prompt.is_some());
    key(&mut app, Key::Backspace);
    assert!(app.prompt.is_none());
    typed(&mut app, "/x");
    key(&mut app, Key::Esc);
    assert!(app.prompt.is_none());
    typed(&mut app, "/");
    assert!(matches!(key(&mut app, Key::Enter), Action::Nothing));
    assert!(app.needle.is_none());
}

#[test]
fn searching_the_table() {
    let mut app = people();
    assert!(matches!(key(&mut app, Key::Char('n')), Action::Nothing));
    assert_eq!(msg(&app), Some(("No previous search", true)));
    typed(&mut app, "/b");
    let action = key(&mut app, Key::Enter);
    assert!(app.busy());
    run_search(&mut app, action);
    assert_eq!(cursor(&app), (1, 0));
    assert!(!app.busy());
    // The only match is found again, around the end of the file.
    let action = key(&mut app, Key::Char('n'));
    run_search(&mut app, action);
    assert_eq!(cursor(&app), (1, 0));
    assert_eq!(msg(&app), Some(("Search wrapped around", false)));
    typed(&mut app, "/4");
    let action = key(&mut app, Key::Enter);
    run_search(&mut app, action);
    assert_eq!(cursor(&app), (2, 1));
    let action = key(&mut app, Key::Char('N'));
    run_search(&mut app, action);
    assert_eq!(cursor(&app), (0, 1));
    typed(&mut app, "/zzz");
    let action = key(&mut app, Key::Enter);
    run_search(&mut app, action);
    assert_eq!(msg(&app), Some(("Pattern not found: zzz", true)));
    let _ = key(&mut app, Key::Char('n'));
    assert!(matches!(key(&mut app, Key::Esc), Action::Cancel));
    assert!(app.needle.is_none() && !app.busy());
}

#[test]
fn matches_wait_for_the_index() {
    let mut app = start();
    app.opened(b"/x.csv".to_vec(), Arc::new(Mmap::from_vec(PEOPLE.to_vec())));
    assert!(app.busy());
    typed(&mut app, "/bob");
    let action = key(&mut app, Key::Enter);
    app.tick(Poll::Empty);
    assert!(app.busy());
    run_search(&mut app, action);
    assert_eq!(cursor(&app), (0, 0));
    let mut pass = Indexer::new(PEOPLE.len());
    pass.feed(PEOPLE);
    app.publish(pass.finish());
    app.tick(Poll::Empty);
    assert_eq!(cursor(&app), (1, 0));
    typed(&mut app, "/bob");
    let _ = key(&mut app, Key::Enter);
    app.tick(Poll::Disconnected);
    assert!(!app.busy());
    app.tick(Poll::Empty);
}

#[test]
fn copying() {
    let mut app = people();
    typed(&mut app, "Gy");
    assert_eq!(msg(&app), Some(("Copied cell to clipboard (8 chars)", false)));
    // "Eve, "E""
    assert_eq!(app.take_output(), b"\x1b]52;c;RXZlLCAiRSI=\x07");
    assert_eq!(app.take_output(), b"");
    typed(&mut app, "gY");
    assert_eq!(msg(&app), Some(("Copied row to clipboard (6 chars)", false)));
    assert_eq!(app.take_output(), b"\x1b]52;c;QW5uLDQx\x07");
}

#[test]
fn help_and_record() {
    let mut app = people();
    typed(&mut app, "?jjk");
    assert!(matches!(app.overlay, Overlay::Help(1)));
    typed(&mut app, "x");
    assert!(matches!(app.overlay, Overlay::Closed));
    key(&mut app, Key::Enter);
    assert!(matches!(app.overlay, Overlay::Record(_)));
    typed(&mut app, "l");
    assert_eq!(cursor(&app), (1, 0));
    let scroll = |app: &App| match &app.overlay {
        Overlay::Record(r) => r.scroll,
        _ => panic!("no record"),
    };
    typed(&mut app, "jj");
    key(&mut app, Key::PageDown);
    assert_eq!(scroll(&app), 12);
    typed(&mut app, "Gj");
    assert_eq!(scroll(&app), usize::MAX);
    typed(&mut app, "gq");
    assert!(matches!(app.overlay, Overlay::Closed));
    key(&mut app, Key::Enter);
    key(&mut app, Key::Ctrl('c'));
    assert!(app.quit);
}

fn draw(app: &mut App, w: u16, h: u16) -> (Screen, Vec<String>) {
    let mut s = Screen::new();
    s.resize(w, h);
    app.render(&mut s);
    let lines = (0..h as usize)
        .map(|y| {
            let row = &s.cells[y * w as usize..(y + 1) * w as usize];
            row.iter().filter(|c| c.ch != CONT).map(|c| c.ch).collect::<String>().trim_end().to_string()
        })
        .collect();
    (s, lines)
}

#[test]
fn drawing_the_table() {
    let mut app = people();
    let (s, lines) = draw(&mut app, 60, 9);
    assert_eq!(
        lines,
        vec![
            "╭ [1] /data ───────────╮╭ [2] people.csv ──────────────────╮",
            "│ ▸ sub                ││ #│ name     │    age │           │",
            "│   notes.txt       7B ││──┼──────────┼────────┼───────────│",
            "│ ● people.csv    1.5K ││ 1│ Ann      │     41 │           │",
            "│                      ││ 2│ Bob      │      7 │           │",
            "│                      ││ 3│ Eve, \"E\" │ 123456 │           │",
            "│                      ││                                  │",
            "╰───────────── 1 of 3 ─╯╰───────────────────────── 1 of 3 ─╯",
            "Search: / | Next: n/N           3 × 2 │ comma │ header │ 42B",
        ]
    );
    // The current cell is painted.
    let cell = s.cells[3 * 60 + 29];
    assert_eq!((cell.ch, cell.st.bg), ('A', Color::Idx(4)));
}

#[test]
fn drawing_messages_and_prompts() {
    let mut app = people();
    typed(&mut app, ":12");
    let (_, lines) = draw(&mut app, 60, 9);
    assert_eq!(lines[8], "Go to row: 12                   enter: confirm | esc: cancel");
    key(&mut app, Key::Esc);
    typed(&mut app, "D");
    let (_, lines) = draw(&mut app, 60, 9);
    assert!(lines[8].starts_with("Delimiter: semicolon"), "{}", lines[8]);
    let mut app = start();
    let (_, lines) = draw(&mut app, 60, 9);
    assert_eq!(lines[8], "Open: enter | Collapse: h | Up dir: ⌫ | Hidden: .");
}

#[test]
fn drawing_what_is_searched_for() {
    let mut app = people();
    app.needle = Some("bob".to_string());
    let (s, lines) = draw(&mut app, 60, 9);
    assert!(lines[4].contains("Bob"));
    assert_eq!(s.cells[4 * 60 + 29].st.bg, Color::Idx(3));
    assert_eq!(s.cells[5 * 60 + 29].st.bg, Color::Reset);
}

#[test]
fn drawing_progress() {
    let mut app = start();
    app.opened(b"/x.csv".to_vec(), Arc::new(Mmap::from_vec(PEOPLE.to_vec())));
    let (_, lines) = draw(&mut app, 100, 9);
    assert!(lines[8].ends_with("indexing 0% │ 0 × 2 │ comma │ header │ 42B"), "{}", lines[8]);
    assert!(lines[3].contains("Indexing…"));
}

#[test]
fn numbers_are_never_cut() {
    let mut data = b"n,text\n".to_vec();
    for _ in 0..1500 {
        data.extend_from_slice(b"1,some long text that is cut somewhere\n");
    }
    data.extend_from_slice(b"1234567890123,x\n");
    let mut app = start();
    load(&mut app, b"/n.csv", &data);
    app.doc.as_mut().unwrap().widths[1] = 4;
    assert_eq!(app.doc.as_ref().unwrap().widths[0], 3);
    typed(&mut app, "G");
    let (_, lines) = draw(&mut app, 80, 9);
    assert!(lines[6].contains("1234567890123"), "{}", lines[6]);
    assert!(lines[5].contains("som…"), "{}", lines[5]);
    assert_eq!(app.doc.as_ref().unwrap().widths, vec![13, 4]);
    assert!(!app.relayout);
}

#[test]
fn numbers_that_cannot_be_shown_in_full() {
    // A double-width character would not fit into the widest column either.
    let odd = format!("{}日", "1".repeat(39));
    let mut data = b"n\n".to_vec();
    for _ in 0..20 {
        data.extend_from_slice(b"1\n");
    }
    data.extend_from_slice(format!("{odd}\n").as_bytes());
    let mut app = start();
    load(&mut app, b"/n.csv", &data);
    assert!(app.doc.as_ref().unwrap().numeric[0]);
    typed(&mut app, "G");
    draw(&mut app, 90, 9);
    assert_eq!(app.doc.as_ref().unwrap().widths, vec![39]);
}

#[test]
fn drawing_wider_rows() {
    let mut data = b"a\n".to_vec();
    for _ in 0..1200 {
        data.extend_from_slice(b"1\n");
    }
    data.extend_from_slice(b"1,2,3\n");
    let mut app = start();
    load(&mut app, b"/n.csv", &data);
    assert_eq!(app.doc.as_ref().unwrap().ncols(), 1);
    typed(&mut app, "G");
    draw(&mut app, 80, 9);
    assert_eq!(app.doc.as_ref().unwrap().headers, vec!["a", "B", "C"]);
}

#[test]
fn scrolling_the_table() {
    let mut data = b"a,b,c,d\n".to_vec();
    for i in 0..100 {
        data.extend_from_slice(format!("{i},{},x,y\n", "w".repeat(30)).as_bytes());
    }
    let mut app = start();
    load(&mut app, b"/n.csv", &data);
    typed(&mut app, "G$");
    draw(&mut app, 60, 12);
    let d = app.doc.as_ref().unwrap();
    assert_eq!((d.row, d.row_off, d.col_off), (99, 93, 2));
    assert_eq!((app.page, app.rows_y), (7, 3));
    typed(&mut app, "g0");
    draw(&mut app, 60, 12);
    let d = app.doc.as_ref().unwrap();
    assert_eq!((d.row_off, d.col_off), (0, 0));
}

#[test]
fn clicking() {
    let mut app = people();
    draw(&mut app, 60, 9);
    app.handle(Event::Click(40, 4));
    assert_eq!(cursor(&app), (1, 1));
    assert_eq!(app.focus, Focus::Table);
    app.handle(Event::Click(5, 1));
    assert_eq!((app.focus, app.tree.sel), (Focus::Tree, 0));
    assert!(matches!(app.handle(Event::Click(5, 2)), Action::Open(p) if p == b"/data/notes.txt"));
    app.handle(Event::Click(40, 1));
    assert_eq!(cursor(&app), (1, 1));
    app.handle(Event::Click(59, 8));
    assert_eq!(app.focus, Focus::Table);
    key(&mut app, Key::Char('?'));
    app.handle(Event::Click(0, 0));
    assert!(matches!(app.overlay, Overlay::Closed));
}

#[test]
fn turning_the_wheel() {
    let mut app = people();
    draw(&mut app, 60, 9);
    app.handle(Event::Scroll(40, 4, 1));
    assert_eq!(cursor(&app), (2, 0));
    app.handle(Event::Scroll(40, 4, -1));
    assert_eq!(cursor(&app), (0, 0));
    app.handle(Event::Scroll(5, 4, 1));
    assert_eq!(app.tree.sel, 2);
    key(&mut app, Key::Char('?'));
    app.handle(Event::Scroll(5, 4, 1));
    assert!(matches!(app.overlay, Overlay::Help(3)));
}

#[test]
fn drawing_the_help() {
    let mut app = start();
    typed(&mut app, "?");
    let (_, lines) = draw(&mut app, 80, 40);
    assert!(lines[3].contains("╭ Keybindings "), "{}", lines[3]);
    assert!(lines.iter().any(|l| l.contains("ctrl-d / ctrl-u  half page down / up")));
    for _ in 0..100 {
        typed(&mut app, "j");
    }
    let (_, lines) = draw(&mut app, 80, 20);
    assert!(matches!(app.overlay, Overlay::Help(16)));
    assert!(lines.iter().any(|l| l.contains("click to select, wheel to scroll")));
}

#[test]
fn drawing_a_record() {
    let mut app = people();
    typed(&mut app, "jl");
    key(&mut app, Key::Enter);
    let (_, lines) = draw(&mut app, 80, 20);
    assert!(lines.iter().any(|l| l.contains("╭ Row 2 of 3 ")), "{lines:?}");
    assert!(lines.iter().any(|l| l.contains("│ name │ Bob ")), "{lines:?}");
    assert!(lines.iter().any(|l| l.contains("│ age  │ 7 ")), "{lines:?}");
    typed(&mut app, "l");
    let (_, lines) = draw(&mut app, 80, 20);
    assert!(lines.iter().any(|l| l.contains("│ name │ Eve, \"E\" ")), "{lines:?}");
}

#[test]
fn drawing_long_and_empty_fields() {
    let mut app = start();
    let data = format!("a,b\n,\"line one\nline two {}\"\n", "word ".repeat(40));
    load(&mut app, b"/r.csv", data.as_bytes());
    typed(&mut app, "l");
    key(&mut app, Key::Enter);
    let (_, lines) = draw(&mut app, 60, 16);
    assert!(lines.iter().any(|l| l.contains("│ ∅")), "{lines:?}");
    assert!(lines.iter().any(|l| l.contains("│ line one")), "{lines:?}");
    assert!(lines.iter().any(|l| l.contains("│ line two word word")), "{lines:?}");
}

#[test]
fn small_terminals() {
    let mut app = people();
    let (_, lines) = draw(&mut app, 29, 9);
    assert_eq!(lines[0], "Terminal too small");
    let (_, lines) = draw(&mut app, 10, 3);
    assert_eq!(lines[0], "Terminal t");
    let (_, lines) = draw(&mut app, 30, 6);
    assert_eq!(lines[0], "╭ [1] /data ──╮╭ [2] people…─╮");
    app.show_tree = false;
    let (_, lines) = draw(&mut app, 30, 6);
    assert!(lines[0].starts_with("╭ [2] people.csv "), "{}", lines[0]);
}

#[test]
fn drawing_the_welcome() {
    let mut app = start();
    let (_, lines) = draw(&mut app, 100, 30);
    assert!(lines.iter().any(|l| l.contains("|_|\\__,_/___|\\__, |\\___|___/ \\_/")));
    assert!(lines.iter().any(|l| l.contains("tab  switch panel      /  search      ?  help")));
    let (_, lines) = draw(&mut app, 60, 9);
    assert!(lines[1].contains("Pick a file in the explorer"));
    let (empty, _) = App::new(b"/nowhere".to_vec(), None, Some("/no".to_string()), &disk());
    let mut empty = empty;
    let (_, lines) = draw(&mut empty, 60, 9);
    assert!(lines[0].contains("[1] ~where"), "{}", lines[0]);
    assert!(lines[1].contains("(empty)"));
}

/// A terminal that understands what frames are made of.
fn replay(shown: &mut Vec<char>, w: usize, bytes: Vec<u8>) {
    let cs: Vec<char> = String::from_utf8(bytes).unwrap().chars().collect();
    let mut i = 0;
    let mut at = 0;
    while i < cs.len() {
        if cs[i] == '\u{1b}' {
            assert_eq!(cs[i + 1], '[');
            let end = (i + 2..cs.len()).find(|&k| cs[k].is_ascii_alphabetic()).unwrap();
            let args: String = cs[i + 2..end].iter().collect();
            match cs[end] {
                'J' => shown.iter_mut().for_each(|c| *c = ' '),
                'H' => {
                    let (y, x) = args.split_once(';').unwrap();
                    at = (y.parse::<usize>().unwrap() - 1) * w + x.parse::<usize>().unwrap() - 1;
                }
                c => assert_eq!(c, 'm'),
            }
            i = end + 1;
        } else {
            shown[at] = cs[i];
            if char_width(cs[i]) == 2 {
                shown[at + 1] = CONT;
            }
            at += char_width(cs[i]);
            i += 1;
        }
    }
}

#[test]
fn terminals_show_every_frame() {
    let (w, h) = (60usize, 12usize);
    let mut app = start();
    load(&mut app, b"/data/wide.csv", "名前,n\n日本語,1\nxé,22\n".as_bytes());
    let mut s = Screen::new();
    s.resize(w as u16, h as u16);
    let mut shown = vec![' '; w * h];
    for k in ['l', 'j', 'h', '?', '?', '/', 'x'] {
        app.render(&mut s);
        let sent = s.present(b"");
        replay(&mut shown, w, sent);
        let cells: Vec<char> = s.cells.iter().map(|c| c.ch).collect();
        assert_eq!(shown, cells);
        key(&mut app, Key::Char(k));
    }
}

#[test]
fn waiting_and_releasing() {
    assert_eq!((wait_ms(true), wait_ms(false)), (50, 1000));
    assert_eq!((release_due(0), release_due(9), release_due(10)), (false, false, true));
}

#[test]
fn ends_of_lines() {
    assert_eq!(without_line_end("a\r\nb\r\n\n"), "a\r\nb");
    assert_eq!(without_line_end("\n"), "");
    assert_eq!(without_line_end("a "), "a ");
}
