use lazycsv::term::{parse, size, split, Event, Key, Winsize};

#[test]
fn decodes_keys_and_mouse() {
    let mut ev = Vec::new();
    parse(b"j\x1b[A\x1b[6~\x1b[<0;5;3M\x1b[<65;1;1M\x03\xc3\xa9", &mut ev);
    assert_eq!(
        ev,
        vec![
            Event::Key(Key::Char('j')),
            Event::Key(Key::Up),
            Event::Key(Key::PageDown),
            Event::Click(4, 2),
            Event::Scroll(0, 0, 1),
            Event::Key(Key::Ctrl('c')),
            Event::Key(Key::Char('é')),
        ]
    );
}

fn events(bytes: &[u8]) -> Vec<Event> {
    let mut ev = Vec::new();
    parse(bytes, &mut ev);
    ev
}

fn keys(bytes: &[u8]) -> Vec<Key> {
    events(bytes)
        .into_iter()
        .map(|e| match e {
            Event::Key(k) => k,
            other => panic!("{other:?}"),
        })
        .collect()
}

#[test]
fn decodes_control_characters() {
    assert_eq!(keys(b"\r\n\t\x7f\x08"), vec![Key::Enter, Key::Enter, Key::Tab, Key::Backspace, Key::Backspace]);
    assert_eq!(keys(b"\x01\x1a"), vec![Key::Ctrl('a'), Key::Ctrl('z')]);
    assert_eq!(keys(b"\x00\x1c\x1f"), vec![]);
}

#[test]
fn decodes_escape_sequences() {
    assert_eq!(keys(b"\x1b"), vec![Key::Esc]);
    assert_eq!(keys(b"\x1bx"), vec![Key::Esc, Key::Char('x')]);
    assert_eq!(keys(b"\x1b\x1b"), vec![Key::Esc, Key::Esc]);
    assert_eq!(
        keys(b"\x1bOA\x1bOB\x1bOC\x1bOD\x1bOH\x1bOF\x1bOQ"),
        vec![Key::Up, Key::Down, Key::Right, Key::Left, Key::Home, Key::End]
    );
    assert_eq!(keys(b"\x1bO"), vec![Key::Esc, Key::Char('O')]);
    assert_eq!(
        keys(b"\x1b[1~\x1b[7~\x1b[4~\x1b[8~\x1b[3~\x1b[5~\x1b[6~\x1b[2~\x1b[Z"),
        vec![
            Key::Home,
            Key::Home,
            Key::End,
            Key::End,
            Key::Delete,
            Key::PageUp,
            Key::PageDown,
            Key::BackTab
        ]
    );
    assert_eq!(keys(b"\x1b[5;2~"), vec![Key::PageUp]);
    assert_eq!(keys(b"\x1b[12"), vec![]);
    assert_eq!(keys(b"\x1b[1;5Ax"), vec![Key::Up, Key::Char('x')]);
}

#[test]
fn decodes_the_mouse() {
    assert_eq!(events(b"\x1b[<64;10;20M"), vec![Event::Scroll(9, 19, -1)]);
    assert_eq!(events(b"\x1b[<0;10;20m"), vec![]);
    assert_eq!(events(b"\x1b[<1;10;20M"), vec![]);
    assert_eq!(events(b"\x1b[<32;10;20M"), vec![]);
    assert_eq!(events(b"\x1b[<0M"), vec![Event::Click(0, 0)]);
    assert_eq!(events(b"\x1b[<0;+7;!3M"), vec![Event::Click(6, 0)]);
    assert_eq!(events(b"\x1b[<0;65535;65536M"), vec![Event::Click(65534, 0)]);
}

#[test]
fn typed_text_comes_back() {
    let text = "Zürich, 日本 😀 ~!";
    assert_eq!(keys(text.as_bytes()), text.chars().map(Key::Char).collect::<Vec<_>>());
    assert_eq!(keys(b"\xff\xc3x\xe6\x97"), vec![]);
    assert_eq!(keys(b"\xffab"), vec![Key::Char('a'), Key::Char('b')]);
}

#[test]
fn events_are_appended() {
    let mut ev = vec![Event::Click(1, 2)];
    parse(b"a", &mut ev);
    assert_eq!(ev, vec![Event::Click(1, 2), Event::Key(Key::Char('a'))]);
}

#[test]
fn splitting_parameters() {
    assert_eq!(split(b"1;;22", b';'), vec![b"1".to_vec(), vec![], b"22".to_vec()]);
    assert_eq!(split(b"", b';'), vec![Vec::<u8>::new()]);
}

#[test]
fn terminal_size() {
    let ws = Winsize { ws_row: 40, ws_col: 100, ws_xpixel: 0, ws_ypixel: 0 };
    assert_eq!(size(true, &ws), (100, 40));
    assert_eq!(size(false, &ws), (80, 24));
    assert_eq!(size(true, &Winsize { ws_row: 0, ..ws }), (80, 24));
}
