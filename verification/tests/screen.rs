use lazycsv::screen::{
    char_width, str_width, write_sgr, Cell, Color, Rect, Screen, Style, BOLD, CONT, DIM, ITALIC,
    REVERSE, UNDERLINE,
};

#[test]
fn widths() {
    assert_eq!(str_width("abc"), 3);
    assert_eq!(str_width("日本"), 4);
    assert_eq!(str_width("e\u{301}"), 1);
}

#[test]
fn wide_overwrite_keeps_grid_consistent() {
    let mut s = Screen::new();
    s.resize(4, 1);
    s.set(0, 0, '日', Style::default());
    s.set(1, 0, 'x', Style::default());
    assert_eq!(s.cells[0].ch, ' ');
    assert_eq!(s.cells[1].ch, 'x');
}

fn row(s: &Screen, y: usize) -> String {
    let w = s.w as usize;
    s.cells[y * w..(y + 1) * w].iter().map(|c| if c.ch == CONT { '_' } else { c.ch }).collect()
}

fn screen(w: u16, h: u16) -> Screen {
    let mut s = Screen::new();
    s.resize(w, h);
    s
}

#[test]
fn wide_characters_stay_whole() {
    let mut s = screen(5, 1);
    let st = Style::default();
    s.set(1, 0, '日', st);
    assert_eq!(row(&s, 0), " 日_  ");
    s.set(1, 0, 'x', st);
    assert_eq!(row(&s, 0), " x   ");
    s.set(2, 0, '日', st);
    s.set(1, 0, '本', st);
    assert_eq!(row(&s, 0), " 本_  ");
    s.set(4, 0, '日', st);
    assert_eq!(row(&s, 0), " 本_  ");
    s.set(0, 0, '\u{301}', st);
    s.set(9, 0, 'x', st);
    s.set(0, 9, 'x', st);
    assert_eq!(row(&s, 0), " 本_  ");
}

#[test]
fn widths_of_characters() {
    assert_eq!(char_width('a'), 1);
    assert_eq!(char_width('\u{2ff}'), 1);
    assert_eq!(char_width('\u{300}'), 0);
    assert_eq!(char_width('\u{200b}'), 0);
    assert_eq!(char_width('\u{feff}'), 0);
    assert_eq!(char_width('\u{1100}'), 2);
    assert_eq!(char_width('\u{ac00}'), 2);
    assert_eq!(char_width('😀'), 2);
    assert_eq!(char_width('\u{3fffd}'), 2);
    assert_eq!(char_width('…'), 1);
    assert_eq!(char_width('│'), 1);
}

#[test]
fn styles() {
    let st = Style::fg(3).with_bg(7).attr(BOLD).attr(DIM);
    assert_eq!(st, Style { fg: Color::Idx(3), bg: Color::Idx(7), attr: BOLD | DIM });
    assert_eq!(st.with_fg(4).fg, Color::Idx(4));
    assert_eq!(Style::default(), Style { fg: Color::default(), bg: Color::Reset, attr: 0 });
}

#[test]
fn rectangles() {
    let r = Rect { x: 2, y: 3, w: 4, h: 5 };
    assert!(r.contains(2, 3) && r.contains(5, 7));
    assert!(!r.contains(1, 3) && !r.contains(6, 3) && !r.contains(2, 8));
    assert_eq!(r.inner(), Rect { x: 3, y: 4, w: 2, h: 3 });
    assert_eq!(Rect { x: 0, y: 0, w: 1, h: 1 }.inner(), Rect { x: 1, y: 1, w: 0, h: 0 });
    assert_eq!(r.right(), 6);
    assert_eq!(Rect::default(), Rect { x: 0, y: 0, w: 0, h: 0 });
}

#[test]
fn drawing_text() {
    let mut s = screen(8, 2);
    let st = Style::fg(1);
    assert_eq!(s.text(1, 0, 4, "日本語", st), 4);
    assert_eq!(row(&s, 0), " 日_本_   ");
    assert_eq!(s.text(0, 1, 3, "e\u{301}xyz", st), 3);
    assert_eq!(row(&s, 1), "exy     ");
    assert_eq!(s.cells[8], Cell { ch: 'e', st });
    s.clear();
    assert_eq!(row(&s, 1), "        ");
    assert_eq!(s.text_ellipsis(0, 0, 5, "abcdef", st), 5);
    assert_eq!(row(&s, 0), "abcd…   ");
    assert_eq!(s.text_ellipsis(0, 1, 5, "abcde", st), 5);
    assert_eq!(row(&s, 1), "abcde   ");
    assert_eq!(s.text_ellipsis(0, 1, 4, "日本語", st), 3);
    assert_eq!(row(&s, 1), "日_…de   ");
    assert_eq!(s.text_ellipsis(0, 1, 0, "x", st), 0);
    assert_eq!(s.text(6, 0, 9, "xyz", st), 3);
    assert_eq!(row(&s, 0), "abcd… xy");
}

#[test]
fn drawing_lines_and_frames() {
    let mut s = screen(10, 4);
    s.frame(Rect { x: 0, y: 0, w: 10, h: 4 }, " T ", " f ", false);
    assert_eq!(row(&s, 0), "╭ T ─────╮");
    assert_eq!(row(&s, 1), "│        │");
    assert_eq!(row(&s, 3), "╰──── f ─╯");
    s.fill(Rect { x: 1, y: 1, w: 3, h: 9 }, Style::fg(2));
    assert_eq!(row(&s, 2), "│        │");
    assert_eq!(row(&s, 3), "╰   ─ f ─╯");
    s.hline(7, 1, 9, '=', Style::default());
    assert_eq!(row(&s, 1), "│      ===");
    let mut t = screen(10, 4);
    t.frame(Rect { x: 0, y: 0, w: 1, h: 4 }, "T", "f", true);
    assert_eq!(row(&t, 0), "          ");
    t.frame(Rect { x: 0, y: 0, w: 6, h: 2 }, "long title", "long footer", true);
    assert_eq!(row(&t, 0), "╭lo…─╮    ");
    assert_eq!(row(&t, 1), "╰────╯    ");
    assert_eq!(t.cells[0].st, Style::fg(2).attr(BOLD));
}

#[test]
fn selecting_styles() {
    let sgr = |st: Style| {
        let mut v = Vec::new();
        write_sgr(&mut v, st);
        String::from_utf8(v).unwrap()
    };
    assert_eq!(sgr(Style::default()), "\x1b[0m");
    let all = BOLD | DIM | ITALIC | UNDERLINE | REVERSE;
    assert_eq!(sgr(Style::default().attr(all)), "\x1b[0;1;2;3;4;7m");
    assert_eq!(sgr(Style::fg(3).with_bg(4)), "\x1b[0;33;44m");
    assert_eq!(sgr(Style::fg(8).with_bg(15)), "\x1b[0;90;107m");
    assert_eq!(sgr(Style::fg(16).with_bg(236)), "\x1b[0;38;5;16;48;5;236m");
}

#[test]
fn sending_frames() {
    let mut s = screen(4, 2);
    s.set(1, 0, '日', Style::default());
    let first = String::from_utf8(s.present(b"!")).unwrap();
    assert_eq!(
        first,
        "\x1b[0m\x1b[2J\x1b[1;1H\x1b[0m 日 \x1b[2;1H    \x1b[0m!"
    );
    // Nothing changed: nothing is sent.
    assert_eq!(s.present(b""), b"");
    assert_eq!(s.present(b"extra"), b"extra");
    s.set(3, 1, 'x', Style::fg(1));
    s.set(0, 0, 'y', Style::fg(1));
    let next = String::from_utf8(s.present(b"")).unwrap();
    assert_eq!(next, "\x1b[1;1H\x1b[0;31my\x1b[2;4Hx\x1b[0m");
    s.resize(4, 2);
    assert_eq!(s.present(b""), b"");
    s.resize(2, 1);
    assert!(s.full);
    assert_eq!(s.present(b""), b"\x1b[0m\x1b[2J\x1b[1;1H\x1b[0m  \x1b[0m");
}
