//! Double-buffered cell grid. Each frame is drawn into a buffer and only the
//! cells that differ from the previous frame are sent to the terminal.

use crate::text;
use vstd::prelude::*;

verus! {

// ---------------------------------------------------------------------------
// Styles and rectangles
// ---------------------------------------------------------------------------

#[derive(Clone, Copy, PartialEq, Eq, Structural, Debug)]
pub enum Color {
    Reset,
    Idx(u8),
}

impl Default for Color {
    fn default() -> (r: Color)
        ensures
            r == Color::Reset,
    {
        Color::Reset
    }
}

pub const BOLD: u8 = 1;

pub const DIM: u8 = 2;

pub const ITALIC: u8 = 4;

pub const UNDERLINE: u8 = 8;

pub const REVERSE: u8 = 16;

/// Colors and attributes of a cell.
#[derive(Clone, Copy, PartialEq, Eq, Structural, Debug)]
pub struct Style {
    pub fg: Color,
    pub bg: Color,
    pub attr: u8,
}

impl Default for Style {
    fn default() -> (r: Style)
        ensures
            r == Style::plain(),
    {
        Style::plain()
    }
}

impl Style {
    /// The terminal's own colors, no attributes.
    #[verifier::allow_in_spec]
    pub fn plain() -> (r: Style)
        returns
            (Style { fg: Color::Reset, bg: Color::Reset, attr: 0 }),
    {
        Style { fg: Color::Reset, bg: Color::Reset, attr: 0 }
    }

    /// The plain style with foreground color `c`.
    #[verifier::allow_in_spec]
    pub fn fg(c: u8) -> (r: Style)
        returns
            (Style { fg: Color::Idx(c), bg: Color::Reset, attr: 0 }),
    {
        Style { fg: Color::Idx(c), bg: Color::Reset, attr: 0 }
    }

    /// The same style with foreground color `c`.
    #[verifier::allow_in_spec]
    pub fn with_fg(self, c: u8) -> (r: Style)
        returns
            (Style { fg: Color::Idx(c), ..self }),
    {
        Style { fg: Color::Idx(c), bg: self.bg, attr: self.attr }
    }

    /// The same style with background color `c`.
    #[verifier::allow_in_spec]
    pub fn with_bg(self, c: u8) -> (r: Style)
        returns
            (Style { bg: Color::Idx(c), ..self }),
    {
        Style { fg: self.fg, bg: Color::Idx(c), attr: self.attr }
    }

    /// The same style with the attributes `a` added.
    #[verifier::allow_in_spec]
    pub fn attr(self, a: u8) -> (r: Style)
        returns
            (Style { attr: self.attr | a, ..self }),
    {
        Style { fg: self.fg, bg: self.bg, attr: self.attr | a }
    }
}

/// A rectangle of cells.
#[derive(Clone, Copy, PartialEq, Eq, Structural, Debug)]
pub struct Rect {
    pub x: u16,
    pub y: u16,
    pub w: u16,
    pub h: u16,
}

impl Default for Rect {
    fn default() -> (r: Rect)
        ensures
            r == (Rect { x: 0, y: 0, w: 0, h: 0 }),
    {
        Rect { x: 0, y: 0, w: 0, h: 0 }
    }
}

impl Rect {
    /// Whether the cell `(x, y)` lies inside.
    pub open spec fn has(&self, x: int, y: int) -> bool {
        self.x <= x < self.x + self.w && self.y <= y < self.y + self.h
    }

    /// Whether the rectangle ends within the range of coordinates.
    pub open spec fn in_range(&self) -> bool {
        self.x + self.w <= u16::MAX && self.y + self.h <= u16::MAX
    }

    /// What is left inside a border of one cell.
    pub open spec fn inside(&self) -> Rect {
        Rect {
            x: (self.x + 1) as u16,
            y: (self.y + 1) as u16,
            w: if self.w < 2 {
                0
            } else {
                (self.w - 2) as u16
            },
            h: if self.h < 2 {
                0
            } else {
                (self.h - 2) as u16
            },
        }
    }

    pub fn contains(&self, x: u16, y: u16) -> (r: bool)
        ensures
            r == self.has(x as int, y as int),
    {
        x >= self.x && y >= self.y && x - self.x < self.w && y - self.y < self.h
    }

    pub fn inner(&self) -> (r: Rect)
        requires
            self.x < u16::MAX,
            self.y < u16::MAX,
        ensures
            r == self.inside(),
    {
        Rect {
            x: self.x + 1,
            y: self.y + 1,
            w: self.w.saturating_sub(2),
            h: self.h.saturating_sub(2),
        }
    }

    pub fn right(&self) -> (r: u16)
        requires
            self.x + self.w <= u16::MAX,
        ensures
            r == self.x + self.w,
    {
        self.x + self.w
    }
}

// ---------------------------------------------------------------------------
// Character widths
// ---------------------------------------------------------------------------

/// Combining marks and other characters that take no column.
pub open spec fn zero_width(cp: u32) -> bool {
    ||| 0x0300 <= cp <= 0x036F
    ||| 0x0483 <= cp <= 0x0489
    ||| 0x0591 <= cp <= 0x05BD
    ||| 0x0610 <= cp <= 0x061A
    ||| 0x064B <= cp <= 0x065F
    ||| 0x1AB0 <= cp <= 0x1AFF
    ||| 0x1DC0 <= cp <= 0x1DFF
    ||| 0x200B <= cp <= 0x200F
    ||| 0x202A <= cp <= 0x202E
    ||| 0x2060 <= cp <= 0x2064
    ||| 0x20D0 <= cp <= 0x20FF
    ||| 0xFE00 <= cp <= 0xFE0F
    ||| 0xFE20 <= cp <= 0xFE2F
    ||| cp == 0xFEFF
    ||| 0xE0100 <= cp <= 0xE01EF
}

/// Characters that take two columns.
pub open spec fn double_width(cp: u32) -> bool {
    ||| 0x1100 <= cp <= 0x115F
    ||| 0x231A <= cp <= 0x231B
    ||| 0x2329 <= cp <= 0x232A
    ||| 0x23E9 <= cp <= 0x23EC
    ||| cp == 0x23F0
    ||| cp == 0x23F3
    ||| 0x25FD <= cp <= 0x25FE
    ||| 0x2614 <= cp <= 0x2615
    ||| 0x2648 <= cp <= 0x2653
    ||| cp == 0x267F
    ||| cp == 0x2693
    ||| cp == 0x26A1
    ||| 0x26AA <= cp <= 0x26AB
    ||| 0x26BD <= cp <= 0x26BE
    ||| 0x26C4 <= cp <= 0x26C5
    ||| cp == 0x26CE
    ||| cp == 0x26D4
    ||| cp == 0x26EA
    ||| 0x26F2 <= cp <= 0x26F3
    ||| cp == 0x26F5
    ||| cp == 0x26FA
    ||| cp == 0x26FD
    ||| cp == 0x2705
    ||| 0x270A <= cp <= 0x270B
    ||| cp == 0x2728
    ||| cp == 0x274C
    ||| cp == 0x274E
    ||| 0x2753 <= cp <= 0x2755
    ||| cp == 0x2757
    ||| 0x2795 <= cp <= 0x2797
    ||| cp == 0x27B0
    ||| cp == 0x27BF
    ||| 0x2B1B <= cp <= 0x2B1C
    ||| cp == 0x2B50
    ||| cp == 0x2B55
    ||| 0x2E80 <= cp <= 0x303E
    ||| 0x3041 <= cp <= 0x33FF
    ||| 0x3400 <= cp <= 0x4DBF
    ||| 0x4E00 <= cp <= 0x9FFF
    ||| 0xA000 <= cp <= 0xA4CF
    ||| 0xA960 <= cp <= 0xA97F
    ||| 0xAC00 <= cp <= 0xD7A3
    ||| 0xF900 <= cp <= 0xFAFF
    ||| 0xFE10 <= cp <= 0xFE19
    ||| 0xFE30 <= cp <= 0xFE6F
    ||| 0xFF00 <= cp <= 0xFF60
    ||| 0xFFE0 <= cp <= 0xFFE6
    ||| cp == 0x1F004
    ||| cp == 0x1F0CF
    ||| cp == 0x1F18E
    ||| 0x1F191 <= cp <= 0x1F19A
    ||| 0x1F200 <= cp <= 0x1F251
    ||| 0x1F300 <= cp <= 0x1F64F
    ||| 0x1F680 <= cp <= 0x1F6FF
    ||| 0x1F7E0 <= cp <= 0x1F7EB
    ||| 0x1F90C <= cp <= 0x1F9FF
    ||| 0x1FA70 <= cp <= 0x1FAFF
    ||| 0x20000 <= cp <= 0x3FFFD
}

/// Terminal columns that a character takes.
#[verifier::opaque]
pub open spec fn width_of(c: char) -> int {
    if zero_width(c as u32) {
        0
    } else if double_width(c as u32) {
        2
    } else {
        1
    }
}

/// Terminal columns that a text takes.
pub open spec fn text_width(s: Seq<char>) -> int
    decreases s.len(),
{
    if s.len() == 0 {
        0
    } else {
        text_width(s.drop_last()) + width_of(s.last())
    }
}

/// Terminal column width of a character (0, 1 or 2). A compact wcwidth.
pub fn char_width(c: char) -> (r: usize)
    ensures
        r == width_of(c),
        r <= 2,
{
    proof {
        reveal(width_of);
    }
    let cp = c as u32;
    if cp < 0x300 {
        return 1;
    }
    if matches!(cp,
        0x0300..=0x036F | 0x0483..=0x0489 | 0x0591..=0x05BD | 0x0610..=0x061A
        | 0x064B..=0x065F | 0x1AB0..=0x1AFF | 0x1DC0..=0x1DFF | 0x200B..=0x200F
        | 0x202A..=0x202E | 0x2060..=0x2064 | 0x20D0..=0x20FF | 0xFE00..=0xFE0F
        | 0xFE20..=0xFE2F | 0xFEFF | 0xE0100..=0xE01EF)
    {
        return 0;
    }
    if matches!(cp,
        0x1100..=0x115F | 0x231A..=0x231B | 0x2329..=0x232A | 0x23E9..=0x23EC
        | 0x23F0 | 0x23F3 | 0x25FD..=0x25FE | 0x2614..=0x2615 | 0x2648..=0x2653
        | 0x267F | 0x2693 | 0x26A1 | 0x26AA..=0x26AB | 0x26BD..=0x26BE
        | 0x26C4..=0x26C5 | 0x26CE | 0x26D4 | 0x26EA | 0x26F2..=0x26F3 | 0x26F5
        | 0x26FA | 0x26FD | 0x2705 | 0x270A..=0x270B | 0x2728 | 0x274C | 0x274E
        | 0x2753..=0x2755 | 0x2757 | 0x2795..=0x2797 | 0x27B0 | 0x27BF
        | 0x2B1B..=0x2B1C | 0x2B50 | 0x2B55 | 0x2E80..=0x303E | 0x3041..=0x33FF
        | 0x3400..=0x4DBF | 0x4E00..=0x9FFF | 0xA000..=0xA4CF | 0xA960..=0xA97F
        | 0xAC00..=0xD7A3 | 0xF900..=0xFAFF | 0xFE10..=0xFE19 | 0xFE30..=0xFE6F
        | 0xFF00..=0xFF60 | 0xFFE0..=0xFFE6 | 0x1F004 | 0x1F0CF | 0x1F18E
        | 0x1F191..=0x1F19A | 0x1F200..=0x1F251 | 0x1F300..=0x1F64F
        | 0x1F680..=0x1F6FF | 0x1F7E0..=0x1F7EB | 0x1F90C..=0x1F9FF
        | 0x1FA70..=0x1FAFF | 0x20000..=0x3FFFD)
    {
        return 2;
    }
    1
}

/// A character's width is 0, 1 or 2.
pub proof fn lemma_width_range(c: char)
    ensures
        0 <= width_of(c) <= 2,
        (c as u32) < 0x300 ==> width_of(c) == 1,
{
    reveal(width_of);
}

/// A text is at least as long in UTF-8 as it is wide.
pub proof fn lemma_width_le_bytes(s: Seq<char>)
    ensures
        0 <= text_width(s) <= vstd::utf8::encode_utf8(s).len(),
    decreases s.len(),
{
    if s.len() > 0 {
        lemma_width_le_bytes(s.drop_last());
        text::lemma_encode_push(s.drop_last(), s.last());
        assert(s.drop_last().push(s.last()) =~= s);
        reveal(width_of);
    }
}

/// The first characters of a text are no wider than the whole.
pub proof fn lemma_width_take(s: Seq<char>, k: int)
    requires
        0 <= k <= s.len(),
    ensures
        0 <= text_width(s.take(k)) <= text_width(s),
    decreases s.len(),
{
    lemma_width_le_bytes(s.take(k));
    if k < s.len() {
        assert(s.drop_last().take(k) =~= s.take(k));
        lemma_width_take(s.drop_last(), k);
        lemma_width_range(s.last());
    } else {
        assert(s.take(k) =~= s);
    }
}

/// A text takes at most two columns for each character.
pub proof fn lemma_width_le_twice(s: Seq<char>)
    ensures
        0 <= text_width(s) <= 2 * s.len(),
    decreases s.len(),
{
    if s.len() > 0 {
        lemma_width_le_twice(s.drop_last());
        lemma_width_range(s.last());
    }
}

/// Widths add up.
pub proof fn lemma_width_concat(a: Seq<char>, b: Seq<char>)
    ensures
        text_width(a + b) == text_width(a) + text_width(b),
    decreases b.len(),
{
    if b.len() == 0 {
        assert(a + b =~= a);
    } else {
        assert((a + b).drop_last() =~= a + b.drop_last());
        lemma_width_concat(a, b.drop_last());
    }
}

/// Terminal column width of a string.
pub fn str_width(s: &str) -> (r: usize)
    ensures
        r == text_width(s@),
{
    let bytes: usize = s.as_bytes().len();
    let mut w: usize = 0;
    for c in it: s.chars()
        invariant
            w == text_width(it.seq().take(it.index())),
            it.seq() == s@,
            bytes == vstd::utf8::encode_utf8(s@).len(),
    {
        proof {
            let k = it.index();
            lemma_width_take(s@, k + 1);
            lemma_width_le_bytes(s@);
            assert(s@.take(k + 1).drop_last() =~= s@.take(k));
        }
        w += char_width(c);
    }
    assert(s@.take(s@.len() as int) =~= s@);
    w
}

/// How many of the first characters of a text fit into `room` columns.
pub open spec fn fit(s: Seq<char>, room: int) -> int
    decreases s.len(),
{
    if s.len() == 0 || text_width(s) <= room {
        s.len() as int
    } else {
        fit(s.drop_last(), room)
    }
}

/// The first part of a text, as far as it fits into `room` columns.
pub open spec fn fitting(s: Seq<char>, room: int) -> Seq<char> {
    s.take(fit(s, room))
}

/// What `fit` counts: the longest prefix that is not too wide.
proof fn lemma_fit(s: Seq<char>, room: int, k: int)
    requires
        0 <= k <= s.len(),
        0 <= room,
        text_width(s.take(k)) <= room,
        k < s.len() ==> text_width(s.take(k + 1)) > room,
    ensures
        fit(s, room) == k,
    decreases s.len(),
{
    if k == s.len() {
        assert(s.take(k) =~= s);
    } else {
        lemma_width_take(s, k + 1);
        let t = s.drop_last();
        assert(t.take(k) =~= s.take(k));
        if k < t.len() {
            assert(t.take(k + 1) =~= s.take(k + 1));
        }
        lemma_fit(t, room, k);
    }
}

/// The fitting part of a text is a prefix of it and does fit.
pub proof fn lemma_fitting(s: Seq<char>, room: int)
    requires
        0 <= room,
    ensures
        0 <= fit(s, room) <= s.len(),
        0 <= text_width(fitting(s, room)) <= room,
        text_width(s) <= room ==> fitting(s, room) == s,
    decreases s.len(),
{
    lemma_width_le_bytes(fitting(s, room));
    if s.len() == 0 || text_width(s) <= room {
        assert(s.take(s.len() as int) =~= s);
    } else {
        lemma_fitting(s.drop_last(), room);
        assert(fitting(s, room) =~= fitting(s.drop_last(), room));
    }
}

// ---------------------------------------------------------------------------
// Drawing
// ---------------------------------------------------------------------------

/// One character cell.
#[derive(Clone, Copy, PartialEq, Eq, Structural, Debug)]
pub struct Cell {
    pub ch: char,
    pub st: Style,
}

/// Marks the right half of a double-width character.
pub const CONT: char = '\0';

impl Cell {
    #[verifier::allow_in_spec]
    pub fn blank() -> (r: Cell)
        returns
            (Cell { ch: ' ', st: Style::plain() }),
    {
        Cell { ch: ' ', st: Style::plain() }
    }
}

/// The contents of a screen: `w * h` cells, row by row.
#[verifier::ext_equal]
pub struct Grid {
    pub w: int,
    pub h: int,
    pub cells: Seq<Cell>,
}

/// `cells` with the character of cell `i` blanked.
pub open spec fn erased(cells: Seq<Cell>, i: int) -> Seq<Cell> {
    cells.update(i, Cell { ch: ' ', st: cells[i].st })
}

impl Grid {
    pub open spec fn wf(&self) -> bool {
        &&& 0 <= self.w <= u16::MAX
        &&& 0 <= self.h <= u16::MAX
        &&& self.cells.len() == self.w * self.h
    }

    /// Number of the cell in column `x` of row `y`.
    pub open spec fn index(&self, x: int, y: int) -> int {
        y * self.w + x
    }

    /// The cell in column `x` of row `y`.
    pub open spec fn at(&self, x: int, y: int) -> Cell {
        self.cells[self.index(x, y)]
    }

    /// A blank grid.
    pub open spec fn blank(w: int, h: int) -> Grid {
        Grid { w, h, cells: Seq::new((w * h) as nat, |i: int| Cell::blank()) }
    }

    /// Puts a character into cell `(x, y)`. Outside the grid nothing happens,
    /// nor with a character that takes no column. A double-width character
    /// also takes the next cell; in the last column it is shown as a space.
    /// Where half of a double-width character is overwritten, its other half
    /// is blanked.
    #[verifier::opaque]
    pub open spec fn put(self, x: int, y: int, ch: char, st: Style) -> Grid {
        if !(0 <= x < self.w && 0 <= y < self.h) || width_of(ch) == 0 {
            self
        } else {
            let i = self.index(x, y);
            let wide = width_of(ch) == 2 && x + 1 < self.w;
            let shown = if width_of(ch) == 2 && !wide {
                ' '
            } else {
                ch
            };
            let old_ch = self.cells[i].ch;
            let a = if old_ch == CONT && x > 0 {
                erased(self.cells, i - 1)
            } else {
                self.cells
            };
            let b = if width_of(old_ch) == 2 && x + 1 < self.w {
                erased(a, i + 1)
            } else {
                a
            };
            let c = b.update(i, Cell { ch: shown, st });
            if wide {
                let d = if width_of(c[i + 1].ch) == 2 && x + 2 < self.w {
                    erased(c, i + 2)
                } else {
                    c
                };
                Grid { cells: d.update(i + 1, Cell { ch: CONT, st }), ..self }
            } else {
                Grid { cells: c, ..self }
            }
        }
    }

    /// Puts the characters of `s` one after the other.
    pub open spec fn write(self, x: int, y: int, s: Seq<char>, st: Style) -> Grid
        decreases s.len(),
    {
        if s.len() == 0 {
            self
        } else {
            self.write(x, y, s.drop_last(), st).put(
                x + text_width(s.drop_last()),
                y,
                s.last(),
                st,
            )
        }
    }

    /// Writes `s` clipped to `room` columns.
    pub open spec fn text(self, x: int, y: int, room: int, s: Seq<char>, st: Style) -> Grid {
        self.write(x, y, fitting(s, room), st)
    }

    /// Like `text`, but ends with '…' when `s` does not fit.
    pub open spec fn ellipsis(self, x: int, y: int, room: int, s: Seq<char>, st: Style) -> Grid {
        if room <= 0 {
            self
        } else if text_width(s) <= room {
            self.write(x, y, s, st)
        } else {
            self.text(x, y, room - 1, s, st).put(
                x + text_width(fitting(s, room - 1)),
                y,
                '…',
                st,
            )
        }
    }

    /// Puts `ch` into `n` cells of row `y`, from column `x` on.
    pub open spec fn hline(self, x: int, y: int, n: int, ch: char, st: Style) -> Grid
        decreases n,
    {
        if n <= 0 {
            self
        } else {
            self.hline(x, y, n - 1, ch, st).put(x + n - 1, y, ch, st)
        }
    }

    /// Puts spaces into `h` rows of `w` cells.
    pub open spec fn fill_rows(self, x: int, y: int, w: int, h: int, st: Style) -> Grid
        decreases h,
    {
        if h <= 0 {
            self
        } else {
            self.fill_rows(x, y, w, h - 1, st).hline(x, y + h - 1, w, ' ', st)
        }
    }

    /// Puts spaces into every cell of `r`.
    pub open spec fn fill(self, r: Rect, st: Style) -> Grid {
        self.fill_rows(r.x as int, r.y as int, r.w as int, r.h as int, st)
    }

    /// Puts `│` into columns `x0` and `x1` of `n` rows, from row `y` on.
    pub open spec fn sides(self, x0: int, x1: int, y: int, n: int, st: Style) -> Grid
        decreases n,
    {
        if n <= 0 {
            self
        } else {
            self.sides(x0, x1, y, n - 1, st).put(x0, y + n - 1, '│', st).put(
                x1,
                y + n - 1,
                '│',
                st,
            )
        }
    }

    /// The edges and corners of a frame.
    pub open spec fn border(self, r: Rect, st: Style) -> Grid {
        let (x0, y0) = (r.x as int, r.y as int);
        let (x1, y1) = (r.x + r.w - 1, r.y + r.h - 1);
        self.put(x0, y0, '╭', st).put(x1, y0, '╮', st).put(x0, y1, '╰', st).put(
            x1,
            y1,
            '╯',
            st,
        ).hline(x0 + 1, y0, r.w - 2, '─', st).hline(x0 + 1, y1, r.w - 2, '─', st).sides(
            x0,
            x1,
            y0 + 1,
            r.h - 2,
            st,
        )
    }

    /// Rounded frame with a title on the top edge and a footer on the bottom
    /// edge, where there is room for them.
    pub open spec fn frame(
        self,
        r: Rect,
        title: Seq<char>,
        footer: Seq<char>,
        focused: bool,
    ) -> Grid {
        if r.w < 2 || r.h < 2 {
            self
        } else {
            let g = self.border(r, border_style(focused));
            let t = if title.len() > 0 && r.w > 4 {
                g.ellipsis(r.x + 1, r.y as int, r.w - 3, title, title_style(focused))
            } else {
                g
            };
            let fw = text_width(footer) % 0x1_0000;
            if footer.len() > 0 && fw + 4 <= r.w {
                t.text(
                    r.x + r.w - 2 - fw,
                    r.y + r.h - 1,
                    fw,
                    footer,
                    border_style(focused),
                )
            } else {
                t
            }
        }
    }
}

pub open spec fn border_style(focused: bool) -> Style {
    if focused {
        Style::fg(2).attr(BOLD)
    } else {
        Style::plain()
    }
}

pub open spec fn title_style(focused: bool) -> Style {
    if focused {
        Style::fg(2).attr(BOLD)
    } else {
        Style::plain().attr(BOLD)
    }
}

/// Drawing keeps the size of the grid.
pub proof fn lemma_put_size(g: Grid, x: int, y: int, ch: char, st: Style)
    ensures
        g.put(x, y, ch, st).w == g.w,
        g.put(x, y, ch, st).h == g.h,
        g.wf() ==> g.put(x, y, ch, st).wf(),
        !(0 <= x < g.w && 0 <= y < g.h) ==> g.put(x, y, ch, st) == g,
        width_of(ch) == 0 ==> g.put(x, y, ch, st) == g,
{
    reveal(Grid::put);
    if 0 <= x < g.w && 0 <= y < g.h {
        lemma_index(g.w, g.h, x, y);
    }
}

pub proof fn lemma_hline_size(g: Grid, x: int, y: int, n: int, ch: char, st: Style)
    ensures
        g.hline(x, y, n, ch, st).w == g.w,
        g.hline(x, y, n, ch, st).h == g.h,
        g.wf() ==> g.hline(x, y, n, ch, st).wf(),
        y >= g.h ==> g.hline(x, y, n, ch, st) == g,
    decreases n,
{
    if n > 0 {
        lemma_hline_size(g, x, y, n - 1, ch, st);
        lemma_put_size(g.hline(x, y, n - 1, ch, st), x + n - 1, y, ch, st);
    }
}

/// What a line would do beyond the right edge does not matter.
proof fn lemma_hline_clip(g: Grid, x: int, y: int, m: int, n: int, ch: char, st: Style)
    requires
        0 <= m <= n,
        x + m >= g.w,
    ensures
        g.hline(x, y, n, ch, st) == g.hline(x, y, m, ch, st),
    decreases n,
{
    if m < n {
        lemma_hline_clip(g, x, y, m, n - 1, ch, st);
        lemma_hline_size(g, x, y, n - 1, ch, st);
        lemma_put_size(g.hline(x, y, n - 1, ch, st), x + n - 1, y, ch, st);
    }
}

pub proof fn lemma_fill_size(g: Grid, x: int, y: int, w: int, h: int, st: Style)
    ensures
        g.fill_rows(x, y, w, h, st).w == g.w,
        g.fill_rows(x, y, w, h, st).h == g.h,
        g.wf() ==> g.fill_rows(x, y, w, h, st).wf(),
    decreases h,
{
    if h > 0 {
        lemma_fill_size(g, x, y, w, h - 1, st);
        lemma_hline_size(g.fill_rows(x, y, w, h - 1, st), x, y + h - 1, w, ' ', st);
    }
}

/// What filling would do below the last row does not matter.
proof fn lemma_fill_clip(g: Grid, x: int, y: int, w: int, m: int, h: int, st: Style)
    requires
        0 <= m <= h,
        y + m >= g.h,
    ensures
        g.fill_rows(x, y, w, h, st) == g.fill_rows(x, y, w, m, st),
    decreases h,
{
    if m < h {
        lemma_fill_clip(g, x, y, w, m, h - 1, st);
        lemma_fill_size(g, x, y, w, h - 1, st);
        lemma_hline_size(g.fill_rows(x, y, w, h - 1, st), x, y + h - 1, w, ' ', st);
    }
}

/// Where a cell stands in the grid.
pub proof fn lemma_index(w: int, h: int, x: int, y: int)
    requires
        0 <= x < w,
        0 <= y < h,
    ensures
        0 <= y * w <= y * w + x < w * h,
        x + 1 < w ==> y * w + x + 1 < w * h,
        x + 2 < w ==> y * w + x + 2 < w * h,
{
    assert(y * w + w <= w * h) by (nonlinear_arith)
        requires
            0 <= y < h,
            0 < w,
    ;
    assert(0 <= y * w) by (nonlinear_arith)
        requires
            0 <= y,
            0 < w,
    ;
}

/// A screen fits into memory.
pub proof fn lemma_area(w: int, h: int)
    requires
        0 <= w <= u16::MAX,
        0 <= h <= u16::MAX,
    ensures
        0 <= w * h <= 0xfffe_0001,
{
    assert(0 <= w * h <= 0xffff * 0xffff) by (nonlinear_arith)
        requires
            0 <= w <= 0xffff,
            0 <= h <= 0xffff,
    ;
}

/// The grid being drawn and the one last sent to the terminal.
pub struct Screen {
    pub w: u16,
    pub h: u16,
    pub cells: Vec<Cell>,
    pub prev: Vec<Cell>,
    /// Whether the next frame has to be sent in full.
    pub full: bool,
}

impl View for Screen {
    type V = Grid;

    open spec fn view(&self) -> Grid {
        Grid { w: self.w as int, h: self.h as int, cells: self.cells@ }
    }
}

impl Screen {
    pub open spec fn wf(&self) -> bool {
        &&& self@.wf()
        &&& self.prev@.len() == self.cells@.len()
    }

    /// What drawing leaves alone.
    pub open spec fn same_but_cells(&self, old_self: &Screen) -> bool {
        &&& self.wf()
        &&& self.w == old_self.w
        &&& self.h == old_self.h
        &&& self.prev@ == old_self.prev@
        &&& self.full == old_self.full
    }

    /// An empty screen.
    pub fn new() -> (r: Screen)
        ensures
            r.wf(),
            r@ == Grid::blank(0, 0),
            r.full,
    {
        let r = Screen { w: 0, h: 0, cells: Vec::new(), prev: Vec::new(), full: true };
        assert(r@ =~= Grid::blank(0, 0));
        r
    }

    /// Changes the size. A screen of another size starts blank and is sent in
    /// full.
    pub fn resize(&mut self, w: u16, h: u16)
        requires
            old(self).wf(),
        ensures
            final(self).wf(),
            w == old(self).w && h == old(self).h ==> *final(self) == *old(self),
            w != old(self).w || h != old(self).h ==> {
                &&& final(self)@ == Grid::blank(w as int, h as int)
                &&& final(self).prev@ == Grid::blank(w as int, h as int).cells
                &&& final(self).full
            },
    {
        if w != self.w || h != self.h {
            proof {
                lemma_area(w as int, h as int);
            }
            self.w = w;
            self.h = h;
            let n: usize = w as usize * h as usize;
            self.cells = vec![Cell::blank(); n];
            self.prev = vec![Cell::blank(); n];
            self.full = true;
            assert(self@ =~= Grid::blank(w as int, h as int));
            assert(self.prev@ =~= Grid::blank(w as int, h as int).cells);
        }
    }

    /// Blanks the whole grid.
    pub fn clear(&mut self)
        requires
            old(self).wf(),
        ensures
            final(self).same_but_cells(old(self)),
            final(self)@ == Grid::blank(old(self).w as int, old(self).h as int),
    {
        let mut i: usize = 0;
        while i < self.cells.len()
            invariant
                self.same_but_cells(old(self)),
                i <= self.cells@.len(),
                forall|j: int| 0 <= j < i ==> self.cells@[j] == Cell::blank(),
            decreases self.cells@.len() - i,
        {
            self.cells[i] = Cell::blank();
            i += 1;
        }
        assert(self@ =~= Grid::blank(old(self).w as int, old(self).h as int));
    }

    /// Puts one character on the grid.
    pub fn set(&mut self, x: u16, y: u16, ch: char, st: Style)
        requires
            old(self).wf(),
        ensures
            final(self).same_but_cells(old(self)),
            final(self)@ == old(self)@.put(x as int, y as int, ch, st),
    {
        proof {
            reveal(Grid::put);
        }
        if x >= self.w || y >= self.h {
            return;
        }
        let mut shown = ch;
        let mut cw = char_width(ch);
        if cw == 0 {
            return;
        }
        if cw == 2 && x + 1 >= self.w {
            shown = ' ';
            cw = 1;
        }
        proof {
            lemma_area(self.w as int, self.h as int);
            lemma_index(self.w as int, self.h as int, x as int, y as int);
        }
        let i: usize = y as usize * self.w as usize + x as usize;
        let was = self.cells[i];
        // Overwriting half of a wide character: blank the other half.
        if was.ch == CONT && x > 0 {
            let left = self.cells[i - 1];
            self.cells[i - 1] = Cell { ch: ' ', st: left.st };
        }
        if char_width(was.ch) == 2 && x + 1 < self.w {
            let next = self.cells[i + 1];
            self.cells[i + 1] = Cell { ch: ' ', st: next.st };
        }
        self.cells[i] = Cell { ch: shown, st };
        if cw == 2 {
            let next = self.cells[i + 1];
            if char_width(next.ch) == 2 && x + 2 < self.w {
                let after = self.cells[i + 2];
                self.cells[i + 2] = Cell { ch: ' ', st: after.st };
            }
            self.cells[i + 1] = Cell { ch: CONT, st };
        }
        assert(self@ =~= old(self)@.put(x as int, y as int, ch, st));
    }

    /// Puts a character at a column that may lie beyond the last one.
    fn set_at(&mut self, x: u32, y: u16, ch: char, st: Style)
        requires
            old(self).wf(),
        ensures
            final(self).same_but_cells(old(self)),
            final(self)@ == old(self)@.put(x as int, y as int, ch, st),
    {
        if x < self.w as u32 {
            self.set(x as u16, y, ch, st);
        } else {
            proof {
                lemma_put_size(self@, x as int, y as int, ch, st);
            }
        }
    }

    /// Draws `s` clipped to `max_w` columns. Returns the width used.
    pub fn text(&mut self, x: u16, y: u16, max_w: u16, s: &str, st: Style) -> (r: u16)
        requires
            old(self).wf(),
        ensures
            final(self).same_but_cells(old(self)),
            final(self)@ == old(self)@.text(x as int, y as int, max_w as int, s@, st),
            r == text_width(fitting(s@, max_w as int)),
            r <= max_w,
    {
        let chars = text::chars_of(s);
        let mut used: u16 = 0;
        let mut k: usize = 0;
        assert(s@.take(0) =~= Seq::<char>::empty());
        while k < chars.len()
            invariant
                chars@ == s@,
                k <= chars@.len(),
                used == text_width(s@.take(k as int)),
                used <= max_w,
                self.same_but_cells(old(self)),
                self@ == old(self)@.write(x as int, y as int, s@.take(k as int), st),
            decreases chars@.len() - k,
        {
            let c = chars[k];
            let cw = char_width(c) as u16;
            proof {
                let t = s@.take(k + 1);
                assert(t.drop_last() =~= s@.take(k as int));
                assert(t.last() == c);
            }
            if cw > max_w - used {
                proof {
                    lemma_fit(s@, max_w as int, k as int);
                }
                return used;
            }
            if cw > 0 {
                self.set_at(x as u32 + used as u32, y, c, st);
            } else {
                proof {
                    lemma_put_size(self@, x + used, y as int, c, st);
                }
            }
            used = used + cw;
            k += 1;
        }
        proof {
            lemma_fit(s@, max_w as int, k as int);
        }
        used
    }

    /// Like `text`, but ends with '…' when `s` does not fit.
    pub fn text_ellipsis(&mut self, x: u16, y: u16, max_w: u16, s: &str, st: Style) -> (r: u16)
        requires
            old(self).wf(),
        ensures
            final(self).same_but_cells(old(self)),
            final(self)@ == old(self)@.ellipsis(x as int, y as int, max_w as int, s@, st),
            r == if max_w == 0 {
                0
            } else if text_width(s@) <= max_w {
                text_width(s@)
            } else {
                text_width(fitting(s@, max_w - 1)) + 1
            },
            r <= max_w,
    {
        if max_w == 0 {
            return 0;
        }
        if str_width(s) <= max_w as usize {
            proof {
                lemma_fitting(s@, max_w as int);
            }
            return self.text(x, y, max_w, s, st);
        }
        let used = self.text(x, y, max_w - 1, s, st);
        self.set_at(x as u32 + used as u32, y, '…', st);
        used + 1
    }

    /// Puts spaces into every cell of `r`.
    pub fn fill(&mut self, r: Rect, st: Style)
        requires
            old(self).wf(),
        ensures
            final(self).same_but_cells(old(self)),
            final(self)@ == old(self)@.fill(r, st),
    {
        let mut j: u16 = 0;
        while j < r.h && (r.y as u32 + j as u32) < self.h as u32
            invariant
                j <= r.h,
                self.same_but_cells(old(self)),
                self@ == old(self)@.fill_rows(r.x as int, r.y as int, r.w as int, j as int, st),
            decreases r.h - j,
        {
            self.hline(r.x, r.y + j, r.w, ' ', st);
            j += 1;
        }
        proof {
            if j < r.h {
                lemma_fill_clip(
                    old(self)@,
                    r.x as int,
                    r.y as int,
                    r.w as int,
                    j as int,
                    r.h as int,
                    st,
                );
            }
        }
    }

    /// Puts `ch` into `w` cells of a row.
    pub fn hline(&mut self, x: u16, y: u16, w: u16, ch: char, st: Style)
        requires
            old(self).wf(),
        ensures
            final(self).same_but_cells(old(self)),
            final(self)@ == old(self)@.hline(x as int, y as int, w as int, ch, st),
    {
        let mut i: u16 = 0;
        while i < w && (x as u32 + i as u32) < self.w as u32
            invariant
                i <= w,
                self.same_but_cells(old(self)),
                self@ == old(self)@.hline(x as int, y as int, i as int, ch, st),
            decreases w - i,
        {
            self.set(x + i, y, ch, st);
            i += 1;
        }
        proof {
            if i < w {
                lemma_hline_clip(old(self)@, x as int, y as int, i as int, w as int, ch, st);
            }
        }
    }

    /// The edges and corners of a frame.
    fn border(&mut self, r: Rect, st: Style)
        requires
            old(self).wf(),
            r.in_range(),
            r.w >= 2,
            r.h >= 2,
        ensures
            final(self).same_but_cells(old(self)),
            final(self)@ == old(self)@.border(r, st),
    {
        let x1: u16 = r.x + (r.w - 1);
        let y1: u16 = r.y + (r.h - 1);
        self.set(r.x, r.y, '╭', st);
        self.set(x1, r.y, '╮', st);
        self.set(r.x, y1, '╰', st);
        self.set(x1, y1, '╯', st);
        self.hline(r.x + 1, r.y, r.w - 2, '─', st);
        self.hline(r.x + 1, y1, r.w - 2, '─', st);
        let ghost g = self@;
        let mut y: u16 = r.y + 1;
        while y < y1
            invariant
                r.y + 1 <= y <= y1,
                x1 == r.x + r.w - 1,
                y1 == r.y + r.h - 1,
                self.same_but_cells(old(self)),
                self@ == g.sides(r.x as int, x1 as int, r.y + 1, y - r.y - 1, st),
            decreases y1 - y,
        {
            self.set(r.x, y, '│', st);
            self.set(x1, y, '│', st);
            y += 1;
        }
    }

    /// Rounded frame with a title on the top edge and a footer on the bottom
    /// edge.
    pub fn frame(&mut self, r: Rect, title: &str, footer: &str, focused: bool)
        requires
            old(self).wf(),
            r.w < 2 || r.h < 2 || r.in_range(),
        ensures
            final(self).same_but_cells(old(self)),
            final(self)@ == old(self)@.frame(r, title@, footer@, focused),
    {
        if r.w < 2 || r.h < 2 {
            return;
        }
        let border = if focused {
            Style::fg(2).attr(BOLD)
        } else {
            Style::plain()
        };
        self.border(r, border);
        if !title.is_empty() && r.w > 4 {
            let st = if focused {
                Style::fg(2).attr(BOLD)
            } else {
                Style::plain().attr(BOLD)
            };
            self.text_ellipsis(r.x + 1, r.y, r.w - 3, title, st);
        }
        let fw: u16 = low_half(str_width(footer));
        if !footer.is_empty() && fw as u32 + 4 <= r.w as u32 {
            self.text(r.x + (r.w - 2 - fw), r.y + (r.h - 1), fw, footer, border);
        }
    }
}

/// The low 16 bits of a number.
pub fn low_half(n: usize) -> (r: u16)
    ensures
        r == n % 0x1_0000,
        n <= u16::MAX ==> r == n,
{
    assert(n as u16 == n % 0x1_0000) by (bit_vector);
    n as u16
}

// ---------------------------------------------------------------------------
// Sending a frame
// ---------------------------------------------------------------------------

/// What the terminal is told.
pub enum Op {
    /// Reset the style and clear the screen.
    Clear,
    /// Move the cursor to a column and row.
    Goto(int, int),
    /// Use a style from here on.
    Paint(Style),
    /// Show a character at the cursor.
    Show(char),
    /// Go back to the plain style.
    Reset,
}

/// Code of a color, where `base` is 30 for the foreground and 40 for the
/// background: the eight basic colors, their bright forms, or the palette.
pub open spec fn color_code(base: int, c: Color) -> Seq<u8> {
    match c {
        Color::Reset => seq![],
        Color::Idx(n) => if n < 8 {
            seq![0x3bu8] + text::decimal_bytes((base + n) as nat)
        } else if n < 16 {
            seq![0x3bu8] + text::decimal_bytes((base + 60 + n - 8) as nat)
        } else {
            seq![0x3bu8] + text::decimal_bytes((base + 8) as nat) + seq![0x3bu8, 0x35, 0x3b]
                + text::decimal_bytes(n as nat)
        },
    }
}

/// Code of an attribute, when the style has it.
pub open spec fn attr_code(attr: u8, bit: u8, code: u8) -> Seq<u8> {
    if attr & bit != 0 {
        seq![0x3bu8, code]
    } else {
        seq![]
    }
}

/// The "select graphic rendition" sequence of a style.
pub open spec fn sgr(st: Style) -> Seq<u8> {
    seq![0x1bu8, 0x5b, 0x30] + attr_code(st.attr, BOLD, 0x31) + attr_code(st.attr, DIM, 0x32)
        + attr_code(st.attr, ITALIC, 0x33) + attr_code(st.attr, UNDERLINE, 0x34) + attr_code(
        st.attr,
        REVERSE,
        0x37,
    ) + color_code(30, st.fg) + color_code(40, st.bg) + seq![0x6du8]
}

/// The bytes that tell the terminal to do something.
pub open spec fn op_bytes(op: Op) -> Seq<u8> {
    match op {
        Op::Clear => seq![0x1bu8, 0x5b, 0x30, 0x6d, 0x1b, 0x5b, 0x32, 0x4a],
        Op::Goto(x, y) => seq![0x1bu8, 0x5b] + text::decimal_bytes((y + 1) as nat) + seq![0x3bu8]
            + text::decimal_bytes((x + 1) as nat) + seq![0x48u8],
        Op::Paint(st) => sgr(st),
        Op::Show(c) => vstd::utf8::encode_utf8(seq![c]),
        Op::Reset => seq![0x1bu8, 0x5b, 0x30, 0x6d],
    }
}

/// The bytes of several instructions, one after the other.
pub open spec fn ops_bytes(ops: Seq<Op>) -> Seq<u8>
    decreases ops.len(),
{
    if ops.len() == 0 {
        seq![]
    } else {
        ops_bytes(ops.drop_last()) + op_bytes(ops.last())
    }
}

proof fn lemma_ops_push(ops: Seq<Op>, op: Op)
    ensures
        ops_bytes(ops.push(op)) == ops_bytes(ops) + op_bytes(op),
{
    assert(ops.push(op).drop_last() =~= ops);
}

/// A frame being put together: the instructions so far, and the style and the
/// cursor position that they leave.
#[verifier::ext_equal]
pub struct Pen {
    pub ops: Seq<Op>,
    pub st: Option<Style>,
    pub pos: Option<(int, int)>,
}

impl Pen {
    /// Goes on with the cell in column `x` of row `y`.
    pub open spec fn show(self, x: int, y: int, c: Cell) -> Pen {
        let a = if self.pos == Some((x, y)) {
            self.ops
        } else {
            self.ops.push(Op::Goto(x, y))
        };
        let b = if self.st == Some(c.st) {
            a
        } else {
            a.push(Op::Paint(c.st))
        };
        Pen {
            ops: b.push(Op::Show(c.ch)),
            st: Some(c.st),
            pos: Some((x + width_of(c.ch), y)),
        }
    }
}

/// Whether cell `i` has to be sent.
pub open spec fn is_sent(cells: Seq<Cell>, prev: Seq<Cell>, full: bool, i: int) -> bool {
    cells[i].ch != CONT && (full || cells[i] != prev[i])
}

/// The frame after the first `n` cells.
pub open spec fn emit(cells: Seq<Cell>, prev: Seq<Cell>, full: bool, w: int, n: int) -> Pen
    decreases n,
{
    if n <= 0 {
        Pen {
            ops: if full {
                seq![Op::Clear]
            } else {
                seq![]
            },
            st: None,
            pos: None,
        }
    } else {
        let p = emit(cells, prev, full, w, n - 1);
        if is_sent(cells, prev, full, n - 1) {
            p.show((n - 1) % w, (n - 1) / w, cells[n - 1])
        } else {
            p
        }
    }
}

/// The instructions that turn a terminal showing `prev` (or anything, when
/// `full`) into one showing `cells`.
pub open spec fn frame_ops(cells: Seq<Cell>, prev: Seq<Cell>, full: bool, w: int) -> Seq<Op> {
    let p = emit(cells, prev, full, w, cells.len() as int);
    if p.st is Some {
        p.ops.push(Op::Reset)
    } else {
        p.ops
    }
}

fn push_code(out: &mut Vec<u8>, attr: u8, bit: u8, code: u8)
    ensures
        final(out)@ == old(out)@ + attr_code(attr, bit, code),
{
    if attr & bit != 0 {
        out.push(0x3b);
        out.push(code);
    }
    assert(out@ =~= old(out)@ + attr_code(attr, bit, code));
}

fn push_color(out: &mut Vec<u8>, base: u64, c: Color)
    requires
        base <= 100,
    ensures
        final(out)@ == old(out)@ + color_code(base as int, c),
{
    if let Color::Idx(n) = c {
        out.push(0x3b);
        if n < 8 {
            text::push_decimal(out, base + n as u64);
        } else if n < 16 {
            text::push_decimal(out, base + 60 + n as u64 - 8);
        } else {
            text::push_decimal(out, base + 8);
            out.push(0x3b);
            out.push(0x35);
            out.push(0x3b);
            text::push_decimal(out, n as u64);
        }
    }
    assert(out@ =~= old(out)@ + color_code(base as int, c));
}

/// Appends the escape sequence that selects a style.
pub fn write_sgr(out: &mut Vec<u8>, st: Style)
    ensures
        final(out)@ == old(out)@ + sgr(st),
{
    out.push(0x1b);
    out.push(0x5b);
    out.push(0x30);
    push_code(out, st.attr, BOLD, 0x31);
    push_code(out, st.attr, DIM, 0x32);
    push_code(out, st.attr, ITALIC, 0x33);
    push_code(out, st.attr, UNDERLINE, 0x34);
    push_code(out, st.attr, REVERSE, 0x37);
    push_color(out, 30, st.fg);
    push_color(out, 40, st.bg);
    out.push(0x6d);
    assert(out@ =~= old(out)@ + sgr(st));
}

fn write_goto(out: &mut Vec<u8>, x: usize, y: usize)
    requires
        x < u32::MAX,
        y < u32::MAX,
    ensures
        final(out)@ == old(out)@ + op_bytes(Op::Goto(x as int, y as int)),
{
    out.push(0x1b);
    out.push(0x5b);
    text::push_decimal(out, y as u64 + 1);
    out.push(0x3b);
    text::push_decimal(out, x as u64 + 1);
    out.push(0x48);
    assert(out@ =~= old(out)@ + op_bytes(Op::Goto(x as int, y as int)));
}

fn write_char(out: &mut Vec<u8>, c: char)
    ensures
        final(out)@ == old(out)@ + op_bytes(Op::Show(c)),
{
    let mut s = String::new();
    s.push(c);
    out.extend_from_slice(s.as_str().as_bytes());
    assert(s@ =~= seq![c]);
    assert(out@ =~= old(out)@ + op_bytes(Op::Show(c)));
}

fn write_reset(out: &mut Vec<u8>)
    ensures
        final(out)@ == old(out)@ + op_bytes(Op::Reset),
{
    out.push(0x1b);
    out.push(0x5b);
    out.push(0x30);
    out.push(0x6d);
    assert(out@ =~= old(out)@ + op_bytes(Op::Reset));
}

fn write_clear(out: &mut Vec<u8>)
    ensures
        final(out)@ == old(out)@ + op_bytes(Op::Clear),
{
    write_reset(out);
    out.push(0x1b);
    out.push(0x5b);
    out.push(0x32);
    out.push(0x4a);
    assert(out@ =~= old(out)@ + op_bytes(Op::Clear));
}

impl Screen {
    /// The bytes that bring the terminal up to date, followed by `extra` raw
    /// bytes. From then on the grid counts as sent.
    pub fn present(&mut self, extra: &[u8]) -> (out: Vec<u8>)
        requires
            old(self).wf(),
        ensures
            out@ == ops_bytes(
                frame_ops(old(self).cells@, old(self).prev@, old(self).full, old(self).w as int),
            ) + extra@,
            final(self).wf(),
            final(self)@ == old(self)@,
            final(self).prev@ == old(self).cells@,
            !final(self).full,
    {
        let mut out: Vec<u8> = Vec::new();
        if self.full {
            write_clear(&mut out);
        }
        let w = self.w as usize;
        let mut cur_style: Option<Style> = None;
        let mut cur_pos: Option<(usize, usize)> = None;
        let ghost full = self.full;
        let ghost cells = self.cells@;
        let ghost prev = self.prev@;
        proof {
            assert(seq![Op::Clear].drop_last() =~= seq![]);
            assert(ops_bytes(seq![Op::Clear]) =~= op_bytes(Op::Clear)) by {
                reveal_with_fuel(ops_bytes, 2);
            }
            lemma_area(self.w as int, self.h as int);
        }
        let mut i: usize = 0;
        while i < self.cells.len()
            invariant
                *self == *old(self),
                self.wf(),
                w == self.w,
                cells == self.cells@,
                prev == self.prev@,
                full == self.full,
                i <= cells.len() <= 0xfffe_0001,
                ({
                    let p = emit(cells, prev, full, w as int, i as int);
                    &&& out@ == ops_bytes(p.ops)
                    &&& cur_style == p.st
                    &&& cur_pos is Some <==> p.pos is Some
                    &&& cur_pos matches Some(q) ==> p.pos == Some((q.0 as int, q.1 as int))
                }),
            decreases cells.len() - i,
        {
            let c = self.cells[i];
            let ghost p = emit(cells, prev, full, w as int, i as int);
            if c.ch == CONT || (!self.full && c == self.prev[i]) {
                i += 1;
                continue;
            }
            proof {
                assert(self.w > 0) by {
                    assert(self.w == 0 ==> self.w * self.h == 0) by (nonlinear_arith);
                }
                vstd::arithmetic::div_mod::lemma_fundamental_div_mod(i as int, w as int);
                vstd::arithmetic::div_mod::lemma_div_is_ordered_by_denominator(
                    i as int,
                    1,
                    w as int,
                );
            }
            let x = i % w;
            let y = i / w;
            let there = match cur_pos {
                Some(q) => q.0 == x && q.1 == y,
                None => false,
            };
            let ghost a = if there {
                p.ops
            } else {
                p.ops.push(Op::Goto(x as int, y as int))
            };
            if !there {
                write_goto(&mut out, x, y);
                proof {
                    lemma_ops_push(p.ops, Op::Goto(x as int, y as int));
                }
            }
            let painted = match cur_style {
                Some(st) => st == c.st,
                None => false,
            };
            let ghost b = if painted {
                a
            } else {
                a.push(Op::Paint(c.st))
            };
            if !painted {
                write_sgr(&mut out, c.st);
                proof {
                    lemma_ops_push(a, Op::Paint(c.st));
                }
                cur_style = Some(c.st);
            }
            write_char(&mut out, c.ch);
            proof {
                lemma_ops_push(b, Op::Show(c.ch));
            }
            cur_pos = Some((x + char_width(c.ch), y));
            i += 1;
            assert(emit(cells, prev, full, w as int, i as int) == p.show(x as int, y as int, c));
        }
        if cur_style.is_some() {
            write_reset(&mut out);
            proof {
                lemma_ops_push(
                    emit(cells, prev, full, w as int, cells.len() as int).ops,
                    Op::Reset,
                );
            }
        }
        out.extend_from_slice(extra);
        assert(out@ =~= ops_bytes(frame_ops(cells, prev, full, w as int)) + extra@);
        self.prev = copy_cells(&self.cells);
        self.full = false;
        out
    }
}

fn copy_cells(v: &Vec<Cell>) -> (r: Vec<Cell>)
    ensures
        r@ == v@,
{
    let mut r: Vec<Cell> = Vec::new();
    let mut i: usize = 0;
    while i < v.len()
        invariant
            i <= v@.len(),
            r@ == v@.take(i as int),
        decreases v@.len() - i,
    {
        r.push(v[i]);
        i += 1;
        assert(v@.take(i as int) =~= v@.take(i - 1).push(v@[i - 1]));
    }
    assert(v@.take(v@.len() as int) =~= v@);
    r
}

} // verus!
