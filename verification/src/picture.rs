//! What a frame shows of the program's state, and what drawing it changes: how
//! far things are scrolled, where they stand on the screen.

use crate::doc::{Layout, Table, MAX_COL_W};
use crate::screen::{Color, Grid, Rect, Style, BOLD, DIM, REVERSE, UNDERLINE};
use crate::state::{Cover, Focus, PromptKind, Record, State};
use crate::tree::{Explorer, Line};
use crate::{csv, doc, path, screen, search, text, tree, util, wrap};
use vstd::prelude::*;

verus! {

// Palette (terminal colors, so the user's theme is respected).
pub const GREEN: u8 = 2;

pub const YELLOW: u8 = 3;

pub const BLUE: u8 = 4;

pub const CYAN: u8 = 6;

pub const WHITE: u8 = 15;

pub const RED: u8 = 1;

pub const SEL_BG: u8 = 4;

pub const ROW_BG: u8 = 236;

pub const SEL_BG_UNFOCUSED: u8 = 240;

/// Plain and dim.
pub open spec fn dim() -> Style {
    Style::plain().attr(DIM)
}

/// The larger of a number and 0.
pub open spec fn at_least_0(n: int) -> int {
    if n < 0 {
        0
    } else {
        n
    }
}

/// Columns that a text takes when it is clipped to `room`.
pub open spec fn used(s: Seq<char>, room: int) -> int {
    screen::text_width(screen::fitting(s, room))
}

// ---------------------------------------------------------------------------
// Explorer
// ---------------------------------------------------------------------------

/// The background of an entry: that of the selection, stronger in the panel
/// that has the focus.
pub open spec fn entry_bg(selected: bool, focused: bool) -> Option<u8> {
    if !selected {
        None
    } else if focused {
        Some(SEL_BG)
    } else {
        Some(ROW_BG)
    }
}

/// A style on the background of an entry.
pub open spec fn on_bg(st: Style, bg: Option<u8>) -> Style {
    match bg {
        Some(b) => if b == SEL_BG {
            Style { fg: Color::Idx(WHITE), ..st }.with_bg(SEL_BG)
        } else {
            st.with_bg(b)
        },
        None => st,
    }
}

/// The mark before an entry's name.
pub open spec fn entry_icon(e: Line, open: Option<Seq<u8>>) -> &'static str {
    if e.is_dir {
        if e.expanded {
            "▾ "
        } else {
            "▸ "
        }
    } else if open matches Some(p) && path::same_path(p, e.path) {
        "● "
    } else {
        "  "
    }
}

/// The style of an entry's name.
pub open spec fn entry_style(e: Line, open: Option<Seq<u8>>) -> Style {
    if e.is_dir {
        Style::fg(BLUE).attr(BOLD)
    } else if open matches Some(p) && path::same_path(p, e.path) {
        Style::fg(GREEN).attr(BOLD)
    } else if tree::tabular(e.name) {
        Style::fg(GREEN)
    } else {
        dim()
    }
}

/// The size shown behind an entry's name; none for a directory.
pub open spec fn entry_size(e: Line) -> Seq<char> {
    if e.is_dir {
        seq![]
    } else {
        util::size_text(e.size as nat)
    }
}

/// The name of an entry and its size, from column `x` to column `right`.
pub open spec fn entry_name(
    g: Grid,
    e: Line,
    x: int,
    right: int,
    y: int,
    bg: Option<u8>,
    open: Option<Seq<u8>>,
) -> Grid {
    let size = entry_size(e);
    let sw = size.len() as int;
    let room = right - x;
    let fits = room > sw + 2;
    let a = g.ellipsis(
        x,
        y,
        if fits {
            room - sw - 1
        } else {
            room
        },
        e.name,
        on_bg(entry_style(e, open), bg),
    );
    if size.len() > 0 && fits {
        a.text(right - sw, y, sw, size, on_bg(dim(), bg))
    } else {
        a
    }
}

/// One line of the explorer.
pub open spec fn entry_line(
    g: Grid,
    e: Line,
    inner: Rect,
    y: int,
    bg: Option<u8>,
    open: Option<Seq<u8>>,
) -> Grid {
    let a = if bg is Some {
        g.fill_rows(inner.x as int, y, inner.w as int, 1, on_bg(Style::plain(), bg))
    } else {
        g
    };
    let x = inner.x + 1 + e.depth * 2;
    let right = at_least_0(inner.x + inner.w - 1);
    if x >= right {
        a
    } else {
        let icon = entry_icon(e, open)@;
        entry_name(
            a.text(x, y, right - x, icon, on_bg(entry_style(e, open), bg)),
            e,
            x + used(icon, right - x),
            right,
            y,
            bg,
            open,
        )
    }
}

/// The first `n` lines of the explorer that are on the screen.
pub open spec fn entry_lines(
    g: Grid,
    t: Explorer,
    inner: Rect,
    focused: bool,
    open: Option<Seq<u8>>,
    n: int,
) -> Grid
    decreases n,
{
    if n <= 0 {
        g
    } else {
        let i = t.off + n - 1;
        entry_line(
            entry_lines(g, t, inner, focused, open, n - 1),
            t.entries[i],
            inner,
            inner.y + n - 1,
            entry_bg(i == t.sel, focused),
            open,
        )
    }
}

/// The title of the explorer: its root, shortened to fit.
pub open spec fn tree_title(t: Explorer, home: Option<Seq<char>>, w: int) -> Seq<char> {
    " [1] "@ + util::tail_of(
        util::under_home(text::utf8_lossy(t.root), home),
        at_least_0(w - 10),
    ) + " "@
}

/// The footer of the explorer: which entry is selected.
pub open spec fn tree_footer(t: Explorer) -> Seq<char> {
    if t.entries.len() == 0 {
        seq![]
    } else {
        " "@ + text::decimal((t.sel + 1) as nat) + " of "@ + text::decimal(t.entries.len())
            + " "@
    }
}

/// The path of the open document.
pub open spec fn open_path(s: State) -> Option<Seq<u8>> {
    match s.doc {
        Some(d) => Some(d.path),
        None => None,
    }
}

/// How many lines of the explorer are on the screen.
pub open spec fn lines_shown(t: Explorer, height: int) -> int {
    vstd::math::min(height, t.entries.len() - t.off)
}

/// The explorer as it is drawn.
pub open spec fn tree_picture(s: State, g: Grid) -> Grid {
    let r = s.tree_rect;
    let inner = r.inside();
    let focused = s.focus == Focus::Tree;
    let a = g.frame(r, tree_title(s.tree, s.home, r.w as int), tree_footer(s.tree), focused);
    let t = s.tree.scrolled(inner.h as int);
    if t.entries.len() == 0 {
        a.text(
            inner.x + 1,
            inner.y as int,
            at_least_0(inner.w - 1),
            "(empty)"@,
            dim(),
        )
    } else {
        entry_lines(a, t, inner, focused, open_path(s), lines_shown(t, inner.h as int))
    }
}

/// The state after the explorer is drawn.
pub open spec fn tree_drawn(s: State) -> State {
    let h = s.tree_rect.inside().h as int;
    State { tree_page: h, tree: s.tree.scrolled(h), ..s }
}

// ---------------------------------------------------------------------------
// Welcome
// ---------------------------------------------------------------------------

pub const LOGO: [&'static str; 6] = [
    " _                                 ",
    "| | __ _ _____   _  ___ _____   __ ",
    "| |/ _` |_  / | | |/ __/ __\\ \\ / / ",
    "| | (_| |/ /| |_| | (__\\__ \\\\ V /  ",
    "|_|\\__,_/___|\\__, |\\___|___/ \\_/   ",
    "             |___/                 ",
];

pub const WELCOME: [&'static str; 5] = [
    "",
    "Pick a file in the explorer and press enter.",
    "",
    "tab  switch panel      /  search      ?  help",
    "e    toggle explorer   :  go to row   q  quit",
];

/// A line in the middle of a rectangle.
pub open spec fn centered_line(g: Grid, r: Rect, y: int, l: Seq<char>, st: Style) -> Grid {
    g.text(r.x + at_least_0(r.w - screen::text_width(l)) / 2, y, r.w as int, l, st)
}

/// The first `n` lines of some, in the middle of a rectangle.
pub open spec fn centered_lines(
    g: Grid,
    r: Rect,
    y: int,
    ls: Seq<&'static str>,
    st: Style,
    n: int,
) -> Grid
    decreases n,
{
    if n <= 0 {
        g
    } else {
        centered_line(centered_lines(g, r, y, ls, st, n - 1), r, y + n - 1, ls[n - 1]@, st)
    }
}

/// The welcome in the panel of the table, when no document is open.
pub open spec fn welcome(g: Grid, r: Rect) -> Grid {
    if r.h < 11 || r.w < 40 {
        g.text(
            r.x + 1,
            r.y as int,
            at_least_0(r.w - 1),
            "Pick a file in the explorer and press enter."@,
            Style::plain(),
        )
    } else {
        let y = r.y + (r.h - 11) / 2;
        centered_lines(
            centered_lines(g, r, y, LOGO@, Style::fg(GREEN).attr(BOLD), 6),
            r,
            y + 6,
            WELCOME@,
            dim(),
            5,
        )
    }
}

// ---------------------------------------------------------------------------
// Table
// ---------------------------------------------------------------------------

/// A table cell in the slot from column `x` to column `end`, with one column
/// of padding on each side. `tw` is the width of the text; a text that was cut
/// ends with an ellipsis where the slot shows the whole column.
pub open spec fn cell_picture(
    g: Grid,
    x: int,
    end: int,
    y: int,
    width: int,
    s: Seq<char>,
    tw: int,
    cut: bool,
    to_right: bool,
    st: Style,
) -> Grid {
    let avail = vstd::math::min(width, at_least_0(end - x - 1));
    if avail == 0 {
        g
    } else if cut && avail == width {
        let a = g.ellipsis(x + 1, y, avail, s, st);
        if screen::text_width(s) <= avail {
            a.put(x + avail, y, '…', st)
        } else {
            a
        }
    } else {
        let off = if to_right && tw < avail {
            avail - tw
        } else {
            0
        };
        g.text(x + 1 + off, y, avail - off, s, st)
    }
}

/// The line behind a column, when it is still inside the panel.
pub open spec fn separator_picture(
    g: Grid,
    x: int,
    width: int,
    right: int,
    y: int,
    ch: char,
    st: Style,
) -> Grid {
    if x + width + 2 < right {
        g.put(x + width + 2, y, ch, st)
    } else {
        g
    }
}

/// The first row on the screen, moved as little as it takes to show the
/// current one among `vis`.
pub open spec fn scroll_rows(row: int, row_off: int, vis: int) -> int {
    if row < row_off {
        row
    } else if row >= row_off + vis {
        row + 1 - vis
    } else {
        row_off
    }
}

/// Columns of the screen that the table columns `a` to `b` take.
pub open spec fn span(widths: Seq<u16>, a: int, b: int) -> int
    decreases b - a + 1,
{
    if a > b {
        0
    } else {
        span(widths, a, b - 1) + widths[b] + 3
    }
}

/// The first table column on the screen, moved as little to the right as it
/// takes to show the current one in full.
pub open spec fn scroll_cols(widths: Seq<u16>, col: int, col_off: int, avail: int) -> int
    decreases col - col_off,
{
    if col <= col_off {
        col
    } else if span(widths, col_off, col) > avail {
        scroll_cols(widths, col, col_off + 1, avail)
    } else {
        col_off
    }
}

/// Where the table columns from `c` on stand, the first of them in column `x`
/// of the screen: start, end and number of each that begins before `right`.
pub open spec fn slots(widths: Seq<u16>, c: int, x: int, right: int) -> Seq<(u16, u16, usize)>
    decreases widths.len() - c,
{
    if c >= widths.len() || x >= right {
        seq![]
    } else {
        seq![
            (
                x as u16,
                (x + vstd::math::min(widths[c] + 2, right - x)) as u16,
                c as usize,
            ),
        ] + slots(widths, c + 1, x + widths[c] + 3, right)
    }
}

/// What is the same in every line of the table.
#[verifier::ext_equal]
pub struct Ruling {
    /// The panel inside its frame.
    pub inner: Rect,
    /// Columns for the row numbers.
    pub digits: int,
    pub hits: Seq<(u16, u16, usize)>,
}

impl Ruling {
    pub open spec fn right(self) -> int {
        self.inner.x + self.inner.w
    }

    /// The line before the first column.
    pub open spec fn bar(self) -> int {
        self.inner.x + self.digits
    }
}

/// The style of the title of column `c`.
pub open spec fn title_style(d: Table, c: int) -> Style {
    if c == d.col {
        Style::fg(YELLOW).attr(BOLD | UNDERLINE)
    } else {
        Style::fg(YELLOW).attr(BOLD)
    }
}

/// The titles of the first `n` columns on the screen.
pub open spec fn titles_picture(g: Grid, d: Table, r: Ruling, n: int) -> Grid
    decreases n,
{
    if n <= 0 {
        g
    } else {
        let (x, end, c) = r.hits[n - 1];
        let name = d.layout.headers[c as int];
        let w = d.layout.widths[c as int] as int;
        let tw = screen::text_width(name);
        let y = r.inner.y as int;
        separator_picture(
            cell_picture(
                titles_picture(g, d, r, n - 1),
                x as int,
                end as int,
                y,
                w,
                name,
                tw,
                tw > w,
                d.layout.numeric[c as int],
                title_style(d, c as int),
            ),
            x as int,
            w,
            r.right(),
            y,
            '│',
            dim(),
        )
    }
}

/// The crossings under the first `n` titles.
pub open spec fn crossings_picture(g: Grid, d: Table, r: Ruling, n: int) -> Grid
    decreases n,
{
    if n <= 0 {
        g
    } else {
        let (x, end, c) = r.hits[n - 1];
        separator_picture(
            crossings_picture(g, d, r, n - 1),
            x as int,
            d.layout.widths[c as int] as int,
            r.right(),
            r.inner.y + 1,
            '┼',
            dim(),
        )
    }
}

/// The header of the table and the rule under it.
pub open spec fn header_picture(g: Grid, d: Table, r: Ruling) -> Grid {
    let y = r.inner.y as int;
    let n = r.hits.len() as int;
    let a = g.text(
        r.inner.x as int,
        y,
        r.digits,
        util::padded("#"@, r.digits),
        dim(),
    ).put(r.bar(), y, '│', dim());
    crossings_picture(
        titles_picture(a, d, r, n).hline(
            r.inner.x as int,
            y + 1,
            r.inner.w as int,
            '─',
            dim(),
        ).put(r.bar(), y + 1, '┼', dim()),
        d,
        r,
        n,
    )
}

/// The raw field `c` of the record at `pos`; empty when it has none.
pub open spec fn raw_field(d: Table, pos: int, c: int) -> Seq<u8> {
    match doc::cell(d.data, d.delim, pos, c) {
        Some(raw) => raw,
        None => seq![],
    }
}

/// Whether a field is a number that its column is too narrow for. A truncated
/// number is misleading, so its column is made wider.
pub open spec fn too_narrow(d: Table, pos: int, c: int) -> bool {
    let w = d.layout.widths[c];
    csv::field_cut(raw_field(d, pos, c), w as int, false) && d.layout.numeric[c] && w < MAX_COL_W
}

/// The text of a field as it is drawn.
pub open spec fn shown_text(d: Table, pos: int, c: int) -> Seq<char> {
    let w = if too_narrow(d, pos, c) {
        MAX_COL_W
    } else {
        d.layout.widths[c]
    };
    csv::field_text(raw_field(d, pos, c), w as int, false)
}

/// Whether a text holds what was searched for last.
pub open spec fn is_hit(s: Seq<char>, needle: Option<Seq<char>>) -> bool {
    match needle {
        Some(n) => n.len() > 0 && !search::no_match(
            vstd::utf8::encode_utf8(s),
            vstd::utf8::encode_utf8(n),
            search::ignores_case(vstd::utf8::encode_utf8(n)),
        ),
        None => false,
    }
}

/// The style of a row.
pub open spec fn row_style(current: bool) -> Style {
    if current {
        Style::plain().with_bg(ROW_BG)
    } else {
        Style::plain()
    }
}

/// The style of the lines in a row.
pub open spec fn row_line_style(current: bool) -> Style {
    if current {
        dim().with_bg(ROW_BG)
    } else {
        dim()
    }
}

/// The style of a row's number.
pub open spec fn number_style(current: bool) -> Style {
    if current {
        Style::fg(YELLOW).with_bg(ROW_BG).attr(BOLD)
    } else {
        dim()
    }
}

/// The style of a cell.
pub open spec fn cell_style(selected: bool, hit: bool, focused: bool, current: bool) -> Style {
    if selected {
        if focused {
            Style::fg(WHITE).with_bg(SEL_BG).attr(BOLD)
        } else {
            Style::plain().with_bg(SEL_BG_UNFOCUSED)
        }
    } else if hit {
        Style::fg(0).with_bg(YELLOW)
    } else {
        row_style(current)
    }
}

/// The first `n` cells of the row `row`, whose record is at `pos`, in line `y`.
pub open spec fn cells_picture(
    g: Grid,
    d: Table,
    r: Ruling,
    needle: Option<Seq<char>>,
    focused: bool,
    row: int,
    pos: int,
    y: int,
    n: int,
) -> Grid
    decreases n,
{
    if n <= 0 {
        g
    } else {
        let before = cells_picture(g, d, r, needle, focused, row, pos, y, n - 1);
        let (x, end, cu) = r.hits[n - 1];
        let c = cu as int;
        let w = d.layout.widths[c] as int;
        let raw = raw_field(d, pos, c);
        let s = shown_text(d, pos, c);
        let current = row == d.row;
        let selected = current && c == d.col;
        let hit = is_hit(s, needle);
        let st = cell_style(selected, hit, focused, current);
        let a = if selected || hit {
            before.fill_rows(x as int, y, end - x, 1, st)
        } else {
            before
        };
        separator_picture(
            cell_picture(
                a,
                x as int,
                end as int,
                y,
                w,
                s,
                csv::columns(csv::field_text(raw, w, false)),
                csv::field_cut(raw, w, false),
                d.layout.numeric[c],
                st,
            ),
            x as int,
            w,
            r.right(),
            y,
            '│',
            row_line_style(current),
        )
    }
}

/// One row of the table.
pub open spec fn row_picture(
    g: Grid,
    d: Table,
    r: Ruling,
    needle: Option<Seq<char>>,
    focused: bool,
    row: int,
    pos: int,
    y: int,
) -> Grid {
    let current = row == d.row;
    let a = if current {
        g.fill_rows(r.inner.x as int, y, r.inner.w as int, 1, row_style(true))
    } else {
        g
    };
    let b = a.text(
        r.inner.x as int,
        y,
        r.digits,
        util::padded(text::decimal((row + 1) as nat), r.digits),
        number_style(current),
    ).put(r.bar(), y, '│', row_line_style(current));
    cells_picture(b, d, r, needle, focused, row, pos, y, r.hits.len() as int)
}

/// Where the `n`th record behind the one at `pos` starts.
pub open spec fn nth_record(d: Table, pos: int, n: int) -> int
    decreases n,
{
    if n <= 0 {
        pos
    } else {
        csv::split_end(d.data, nth_record(d, pos, n - 1), d.delim)
    }
}

/// The first `n` rows on the screen, the first of them at `pos`.
pub open spec fn rows_picture(
    g: Grid,
    d: Table,
    r: Ruling,
    needle: Option<Seq<char>>,
    focused: bool,
    pos: int,
    n: int,
) -> Grid
    decreases n,
{
    if n <= 0 {
        g
    } else {
        row_picture(
            rows_picture(g, d, r, needle, focused, pos, n - 1),
            d,
            r,
            needle,
            focused,
            d.row_off + n - 1,
            nth_record(d, pos, n - 1),
            r.inner.y + 2 + n - 1,
        )
    }
}

/// The number of fields of the widest of `n` records from the one at `pos` on.
pub open spec fn fields_shown(d: Table, pos: int, n: int) -> int
    decreases n,
{
    if n <= 0 {
        0
    } else {
        vstd::math::max(
            fields_shown(d, pos, n - 1),
            csv::record_fields(d.data, nth_record(d, pos, n - 1), d.delim).len() as int,
        )
    }
}

/// The width that column `c` needs to show the numbers in `n` records from the
/// one at `pos` on, and at least its own.
pub open spec fn needed_width(d: Table, pos: int, n: int, c: int) -> int
    decreases n,
{
    if n <= 0 {
        d.layout.widths[c] as int
    } else {
        let before = needed_width(d, pos, n - 1, c);
        let p = nth_record(d, pos, n - 1);
        if too_narrow(d, p, c) {
            vstd::math::max(before, csv::columns(shown_text(d, p, c)))
        } else {
            before
        }
    }
}

/// The widths with every column on the screen as wide as it needs to be.
pub open spec fn grown_widths(d: Table, r: Ruling, pos: int, n: int) -> Seq<u16> {
    let first = d.col_off;
    let last = d.col_off + r.hits.len();
    Seq::new(
        d.layout.widths.len(),
        |c: int|
            if first <= c < last {
                needed_width(d, pos, n, c) as u16
            } else {
                d.layout.widths[c]
            },
    )
}

/// The document scrolled so that the current cell is on the screen, `vis` rows
/// being shown.
pub open spec fn scrolled_down(d: Table, vis: int) -> Table {
    Table { row_off: scroll_rows(d.row, d.row_off, vis), ..d }
}

/// Columns for the row numbers.
pub open spec fn number_width(d: Table, vis: int) -> int {
    let n = vstd::math::max(d.rows(), vstd::math::min(d.row_off + vis, usize::MAX as int));
    vstd::math::max(util::grouped(n as nat).len() as int, 2)
}

/// The document scrolled so that the current column is in the panel.
pub open spec fn scrolled_right(d: Table, inner: Rect, digits: int) -> Table {
    let avail = at_least_0(inner.w - digits - 1);
    Table { col_off: scroll_cols(d.layout.widths, d.col, d.col_off, avail), ..d }
}

/// Where the columns of a document stand in the panel.
pub open spec fn ruling(d: Table, inner: Rect, digits: int) -> Ruling {
    Ruling {
        inner,
        digits,
        hits: slots(
            d.layout.widths,
            d.col_off,
            inner.x + digits + 1,
            inner.x + inner.w,
        ),
    }
}

/// How many rows are shown.
pub open spec fn rows_shown(d: Table, vis: int) -> int {
    at_least_0(vstd::math::min(vis, d.rows() - d.row_off))
}

pub open spec fn doc_title(d: Table) -> Seq<char> {
    " [2] "@ + d.name + " "@
}

/// The footer of the table: which row is the current one.
pub open spec fn doc_footer(d: Table) -> Seq<char> {
    if d.rows() == 0 {
        seq![]
    } else {
        " "@ + util::grouped((d.row + 1) as nat) + " of "@ + util::grouped(d.rows() as nat) + if d.done {
            ""@
        } else {
            "+"@
        } + " "@
    }
}

/// A document whose cursor is inside, scrolled to the cursor in a panel.
pub open spec fn placed(d: Table, inner: Rect) -> Table {
    let vis = inner.h - 2;
    let a = scrolled_down(d, vis);
    scrolled_right(a, inner, number_width(a, vis))
}

/// The rows of a document, or a note that there are none.
pub open spec fn body_picture(
    g: Grid,
    d: Table,
    r: Ruling,
    needle: Option<Seq<char>>,
    focused: bool,
) -> Grid {
    if d.rows() == 0 {
        g.text(
            r.bar() + 2,
            r.inner.y + 2,
            at_least_0(r.inner.w - r.digits - 1),
            if d.done {
                "(no rows)"@
            } else {
                "Indexing…"@
            },
            dim(),
        )
    } else {
        match d.record(d.row_off) {
            Some(pos) => rows_picture(
                g,
                d,
                r,
                needle,
                focused,
                pos,
                rows_shown(d, r.inner.h - 2),
            ),
            None => g,
        }
    }
}

/// The document after its rows are drawn: with columns for all the fields on
/// the screen, and wide enough for the numbers.
pub open spec fn body_drawn(d: Table, r: Ruling) -> Table {
    match d.record(d.row_off) {
        Some(pos) => {
            let n = rows_shown(d, r.inner.h - 2);
            let wide = d.with_cols(fields_shown(d, pos, n));
            Table {
                layout: Layout {
                    widths: grown_widths(d, r, pos, n) + wide.layout.widths.skip(
                        d.layout.widths.len() as int,
                    ),
                    ..wide.layout
                },
                ..wide
            }
        },
        None => d,
    }
}

/// The table as it is drawn.
pub open spec fn table_picture(s: State, g: Grid) -> Grid {
    let panel = s.table_rect;
    let inner = panel.inside();
    let focused = s.focus == Focus::Table;
    match s.doc {
        None => welcome(g.frame(panel, " [2] Preview "@, ""@, focused), inner),
        Some(d0) => {
            let d = d0.clamped();
            let a = g.frame(panel, doc_title(d), doc_footer(d), focused);
            if inner.h < 3 || inner.w < 10 {
                a
            } else {
                let p = placed(d, inner);
                let r = ruling(p, inner, number_width(p, inner.h - 2));
                body_picture(header_picture(a, p, r), p, r, s.needle, focused)
            }
        },
    }
}

/// The state after the table is drawn. It has to be drawn again when a column
/// has become wider.
pub open spec fn table_drawn(s: State) -> State {
    let inner = s.table_rect.inside();
    match s.doc {
        None => State { col_hits: seq![], ..s },
        Some(d0) => {
            let d = d0.clamped();
            if inner.h < 3 || inner.w < 10 {
                State { col_hits: seq![], doc: Some(d), ..s }
            } else {
                let p = placed(d, inner);
                let r = ruling(p, inner, number_width(p, inner.h - 2));
                let q = body_drawn(p, r);
                State {
                    col_hits: r.hits,
                    page: inner.h - 2,
                    rows_y: (inner.y + 2) as u16,
                    doc: Some(q),
                    relayout: s.relayout || q.layout.widths.take(p.ncols()) != p.layout.widths,
                    ..s
                }
            }
        },
    }
}

// ---------------------------------------------------------------------------
// Status line
// ---------------------------------------------------------------------------

pub const TREE_LABELS: [&'static str; 7] = [
    "Open",
    "Collapse",
    "Up dir",
    "Hidden",
    "Switch",
    "Help",
    "Quit",
];

pub const TREE_KEYS: [&'static str; 7] = ["enter", "h", "⌫", ".", "tab", "?", "q"];

pub const TABLE_LABELS: [&'static str; 8] = [
    "Search",
    "Next",
    "Go to",
    "Record",
    "Copy",
    "Header",
    "Delim",
    "Help",
];

pub const TABLE_KEYS: [&'static str; 8] = ["/", "n/N", ":", "enter", "y", "T", "D", "?"];

/// What the prompt asks for.
pub open spec fn prompt_label(kind: PromptKind) -> &'static str {
    match kind {
        PromptKind::Search => "Search: /",
        PromptKind::Goto => "Go to row: ",
    }
}

/// The prompt in line `y`: what is asked for, the input, a cursor, and a hint
/// where there is room for it.
pub open spec fn prompt_picture(g: Grid, kind: PromptKind, input: Seq<char>, y: int) -> Grid {
    let label = prompt_label(kind)@;
    let hint = "enter: confirm | esc: cancel"@;
    let x = used(label, g.w);
    let z = x + used(input, g.w - x);
    let a = g.text(0, y, g.w, label, Style::fg(CYAN).attr(BOLD)).text(
        x,
        y,
        g.w - x,
        input,
        Style::plain(),
    ).put(z, y, ' ', Style::plain().attr(REVERSE));
    if z + 28 + 4 < g.w {
        a.text(g.w - 28, y, 28, hint, dim())
    } else {
        a
    }
}

/// What the status line says of the document.
pub open spec fn doc_status(d: Table, searching: bool) -> Seq<char> {
    (if searching {
        "searching… │ "@
    } else {
        ""@
    }) + (if d.done {
        ""@
    } else {
        "indexing "@ + text::decimal(
            util::percent_of(d.scanned as nat, d.data.len()),
        ) + "% │ "@
    }) + util::grouped(d.rows() as nat) + " × "@ + text::decimal(d.ncols() as nat) + " │ "@
        + util::delim_text(d.delim)@ + " │ "@ + (if d.has_header {
        "header"@
    } else {
        "no header"@
    }) + " │ "@ + util::size_text(d.data.len())
}

/// The right part of the status line.
pub open spec fn status_right(s: State) -> Seq<char> {
    match s.doc {
        Some(d) => doc_status(d, s.search is Some),
        None => seq![],
    }
}

/// One hint: a label and its key, behind a bar when it is not the first.
pub open spec fn hint_picture(
    g: Grid,
    first: bool,
    label: Seq<char>,
    key: Seq<char>,
    x: int,
    max: int,
    y: int,
) -> Grid {
    let (a, x1) = if first {
        (g, x)
    } else {
        (g.text(x, y, 3, " | "@, dim()), x + used(" | "@, 3))
    };
    let x2 = x1 + used(label, max - x1);
    let x3 = x2 + used(": "@, max - x2);
    a.text(x1, y, max - x1, label, Style::plain()).text(
        x2,
        y,
        max - x2,
        ": "@,
        Style::plain(),
    ).text(x3, y, max - x3, key, Style::fg(BLUE).attr(BOLD))
}

/// Where the next hint begins.
pub open spec fn hint_end(first: bool, label: Seq<char>, key: Seq<char>, x: int, max: int) -> int {
    let x1 = if first {
        x
    } else {
        x + used(" | "@, 3)
    };
    let x2 = x1 + used(label, max - x1);
    let x3 = x2 + used(": "@, max - x2);
    x3 + used(key, max - x3)
}

/// Columns that a hint takes.
pub open spec fn hint_width(first: bool, label: Seq<char>, key: Seq<char>) -> int {
    label.len() + 2 + screen::text_width(key) + if first {
        0int
    } else {
        3
    }
}

/// The hints from number `i` on, as many as fit into `max` columns.
pub open spec fn hints_picture(
    g: Grid,
    labels: Seq<&'static str>,
    keys: Seq<&'static str>,
    i: int,
    x: int,
    max: int,
    y: int,
) -> Grid
    decreases labels.len() - i,
{
    if i >= labels.len() || x + hint_width(i == 0, labels[i]@, keys[i]@) > max {
        g
    } else {
        hints_picture(
            hint_picture(g, i == 0, labels[i]@, keys[i]@, x, max, y),
            labels,
            keys,
            i + 1,
            hint_end(i == 0, labels[i]@, keys[i]@, x, max),
            max,
            y,
        )
    }
}

/// The style of a message.
pub open spec fn message_style(error: bool) -> Style {
    Style::fg(
        if error {
            RED
        } else {
            GREEN
        },
    ).attr(BOLD)
}

/// The status line.
pub open spec fn status_picture(s: State, g: Grid, y: int) -> Grid {
    match s.prompt {
        Some((kind, input)) => prompt_picture(g, kind, input, y),
        None => {
            let right = status_right(s);
            let rw = screen::text_width(right) % 0x1_0000;
            let (a, left_max) = if rw + 10 < g.w {
                (g.text(g.w - rw, y, rw, right, Style::fg(CYAN)), g.w - rw - 2)
            } else {
                (g, g.w)
            };
            match s.msg {
                Some((m, error)) => a.ellipsis(0, y, left_max, m, message_style(error)),
                None => match s.focus {
                    Focus::Tree => hints_picture(a, TREE_LABELS@, TREE_KEYS@, 0, 0, left_max, y),
                    Focus::Table => hints_picture(
                        a,
                        TABLE_LABELS@,
                        TABLE_KEYS@,
                        0,
                        0,
                        left_max,
                        y,
                    ),
                },
            }
        },
    }
}

// ---------------------------------------------------------------------------
// Help
// ---------------------------------------------------------------------------

pub const HELP_LEN: usize = 32;

pub const HELP_KEYS: [&'static str; 32] = [
    "Global",
    "tab / 1 / 2",
    "e",
    "?",
    "q, ctrl-c",
    "",
    "Explorer",
    "j k ↑ ↓",
    "enter / space",
    "l →  /  h ←",
    "backspace / -",
    "c",
    ".",
    "R",
    "",
    "Table",
    "h j k l, arrows",
    "ctrl-d / ctrl-u",
    "pgdn / pgup",
    "g / G",
    "0 / $",
    "w / b",
    "/",
    "n / N",
    "esc",
    ":",
    "enter",
    "y / Y",
    "+ < =",
    "T",
    "D",
    "mouse",
];

pub const HELP_TEXTS: [&'static str; 32] = [
    "",
    "switch panel",
    "show / hide the explorer",
    "this help",
    "quit",
    "",
    "",
    "move",
    "open file / toggle directory",
    "expand / collapse (or go to parent)",
    "set parent directory as root",
    "set selected directory as root",
    "show hidden files",
    "refresh",
    "",
    "",
    "move cell",
    "half page down / up",
    "page down / up",
    "first / last row",
    "first / last column",
    "5 columns right / left",
    "search (smart case)",
    "next / previous match",
    "clear search highlight",
    "go to row number",
    "show full record",
    "copy cell / row (OSC 52)",
    "widen / narrow / autofit column",
    "toggle header row",
    "cycle delimiter , ; tab |",
    "click to select, wheel to scroll",
];

/// A rectangle in the middle of the screen.
pub open spec fn middle(g: Grid, w: int, h: int) -> Rect {
    Rect { x: ((g.w - w) / 2) as u16, y: ((g.h - h) / 2) as u16, w: w as u16, h: h as u16 }
}

/// One line of the help: a heading, or a key and what it does.
pub open spec fn help_line(g: Grid, inner: Rect, y: int, key: Seq<char>, desc: Seq<char>) -> Grid {
    if desc.len() == 0 {
        g.text(inner.x + 1, y, inner.w - 1, key, Style::fg(GREEN).attr(BOLD))
    } else {
        g.text(inner.x + 3, y, 16, key, Style::fg(BLUE).attr(BOLD)).text(
            inner.x + 20,
            y,
            at_least_0(inner.w - 21),
            desc,
            Style::plain(),
        )
    }
}

/// The first `n` lines of the help behind `scroll` lines.
pub open spec fn help_lines(g: Grid, inner: Rect, scroll: int, n: int) -> Grid
    decreases n,
{
    if n <= 0 {
        g
    } else {
        help_line(
            help_lines(g, inner, scroll, n - 1),
            inner,
            inner.y + n - 1,
            HELP_KEYS@[scroll + n - 1]@,
            HELP_TEXTS@[scroll + n - 1]@,
        )
    }
}

/// Where the help stands.
pub open spec fn help_rect(g: Grid) -> Rect {
    middle(g, vstd::math::min(62, g.w - 2), vstd::math::min(HELP_LEN + 2, g.h - 2))
}

/// How far the help is scrolled at most.
pub open spec fn help_scroll(g: Grid, scroll: int) -> int {
    vstd::math::min(scroll, at_least_0(HELP_LEN - help_rect(g).inside().h))
}

/// The help.
pub open spec fn help_picture(g: Grid, scroll: int) -> Grid {
    let r = help_rect(g);
    let inner = r.inside();
    let top = help_scroll(g, scroll);
    help_lines(
        g.fill(r, Style::plain()).frame(r, " Keybindings "@, " esc: close "@, true),
        inner,
        top,
        vstd::math::min(HELP_LEN - top, inner.h as int),
    )
}

// ---------------------------------------------------------------------------
// Record
// ---------------------------------------------------------------------------

/// The title and the text of the field `c` of a record.
pub open spec fn record_field(d: Table, f: Seq<(int, int)>, c: int) -> (Seq<char>, Seq<char>) {
    (
        if c < d.layout.headers.len() {
            d.layout.headers[c]
        } else {
            doc::col_text(c)
        },
        if c < f.len() {
            csv::field_text(d.data.subrange(f[c].0, f[c].1), 0x10_0000, true)
        } else {
            seq![]
        },
    )
}

/// Titles and texts of the current row.
pub open spec fn record_fields(d: Table) -> Seq<(Seq<char>, Seq<char>)> {
    match d.row_fields(d.row) {
        Some(f) => Seq::new(
            vstd::math::max(d.ncols(), f.len() as int) as nat,
            |c: int| record_field(d, f, c),
        ),
        None => seq![],
    }
}

/// The record with the fields of the current row.
pub open spec fn record_loaded(r: Record, d: Table) -> Record {
    if r.row == d.row {
        r
    } else {
        Record { row: d.row, fields: record_fields(d), ..r }
    }
}

/// Where the record stands.
pub open spec fn record_rect(g: Grid) -> Rect {
    middle(
        g,
        vstd::math::min(vstd::math::max(g.w * 4 / 5, 40), g.w - 2),
        vstd::math::min(vstd::math::max(g.h * 4 / 5, 8), g.h - 2),
    )
}

/// The width of the widest title.
pub open spec fn widest_title(fields: Seq<(Seq<char>, Seq<char>)>) -> int
    decreases fields.len(),
{
    if fields.len() == 0 {
        0
    } else {
        vstd::math::max(
            widest_title(fields.drop_last()),
            screen::text_width(fields.last().0),
        )
    }
}

/// Columns for the titles.
pub open spec fn label_width(fields: Seq<(Seq<char>, Seq<char>)>) -> int {
    let w = widest_title(fields);
    if w < 4 {
        4
    } else if w > 28 {
        28
    } else {
        w
    }
}

/// A line of a record: the column it belongs to, whether it is the first of
/// its field, and the text.
#[verifier::ext_equal]
pub struct RecordLine {
    pub col: int,
    pub first: bool,
    pub text: Seq<char>,
}

/// The first `n` lines of a field.
pub open spec fn field_lines(c: int, ls: Seq<Seq<char>>, n: int) -> Seq<RecordLine>
    decreases n,
{
    if n <= 0 {
        seq![]
    } else {
        field_lines(c, ls, n - 1).push(RecordLine { col: c, first: n == 1, text: ls[n - 1] })
    }
}

/// The lines of the first `n` fields, wrapped.
pub open spec fn record_lines(
    fields: Seq<(Seq<char>, Seq<char>)>,
    width: int,
    n: int,
) -> Seq<RecordLine>
    decreases n,
{
    if n <= 0 {
        seq![]
    } else {
        let ls = wrap::wrap_from(seq![], fields[n - 1].1, 0, width, 2000);
        record_lines(fields, width, n - 1) + field_lines(n - 1, ls, ls.len() as int)
    }
}

/// The first line of the current column; the first of all when it has none.
pub open spec fn focus_line(fields: Seq<(Seq<char>, Seq<char>)>, width: int, col: int) -> int {
    if 0 <= col < fields.len() {
        record_lines(fields, width, col).len() as int
    } else {
        0
    }
}

/// How far the record is scrolled: to the current column when it was just
/// opened, and no further than to its end.
pub open spec fn record_scroll(r: Record, width: int, col: int, vis: int) -> int {
    let s = if r.jump {
        at_least_0(focus_line(r.fields, width, col) - vis / 3)
    } else {
        r.scroll
    };
    vstd::math::min(
        s,
        at_least_0(record_lines(r.fields, width, r.fields.len() as int).len() - vis),
    )
}

/// One line of the record, in line `y` of the screen.
pub open spec fn record_line(
    g: Grid,
    inner: Rect,
    label_w: int,
    fields: Seq<(Seq<char>, Seq<char>)>,
    l: RecordLine,
    col: int,
    y: int,
) -> Grid {
    let current = l.col == col;
    let bg = row_style(current);
    let x = inner.x + 1 + label_w + 3;
    let w = inner.x + inner.w - x - 1;
    let a = if current {
        g.fill_rows(inner.x as int, y, inner.w as int, 1, bg)
    } else {
        g
    };
    let b = if l.first {
        a.ellipsis(
            inner.x + 1,
            y,
            label_w,
            fields[l.col].0,
            bg.with_fg(YELLOW).attr(BOLD),
        )
    } else {
        a
    };
    let c = b.put(x - 2, y, '│', bg.attr(DIM));
    if l.text.len() == 0 && l.first {
        c.text(x, y, w, "∅"@, bg.attr(DIM))
    } else {
        c.text(x, y, w, l.text, bg)
    }
}

/// The first `n` lines of the record on the screen.
pub open spec fn record_lines_picture(
    g: Grid,
    inner: Rect,
    label_w: int,
    fields: Seq<(Seq<char>, Seq<char>)>,
    ls: Seq<RecordLine>,
    scroll: int,
    col: int,
    n: int,
) -> Grid
    decreases n,
{
    if n <= 0 {
        g
    } else {
        record_line(
            record_lines_picture(g, inner, label_w, fields, ls, scroll, col, n - 1),
            inner,
            label_w,
            fields,
            ls[scroll + n - 1],
            col,
            inner.y + n - 1,
        )
    }
}

/// Columns for the texts.
pub open spec fn value_width(inner: Rect, label_w: int) -> int {
    at_least_0(inner.x + inner.w - (inner.x + 1 + label_w + 3 + 1))
}

/// The record after it is drawn.
pub open spec fn record_drawn(r0: Record, d: Table, g: Grid) -> Record {
    let r = record_loaded(r0, d);
    let inner = record_rect(g).inside();
    let w = value_width(inner, label_width(r.fields));
    if w < 4 {
        r
    } else {
        Record { jump: false, scroll: record_scroll(r, w, d.col, inner.h as int), ..r }
    }
}

/// The record.
pub open spec fn record_picture(r0: Record, d: Table, g: Grid) -> Grid {
    let r = record_drawn(r0, d, g);
    let rect = record_rect(g);
    let inner = rect.inside();
    let label_w = label_width(r.fields);
    let w = value_width(inner, label_w);
    let a = g.fill(rect, Style::plain()).frame(
        rect,
        " Row "@ + util::grouped((d.row + 1) as nat) + " of "@ + util::grouped(d.rows() as nat)
            + " "@,
        " j/k scroll │ h/l prev/next row │ y copy │ esc close "@,
        true,
    );
    if w < 4 {
        a
    } else {
        let ls = record_lines(r.fields, w, r.fields.len() as int);
        record_lines_picture(
            a,
            inner,
            label_w,
            r.fields,
            ls,
            r.scroll,
            d.col,
            vstd::math::min(inner.h as int, ls.len() - r.scroll),
        )
    }
}

// ---------------------------------------------------------------------------
// The frame
// ---------------------------------------------------------------------------

/// Columns for the explorer.
pub open spec fn tree_width(s: State, w: int) -> int {
    if !s.show_tree {
        0
    } else {
        let q = w / 4;
        let c = if q < 24 {
            24
        } else if q > 44 {
            44
        } else {
            q
        };
        vstd::math::min(c, w / 2)
    }
}

/// The state with the panels laid out on a screen.
pub open spec fn panels(s: State, w: int, h: int) -> State {
    let tw = tree_width(s, w);
    State {
        tree_rect: Rect { x: 0, y: 0, w: tw as u16, h: (h - 1) as u16 },
        table_rect: Rect { x: tw as u16, y: 0, w: (w - tw) as u16, h: (h - 1) as u16 },
        ..s
    }
}

/// What lies over the panels, drawn.
pub open spec fn cover_picture(s: State, g: Grid) -> Grid {
    match s.overlay {
        Cover::Closed => g,
        Cover::Help(n) => help_picture(g, n),
        Cover::Record(r) => match s.doc {
            Some(d) => record_picture(r, d, g),
            None => g,
        },
    }
}

/// The state after what lies over the panels is drawn.
pub open spec fn cover_drawn(s: State, g: Grid) -> State {
    match s.overlay {
        Cover::Closed => s,
        Cover::Help(n) => State { overlay: Cover::Help(help_scroll(g, n)), ..s },
        Cover::Record(r) => match s.doc {
            Some(d) => State { overlay: Cover::Record(record_drawn(r, d, g)), ..s },
            None => s,
        },
    }
}

/// The state after the panels are drawn.
pub open spec fn panels_drawn(s: State, w: int, h: int) -> State {
    let p = panels(s, w, h);
    table_drawn(
        if p.show_tree {
            tree_drawn(p)
        } else {
            p
        },
    )
}

/// The panels and the status line.
pub open spec fn panels_picture(s: State, w: int, h: int) -> Grid {
    let p = panels(s, w, h);
    let g = Grid::blank(w, h);
    let a = if p.show_tree {
        tree_picture(p, g)
    } else {
        g
    };
    let b = table_picture(
        if p.show_tree {
            tree_drawn(p)
        } else {
            p
        },
        a,
    );
    status_picture(panels_drawn(s, w, h), b, h - 1)
}

/// One pass over a screen that is large enough.
#[verifier::opaque]
pub open spec fn pass_drawn(s: State, w: int, h: int) -> State {
    cover_drawn(panels_drawn(s, w, h), panels_picture(s, w, h))
}

/// What one pass shows.
#[verifier::opaque]
pub open spec fn pass_picture(s: State, w: int, h: int) -> Grid {
    cover_picture(panels_drawn(s, w, h), panels_picture(s, w, h))
}

/// How much wider numbers can make some columns.
pub open spec fn width_left(ws: Seq<u16>) -> nat
    decreases ws.len(),
{
    if ws.len() == 0 {
        0
    } else {
        width_left(ws.drop_last()) + if ws.last() < MAX_COL_W {
            (MAX_COL_W - ws.last()) as nat
        } else {
            0
        }
    }
}

/// How many columns a document can still get.
pub open spec fn cols_left(d: Table) -> nat {
    at_least_0(d.data.len() + 2 - d.ncols()) as nat
}

/// How many columns the open document can still get.
pub open spec fn new_cols(s: State) -> nat {
    match s.doc {
        Some(d) => cols_left(d),
        None => 0,
    }
}

/// How much wider the columns of the open document can become.
pub open spec fn new_width(s: State) -> nat {
    match s.doc {
        Some(d) => width_left(d.layout.widths),
        None => 0,
    }
}

pub open spec fn pending(s: State) -> nat {
    if s.relayout {
        1
    } else {
        0
    }
}

proof fn lemma_width_left(a: Seq<u16>, b: Seq<u16>)
    requires
        a.len() == b.len(),
        forall|c: int| 0 <= c < a.len() ==> #[trigger] a[c] <= b[c],
        forall|c: int| 0 <= c < a.len() && #[trigger] a[c] != b[c] ==> a[c] < MAX_COL_W,
    ensures
        width_left(b) <= width_left(a),
        a != b ==> width_left(b) < width_left(a),
    decreases a.len(),
{
    if a.len() > 0 {
        let (x, y) = (a.drop_last(), b.drop_last());
        assert forall|c: int| 0 <= c < x.len() implies #[trigger] x[c] <= y[c] by {
            assert(a[c] <= b[c]);
        }
        assert forall|c: int| 0 <= c < x.len() && #[trigger] x[c] != y[c] implies x[c]
            < MAX_COL_W by {
            assert(a[c] != b[c]);
        }
        lemma_width_left(x, y);
        assert(a[a.len() - 1] <= b[a.len() - 1]);
        if a.last() == b.last() && x == y {
            assert(a =~= x.push(a.last()));
            assert(b =~= y.push(b.last()));
        }
    } else {
        assert(a =~= b);
    }
}

pub proof fn lemma_needed_width(d: Table, pos: int, n: int, c: int)
    ensures
        ({
            let w = needed_width(d, pos, n, c);
            &&& d.layout.widths[c] <= w
            &&& w != d.layout.widths[c] ==> d.layout.widths[c] < MAX_COL_W && w <= MAX_COL_W
        }),
    decreases n,
{
    if n > 0 {
        lemma_needed_width(d, pos, n - 1, c);
        let p = nth_record(d, pos, n - 1);
        if too_narrow(d, p, c) {
            csv::clipped_text_fits(
                csv::field_visible(raw_field(d, p, c), MAX_COL_W as int, false),
                MAX_COL_W as int,
            );
        }
    }
}

proof fn lemma_nth_record(d: Table, pos: int, n: int)
    requires
        0 <= pos <= d.data.len(),
    ensures
        0 <= nth_record(d, pos, n) <= d.data.len(),
    decreases n,
{
    if n > 0 {
        lemma_nth_record(d, pos, n - 1);
        csv::lemma_split_end(d.data, nth_record(d, pos, n - 1), d.delim);
    }
}

pub proof fn lemma_fields_shown(d: Table, pos: int, n: int)
    requires
        0 <= pos <= d.data.len(),
    ensures
        0 <= fields_shown(d, pos, n) <= d.data.len() + 1,
    decreases n,
{
    if n > 0 {
        lemma_fields_shown(d, pos, n - 1);
        lemma_nth_record(d, pos, n - 1);
        csv::fields_tile_the_record(d.data, nth_record(d, pos, n - 1), d.delim);
    }
}

pub proof fn lemma_with_cols(l: Layout, n: int)
    ensures
        l.with_cols(n).widths.len() == vstd::math::max(l.widths.len() as int, n),
        l.with_cols(n).widths.take(l.widths.len() as int) == l.widths,
    decreases n - l.widths.len(),
{
    if l.widths.len() < n {
        let m = Layout {
            headers: l.headers.push(doc::col_text(l.widths.len() as int)),
            widths: l.widths.push(8),
            numeric: l.numeric.push(false),
        };
        lemma_with_cols(m, n);
        let r = m.with_cols(n).widths;
        assert(r.take(l.widths.len() as int) =~= r.take(m.widths.len() as int).take(
            l.widths.len() as int,
        ));
        assert(m.widths.take(l.widths.len() as int) =~= l.widths);
    } else {
        assert(l.widths.take(l.widths.len() as int) =~= l.widths);
    }
}

/// Drawing the rows makes the document larger, if it changes it at all.
proof fn lemma_body_drawn(d: Table, r: Ruling)
    ensures
        ({
            let q = body_drawn(d, r);
            &&& q.data == d.data
            &&& cols_left(q) < cols_left(d) || q.ncols() == d.ncols()
            &&& q.ncols() == d.ncols() ==> width_left(q.layout.widths) <= width_left(
                d.layout.widths,
            )
            &&& q.ncols() == d.ncols() && q.layout.widths.take(d.ncols()) != d.layout.widths
                ==> width_left(q.layout.widths) < width_left(d.layout.widths)
        }),
{
    if let Some(pos) = d.record(d.row_off) {
        let n = rows_shown(d, r.inner.h - 2);
        if d.row_off + d.hdr() >= 0 {
            crate::index::lemma_start_step(d.data, d.row_off + d.hdr());
        }
        lemma_fields_shown(d, pos, n);
        lemma_with_cols(d.layout, fields_shown(d, pos, n));
        let q = body_drawn(d, r);
        let g = grown_widths(d, r, pos, n);
        assert(q.layout.widths.len() == d.with_cols(fields_shown(d, pos, n)).ncols());
        if q.ncols() == d.ncols() {
            assert(q.layout.widths =~= g);
            assert(q.layout.widths.take(d.ncols()) =~= q.layout.widths);
            assert forall|c: int| 0 <= c < g.len() implies #[trigger] d.layout.widths[c] <= g[c]
                && (d.layout.widths[c] != g[c] ==> d.layout.widths[c] < MAX_COL_W) by {
                lemma_needed_width(d, pos, n, c);
            }
            lemma_width_left(d.layout.widths, g);
        }
    } else {
        assert(d.layout.widths.take(d.ncols()) =~= d.layout.widths);
    }
}

/// A pass that asks for another one leaves less for it to change.
pub proof fn lemma_pass_gains(s: State, w: int, h: int)
    ensures
        ({
            let t = pass_drawn(s, w, h);
            t.relayout ==> {
                ||| new_cols(t) < new_cols(s)
                ||| new_cols(t) == new_cols(s) && new_width(t) < new_width(s)
                ||| new_cols(t) == new_cols(s) && new_width(t) == new_width(s) && s.relayout
            }
        }),
{
    reveal(pass_drawn);
    if let Some(d0) = s.doc {
        let inner = panels(s, w, h).table_rect.inside();
        let p = placed(d0.clamped(), inner);
        let r = ruling(p, inner, number_width(p, inner.h - 2));
        lemma_body_drawn(p, r);
    }
}

/// The state and the screen after a frame is drawn. When numbers made a column
/// wider, it is drawn again with the new layout.
pub open spec fn rendered(s: State, w: int, h: int) -> (State, Grid)
    decreases new_cols(s), new_width(s), pending(s),
{
    if w < 30 || h < 6 {
        (s, Grid::blank(w, h).text(0, 0, w, "Terminal too small"@, Style::fg(RED)))
    } else {
        let t = pass_drawn(s, w, h);
        if t.relayout {
            proof {
                lemma_pass_gains(s, w, h);
            }
            rendered(State { relayout: false, ..t }, w, h)
        } else {
            (t, pass_picture(s, w, h))
        }
    }
}

// ---------------------------------------------------------------------------
// What holds of every frame
// ---------------------------------------------------------------------------

proof fn lemma_scroll_cols(widths: Seq<u16>, col: int, col_off: int, avail: int)
    ensures
        ({
            let c = scroll_cols(widths, col, col_off, avail);
            &&& c <= col
            &&& c == col || span(widths, c, col) <= avail
        }),
    decreases col - col_off,
{
    if col > col_off && span(widths, col_off, col) > avail {
        lemma_scroll_cols(widths, col, col_off + 1, avail);
    }
}

/// The current cell is in view: its row is among those on the screen, and its
/// column is in view in full, or the first one when it is too wide.
pub proof fn current_cell_is_in_view(d: Table, inner: Rect)
    requires
        0 <= d.row_off,
        0 <= d.row,
        inner.h >= 3,
    ensures
        ({
            let p = placed(d, inner);
            let avail = at_least_0(inner.w - number_width(p, inner.h - 2) - 1);
            &&& p.row_off <= p.row < p.row_off + inner.h - 2
            &&& p.col_off <= p.col
            &&& p.col_off == p.col || span(p.layout.widths, p.col_off, p.col) <= avail
        }),
{
    let vis = inner.h - 2;
    let a = scrolled_down(d, vis);
    let avail = at_least_0(inner.w - number_width(a, vis) - 1);
    lemma_scroll_cols(d.layout.widths, d.col, d.col_off, avail);
    assert(number_width(placed(d, inner), vis) == number_width(a, vis));
}

proof fn lemma_numbers_shown(d: Table, pos: int, n: int, k: int, c: int)
    requires
        0 <= k < n,
        needed_width(d, pos, n, c) == d.layout.widths[c],
    ensures
        too_narrow(d, nth_record(d, pos, k), c) ==> csv::columns(
            shown_text(d, nth_record(d, pos, k), c),
        ) <= d.layout.widths[c],
    decreases n,
{
    lemma_needed_width(d, pos, n - 1, c);
    lemma_needed_width(d, pos, n, c);
    if k < n - 1 {
        lemma_numbers_shown(d, pos, n - 1, k, c);
    }
}

/// No number on the screen is cut where a wider column would show more of it:
/// when a frame does not have to be drawn again, every number that its column
/// is too narrow for takes no more columns than it has, however wide the
/// column were.
pub proof fn numbers_are_not_cut(d: Table, r: Ruling, k: int, c: int)
    requires
        d.record(d.row_off) is Some,
        body_drawn(d, r).layout.widths.take(d.ncols()) == d.layout.widths,
        0 <= k < rows_shown(d, r.inner.h - 2),
        0 <= d.col_off <= c < d.col_off + r.hits.len(),
        c < d.ncols(),
    ensures
        ({
            let p = nth_record(d, d.record(d.row_off)->0, k);
            too_narrow(d, p, c) ==> csv::columns(shown_text(d, p, c)) <= d.layout.widths[c]
        }),
{
    let pos = d.record(d.row_off)->0;
    let n = rows_shown(d, r.inner.h - 2);
    let g = grown_widths(d, r, pos, n);
    let q = body_drawn(d, r);
    assert(q.layout.widths.take(d.ncols())[c] == g[c]);
    lemma_needed_width(d, pos, n, c);
    lemma_numbers_shown(d, pos, n, k, c);
}

} // verus!
