//! Rendering: draws the program's state onto the screen.

use crate::app::{App, Overlay, RecordView};
use crate::doc::{Doc, MAX_COL_W};
use crate::picture::{
    BLUE, CYAN, GREEN, HELP_KEYS, HELP_LEN, HELP_TEXTS, LOGO, RED, ROW_BG, SEL_BG, SEL_BG_UNFOCUSED,
    TABLE_KEYS, TABLE_LABELS, TREE_KEYS, TREE_LABELS, WELCOME, WHITE, YELLOW,
};
use crate::screen::{low_half, str_width, Color, Rect, Screen, Style, BOLD, DIM, REVERSE, UNDERLINE};
use crate::state::{Focus, PromptKind};
use crate::tree::Entry;
use crate::{app, csv, doc, path, picture, screen, search, state, text, tree, util, wrap};
use vstd::prelude::*;

verus! {

// ---------------------------------------------------------------------------
// Explorer
// ---------------------------------------------------------------------------

fn on_bg(st: Style, bg: Option<u8>) -> (r: Style)
    ensures
        r == picture::on_bg(st, bg),
{
    match bg {
        Some(b) => if b == SEL_BG {
            Style { fg: Color::Idx(WHITE), bg: st.bg, attr: st.attr }.with_bg(SEL_BG)
        } else {
            st.with_bg(b)
        },
        None => st,
    }
}

fn dim() -> (r: Style)
    ensures
        r == picture::dim(),
{
    Style::plain().attr(DIM)
}

/// The contents of an optional path.
pub open spec fn path_of(p: Option<Vec<u8>>) -> Option<Seq<u8>> {
    match p {
        Some(p) => Some(p@),
        None => None,
    }
}

/// The mark before an entry's name and the style of the name.
fn entry_look(e: &Entry, open: &Option<Vec<u8>>) -> (r: (&'static str, Style))
    ensures
        r.0 == picture::entry_icon(e@, path_of(*open)),
        r.1 == picture::entry_style(e@, path_of(*open)),
{
    let is_open = match open {
        Some(p) => path::same(p.as_slice(), e.path.as_slice()),
        None => false,
    };
    if e.is_dir {
        let icon = if e.expanded {
            "▾ "
        } else {
            "▸ "
        };
        (icon, Style::fg(BLUE).attr(BOLD))
    } else if is_open {
        ("● ", Style::fg(GREEN).attr(BOLD))
    } else if tree::is_tabular(e.name.as_str()) {
        ("  ", Style::fg(GREEN))
    } else {
        ("  ", dim())
    }
}

/// The name of an entry and its size.
fn draw_entry_name(
    s: &mut Screen,
    e: &Entry,
    x: u16,
    right: u16,
    y: u16,
    bg: Option<u8>,
    open: &Option<Vec<u8>>,
)
    requires
        old(s).wf(),
        x <= right,
    ensures
        final(s).same_but_cells(old(s)),
        final(s)@ == picture::entry_name(
            old(s)@,
            e@,
            x as int,
            right as int,
            y as int,
            bg,
            path_of(*open),
        ),
{
    let (_, st) = entry_look(e, open);
    let size = if e.is_dir {
        String::new()
    } else {
        util::human_size(e.size)
    };
    assert(size@ =~= picture::entry_size(e@));
    let len: usize = text::chars_of(size.as_str()).len();
    let room: u16 = right - x;
    let fits = room as usize > 2 && len < room as usize - 2;
    let name_w: u16 = if fits {
        room - len as u16 - 1
    } else {
        room
    };
    s.text_ellipsis(x, y, name_w, e.name.as_str(), on_bg(st, bg));
    if len > 0 && fits {
        s.text(right - len as u16, y, len as u16, size.as_str(), on_bg(dim(), bg));
    }
}

/// One line of the explorer.
fn draw_entry(
    s: &mut Screen,
    e: &Entry,
    inner: Rect,
    y: u16,
    bg: Option<u8>,
    open: &Option<Vec<u8>>,
)
    requires
        old(s).wf(),
        inner.x + inner.w <= u16::MAX,
    ensures
        final(s).same_but_cells(old(s)),
        final(s)@ == picture::entry_line(old(s)@, e@, inner, y as int, bg, path_of(*open)),
{
    if bg.is_some() {
        s.fill(Rect { x: inner.x, y, w: inner.w, h: 1 }, on_bg(Style::plain(), bg));
    }
    let wide: u32 = inner.x as u32 + 1 + e.depth as u32 * 2;
    let right: u16 = inner.right().saturating_sub(1);
    if wide >= right as u32 {
        return;
    }
    let x = wide as u16;
    let (icon, st) = entry_look(e, open);
    let n = s.text(x, y, right - x, icon, on_bg(st, bg));
    draw_entry_name(s, e, x + n, right, y, bg, open);
}

impl App {
    fn draw_tree(&mut self, s: &mut Screen)
        requires
            old(self).wf(),
            old(s).wf(),
            old(self).tree_rect.in_range(),
            old(self).tree_rect.x == 0,
            old(self).tree_rect.y == 0,
            old(self).tree_rect.h < u16::MAX,
        ensures
            final(self).wf(),
            final(self)@ == picture::tree_drawn(old(self)@),
            final(s).same_but_cells(old(s)),
            final(s)@ == picture::tree_picture(old(self)@, old(s)@),
    {
        let r = self.tree_rect;
        let focused = match self.focus {
            Focus::Tree => true,
            Focus::Table => false,
        };
        let inner = r.inner();
        let full = text::from_utf8_lossy(self.tree.root.as_slice());
        let root = util::home_relative(full.as_str(), &self.home);
        let mut title = text::to_string(" [1] ");
        title.append(util::tail_fit(root.as_str(), r.w.saturating_sub(10) as usize).as_str());
        title.append(" ");
        assert(title@ =~= picture::tree_title(self@.tree, self@.home, r.w as int));
        let count: usize = self.tree.entries.len();
        let mut footer = String::new();
        if count > 0 {
            footer.append(" ");
            footer.append(text::to_decimal(self.tree.sel as u64 + 1).as_str());
            footer.append(" of ");
            footer.append(text::to_decimal(count as u64).as_str());
            footer.append(" ");
        }
        assert(footer@ =~= picture::tree_footer(self@.tree));
        s.frame(r, title.as_str(), footer.as_str(), focused);
        self.tree_page = inner.h as usize;
        proof {
            tree::moving_keeps_the_explorer_in_order(self.tree@, 0, seq![], inner.h as int);
        }
        self.tree.scroll_into_view(inner.h as usize);
        if count == 0 {
            s.text(inner.x + 1, inner.y, inner.w.saturating_sub(1), "(empty)", dim());
            return;
        }
        let open = match &self.doc {
            Some(d) => Some(text::bytes_copy(d.path.as_slice())),
            None => None,
        };
        let ghost g = s@;
        let off = self.tree.off;
        let left: usize = if off < count {
            count - off
        } else {
            0
        };
        let n: usize = if left < inner.h as usize {
            left
        } else {
            inner.h as usize
        };
        proof {
            assert(off <= self.tree.sel);
        }
        let mut k: usize = 0;
        while k < n
            invariant
                k <= n <= inner.h,
                off + n <= count == self.tree.entries@.len(),
                off == self.tree.off,
                self.wf(),
                s.same_but_cells(old(s)),
                inner.x + inner.w <= u16::MAX,
                inner.y + inner.h <= u16::MAX,
                s@ == picture::entry_lines(
                    g,
                    self@.tree,
                    inner,
                    focused,
                    path_of(open),
                    k as int,
                ),
            decreases n - k,
        {
            let i = off + k;
            let bg = if i != self.tree.sel {
                None
            } else if focused {
                Some(SEL_BG)
            } else {
                Some(ROW_BG)
            };
            let e = &self.tree.entries[i];
            assert(self@.tree.entries[i as int] == e@);
            draw_entry(s, e, inner, inner.y + k as u16, bg, &open);
            k += 1;
        }
    }
}

// ---------------------------------------------------------------------------
// Welcome
// ---------------------------------------------------------------------------

/// A line in the middle of a rectangle.
fn draw_centered(s: &mut Screen, r: Rect, y: u16, l: &str, st: Style)
    requires
        old(s).wf(),
        r.in_range(),
        screen::text_width(l@) <= u16::MAX,
    ensures
        final(s).same_but_cells(old(s)),
        final(s)@ == picture::centered_line(old(s)@, r, y as int, l@, st),
{
    let w = str_width(l) as u16;
    let x: u16 = r.x + r.w.saturating_sub(w) / 2;
    s.text(x, y, r.w, l, st);
}

fn draw_welcome(s: &mut Screen, r: Rect)
    requires
        old(s).wf(),
        r.in_range(),
        r.x < u16::MAX,
    ensures
        final(s).same_but_cells(old(s)),
        final(s)@ == picture::welcome(old(s)@, r),
{
    if r.h < 11 || r.w < 40 {
        s.text(
            r.x + 1,
            r.y,
            r.w.saturating_sub(1),
            "Pick a file in the explorer and press enter.",
            Style::plain(),
        );
        return;
    }
    let y: u16 = r.y + (r.h - 11) / 2;
    let ghost g = s@;
    let mut k: usize = 0;
    while k < 6
        invariant
            k <= 6,
            s.same_but_cells(old(s)),
            r.in_range(),
            y + 11 <= u16::MAX,
            s@ == picture::centered_lines(
                g,
                r,
                y as int,
                LOGO@,
                Style::fg(GREEN).attr(BOLD),
                k as int,
            ),
        decreases 6 - k,
    {
        proof {
            lemma_logo(k as int);
        }
        draw_centered(s, r, y + k as u16, LOGO[k], Style::fg(GREEN).attr(BOLD));
        k += 1;
    }
    let ghost g1 = s@;
    let mut j: usize = 0;
    while j < 5
        invariant
            j <= 5,
            s.same_but_cells(old(s)),
            r.in_range(),
            y + 11 <= u16::MAX,
            s@ == picture::centered_lines(g1, r, y + 6, WELCOME@, picture::dim(), j as int),
        decreases 5 - j,
    {
        proof {
            lemma_welcome(j as int);
        }
        draw_centered(s, r, y + 6 + j as u16, WELCOME[j], dim());
        j += 1;
    }
}

/// The lines of the logo are short.
proof fn lemma_logo(k: int)
    requires
        0 <= k < 6,
    ensures
        screen::text_width(LOGO@[k]@) <= u16::MAX,
{
    reveal_strlit(" _                                 ");
    reveal_strlit("| | __ _ _____   _  ___ _____   __ ");
    reveal_strlit("| |/ _` |_  / | | |/ __/ __\\ \\ / / ");
    reveal_strlit("| | (_| |/ /| |_| | (__\\__ \\\\ V /  ");
    reveal_strlit("|_|\\__,_/___|\\__, |\\___|___/ \\_/   ");
    reveal_strlit("             |___/                 ");
    screen::lemma_width_le_twice(LOGO@[k]@);
}

/// The lines of the welcome are short.
proof fn lemma_welcome(k: int)
    requires
        0 <= k < 5,
    ensures
        screen::text_width(WELCOME@[k]@) <= u16::MAX,
{
    reveal_strlit("");
    reveal_strlit("Pick a file in the explorer and press enter.");
    reveal_strlit("tab  switch panel      /  search      ?  help");
    reveal_strlit("e    toggle explorer   :  go to row   q  quit");
    screen::lemma_width_le_twice(WELCOME@[k]@);
}

// ---------------------------------------------------------------------------
// Table
// ---------------------------------------------------------------------------

/// Draws one table cell into the slot `[x, end)` (1 column of padding each
/// side).
fn draw_cell(
    s: &mut Screen,
    x: u16,
    end: u16,
    y: u16,
    width: u16,
    txt: &str,
    tw: usize,
    cut: bool,
    to_right: bool,
    st: Style,
)
    requires
        old(s).wf(),
        x < end,
    ensures
        final(s).same_but_cells(old(s)),
        final(s)@ == picture::cell_picture(
            old(s)@,
            x as int,
            end as int,
            y as int,
            width as int,
            txt@,
            tw as int,
            cut,
            to_right,
            st,
        ),
{
    let room: u16 = end - (x + 1);
    let avail: u16 = if width < room {
        width
    } else {
        room
    };
    if avail == 0 {
        return;
    }
    if cut && avail == width {
        s.text_ellipsis(x + 1, y, avail, txt, st);
        if str_width(txt) <= avail as usize {
            s.set(x + avail, y, '…', st);
        }
    } else {
        let off: u16 = if to_right && tw < avail as usize {
            avail - tw as u16
        } else {
            0
        };
        s.text(x + 1 + off, y, avail - off, txt, st);
    }
}

fn separator(s: &mut Screen, x: u16, width: u16, right: u16, y: u16, ch: char, st: Style)
    requires
        old(s).wf(),
    ensures
        final(s).same_but_cells(old(s)),
        final(s)@ == picture::separator_picture(
            old(s)@,
            x as int,
            width as int,
            right as int,
            y as int,
            ch,
            st,
        ),
{
    let sx: u32 = x as u32 + width as u32 + 2;
    if sx < right as u32 {
        s.set(sx as u16, y, ch, st);
    }
}

proof fn lemma_span_grows(widths: Seq<u16>, a: int, k: int, b: int)
    requires
        0 <= a,
        k <= b,
        b < widths.len(),
    ensures
        picture::span(widths, a, k) <= picture::span(widths, a, b),
    decreases b - k,
{
    if k < b {
        lemma_span_grows(widths, a, k, b - 1);
    }
}

/// Whether the table columns `a` to `b` take more than `avail` columns of the
/// screen.
fn span_exceeds(widths: &Vec<u16>, a: usize, b: usize, avail: u16) -> (r: bool)
    requires
        a <= b < widths@.len(),
    ensures
        r == (picture::span(widths@, a as int, b as int) > avail),
{
    let mut total: u32 = 0;
    let mut k: usize = a;
    loop
        invariant
            a <= k <= b < widths@.len(),
            total <= avail,
            total == picture::span(widths@, a as int, k - 1),
        decreases b - k,
    {
        total = total + widths[k] as u32 + 3;
        if total > avail as u32 {
            proof {
                lemma_span_grows(widths@, a as int, k as int, b as int);
            }
            return true;
        }
        if k == b {
            return false;
        }
        k += 1;
    }
}

/// The first table column on the screen.
fn first_col(widths: &Vec<u16>, col: usize, col_off: usize, avail: u16) -> (r: usize)
    requires
        col < widths@.len(),
    ensures
        r == picture::scroll_cols(widths@, col as int, col_off as int, avail as int),
        r <= col,
{
    let mut at: usize = col_off;
    while at < col && span_exceeds(widths, at, col, avail)
        invariant
            col < widths@.len(),
            col_off <= at,
            at <= col || at == col_off,
            picture::scroll_cols(widths@, col as int, col_off as int, avail as int)
                == picture::scroll_cols(widths@, col as int, at as int, avail as int),
        decreases col - at,
    {
        at += 1;
    }
    if at < col {
        at
    } else {
        col
    }
}

/// What is known of the slots of columns.
pub open spec fn in_slots(hits: Seq<(u16, u16, usize)>, first: int, ncols: int, right: int) -> bool {
    &&& first + hits.len() <= ncols
    &&& forall|k: int|
        0 <= k < hits.len() ==> (#[trigger] hits[k]).2 == first + k && hits[k].0 < hits[k].1
            <= right
}

/// Where the table columns stand.
fn slots(widths: &Vec<u16>, first: usize, left: u16, right: u16) -> (r: Vec<(u16, u16, usize)>)
    requires
        first <= widths@.len(),
    ensures
        r@ == picture::slots(widths@, first as int, left as int, right as int),
        in_slots(r@, first as int, widths@.len() as int, right as int),
{
    let mut hits: Vec<(u16, u16, usize)> = Vec::new();
    let mut x: u32 = left as u32;
    let mut c: usize = first;
    let ghost all = picture::slots(widths@, first as int, left as int, right as int);
    assert(hits@ + all =~= all);
    while c < widths.len() && x < right as u32
        invariant
            first <= c <= widths@.len(),
            hits@.len() == c - first,
            x <= 0x2_0000,
            in_slots(hits@, first as int, widths@.len() as int, right as int),
            all == hits@ + picture::slots(widths@, c as int, x as int, right as int),
        decreases widths@.len() - c,
    {
        let w: u32 = widths[c] as u32;
        let room: u32 = right as u32 - x;
        let slot: u32 = if w + 2 < room {
            w + 2
        } else {
            room
        };
        let ghost before = hits@;
        let hit = (x as u16, (x + slot) as u16, c);
        hits.push(hit);
        proof {
            let rest = picture::slots(widths@, c + 1, x + w + 3, right as int);
            assert(before + (seq![hit] + rest) =~= hits@ + rest);
        }
        x = x + w + 3;
        c += 1;
    }
    assert(all =~= hits@);
    hits
}

/// The titles of the columns.
fn draw_titles(s: &mut Screen, d: &Doc, inner: Rect, digits: u16, hits: &Vec<(u16, u16, usize)>)
    requires
        old(s).wf(),
        d.wf(),
        inner.in_range(),
        in_slots(hits@, d.col_off as int, d@.ncols(), inner.x + inner.w),
    ensures
        final(s).same_but_cells(old(s)),
        final(s)@ == picture::titles_picture(
            old(s)@,
            d@,
            (picture::Ruling { inner, digits: digits as int, hits: hits@ }),
            hits@.len() as int,
        ),
{
    let ghost r = picture::Ruling { inner, digits: digits as int, hits: hits@ };
    let right = inner.right();
    let mut k: usize = 0;
    while k < hits.len()
        invariant
            k <= hits@.len(),
            d.wf(),
            r == (picture::Ruling { inner, digits: digits as int, hits: hits@ }),
            in_slots(hits@, d.col_off as int, d@.ncols(), inner.x + inner.w),
            right == inner.x + inner.w,
            s.same_but_cells(old(s)),
            s@ == picture::titles_picture(old(s)@, d@, r, k as int),
        decreases hits@.len() - k,
    {
        let (x, end, c) = hits[k];
        assert(hits@[k as int] == (x, end, c));
        let name = &d.headers[c];
        assert(d@.layout.headers[c as int] == name@);
        let st = if c == d.col {
            Style::fg(YELLOW).attr(BOLD | UNDERLINE)
        } else {
            Style::fg(YELLOW).attr(BOLD)
        };
        let tw = str_width(name.as_str());
        let w = d.widths[c];
        draw_cell(
            s,
            x,
            end,
            inner.y,
            w,
            name.as_str(),
            tw,
            tw > w as usize,
            d.numeric[c],
            st,
        );
        separator(s, x, w, right, inner.y, '│', dim());
        k += 1;
    }
}

/// The header of the table and the rule under it.
fn draw_header(s: &mut Screen, d: &Doc, inner: Rect, digits: u16, hits: &Vec<(u16, u16, usize)>)
    requires
        old(s).wf(),
        d.wf(),
        inner.in_range(),
        inner.h >= 3,
        inner.x + digits <= u16::MAX,
        in_slots(hits@, d.col_off as int, d@.ncols(), inner.x + inner.w),
    ensures
        final(s).same_but_cells(old(s)),
        final(s)@ == picture::header_picture(
            old(s)@,
            d@,
            (picture::Ruling { inner, digits: digits as int, hits: hits@ }),
        ),
{
    let ghost r = picture::Ruling { inner, digits: digits as int, hits: hits@ };
    let y = inner.y;
    let hash = util::pad_left("#", digits as usize);
    s.text(inner.x, y, digits, hash.as_str(), dim());
    s.set(inner.x + digits, y, '│', dim());
    draw_titles(s, d, inner, digits, hits);
    s.hline(inner.x, y + 1, inner.w, '─', dim());
    s.set(inner.x + digits, y + 1, '┼', dim());
    let ghost g = s@;
    let right = inner.right();
    let mut k: usize = 0;
    while k < hits.len()
        invariant
            k <= hits@.len(),
            d.wf(),
            y == inner.y,
            y + 1 <= u16::MAX,
            r == (picture::Ruling { inner, digits: digits as int, hits: hits@ }),
            in_slots(hits@, d.col_off as int, d@.ncols(), inner.x + inner.w),
            right == inner.x + inner.w,
            s.same_but_cells(old(s)),
            s@ == picture::crossings_picture(g, d@, r, k as int),
        decreases hits@.len() - k,
    {
        let (x, end, c) = hits[k];
        assert(hits@[k as int] == (x, end, c));
        separator(s, x, d.widths[c], right, y + 1, '┼', dim());
        k += 1;
    }
}

/// Whether a text holds what was searched for last.
fn is_hit(txt: &str, needle: &Option<String>) -> (r: bool)
    ensures
        r == picture::is_hit(txt@, util::text_of(*needle)),
{
    match needle {
        Some(n) => {
            if n.as_str().is_empty() {
                return false;
            }
            let ci = search::ignore_case(n.as_str().as_bytes());
            util::contains(txt, n.as_str(), ci)
        },
        None => false,
    }
}

fn row_style(current: bool) -> (r: Style)
    ensures
        r == picture::row_style(current),
{
    if current {
        Style::plain().with_bg(ROW_BG)
    } else {
        Style::plain()
    }
}

fn row_line_style(current: bool) -> (r: Style)
    ensures
        r == picture::row_line_style(current),
{
    if current {
        dim().with_bg(ROW_BG)
    } else {
        dim()
    }
}

fn cell_style(selected: bool, hit: bool, focused: bool, current: bool) -> (r: Style)
    ensures
        r == picture::cell_style(selected, hit, focused, current),
{
    if selected {
        if focused {
            Style::fg(WHITE).with_bg(SEL_BG).attr(BOLD)
        } else {
            Style::plain().with_bg(SEL_BG_UNFOCUSED)
        }
    } else if hit {
        Style::fg(0).with_bg(YELLOW)
    } else {
        row_style(current)
    }
}

/// The raw field `c` of a record that was split into `fields`.
fn raw_field<'a>(d: &'a Doc, pos: usize, fields: &Vec<(usize, usize)>, c: usize) -> (r: &'a [u8])
    requires
        d.wf(),
        pos <= d@.data.len(),
        csv::ranges(fields@) == csv::record_fields(d@.data, pos as int, d.delim),
    ensures
        r@ == picture::raw_field(d@, pos as int, c as int),
{
    let data = d.data();
    proof {
        doc::lemma_ranges_inside(d@.data, pos as int, d.delim, fields@);
        assert(csv::ranges(fields@).len() == fields@.len());
    }
    if c < fields.len() {
        let (a, b) = fields[c];
        assert(csv::ranges(fields@)[c as int] == (a as int, b as int));
        &data[a..b]
    } else {
        let none = &data[0..0];
        assert(none@ =~= seq![]);
        none
    }
}

/// The widths that columns need once the first `k` columns on the screen of
/// the `n`th row have been looked at too.
spec fn widths_so_far(
    d: doc::Table,
    hits: Seq<(u16, u16, usize)>,
    pos: int,
    n: int,
    k: int,
    grown: Seq<u16>,
) -> bool {
    &&& grown.len() == d.layout.widths.len()
    &&& forall|c: int|
        0 <= c < grown.len() ==> #[trigger] grown[c] == if d.col_off <= c < d.col_off + k {
            picture::needed_width(d, pos, n + 1, c)
        } else if d.col_off <= c < d.col_off + hits.len() {
            picture::needed_width(d, pos, n, c)
        } else {
            d.layout.widths[c] as int
        }
}

/// The cells of the `n`th row on the screen.
fn draw_cells(
    s: &mut Screen,
    d: &Doc,
    inner: Rect,
    digits: u16,
    hits: &Vec<(u16, u16, usize)>,
    needle: &Option<String>,
    focused: bool,
    n: usize,
    pos: usize,
    fields: &Vec<(usize, usize)>,
    grown: &mut Vec<u16>,
    Ghost(start): Ghost<int>,
)
    requires
        old(s).wf(),
        d.wf(),
        inner.in_range(),
        in_slots(hits@, d.col_off as int, d@.ncols(), inner.x + inner.w),
        d.row_off + n <= usize::MAX,
        inner.y + 2 + n <= u16::MAX,
        pos == picture::nth_record(d@, start, n as int),
        pos <= d@.data.len(),
        csv::ranges(fields@) == csv::record_fields(d@.data, pos as int, d.delim),
        widths_so_far(d@, hits@, start, n as int, 0, old(grown)@),
    ensures
        final(s).same_but_cells(old(s)),
        final(s)@ == picture::cells_picture(
            old(s)@,
            d@,
            (picture::Ruling { inner, digits: digits as int, hits: hits@ }),
            util::text_of(*needle),
            focused,
            d.row_off + n,
            pos as int,
            inner.y + 2 + n,
            hits@.len() as int,
        ),
        widths_so_far(d@, hits@, start, n + 1, 0, final(grown)@),
{
    let ghost r = picture::Ruling { inner, digits: digits as int, hits: hits@ };
    let row: usize = d.row_off + n;
    let y: u16 = inner.y + 2 + n as u16;
    let current = row == d.row;
    let right = inner.right();
    let mut buf = String::new();
    let mut k: usize = 0;
    while k < hits.len()
        invariant
            k <= hits@.len(),
            d.wf(),
            row == d.row_off + n,
            y == inner.y + 2 + n,
            current == (row == d.row),
            right == inner.x + inner.w,
            pos == picture::nth_record(d@, start, n as int),
            pos <= d@.data.len(),
            csv::ranges(fields@) == csv::record_fields(d@.data, pos as int, d.delim),
            r == (picture::Ruling { inner, digits: digits as int, hits: hits@ }),
            in_slots(hits@, d.col_off as int, d@.ncols(), inner.x + inner.w),
            s.same_but_cells(old(s)),
            s@ == picture::cells_picture(
                old(s)@,
                d@,
                r,
                util::text_of(*needle),
                focused,
                row as int,
                pos as int,
                y as int,
                k as int,
            ),
            widths_so_far(d@, hits@, start, n as int, k as int, grown@),
        decreases hits@.len() - k,
    {
        let (x, end, c) = hits[k];
        assert(hits@[k as int] == (x, end, c));
        let w = d.widths[c];
        let raw = raw_field(d, pos, fields, c);
        let (tw, cut) = csv::decode_field(raw, w as usize, false, &mut buf);
        let narrow = cut && d.numeric[c] && w < MAX_COL_W;
        assert(narrow == picture::too_narrow(d@, pos as int, c as int));
        let ghost before = grown@;
        if narrow {
            // A truncated number is misleading: widen the column instead.
            let (full, _) = csv::decode_field(raw, MAX_COL_W as usize, false, &mut buf);
            if grown[c] < full as u16 {
                grown[c] = full as u16;
            }
        }
        assert(buf@ == picture::shown_text(d@, pos as int, c as int));
        proof {
            assert(before[c as int] == picture::needed_width(d@, start, n as int, c as int));
            assert(grown@[c as int] == picture::needed_width(d@, start, n + 1, c as int));
            assert forall|j: int| 0 <= j < grown@.len() && j != c implies #[trigger] grown@[j]
                == before[j] by {}
        }
        let selected = current && c == d.col;
        let hit = is_hit(buf.as_str(), needle);
        let st = cell_style(selected, hit, focused, current);
        if selected || hit {
            s.fill(Rect { x, y, w: end - x, h: 1 }, st);
        }
        draw_cell(s, x, end, y, w, buf.as_str(), tw, cut, d.numeric[c], st);
        separator(s, x, w, right, y, '│', row_line_style(current));
        k += 1;
    }
}

/// The `n`th row on the screen.
fn draw_row(
    s: &mut Screen,
    d: &Doc,
    inner: Rect,
    digits: u16,
    hits: &Vec<(u16, u16, usize)>,
    needle: &Option<String>,
    focused: bool,
    n: usize,
    pos: usize,
    fields: &Vec<(usize, usize)>,
    grown: &mut Vec<u16>,
    Ghost(start): Ghost<int>,
)
    requires
        old(s).wf(),
        d.wf(),
        inner.in_range(),
        in_slots(hits@, d.col_off as int, d@.ncols(), inner.x + inner.w),
        d.row_off + n < usize::MAX,
        inner.y + 2 + n <= u16::MAX,
        inner.x + digits <= u16::MAX,
        pos == picture::nth_record(d@, start, n as int),
        pos <= d@.data.len(),
        csv::ranges(fields@) == csv::record_fields(d@.data, pos as int, d.delim),
        widths_so_far(d@, hits@, start, n as int, 0, old(grown)@),
    ensures
        final(s).same_but_cells(old(s)),
        final(s)@ == picture::row_picture(
            old(s)@,
            d@,
            (picture::Ruling { inner, digits: digits as int, hits: hits@ }),
            util::text_of(*needle),
            focused,
            d.row_off + n,
            pos as int,
            inner.y + 2 + n,
        ),
        widths_so_far(d@, hits@, start, n + 1, 0, final(grown)@),
{
    let row: usize = d.row_off + n;
    let y: u16 = inner.y + 2 + n as u16;
    let current = row == d.row;
    if current {
        s.fill(Rect { x: inner.x, y, w: inner.w, h: 1 }, row_style(true));
    }
    let number_style = if current {
        Style::fg(YELLOW).with_bg(ROW_BG).attr(BOLD)
    } else {
        dim()
    };
    let number = text::to_decimal(row as u64 + 1);
    let number = util::pad_left(number.as_str(), digits as usize);
    s.text(inner.x, y, digits, number.as_str(), number_style);
    s.set(inner.x + digits, y, '│', row_line_style(current));
    draw_cells(
        s,
        d,
        inner,
        digits,
        hits,
        needle,
        focused,
        n,
        pos,
        fields,
        grown,
        Ghost(start),
    );
}

/// The rows on the screen. Returns the number of fields of the widest of them
/// and the widths that the columns need.
fn draw_rows(
    s: &mut Screen,
    d: &Doc,
    inner: Rect,
    digits: u16,
    hits: &Vec<(u16, u16, usize)>,
    needle: &Option<String>,
    focused: bool,
    start: usize,
    count: usize,
) -> (r: (usize, Vec<u16>))
    requires
        old(s).wf(),
        d.wf(),
        inner.in_range(),
        in_slots(hits@, d.col_off as int, d@.ncols(), inner.x + inner.w),
        start <= d@.data.len(),
        d.row_off + count <= usize::MAX,
        inner.y + 2 + count <= u16::MAX,
        inner.x + digits <= u16::MAX,
    ensures
        final(s).same_but_cells(old(s)),
        final(s)@ == picture::rows_picture(
            old(s)@,
            d@,
            (picture::Ruling { inner, digits: digits as int, hits: hits@ }),
            util::text_of(*needle),
            focused,
            start as int,
            count as int,
        ),
        r.0 == picture::fields_shown(d@, start as int, count as int),
        r.1@ == picture::grown_widths(
            d@,
            (picture::Ruling { inner, digits: digits as int, hits: hits@ }),
            start as int,
            count as int,
        ),
{
    let ghost r = picture::Ruling { inner, digits: digits as int, hits: hits@ };
    let mut grown: Vec<u16> = Vec::new();
    let mut c: usize = 0;
    while c < d.widths.len()
        invariant
            c <= d.widths@.len(),
            grown@ == d.widths@.take(c as int),
        decreases d.widths@.len() - c,
    {
        grown.push(d.widths[c]);
        c += 1;
        assert(d.widths@.take(c as int) =~= d.widths@.take(c - 1).push(d.widths@[c - 1]));
    }
    assert(grown@ =~= d.widths@);
    assert(widths_so_far(d@, hits@, start as int, 0, 0, grown@));
    let data = d.data();
    let mut fields: Vec<(usize, usize)> = Vec::new();
    let mut most: usize = 0;
    let mut pos: usize = start;
    let mut n: usize = 0;
    while n < count
        invariant
            n <= count,
            d.wf(),
            data@ == d@.data,
            inner.in_range(),
            in_slots(hits@, d.col_off as int, d@.ncols(), inner.x + inner.w),
            d.row_off + count <= usize::MAX,
            inner.y + 2 + count <= u16::MAX,
            inner.x + digits <= u16::MAX,
            pos == picture::nth_record(d@, start as int, n as int),
            pos <= d@.data.len(),
            most == picture::fields_shown(d@, start as int, n as int),
            widths_so_far(d@, hits@, start as int, n as int, 0, grown@),
            r == (picture::Ruling { inner, digits: digits as int, hits: hits@ }),
            s.same_but_cells(old(s)),
            s@ == picture::rows_picture(
                old(s)@,
                d@,
                r,
                util::text_of(*needle),
                focused,
                start as int,
                n as int,
            ),
        decreases count - n,
    {
        let next = csv::parse_record(data, pos, d.delim, &mut fields);
        proof {
            csv::lemma_split_end(data@, pos as int, d.delim);
            assert(csv::ranges(fields@).len() == fields@.len());
        }
        if most < fields.len() {
            most = fields.len();
        }
        draw_row(
            s,
            d,
            inner,
            digits,
            hits,
            needle,
            focused,
            n,
            pos,
            &fields,
            &mut grown,
            Ghost(start as int),
        );
        pos = next;
        n += 1;
    }
    assert(grown@ =~= picture::grown_widths(d@, r, start as int, count as int));
    (most, grown)
}

/// The footer of the table: which row is the current one.
fn doc_footer(d: &Doc) -> (r: String)
    requires
        d.row < usize::MAX,
    ensures
        r@ == picture::doc_footer(d@),
{
    let total = d.rows();
    let mut footer = String::new();
    if total > 0 {
        footer.append(" ");
        footer.append(util::fmt_num(d.row + 1).as_str());
        footer.append(" of ");
        footer.append(util::fmt_num(total).as_str());
        if d.index.done() {
            footer.append("");
        } else {
            footer.append("+");
        }
        footer.append(" ");
    }
    assert(footer@ =~= picture::doc_footer(d@));
    footer
}

/// Scrolls the document to its cursor in a panel. Returns the columns for the
/// row numbers.
fn place(d: &mut Doc, inner: Rect) -> (digits: u16)
    requires
        old(d).wf(),
        inner.h >= 3,
        inner.in_range(),
        old(d)@.col < old(d)@.ncols(),
    ensures
        final(d).wf(),
        final(d).same_file(old(d)),
        final(d)@ == picture::placed(old(d)@, inner),
        final(d).col_off <= final(d).col,
        digits == picture::number_width(final(d)@, inner.h - 2),
        2 <= digits <= 40,
{
    let vis: usize = inner.h as usize - 2;
    if d.row < d.row_off {
        d.row_off = d.row;
    } else if d.row - d.row_off >= vis {
        d.row_off = d.row - (vis - 1);
    }
    let total = d.rows();
    let last = d.row_off.saturating_add(vis);
    let most = if total < last {
        last
    } else {
        total
    };
    proof {
        util::lemma_grouped_short(most as nat);
    }
    let len = util::fmt_len(most);
    let digits: u16 = if len < 2 {
        2
    } else {
        len as u16
    };
    assert(digits == picture::number_width(d@, vis as int));
    let avail: u16 = inner.w.saturating_sub(digits).saturating_sub(1);
    d.col_off = first_col(&d.widths, d.col, d.col_off, avail);
    digits
}

/// Draws a document that is scrolled to its cursor.
fn draw_body(
    s: &mut Screen,
    d: &mut Doc,
    inner: Rect,
    digits: u16,
    hits: &Vec<(u16, u16, usize)>,
    needle: &Option<String>,
    focused: bool,
) -> (wider: bool)
    requires
        old(s).wf(),
        old(d).wf(),
        inner.in_range(),
        inner.h >= 3,
        inner.x + digits + 2 <= u16::MAX,
        in_slots(hits@, old(d).col_off as int, old(d)@.ncols(), inner.x + inner.w),
    ensures
        final(s).same_but_cells(old(s)),
        final(d).wf(),
        final(d).same_file(old(d)),
        ({
            let r = picture::Ruling { inner, digits: digits as int, hits: hits@ };
            &&& final(s)@ == picture::body_picture(
                picture::header_picture(old(s)@, old(d)@, r),
                old(d)@,
                r,
                util::text_of(*needle),
                focused,
            )
            &&& final(d)@ == picture::body_drawn(old(d)@, r)
            &&& wider == (final(d)@.layout.widths.take(old(d)@.ncols()) != old(d)@.layout.widths)
        }),
{
    let ghost r = picture::Ruling { inner, digits: digits as int, hits: hits@ };
    draw_header(s, d, inner, digits, hits);
    let total = d.rows();
    let start = d.record_start(d.row_off);
    if total == 0 {
        let m = if d.index.done() {
            "(no rows)"
        } else {
            "Indexing…"
        };
        let avail: u16 = inner.w.saturating_sub(digits).saturating_sub(1);
        s.text(inner.x + digits + 2, inner.y + 2, avail, m, dim());
        assert(d@.layout.widths.take(d@.ncols()) =~= d@.layout.widths);
        return false;
    }
    let start = match start {
        Some(p) => p,
        None => {
            assert(d@.layout.widths.take(d@.ncols()) =~= d@.layout.widths);
            return false;
        },
    };
    let vis: usize = inner.h as usize - 2;
    let left = total.saturating_sub(d.row_off);
    let count = if left < vis {
        left
    } else {
        vis
    };
    let (most, grown) = draw_rows(s, d, inner, digits, hits, needle, focused, start, count);
    let ghost g = grown@;
    let ghost before = d@;
    let wider = !same_widths(&grown, &d.widths);
    proof {
        picture::lemma_with_cols(d@.layout, most as int);
        assert forall|c: int| 0 <= c < g.len() implies 1 <= #[trigger] g[c] <= 500 by {
            picture::lemma_needed_width(before, start as int, count as int, c);
            assert(1 <= before.layout.widths[c] <= 500);
        }
    }
    d.ensure_cols(most);
    d.set_widths(&grown);
    proof {
        assert(d@.layout.widths.take(before.ncols()) =~= g);
        assert(g.len() == before.layout.widths.len());
    }
    wider
}

/// Whether two rows of widths are equal.
fn same_widths(a: &Vec<u16>, b: &Vec<u16>) -> (r: bool)
    requires
        a@.len() == b@.len(),
    ensures
        r == (a@ == b@),
{
    let mut i: usize = 0;
    while i < a.len()
        invariant
            i <= a@.len() == b@.len(),
            forall|k: int| 0 <= k < i ==> a@[k] == b@[k],
        decreases a@.len() - i,
    {
        if a[i] != b[i] {
            return false;
        }
        i += 1;
    }
    assert(a@ =~= b@);
    true
}

impl App {
    fn draw_table(&mut self, s: &mut Screen)
        requires
            old(self).wf(),
            old(s).wf(),
            old(self).table_rect.in_range(),
            old(self).table_rect.x <= 100,
            old(self).table_rect.y == 0,
            old(self).table_rect.h < u16::MAX,
        ensures
            final(self).wf(),
            final(self)@ == picture::table_drawn(old(self)@),
            final(s).same_but_cells(old(s)),
            final(s)@ == picture::table_picture(old(self)@, old(s)@),
            final(self)@.doc matches Some(d) ==> d.row < d.rows() || d.row == 0,
    {
        let panel = self.table_rect;
        let focused = match self.focus {
            Focus::Table => true,
            Focus::Tree => false,
        };
        let inner = panel.inner();
        self.col_hits = Vec::new();
        assert(self.col_hits@ =~= seq![]);
        let mut d = match self.doc.take() {
            Some(d) => d,
            None => {
                s.frame(panel, " [2] Preview ", "", focused);
                draw_welcome(s, inner);
                return;
            },
        };
        d.clamp();
        let mut title = text::to_string(" [2] ");
        title.append(d.name.as_str());
        title.append(" ");
        let footer = doc_footer(&d);
        s.frame(panel, title.as_str(), footer.as_str(), focused);
        if inner.h < 3 || inner.w < 10 {
            self.doc = Some(d);
            return;
        }
        self.page = inner.h as usize - 2;
        self.rows_y = inner.y + 2;
        let digits = place(&mut d, inner);
        let right = inner.right();
        let left: u16 = inner.x + digits + 1;
        let hits = slots(&d.widths, d.col_off, left, right);
        let wider = draw_body(s, &mut d, inner, digits, &hits, &self.needle, focused);
        self.col_hits = hits;
        self.doc = Some(d);
        if wider {
            self.relayout = true;
        }
    }
}

// ---------------------------------------------------------------------------
// Status line
// ---------------------------------------------------------------------------

fn draw_prompt(s: &mut Screen, kind: PromptKind, input: &str, y: u16)
    requires
        old(s).wf(),
    ensures
        final(s).same_but_cells(old(s)),
        final(s)@ == picture::prompt_picture(old(s)@, kind, input@, y as int),
{
    let w = s.w;
    let label = match kind {
        PromptKind::Search => "Search: /",
        PromptKind::Goto => "Go to row: ",
    };
    let x = s.text(0, y, w, label, Style::fg(CYAN).attr(BOLD));
    let n = s.text(x, y, w - x, input, Style::plain());
    let z: u16 = x + n;
    s.set(z, y, ' ', Style::plain().attr(REVERSE));
    if z as u32 + 28 + 4 < w as u32 {
        s.text(w - 28, y, 28, "enter: confirm | esc: cancel", dim());
    }
}

/// What the status line says of the document.
fn doc_status(d: &Doc, searching: bool) -> (r: String)
    requires
        d.wf(),
    ensures
        r@ == picture::doc_status(d@, searching),
{
    let mut right = String::new();
    if searching {
        right.append("searching… │ ");
    } else {
        right.append("");
    }
    let ghost a = right@;
    if d.index.done() {
        right.append("");
    } else {
        let pct = util::percent(d.index.scanned(), d.size());
        right.append("indexing ");
        right.append(text::to_decimal(pct).as_str());
        right.append("% │ ");
    }
    proof {
        let b = if d@.done {
            ""@
        } else {
            "indexing "@ + text::decimal(
                util::percent_of(d@.scanned as nat, d@.data.len()),
            ) + "% │ "@
        };
        assert(right@ =~= a + b);
    }
    right.append(util::fmt_num(d.rows()).as_str());
    right.append(" × ");
    right.append(text::to_decimal(d.ncols() as u64).as_str());
    right.append(" │ ");
    right.append(util::delim_name(d.delim));
    right.append(" │ ");
    if d.has_header {
        right.append("header");
    } else {
        right.append("no header");
    }
    right.append(" │ ");
    right.append(util::human_size(d.size() as u64).as_str());
    assert(right@ =~= picture::doc_status(d@, searching));
    right
}

/// One hint. Returns where the next one begins.
fn draw_hint(s: &mut Screen, first: bool, label: &str, key: &str, x: u16, max: u16, y: u16) -> (r:
    u16)
    requires
        old(s).wf(),
        x <= max,
        !first ==> x + 3 <= max,
    ensures
        final(s).same_but_cells(old(s)),
        final(s)@ == picture::hint_picture(
            old(s)@,
            first,
            label@,
            key@,
            x as int,
            max as int,
            y as int,
        ),
        r == picture::hint_end(first, label@, key@, x as int, max as int),
        r <= max,
{
    let mut at: u16 = x;
    if !first {
        at = at + s.text(at, y, 3, " | ", dim());
    }
    at = at + s.text(at, y, max - at, label, Style::plain());
    at = at + s.text(at, y, max - at, ": ", Style::plain());
    at = at + s.text(at, y, max - at, key, Style::fg(BLUE).attr(BOLD));
    at
}

/// Columns that a hint takes.
fn hint_width(first: bool, label: &str, key: &str) -> (r: u128)
    ensures
        r == picture::hint_width(first, label@, key@),
        r <= 0x8_0000_0000_0000_0000,
{
    let n = text::chars_of(label).len() as u128 + 2 + str_width(key) as u128;
    if first {
        n
    } else {
        n + 3
    }
}

/// As many hints as fit.
fn draw_hints(s: &mut Screen, labels: &[&'static str], keys: &[&'static str], max: u16, y: u16)
    requires
        old(s).wf(),
        labels@.len() == keys@.len(),
    ensures
        final(s).same_but_cells(old(s)),
        final(s)@ == picture::hints_picture(
            old(s)@,
            labels@,
            keys@,
            0,
            0,
            max as int,
            y as int,
        ),
{
    let mut x: u16 = 0;
    let mut i: usize = 0;
    while i < labels.len()
        invariant
            i <= labels@.len() == keys@.len(),
            x <= max,
            s.same_but_cells(old(s)),
            picture::hints_picture(old(s)@, labels@, keys@, 0, 0, max as int, y as int)
                == picture::hints_picture(
                s@,
                labels@,
                keys@,
                i as int,
                x as int,
                max as int,
                y as int,
            ),
        decreases labels@.len() - i,
    {
        let w = hint_width(i == 0, labels[i], keys[i]);
        if x as u128 + w > max as u128 {
            return;
        }
        proof {
            screen::lemma_width_le_bytes(keys@[i as int]@);
        }
        x = draw_hint(s, i == 0, labels[i], keys[i], x, max, y);
        i += 1;
    }
}

impl App {
    fn draw_status(&self, s: &mut Screen, y: u16)
        requires
            self.wf(),
            old(s).wf(),
        ensures
            final(s).same_but_cells(old(s)),
            final(s)@ == picture::status_picture(self@, old(s)@, y as int),
    {
        let w = s.w;
        if let Some((kind, input)) = &self.prompt {
            draw_prompt(s, *kind, input.as_str(), y);
            return;
        }
        let right = match &self.doc {
            Some(d) => doc_status(d, self.search.is_some()),
            None => String::new(),
        };
        assert(right@ =~= picture::status_right(self@));
        let rw = low_half(str_width(right.as_str()));
        let mut left_max: u16 = w;
        if rw as u32 + 10 < w as u32 {
            left_max = w - rw - 2;
            s.text(w - rw, y, rw, right.as_str(), Style::fg(CYAN));
        }
        if let Some((m, err)) = &self.msg {
            let color = if *err {
                RED
            } else {
                GREEN
            };
            s.text_ellipsis(0, y, left_max, m.as_str(), Style::fg(color).attr(BOLD));
            return;
        }
        match self.focus {
            Focus::Tree => draw_hints(
                s,
                TREE_LABELS.as_slice(),
                TREE_KEYS.as_slice(),
                left_max,
                y,
            ),
            Focus::Table => draw_hints(
                s,
                TABLE_LABELS.as_slice(),
                TABLE_KEYS.as_slice(),
                left_max,
                y,
            ),
        }
    }
}

// ---------------------------------------------------------------------------
// Help
// ---------------------------------------------------------------------------

/// A rectangle in the middle of the screen.
fn centered(s: &Screen, w: u16, h: u16) -> (r: Rect)
    requires
        w <= s.w,
        h <= s.h,
    ensures
        r == picture::middle(s@, w as int, h as int),
        r.x + r.w <= s.w,
        r.y + r.h <= s.h,
{
    Rect { x: (s.w - w) / 2, y: (s.h - h) / 2, w, h }
}

/// Draws the help. Returns how far it is scrolled.
fn draw_help(s: &mut Screen, scroll: usize) -> (r: usize)
    requires
        old(s).wf(),
        old(s).w >= 30,
        old(s).h >= 6,
    ensures
        final(s).same_but_cells(old(s)),
        final(s)@ == picture::help_picture(old(s)@, scroll as int),
        r == picture::help_scroll(old(s)@, scroll as int),
{
    let w: u16 = if s.w - 2 < 62 {
        s.w - 2
    } else {
        62
    };
    let h: u16 = if s.h - 2 < 34 {
        s.h - 2
    } else {
        34
    };
    let rect = centered(s, w, h);
    s.fill(rect, Style::plain());
    s.frame(rect, " Keybindings ", " esc: close ", true);
    let inner = rect.inner();
    let most: usize = HELP_LEN.saturating_sub(inner.h as usize);
    let top: usize = if scroll < most {
        scroll
    } else {
        most
    };
    let left: usize = HELP_LEN - top;
    let n: usize = if left < inner.h as usize {
        left
    } else {
        inner.h as usize
    };
    let ghost g = s@;
    let mut k: usize = 0;
    while k < n
        invariant
            k <= n <= inner.h,
            top + n <= HELP_LEN,
            inner.y + inner.h <= u16::MAX,
            inner.x + 20 <= u16::MAX,
            inner.w >= 20,
            s.same_but_cells(old(s)),
            s@ == picture::help_lines(g, inner, top as int, k as int),
        decreases n - k,
    {
        let y: u16 = inner.y + k as u16;
        let key = HELP_KEYS[top + k];
        let desc = HELP_TEXTS[top + k];
        if desc.is_empty() {
            s.text(inner.x + 1, y, inner.w - 1, key, Style::fg(GREEN).attr(BOLD));
        } else {
            s.text(inner.x + 3, y, 16, key, Style::fg(BLUE).attr(BOLD));
            s.text(inner.x + 20, y, inner.w.saturating_sub(21), desc, Style::plain());
        }
        k += 1;
    }
    top
}

// ---------------------------------------------------------------------------
// Record
// ---------------------------------------------------------------------------

/// Titles and texts of the current row.
fn record_fields(d: &Doc) -> (r: Vec<(String, String)>)
    requires
        d.wf(),
    ensures
        app::pairs(r@) == picture::record_fields(d@),
{
    let mut r: Vec<(String, String)> = Vec::new();
    let mut fields: Vec<(usize, usize)> = Vec::new();
    if !d.read_row(d.row, &mut fields) {
        assert(app::pairs(r@) =~= seq![]);
        return r;
    }
    let ghost fv = csv::ranges(fields@);
    assert(fv.len() == fields@.len());
    let data = d.data();
    let ncols = d.ncols();
    let n: usize = if ncols < fields.len() {
        fields.len()
    } else {
        ncols
    };
    let mut c: usize = 0;
    while c < n
        invariant
            c <= n,
            d.wf(),
            data@ == d@.data,
            fv == csv::ranges(fields@),
            fv.len() == fields@.len(),
            forall|k: int|
                0 <= k < fields@.len() ==> (#[trigger] fields@[k]).0 <= fields@[k].1
                    <= d@.data.len(),
            r@.len() == c,
            forall|k: int|
                0 <= k < c ==> ((#[trigger] r@[k]).0@, r@[k].1@) == picture::record_field(
                    d@,
                    fv,
                    k,
                ),
        decreases n - c,
    {
        let mut v = String::new();
        if c < fields.len() {
            let (a, b) = fields[c];
            assert(fv[c as int] == (a as int, b as int));
            assert(fields@[c as int].0 <= fields@[c as int].1);
            csv::decode_field(&data[a..b], 0x10_0000, true, &mut v);
        } else {
            assert(v@ =~= seq![]);
        }
        let name = if c < d.headers.len() {
            assert(d@.layout.headers[c as int] == d.headers@[c as int]@);
            text::to_string(d.headers[c].as_str())
        } else {
            doc::col_name(c)
        };
        r.push((name, v));
        c += 1;
    }
    assert(app::pairs(r@) =~= picture::record_fields(d@));
    r
}

/// Columns for the titles.
fn label_width(fields: &Vec<(String, String)>) -> (r: u16)
    ensures
        r == picture::label_width(app::pairs(fields@)),
        4 <= r <= 28,
{
    let ghost fv = app::pairs(fields@);
    let mut w: usize = 0;
    let mut i: usize = 0;
    assert(fv.take(0) =~= seq![]);
    while i < fields.len()
        invariant
            i <= fields@.len(),
            fv == app::pairs(fields@),
            w == picture::widest_title(fv.take(i as int)),
        decreases fields@.len() - i,
    {
        let v = str_width(fields[i].0.as_str());
        assert(fv.take(i + 1).drop_last() =~= fv.take(i as int));
        assert(fv.take(i + 1).last() == fv[i as int]);
        if w < v {
            w = v;
        }
        i += 1;
    }
    assert(fv.take(i as int) =~= fv);
    if w < 4 {
        4
    } else if w > 28 {
        28
    } else {
        w as u16
    }
}

/// A line of a record: the column it belongs to, whether it is the first of
/// its field, and the text.
struct WrappedLine {
    col: usize,
    first: bool,
    text: String,
}

impl View for WrappedLine {
    type V = picture::RecordLine;

    closed spec fn view(&self) -> picture::RecordLine {
        picture::RecordLine { col: self.col as int, first: self.first, text: self.text@ }
    }
}

spec fn wrapped(v: Seq<WrappedLine>) -> Seq<picture::RecordLine> {
    v.map_values(|l: WrappedLine| l@)
}

/// Flattens fields into wrapped lines. Returns them and the first line of the
/// current column.
fn record_lines(fields: &Vec<(String, String)>, width: usize, col: usize) -> (r: (
    Vec<WrappedLine>,
    usize,
))
    ensures
        wrapped(r.0@) == picture::record_lines(
            app::pairs(fields@),
            width as int,
            fields@.len() as int,
        ),
        r.1 == picture::focus_line(app::pairs(fields@), width as int, col as int),
        forall|k: int| 0 <= k < r.0@.len() ==> (#[trigger] r.0@[k]).col < fields@.len(),
{
    let ghost fv = app::pairs(fields@);
    let mut lines: Vec<WrappedLine> = Vec::new();
    let mut focus: usize = 0;
    let mut c: usize = 0;
    assert(wrapped(lines@) =~= seq![]);
    while c < fields.len()
        invariant
            c <= fields@.len(),
            fv == app::pairs(fields@),
            wrapped(lines@) == picture::record_lines(fv, width as int, c as int),
            focus == if col < c {
                picture::focus_line(fv, width as int, col as int)
            } else {
                0
            },
            forall|k: int| 0 <= k < lines@.len() ==> (#[trigger] lines@[k]).col < fields@.len(),
        decreases fields@.len() - c,
    {
        if c == col {
            focus = lines.len();
            assert(lines@.len() == wrapped(lines@).len());
        }
        let ls = wrap::wrap(fields[c].1.as_str(), width, 2000);
        let ghost lv = text::texts(ls@);
        assert(fv[c as int].1 == fields@[c as int].1@);
        let ghost before = wrapped(lines@);
        let mut i: usize = 0;
        assert(before + seq![] =~= before);
        while i < ls.len()
            invariant
                i <= ls@.len(),
                c < fields@.len(),
                lv == text::texts(ls@),
                wrapped(lines@) == before + picture::field_lines(c as int, lv, i as int),
                forall|k: int|
                    0 <= k < lines@.len() ==> (#[trigger] lines@[k]).col < fields@.len(),
            decreases ls@.len() - i,
        {
            let l = WrappedLine { col: c, first: i == 0, text: text::to_string(ls[i].as_str()) };
            assert(lv[i as int] == ls@[i as int]@);
            let ghost lb = lines@;
            lines.push(l);
            proof {
                let f = picture::field_lines(c as int, lv, i as int);
                let x = picture::RecordLine { col: c as int, first: i == 0, text: lv[i as int] };
                assert(l@ == x);
                assert(wrapped(lines@) =~= wrapped(lb).push(x));
                assert(before + f.push(x) =~= (before + f).push(x));
            }
            i += 1;
        }
        c += 1;
    }
    (lines, focus)
}

/// One line of the record.
fn draw_record_line(
    s: &mut Screen,
    inner: Rect,
    label_w: u16,
    fields: &Vec<(String, String)>,
    l: &WrappedLine,
    col: usize,
    y: u16,
)
    requires
        old(s).wf(),
        inner.in_range(),
        inner.x + 1 + label_w + 3 + 1 <= inner.x + inner.w,
        l.col < fields@.len(),
    ensures
        final(s).same_but_cells(old(s)),
        final(s)@ == picture::record_line(
            old(s)@,
            inner,
            label_w as int,
            app::pairs(fields@),
            l@,
            col as int,
            y as int,
        ),
{
    let current = l.col == col;
    let bg = row_style(current);
    let x: u16 = inner.x + 1 + label_w + 3;
    let w: u16 = inner.right() - x - 1;
    if current {
        s.fill(Rect { x: inner.x, y, w: inner.w, h: 1 }, bg);
    }
    if l.first {
        let name = &fields[l.col].0;
        assert(app::pairs(fields@)[l.col as int].0 == name@);
        s.text_ellipsis(inner.x + 1, y, label_w, name.as_str(), bg.with_fg(YELLOW).attr(BOLD));
    }
    s.set(x - 2, y, '│', bg.attr(DIM));
    if l.text.as_str().is_empty() && l.first {
        s.text(x, y, w, "∅", bg.attr(DIM));
    } else {
        s.text(x, y, w, l.text.as_str(), bg);
    }
}

/// Where the record stands.
fn record_rect(s: &Screen) -> (r: Rect)
    requires
        s.w >= 30,
        s.h >= 6,
    ensures
        r == picture::record_rect(s@),
        r.x + r.w <= s.w,
        r.y + r.h <= s.h,
        r.w >= 28,
        r.h >= 4,
{
    let w4: u32 = s.w as u32 * 4 / 5;
    let h4: u32 = s.h as u32 * 4 / 5;
    let w = if w4 < 40 {
        40
    } else {
        w4
    };
    let h = if h4 < 8 {
        8
    } else {
        h4
    };
    let w = if w < s.w as u32 - 2 {
        w as u16
    } else {
        s.w - 2
    };
    let h = if h < s.h as u32 - 2 {
        h as u16
    } else {
        s.h - 2
    };
    centered(s, w, h)
}

/// Draws the record over the panels.
fn draw_record(s: &mut Screen, rv: &mut RecordView, d: &Doc)
    requires
        old(s).wf(),
        old(s).w >= 30,
        old(s).h >= 6,
        d.wf(),
        d.row < usize::MAX,
    ensures
        final(s).same_but_cells(old(s)),
        final(s)@ == picture::record_picture(old(rv)@, d@, old(s)@),
        final(rv)@ == picture::record_drawn(old(rv)@, d@, old(s)@),
{
    if rv.row != d.row {
        rv.row = d.row;
        rv.fields = record_fields(d);
    }
    let ghost r1 = rv@;
    assert(r1 == picture::record_loaded(old(rv)@, d@));
    let rect = record_rect(s);
    s.fill(rect, Style::plain());
    let mut title = text::to_string(" Row ");
    title.append(util::fmt_num(d.row + 1).as_str());
    title.append(" of ");
    title.append(util::fmt_num(d.rows()).as_str());
    title.append(" ");
    s.frame(
        rect,
        title.as_str(),
        " j/k scroll │ h/l prev/next row │ y copy │ esc close ",
        true,
    );
    let inner = rect.inner();
    let label_w = label_width(&rv.fields);
    let val_x: u32 = inner.x as u32 + 1 + label_w as u32 + 3;
    let right: u32 = inner.right() as u32;
    let val_w: u32 = right.saturating_sub(val_x + 1);
    assert(val_w == picture::value_width(inner, label_w as int));
    if val_w < 4 {
        return;
    }
    let (lines, focus) = record_lines(&rv.fields, val_w as usize, d.col);
    let ghost lv = wrapped(lines@);
    assert(lv.len() == lines@.len());
    let vis = inner.h as usize;
    if rv.jump {
        rv.jump = false;
        rv.scroll = focus.saturating_sub(vis / 3);
    }
    let most = lines.len().saturating_sub(vis);
    if rv.scroll > most {
        rv.scroll = most;
    }
    let ghost g = s@;
    let top = rv.scroll;
    let count: usize = lines.len();
    let left: usize = count - top;
    let n: usize = if left < vis {
        left
    } else {
        vis
    };
    assert(rv@ =~= picture::record_drawn(old(rv)@, d@, old(s)@));
    let mut k: usize = 0;
    while k < n
        invariant
            k <= n <= inner.h,
            top + n <= lines@.len() == count,
            lv == wrapped(lines@),
            inner.in_range(),
            inner.x + 1 + label_w + 3 + 1 <= inner.x + inner.w,
            forall|j: int|
                0 <= j < lines@.len() ==> (#[trigger] lines@[j]).col < rv.fields@.len(),
            s.same_but_cells(old(s)),
            s@ == picture::record_lines_picture(
                g,
                inner,
                label_w as int,
                app::pairs(rv.fields@),
                lv,
                top as int,
                d.col as int,
                k as int,
            ),
        decreases n - k,
    {
        let l = &lines[top + k];
        assert(lv[top + k] == l@);
        assert(lines@[top + k].col < rv.fields@.len());
        draw_record_line(s, inner, label_w, &rv.fields, l, d.col, inner.y + k as u16);
        k += 1;
    }
}

// ---------------------------------------------------------------------------
// The frame
// ---------------------------------------------------------------------------

impl App {
    /// Lays the panels out on a screen.
    fn lay_out(&mut self, w: u16, h: u16)
        requires
            old(self).wf(),
            w >= 30,
            h >= 6,
        ensures
            final(self).wf(),
            final(self)@ == picture::panels(old(self)@, w as int, h as int),
            final(self).tree_rect.w <= 44,
    {
        let mut tree_w: u16 = 0;
        if self.show_tree {
            let q = w / 4;
            tree_w = if q < 24 {
                24
            } else if q > 44 {
                44
            } else {
                q
            };
            if tree_w > w / 2 {
                tree_w = w / 2;
            }
        }
        self.tree_rect = Rect { x: 0, y: 0, w: tree_w, h: h - 1 };
        self.table_rect = Rect { x: tree_w, y: 0, w: w - tree_w, h: h - 1 };
    }

    /// Draws what lies over the panels.
    fn draw_cover(&mut self, s: &mut Screen)
        requires
            old(self).wf(),
            old(s).wf(),
            old(s).w >= 30,
            old(s).h >= 6,
            old(self)@.doc matches Some(d) ==> d.row < d.rows() || d.row == 0,
        ensures
            final(self).wf(),
            final(self)@ == picture::cover_drawn(old(self)@, old(s)@),
            final(s).same_but_cells(old(s)),
            final(s)@ == picture::cover_picture(old(self)@, old(s)@),
    {
        match &mut self.overlay {
            Overlay::Closed => {},
            Overlay::Help(n) => {
                *n = draw_help(s, *n);
            },
            Overlay::Record(rv) => {
                if let Some(d) = &self.doc {
                    draw_record(s, rv, d);
                }
            },
        }
    }

    /// Draws a frame.
    pub fn render(&mut self, s: &mut Screen)
        requires
            old(self).wf(),
            old(s).wf(),
        ensures
            final(self).wf(),
            final(s).same_but_cells(old(s)),
            (final(self)@, final(s)@) == picture::rendered(
                old(self)@,
                old(s).w as int,
                old(s).h as int,
            ),
        decreases
            picture::new_cols(old(self)@),
            picture::new_width(old(self)@),
            picture::pending(old(self)@),
    {
        s.clear();
        let (w, h) = (s.w, s.h);
        if w < 30 || h < 6 {
            s.text(0, 0, w, "Terminal too small", Style::fg(RED));
            return;
        }
        let ghost s0 = self@;
        self.lay_out(w, h);
        if self.show_tree {
            self.draw_tree(s);
        }
        self.draw_table(s);
        self.draw_status(s, h - 1);
        self.draw_cover(s);
        assert(self@ == picture::pass_drawn(s0, w as int, h as int)) by {
            reveal(picture::pass_drawn);
        }
        assert(s@ == picture::pass_picture(s0, w as int, h as int)) by {
            reveal(picture::pass_picture);
        }
        // Column widths changed while drawing: redraw with the new layout.
        if self.relayout {
            self.relayout = false;
            proof {
                picture::lemma_pass_gains(s0, w as int, h as int);
            }
            self.render(s);
        }
    }
}

} // verus!
