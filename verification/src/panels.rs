//! What the panels promise: titles stand over their columns, the explorer shows
//! its entries, and the last line shows what was typed and what is to be told.

use crate::doc::Table;
use crate::picture::{self, Ruling};
use crate::screen::{self, Cell, Color, Grid, Rect, Style, CONT};
use crate::showing;
use crate::state::{Focus, PromptKind, State};
use crate::tree::{Explorer, Line};
use crate::{display, frames, path, text, util};
use vstd::prelude::*;

verus! {

// ---------------------------------------------------------------------------
// Places
// ---------------------------------------------------------------------------

/// The explorer takes a quarter of the screen, but no less than 24 and no more
/// than 44 columns, nor more than half of the screen; the table takes the rest,
/// and the last line is for neither.
pub proof fn panels_share_the_screen(s: State, w: int, h: int)
    requires
        0 < w <= u16::MAX,
        0 < h <= u16::MAX,
    ensures
        ({
            let p = picture::panels(s, w, h);
            let t = p.tree_rect;
            &&& t.x == 0 && t.y == 0 && t.h == h - 1
            &&& p.table_rect == (Rect { x: t.w, y: 0, w: (w - t.w) as u16, h: (h - 1) as u16 })
            &&& !s.show_tree ==> t.w == 0
            &&& s.show_tree && 96 <= w < 180 ==> 4 * t.w <= w < 4 * t.w + 4
            &&& s.show_tree && 48 <= w < 96 ==> t.w == 24
            &&& s.show_tree && 180 <= w ==> t.w == 44
            &&& s.show_tree && w < 48 ==> 2 * t.w <= w < 2 * t.w + 2
            &&& p == (State { tree_rect: p.tree_rect, table_rect: p.table_rect, ..s })
        }),
{
}

/// The table is scrolled no further than it takes to show the current row: not
/// at all when it is shown already, and otherwise until it is the first or the
/// last one on the screen.
pub proof fn rows_scroll_no_further_than_needed(d: Table, vis: int)
    requires
        0 < vis,
    ensures
        ({
            let p = picture::scrolled_down(d, vis);
            &&& p == (Table { row_off: p.row_off, ..d })
            &&& d.row_off <= d.row < d.row_off + vis ==> p.row_off == d.row_off
            &&& d.row < d.row_off ==> p.row_off == d.row
            &&& d.row_off + vis <= d.row ==> p.row_off + vis == d.row + 1
        }),
{
}

proof fn lemma_scroll_cols(widths: Seq<u16>, col: int, off: int, avail: int, c: int)
    requires
        off < col,
        off <= c < picture::scroll_cols(widths, col, off, avail),
    ensures
        picture::span(widths, c, col) > avail,
        c < col,
    decreases col - off,
{
    if picture::span(widths, off, col) > avail {
        if c > off {
            if off + 1 < col {
                lemma_scroll_cols(widths, col, off + 1, avail, c);
            }
        }
    }
}

/// Columns scroll to the left until the current one is the first, and to the
/// right only as long as it would not be shown in full.
pub proof fn columns_scroll_no_further_than_needed(
    widths: Seq<u16>,
    col: int,
    off: int,
    avail: int,
    c: int,
)
    ensures
        ({
            let to = picture::scroll_cols(widths, col, off, avail);
            &&& col <= off ==> to == col
            &&& col > off && picture::span(widths, off, col) <= avail ==> to == off
            &&& col > off && off <= c < to ==> picture::span(widths, c, col) > avail
        }),
{
    if col > off && off <= c < picture::scroll_cols(widths, col, off, avail) {
        lemma_scroll_cols(widths, col, off, avail, c);
    }
}

/// Columns take their widths and three more each.
pub proof fn columns_take_their_widths(widths: Seq<u16>, a: int, b: int, c: int)
    requires
        a <= b < c,
    ensures
        picture::span(widths, a, c) == picture::span(widths, a, b) + picture::span(
            widths,
            b + 1,
            c,
        ),
        picture::span(widths, a, a) == widths[a] + 3,
    decreases c - b,
{
    reveal_with_fuel(picture::span, 2);
    if c > b + 1 {
        columns_take_their_widths(widths, a, b, c - 1);
    }
}

// ---------------------------------------------------------------------------
// What drawing leaves alone
// ---------------------------------------------------------------------------

pub proof fn lemma_add(a: Grid, b: Grid, c: Grid, x: int, y0: int, y1: int, z: int, v0: int, v1: int)
    requires
        showing::only(a, b, x, y0, y1),
        showing::only(b, c, z, v0, v1),
        x <= z,
        y0 <= v0,
        v1 <= y1,
    ensures
        showing::only(a, c, x, y0, y1),
{
    showing::lemma_only_wider(b, c, z, v0, v1, x, y0, y1);
    showing::lemma_only_then(a, b, c, x, y0, y1, x);
}

/// A text stays when nothing but what is behind it, or other lines, changes.
pub proof fn lemma_shows_kept(
    a: Grid,
    b: Grid,
    left: int,
    y0: int,
    y1: int,
    x: int,
    y: int,
    s: Seq<char>,
    st: Style,
)
    requires
        showing::only(a, b, left, y0, y1),
        showing::shows(a, x, y, s, st),
        0 <= x,
        x + screen::text_width(s) <= a.w,
        0 <= y < a.h,
        x + screen::text_width(s) <= left || y < y0 || y1 <= y,
    ensures
        showing::shows(b, x, y, s, st),
{
    assert forall|k: int|
        0 <= k < s.len() && screen::width_of(s[k]) > 0 && x + screen::text_width(s.take(k))
            + screen::width_of(s[k]) <= b.w implies b.at(x + screen::text_width(s.take(k)), y) == (
    Cell { ch: #[trigger] s[k], st }) by {
        showing::lemma_place(s, k);
        let i = x + screen::text_width(s.take(k));
        assert(a.at(i, y) == (Cell { ch: s[k], st }));
        assert(b.at(i, y) == a.at(i, y));
    }
}

proof fn lemma_only_sides(g: Grid, x0: int, x1: int, y: int, n: int, st: Style, h: int)
    requires
        g.wf(),
        0 <= n <= h,
        x0 <= x1,
    ensures
        showing::only(g, g.sides(x0, x1, y, n, st), x0 - 1, y, y + h),
    decreases n,
{
    if n > 0 {
        lemma_only_sides(g, x0, x1, y, n - 1, st, h);
        let a = g.sides(x0, x1, y, n - 1, st);
        let z = y + n - 1;
        let b = a.put(x0, z, '│', st);
        showing::lemma_only_put(a, x0, z, '│', st);
        lemma_add(g, a, b, x0 - 1, y, y + h, x0 - 1, z, z + 1);
        showing::lemma_only_put(b, x1, z, '│', st);
        lemma_add(g, b, b.put(x1, z, '│', st), x0 - 1, y, y + h, x1 - 1, z, z + 1);
    }
}

/// A frame touches nothing before its left edge, above or below it.
pub proof fn lemma_only_frame(
    g: Grid,
    r: Rect,
    title: Seq<char>,
    footer: Seq<char>,
    focused: bool,
)
    requires
        g.wf(),
    ensures
        showing::only(
            g,
            g.frame(r, title, footer, focused),
            r.x - 1,
            r.y as int,
            r.y + r.h,
        ),
{
    if r.w >= 2 && r.h >= 2 {
        let st = screen::border_style(focused);
        let (x0, y0) = (r.x as int, r.y as int);
        let (x1, y1) = (r.x + r.w - 1, r.y + r.h - 1);
        let (l, u, v) = (x0 - 1, y0, y1 + 1);
        let a = g.put(x0, y0, '╭', st);
        showing::lemma_only_put(g, x0, y0, '╭', st);
        showing::lemma_only_wider(g, a, x0 - 1, y0, y0 + 1, l, u, v);
        let b = a.put(x1, y0, '╮', st);
        showing::lemma_only_put(a, x1, y0, '╮', st);
        lemma_add(g, a, b, l, u, v, x1 - 1, y0, y0 + 1);
        let c = b.put(x0, y1, '╰', st);
        showing::lemma_only_put(b, x0, y1, '╰', st);
        lemma_add(g, b, c, l, u, v, x0 - 1, y1, y1 + 1);
        let d = c.put(x1, y1, '╯', st);
        showing::lemma_only_put(c, x1, y1, '╯', st);
        lemma_add(g, c, d, l, u, v, x1 - 1, y1, y1 + 1);
        let e = d.hline(x0 + 1, y0, r.w - 2, '─', st);
        showing::lemma_only_hline(d, x0 + 1, y0, r.w - 2, '─', st);
        lemma_add(g, d, e, l, u, v, x0, y0, y0 + 1);
        let f = e.hline(x0 + 1, y1, r.w - 2, '─', st);
        showing::lemma_only_hline(e, x0 + 1, y1, r.w - 2, '─', st);
        lemma_add(g, e, f, l, u, v, x0, y1, y1 + 1);
        let h = f.sides(x0, x1, y0 + 1, r.h - 2, st);
        lemma_only_sides(f, x0, x1, y0 + 1, r.h - 2, st, r.h - 2);
        lemma_add(g, f, h, l, u, v, x0 - 1, y0 + 1, y1);
        let ts = screen::title_style(focused);
        let t = if title.len() > 0 && r.w > 4 {
            h.ellipsis(r.x + 1, y0, r.w - 3, title, ts)
        } else {
            h
        };
        showing::lemma_only_text(h, r.x + 1, y0, r.w - 3, title, ts);
        if title.len() > 0 && r.w > 4 {
            lemma_add(g, h, t, l, u, v, r.x as int, y0, y0 + 1);
        }
        let fw = screen::text_width(footer) % 0x1_0000;
        if footer.len() > 0 && fw + 4 <= r.w {
            let x = r.x + r.w - 2 - fw;
            showing::lemma_only_text(t, x, y1, fw, footer, st);
            lemma_add(g, t, t.text(x, y1, fw, footer, st), l, u, v, x - 1, y1, y1 + 1);
        }
    }
}

// ---------------------------------------------------------------------------
// Titles
// ---------------------------------------------------------------------------

/// Whether the title of column `c` stands in row `y` of the slot that begins at
/// column `x`: as a whole, on the side on which the fields stand, or cut off
/// with an ellipsis when it is wider than the column. Titles are yellow and
/// bold, and that of the current column is underlined.
pub open spec fn titled(g: Grid, d: Table, x: int, y: int, c: int) -> bool {
    let name = d.layout.headers[c];
    let w = d.layout.widths[c] as int;
    let tw = screen::text_width(name);
    let st = Style {
        fg: Color::Idx(3),
        bg: Color::Reset,
        attr: if c == d.col {
            9
        } else {
            1
        },
    };
    if tw <= w {
        showing::shows(
            g,
            x + 1 + if d.layout.numeric[c] {
                w - tw
            } else {
                0
            },
            y,
            name,
            st,
        )
    } else {
        showing::shows(g, x + 1, y, screen::fitting(name, w - 1).push('…'), st)
    }
}

/// Width of what is shown of a title.
pub proof fn lemma_title_width(name: Seq<char>, w: int)
    requires
        1 <= w,
        frames::clean(name),
    ensures
        screen::text_width(name) >= 0,
        screen::text_width(screen::fitting(name, w - 1).push('…')) <= w,
        frames::clean(screen::fitting(name, w - 1).push('…')),
{
    screen::lemma_width_le_bytes(name);
    screen::lemma_fitting(name, w - 1);
    let t = screen::fitting(name, w - 1);
    let u = t.push('…');
    assert(u.drop_last() =~= t);
    assert(screen::width_of('…') == 1) by {
        reveal(screen::width_of);
    }
    if u.contains(CONT) {
        let i = u.index_of(CONT);
        assert(i < t.len());
        assert(name[i] == CONT);
    }
}

proof fn lemma_title_style(d: Table, c: int)
    ensures
        picture::title_style(d, c) == (Style {
            fg: Color::Idx(3),
            bg: Color::Reset,
            attr: if c == d.col {
                9
            } else {
                1
            },
        }),
{
    assert(0u8 | 1u8 | 8u8 == 9u8) by (bit_vector);
    assert(0u8 | (1u8 | 8u8) == 9u8) by (bit_vector);
    assert(0u8 | 1u8 == 1u8) by (bit_vector);
}

/// What a title keeps of when only what is behind its slot changes.
proof fn lemma_titled_kept(
    a: Grid,
    b: Grid,
    left: int,
    y0: int,
    y1: int,
    d: Table,
    x: int,
    y: int,
    c: int,
)
    requires
        showing::only(a, b, left, y0, y1),
        titled(a, d, x, y, c),
        frames::clean(d.layout.headers[c]),
        1 <= d.layout.widths[c],
        0 <= x,
        x + 1 + d.layout.widths[c] <= a.w,
        0 <= y < a.h,
        x + 1 + d.layout.widths[c] <= left || y < y0 || y1 <= y,
    ensures
        titled(b, d, x, y, c),
{
    let name = d.layout.headers[c];
    let w = d.layout.widths[c] as int;
    let tw = screen::text_width(name);
    lemma_title_width(name, w);
    lemma_title_style(d, c);
    let st = picture::title_style(d, c);
    if tw <= w {
        let at = x + 1 + if d.layout.numeric[c] {
            w - tw
        } else {
            0
        };
        lemma_shows_kept(a, b, left, y0, y1, at, y, name, st);
    } else {
        let t = screen::fitting(name, w - 1).push('…');
        lemma_shows_kept(a, b, left, y0, y1, x + 1, y, t, st);
    }
}

/// A title in a slot that shows the whole column.
proof fn lemma_title_shown(g: Grid, d: Table, x: int, end: int, y: int, c: int)
    requires
        display::consistent(g),
        frames::clean(d.layout.headers[c]),
        1 <= d.layout.widths[c],
        0 <= x,
        0 <= y < g.h,
        end - x - 1 >= d.layout.widths[c],
        x + 1 + d.layout.widths[c] <= g.w,
    ensures
        ({
            let name = d.layout.headers[c];
            let w = d.layout.widths[c] as int;
            let tw = screen::text_width(name);
            titled(
                picture::cell_picture(
                    g,
                    x,
                    end,
                    y,
                    w,
                    name,
                    tw,
                    tw > w,
                    d.layout.numeric[c],
                    picture::title_style(d, c),
                ),
                d,
                x,
                y,
                c,
            )
        }),
{
    let name = d.layout.headers[c];
    let w = d.layout.widths[c] as int;
    let tw = screen::text_width(name);
    let st = picture::title_style(d, c);
    lemma_title_width(name, w);
    lemma_title_style(d, c);
    if tw <= w {
        let off = if d.layout.numeric[c] {
            w - tw
        } else {
            0
        };
        showing::drawn_text_is_shown(g, x + 1 + off, y, w - off, name, st);
    } else {
        let t = screen::fitting(name, w - 1);
        let u = t.push('…');
        assert(u.drop_last() =~= t);
        showing::written_text_is_shown(g, x + 1, y, u, st);
    }
}

proof fn lemma_titles_shown(g: Grid, d: Table, r: Ruling, n: int, k: int)
    requires
        display::consistent(g),
        frames::doc_clean(d),
        d.layout.wf(),
        frames::hits_inside(d, r),
        0 <= k < n <= r.hits.len(),
        r.inner.y < g.h,
        r.hits[k].1 <= g.w,
        r.hits[k].1 - r.hits[k].0 - 1 >= d.layout.widths[r.hits[k].2 as int],
        forall|j: int|
            k < j < r.hits.len() ==> (#[trigger] r.hits[j]).0 >= r.hits[k].0
                + d.layout.widths[r.hits[k].2 as int] + 3,
    ensures
        titled(
            picture::titles_picture(g, d, r, n),
            d,
            r.hits[k].0 as int,
            r.inner.y as int,
            r.hits[k].2 as int,
        ),
    decreases n,
{
    let (x, end, cu) = r.hits[n - 1];
    let c = cu as int;
    assert(r.hits[n - 1].2 < d.ncols());
    assert(r.hits[k].2 < d.ncols());
    let name = d.layout.headers[c];
    let w = d.layout.widths[c] as int;
    let tw = screen::text_width(name);
    let y = r.inner.y as int;
    let st = picture::title_style(d, c);
    let num = d.layout.numeric[c];
    let before = picture::titles_picture(g, d, r, n - 1);
    frames::lemma_titles(g, d, r, n - 1);
    let b = picture::cell_picture(
        before,
        x as int,
        end as int,
        y,
        w,
        name,
        tw,
        tw > w,
        num,
        st,
    );
    let after = picture::titles_picture(g, d, r, n);
    showing::lemma_only_cell(before, x as int, end as int, y, w, name, tw, tw > w, num, st);
    showing::lemma_only_separator(b, x as int, w, r.right(), y, '│', picture::dim());
    if k == n - 1 {
        lemma_title_shown(before, d, x as int, end as int, y, c);
        lemma_titled_kept(b, after, x + w + 1, y, y + 1, d, x as int, y, c);
    } else {
        lemma_titles_shown(g, d, r, n - 1, k);
        lemma_add(before, b, after, x as int, y, y + 1, x + w + 1, y, y + 1);
        assert(r.hits[n - 1].0 >= r.hits[k].0 + d.layout.widths[r.hits[k].2 as int] + 3);
        lemma_titled_kept(
            before,
            after,
            x as int,
            y,
            y + 1,
            d,
            r.hits[k].0 as int,
            y,
            r.hits[k].2 as int,
        );
    }
}

proof fn lemma_only_titles(g: Grid, d: Table, r: Ruling, n: int, left: int)
    requires
        g.wf(),
        d.layout.wf(),
        n <= r.hits.len(),
        showing::begin_at(r, left),
    ensures
        showing::only(
            g,
            picture::titles_picture(g, d, r, n),
            left,
            r.inner.y as int,
            r.inner.y + 1,
        ),
    decreases n,
{
    if n > 0 {
        lemma_only_titles(g, d, r, n - 1, left);
        let (x, end, cu) = r.hits[n - 1];
        assert(r.hits[n - 1].0 >= left);
        let c = cu as int;
        let name = d.layout.headers[c];
        let w = d.layout.widths[c] as int;
        let tw = screen::text_width(name);
        let y = r.inner.y as int;
        let st = picture::title_style(d, c);
        let num = d.layout.numeric[c];
        let a = picture::titles_picture(g, d, r, n - 1);
        showing::lemma_only_cell(a, x as int, end as int, y, w, name, tw, tw > w, num, st);
        let b = picture::cell_picture(a, x as int, end as int, y, w, name, tw, tw > w, num, st);
        lemma_add(g, a, b, left, y, y + 1, x as int, y, y + 1);
        showing::lemma_only_separator(b, x as int, w, r.right(), y, '│', picture::dim());
        lemma_add(
            g,
            b,
            picture::titles_picture(g, d, r, n),
            left,
            y,
            y + 1,
            x + w + 1,
            y,
            y + 1,
        );
    }
}

proof fn lemma_only_crossings(g: Grid, d: Table, r: Ruling, n: int, left: int)
    requires
        g.wf(),
        n <= r.hits.len(),
        showing::begin_at(r, left),
    ensures
        showing::only(
            g,
            picture::crossings_picture(g, d, r, n),
            left,
            r.inner.y + 1,
            r.inner.y + 2,
        ),
    decreases n,
{
    if n > 0 {
        lemma_only_crossings(g, d, r, n - 1, left);
        let (x, end, c) = r.hits[n - 1];
        assert(r.hits[n - 1].0 >= left);
        let w = d.layout.widths[c as int] as int;
        let a = picture::crossings_picture(g, d, r, n - 1);
        let y = r.inner.y + 1;
        showing::lemma_only_separator(a, x as int, w, r.right(), y, '┼', picture::dim());
        lemma_add(
            g,
            a,
            picture::crossings_picture(g, d, r, n),
            left,
            y,
            y + 1,
            x + w + 1,
            y,
            y + 1,
        );
    }
}

/// The header touches nothing but its two lines in the panel, and shows its
/// titles.
#[verifier::rlimit(40)]
#[verifier::spinoff_prover]
proof fn lemma_header_shown(g: Grid, d: Table, r: Ruling)
    requires
        display::consistent(g),
        frames::doc_clean(d),
        d.layout.wf(),
        frames::hits_inside(d, r),
        0 <= r.digits,
        showing::begin_at(r, r.bar() + 1),
    ensures
        showing::only(
            g,
            picture::header_picture(g, d, r),
            r.inner.x - 1,
            r.inner.y as int,
            r.inner.y + 2,
        ),
        forall|k: int|
            0 <= k < r.hits.len() && slot_is_whole(g, d, r, k) ==> #[trigger] titled_at(
                picture::header_picture(g, d, r),
                d,
                r,
                k,
            ),
{
    let y = r.inner.y as int;
    let x = r.inner.x as int;
    let n = r.hits.len() as int;
    let dim = picture::dim();
    reveal_strlit("#");
    assert(frames::clean("#"@));
    frames::lemma_clean_padded("#"@, r.digits);
    let hash = util::padded("#"@, r.digits);
    let a = g.text(x, y, r.digits, hash, dim);
    display::text_keeps_grid_consistent(g, x, y, r.digits, hash, dim);
    showing::lemma_only_text(g, x, y, r.digits, hash, dim);
    showing::lemma_only_wider(g, a, x - 1, y, y + 1, x - 1, y, y + 2);
    let b = a.put(r.bar(), y, '│', dim);
    display::put_keeps_grid_consistent(a, r.bar(), y, '│', dim);
    showing::lemma_only_put(a, r.bar(), y, '│', dim);
    lemma_add(g, a, b, x - 1, y, y + 2, r.bar() - 1, y, y + 1);
    let c = picture::titles_picture(b, d, r, n);
    frames::lemma_titles(b, d, r, n);
    lemma_only_titles(b, d, r, n, r.bar() + 1);
    lemma_add(g, b, c, x - 1, y, y + 2, r.bar() + 1, y, y + 1);
    let e = c.hline(x, y + 1, r.inner.w as int, '─', dim);
    display::hline_keeps_grid_consistent(c, x, y + 1, r.inner.w as int, '─', dim);
    showing::lemma_only_hline(c, x, y + 1, r.inner.w as int, '─', dim);
    lemma_add(g, c, e, x - 1, y, y + 2, x - 1, y + 1, y + 2);
    let f = e.put(r.bar(), y + 1, '┼', dim);
    showing::lemma_only_put(e, r.bar(), y + 1, '┼', dim);
    lemma_add(g, e, f, x - 1, y, y + 2, r.bar() - 1, y + 1, y + 2);
    let z = picture::header_picture(g, d, r);
    lemma_only_crossings(f, d, r, n, r.bar() + 1);
    lemma_add(g, f, z, x - 1, y, y + 2, r.bar() + 1, y + 1, y + 2);
    showing::lemma_only_wider(c, e, x - 1, y + 1, y + 2, x - 1, y + 1, y + 2);
    lemma_add(c, e, f, x - 1, y + 1, y + 2, r.bar() - 1, y + 1, y + 2);
    lemma_add(c, f, z, x - 1, y + 1, y + 2, r.bar() + 1, y + 1, y + 2);
    assert forall|k: int| 0 <= k < r.hits.len() && slot_is_whole(g, d, r, k) implies
        #[trigger] titled_at(z, d, r, k) by {
        assert(r.hits[k].2 < d.ncols());
        lemma_titles_shown(b, d, r, n, k);
        lemma_titled_kept(
            c,
            z,
            x - 1,
            y + 1,
            y + 2,
            d,
            r.hits[k].0 as int,
            y,
            r.hits[k].2 as int,
        );
    }
}

/// Whether slot `k` has room for its whole column, and the next ones stand
/// behind it.
pub open spec fn slot_is_whole(g: Grid, d: Table, r: Ruling, k: int) -> bool {
    &&& r.inner.y < g.h
    &&& r.hits[k].1 <= g.w
    &&& r.hits[k].1 - r.hits[k].0 - 1 >= d.layout.widths[r.hits[k].2 as int]
    &&& forall|j: int|
        k < j < r.hits.len() ==> (#[trigger] r.hits[j]).0 >= r.hits[k].0
            + d.layout.widths[r.hits[k].2 as int] + 3
}

/// Whether the title of slot `k` stands in the first line of the panel.
pub open spec fn titled_at(g: Grid, d: Table, r: Ruling, k: int) -> bool {
    titled(g, d, r.hits[k].0 as int, r.inner.y as int, r.hits[k].2 as int)
}

proof fn lemma_only_rows(
    g: Grid,
    d: Table,
    r: Ruling,
    needle: Option<Seq<char>>,
    focused: bool,
    pos: int,
    n: int,
    h: int,
)
    requires
        g.wf(),
        0 <= r.digits,
        showing::begin_at(r, r.bar() + 1),
        n <= h,
        0 <= h,
    ensures
        showing::only(
            g,
            picture::rows_picture(g, d, r, needle, focused, pos, n),
            r.inner.x - 1,
            r.inner.y + 2,
            r.inner.y + 2 + h,
        ),
    decreases n,
{
    if n > 0 {
        lemma_only_rows(g, d, r, needle, focused, pos, n - 1, h);
        let before = picture::rows_picture(g, d, r, needle, focused, pos, n - 1);
        let y = r.inner.y + 2 + n - 1;
        let at = picture::nth_record(d, pos, n - 1);
        showing::lemma_only_row(before, d, r, needle, focused, d.row_off + n - 1, at, y);
        lemma_add(
            g,
            before,
            picture::rows_picture(g, d, r, needle, focused, pos, n),
            r.inner.x - 1,
            r.inner.y + 2,
            r.inner.y + 2 + h,
            r.inner.x - 1,
            y,
            y + 1,
        );
    }
}

proof fn lemma_only_body(
    g: Grid,
    d: Table,
    r: Ruling,
    needle: Option<Seq<char>>,
    focused: bool,
)
    requires
        g.wf(),
        0 <= r.digits,
        showing::begin_at(r, r.bar() + 1),
        r.inner.h >= 3,
    ensures
        showing::only(
            g,
            picture::body_picture(g, d, r, needle, focused),
            r.inner.x - 1,
            r.inner.y + 2,
            r.inner.y + r.inner.h,
        ),
{
    let room = picture::at_least_0(r.inner.w - r.digits - 1);
    let note = if d.done {
        "(no rows)"@
    } else {
        "Indexing…"@
    };
    let (x, y) = (r.bar() + 2, r.inner.y + 2);
    showing::lemma_only_text(g, x, y, room, note, picture::dim());
    showing::lemma_only_wider(
        g,
        g.text(x, y, room, note, picture::dim()),
        x - 1,
        y,
        y + 1,
        r.inner.x - 1,
        y,
        r.inner.y + r.inner.h,
    );
    if let Some(pos) = d.record(d.row_off) {
        let n = picture::rows_shown(d, r.inner.h - 2);
        lemma_only_rows(g, d, r, needle, focused, pos, n, r.inner.h - 2);
    }
}

/// The table touches nothing before its panel or below it, and shows its titles.
#[verifier::rlimit(40)]
#[verifier::spinoff_prover]
proof fn lemma_table_titles(t: State, a: Grid, d0: Table)
    requires
        display::consistent(a),
        t.doc == Some(d0),
        frames::doc_presentable(d0),
        t.table_rect.x + t.table_rect.w <= a.w,
        t.table_rect.y + t.table_rect.h <= a.h,
    ensures
        ({
            let inner = t.table_rect.inside();
            let p = picture::placed(d0.clamped(), inner);
            let r = picture::ruling(p, inner, picture::number_width(p, inner.h - 2));
            let b = picture::table_picture(t, a);
            &&& showing::only(
                a,
                b,
                t.table_rect.x - 1,
                t.table_rect.y as int,
                t.table_rect.y + t.table_rect.h,
            )
            &&& inner.h >= 3 && inner.w >= 10 ==> forall|k: int|
                0 <= k < r.hits.len() && r.hits[k].1 - r.hits[k].0 - 1
                    >= p.layout.widths[r.hits[k].2 as int] ==> #[trigger] titled_at(b, p, r, k)
        }),
{
    let panel = t.table_rect;
    let inner = panel.inside();
    let d = d0.clamped();
    let focused = t.focus == Focus::Table;
    frames::lemma_table_head(d, panel, a, focused);
    let f = a.frame(panel, picture::doc_title(d), picture::doc_footer(d), focused);
    lemma_only_frame(a, panel, picture::doc_title(d), picture::doc_footer(d), focused);
    if inner.h >= 3 && inner.w >= 10 {
        let p = picture::placed(d, inner);
        let r = picture::ruling(p, inner, picture::number_width(p, inner.h - 2));
        let x0 = inner.x + r.digits + 1;
        let right = inner.x + inner.w;
        showing::columns_stand_side_by_side(p.layout.widths, p.col_off, x0, right);
        assert(showing::begin_at(r, r.bar() + 1));
        let head = picture::header_picture(f, p, r);
        lemma_header_shown(f, p, r);
        lemma_add(
            a,
            f,
            head,
            panel.x - 1,
            panel.y as int,
            panel.y + panel.h,
            inner.x - 1,
            inner.y as int,
            inner.y + 2,
        );
        let b = picture::body_picture(head, p, r, t.needle, focused);
        lemma_only_body(head, p, r, t.needle, focused);
        lemma_add(
            a,
            head,
            b,
            panel.x - 1,
            panel.y as int,
            panel.y + panel.h,
            inner.x - 1,
            inner.y + 2,
            inner.y + inner.h,
        );
        assert forall|k: int|
            0 <= k < r.hits.len() && r.hits[k].1 - r.hits[k].0 - 1
                >= p.layout.widths[r.hits[k].2 as int] implies #[trigger] titled_at(b, p, r, k) by {
            assert(r.hits[k].2 < p.ncols());
            assert forall|j: int| k < j < r.hits.len() implies (#[trigger] r.hits[j]).0
                >= r.hits[k].0 + p.layout.widths[r.hits[k].2 as int] + 3 by {
                showing::lemma_slots_apart(p.layout.widths, p.col_off, x0, right, k, j);
            }
            assert(slot_is_whole(f, p, r, k));
            assert(titled_at(head, p, r, k));
            lemma_titled_kept(
                head,
                b,
                inner.x - 1,
                inner.y + 2,
                inner.y + inner.h,
                p,
                r.hits[k].0 as int,
                inner.y as int,
                r.hits[k].2 as int,
            );
        }
    }
}

/// Row numbers have as many columns as the largest of them takes with its
/// digits in groups, be it the number of rows or that of the last line on the
/// screen, and two at least.
pub proof fn row_numbers_have_room(d: Table, vis: int)
    requires
        0 <= d.row_off,
        0 <= vis,
        d.row_off + vis <= usize::MAX,
    ensures
        ({
            let n = picture::number_width(d, vis);
            let a = util::grouped(d.rows() as nat).len();
            let b = util::grouped((d.row_off + vis) as nat).len();
            &&& n >= 2
            &&& d.rows() >= d.row_off + vis ==> n == 2 && a <= 2 || n == a
            &&& d.rows() < d.row_off + vis ==> n == 2 && b <= 2 || n == b
        }),
{
}

/// Where the columns stand in a frame: the first on the screen right behind the
/// row numbers and their line, each next one three cells further to the right
/// than the one before is wide, all in the panel. Clicks are taken by these
/// places, and rows begin in the third line of the panel.
#[verifier::rlimit(40)]
#[verifier::spinoff_prover]
pub proof fn frame_places_the_columns(s: State, w: int, h: int, d0: Table, k: int)
    requires
        frames::presentable(s),
        30 <= w <= u16::MAX,
        6 <= h <= u16::MAX,
        s.overlay is Closed,
        s.doc == Some(d0),
    ensures
        ({
            let t = picture::rendered(s, w, h).0;
            let inner = t.table_rect.inside();
            t.doc is Some && (inner.h >= 3 && inner.w >= 10 ==> placed_well(t, k))
        }),
    decreases picture::new_cols(s), picture::new_width(s), picture::pending(s),
{
    showing::lemma_pass_drawn(s, w, h, d0);
    let t = picture::pass_drawn(s, w, h);
    if t.relayout {
        picture::lemma_pass_gains(s, w, h);
        frames::lemma_pass(s, w, h);
        frame_places_the_columns(State { relayout: false, ..t }, w, h, t.doc->0, k);
    } else {
        lemma_pass_columns(s, w, h, d0, k);
    }
}

/// Whether the columns stand in the panel as they should: the first on the
/// screen behind the row numbers and their line, slot `k` as wide as its column
/// and a space on either side, as far as there is room, and three cells further
/// to the right than the one before is wide.
pub open spec fn placed_well(t: State, k: int) -> bool {
    let inner = t.table_rect.inside();
    let hits = t.col_hits;
    let d = t.doc->0;
    &&& t.rows_y == inner.y + 2
    &&& t.page == inner.h - 2
    &&& hits.len() > 0 ==> hits[0].0 == inner.x + picture::number_width(d, inner.h - 2) + 1
    &&& 0 <= k < hits.len() ==> {
        &&& hits[k].2 == d.col_off + k
        &&& d.col_off + k < d.ncols()
        &&& hits[k].1 == vstd::math::min(
            hits[k].0 + d.layout.widths[d.col_off + k] + 2,
            inner.x + inner.w,
        )
    }
    &&& 0 < k < hits.len() ==> hits[k].0 == hits[k - 1].0 + d.layout.widths[d.col_off + k - 1]
        + 3
}

#[verifier::rlimit(60)]
#[verifier::spinoff_prover]
proof fn lemma_pass_columns(s: State, w: int, h: int, d0: Table, k: int)
    requires
        frames::presentable(s),
        30 <= w <= u16::MAX,
        6 <= h <= u16::MAX,
        s.overlay is Closed,
        s.doc == Some(d0),
        !picture::pass_drawn(s, w, h).relayout,
    ensures
        ({
            let t = picture::pass_drawn(s, w, h);
            let inner = t.table_rect.inside();
            inner.h >= 3 && inner.w >= 10 ==> placed_well(t, k)
        }),
{
    showing::lemma_pass_drawn(s, w, h, d0);
    let t = picture::pass_drawn(s, w, h);
    let q = t.doc->0;
    let inner = t.table_rect.inside();
    if inner.h >= 3 && inner.w >= 10 {
        lemma_pass_places(s, w, h, d0);
        let p = picture::placed(d0.clamped(), inner);
        let digits = picture::number_width(p, inner.h - 2);
        let r = picture::ruling(p, inner, digits);
        showing::lemma_body_drawn(p, r);
        let (x0, right) = (inner.x + digits + 1, inner.x + inner.w);
        showing::columns_stand_side_by_side(p.layout.widths, p.col_off, x0, right);
        assert(picture::number_width(q, inner.h - 2) == digits);
        if 0 <= k < r.hits.len() {
            let c = p.col_off + k;
            assert(r.hits[k].2 == c);
            assert(q.layout.widths.take(p.ncols())[c] == p.layout.widths[c]);
            if k > 0 {
                assert(r.hits[k - 1].2 == c - 1);
                assert(r.hits[k - 1 + 1].0 == r.hits[k - 1].0 + p.layout.widths[c - 1] + 3);
                assert(q.layout.widths.take(p.ncols())[c - 1] == p.layout.widths[c - 1]);
            }
        }
    }
}

/// What a pass leaves of the places on the screen.
proof fn lemma_pass_places(s: State, w: int, h: int, d0: Table)
    requires
        frames::presentable(s),
        30 <= w <= u16::MAX,
        6 <= h <= u16::MAX,
        s.overlay is Closed,
        s.doc == Some(d0),
    ensures
        ({
            let t = picture::pass_drawn(s, w, h);
            let inner = picture::panels(s, w, h).table_rect.inside();
            inner.h >= 3 && inner.w >= 10 ==> {
                &&& t.rows_y == inner.y + 2
                &&& t.page == inner.h - 2
                &&& 0 <= picture::placed(d0.clamped(), inner).col_off
            }
        }),
{
    let (p0, p1, a, b) = lemma_pass_parts(s, w, h);
    frames::lemma_table_head(d0.clamped(), p0.table_rect, a, p1.focus == Focus::Table);
}

/// The frame shows the title of every column that is on the screen as a whole,
/// in the line over the rows and at the place of its column.
#[verifier::rlimit(40)]
#[verifier::spinoff_prover]
pub proof fn frame_shows_the_titles(s: State, w: int, h: int, d0: Table, k: int)
    requires
        frames::presentable(s),
        30 <= w <= u16::MAX,
        6 <= h <= u16::MAX,
        s.overlay is Closed,
        s.doc == Some(d0),
    ensures
        ({
            let (t, g) = picture::rendered(s, w, h);
            let inner = t.table_rect.inside();
            &&& t.doc is Some
            &&& inner.h >= 3 && inner.w >= 10 && 0 <= k < t.col_hits.len() && t.col_hits[k].1
                - t.col_hits[k].0 - 1 >= (t.doc->0).layout.widths[t.col_hits[k].2 as int]
                ==> titled(
                g,
                t.doc->0,
                t.col_hits[k].0 as int,
                inner.y as int,
                t.col_hits[k].2 as int,
            )
        }),
    decreases picture::new_cols(s), picture::new_width(s), picture::pending(s),
{
    showing::lemma_pass_drawn(s, w, h, d0);
    let t = picture::pass_drawn(s, w, h);
    let q = t.doc->0;
    if t.relayout {
        picture::lemma_pass_gains(s, w, h);
        frames::lemma_pass(s, w, h);
        frame_shows_the_titles(State { relayout: false, ..t }, w, h, q, k);
    } else {
        let inner = t.table_rect.inside();
        if inner.h >= 3 && inner.w >= 10 && 0 <= k < t.col_hits.len() && t.col_hits[k].1
            - t.col_hits[k].0 - 1 >= q.layout.widths[t.col_hits[k].2 as int] {
            lemma_pass_titles(s, w, h, d0, k);
        }
    }
}

/// One pass over the screen shows the titles.
#[verifier::rlimit(40)]
#[verifier::spinoff_prover]
proof fn lemma_pass_titles(s: State, w: int, h: int, d0: Table, k: int)
    requires
        frames::presentable(s),
        30 <= w <= u16::MAX,
        6 <= h <= u16::MAX,
        s.overlay is Closed,
        s.doc == Some(d0),
        !picture::pass_drawn(s, w, h).relayout,
        ({
            let t = picture::pass_drawn(s, w, h);
            let inner = t.table_rect.inside();
            &&& inner.h >= 3
            &&& inner.w >= 10
            &&& 0 <= k < t.col_hits.len()
            &&& t.doc is Some
            &&& t.col_hits[k].1 - t.col_hits[k].0 - 1
                >= (t.doc->0).layout.widths[t.col_hits[k].2 as int]
        }),
    ensures
        ({
            let t = picture::pass_drawn(s, w, h);
            titled(
                picture::pass_picture(s, w, h),
                t.doc->0,
                t.col_hits[k].0 as int,
                t.table_rect.inside().y as int,
                t.col_hits[k].2 as int,
            )
        }),
{
    showing::lemma_pass_drawn(s, w, h, d0);
    let t = picture::pass_drawn(s, w, h);
    let q = t.doc->0;
    let inner = t.table_rect.inside();
    let (p0, p1, a, b) = lemma_pass_parts(s, w, h);
    let p = picture::placed(d0.clamped(), inner);
    let r = picture::ruling(p, inner, picture::number_width(p, inner.h - 2));
    showing::lemma_body_drawn(p, r);
    lemma_table_titles(p1, a, d0);
    frames::lemma_table_head(
        d0.clamped(),
        t.table_rect,
        a,
        p1.focus == Focus::Table,
    );
    assert(r.hits[k].2 < p.ncols());
    let c = r.hits[k].2 as int;
    assert(q.layout.widths.take(p.ncols())[c] == p.layout.widths[c]);
    assert(q.layout.numeric[c] == p.layout.numeric[c]);
    assert(q.layout.headers[c] == p.layout.headers[c]);
    assert(titled_at(b, p, r, k));
    let u = picture::panels_drawn(s, w, h);
    showing::lemma_only_status(u, b, h - 1);
    showing::columns_stand_side_by_side(
        p.layout.widths,
        p.col_off,
        inner.x + r.digits + 1,
        inner.x + inner.w,
    );
    lemma_titled_kept(
        b,
        picture::status_picture(u, b, h - 1),
        -1,
        h - 1,
        h,
        p,
        r.hits[k].0 as int,
        inner.y as int,
        c,
    );
}

/// The steps of one pass: the explorer, the table, the last line.
#[verifier::rlimit(40)]
#[verifier::spinoff_prover]
pub proof fn lemma_pass_parts(s: State, w: int, h: int) -> (r: (State, State, Grid, Grid))
    requires
        frames::presentable(s),
        30 <= w <= u16::MAX,
        6 <= h <= u16::MAX,
        s.overlay is Closed,
    ensures
        r.0 == picture::panels(s, w, h),
        r.1 == if s.show_tree {
            picture::tree_drawn(r.0)
        } else {
            r.0
        },
        r.2 == if s.show_tree {
            picture::tree_picture(r.0, Grid::blank(w, h))
        } else {
            Grid::blank(w, h)
        },
        r.3 == picture::table_picture(r.1, r.2),
        picture::pass_picture(s, w, h) == picture::status_picture(
            picture::panels_drawn(s, w, h),
            r.3,
            h - 1,
        ),
        picture::pass_drawn(s, w, h) == picture::panels_drawn(s, w, h),
        display::consistent(r.2),
        display::consistent(r.3),
        r.2.w == w && r.2.h == h && r.3.w == w && r.3.h == h,
        r.0.tree_rect.w == picture::tree_width(s, w),
        r.0.table_rect.x == picture::tree_width(s, w),
        r.0.table_rect.w == w - picture::tree_width(s, w),
        r.0.tree_rect.h == h - 1,
        r.0.table_rect.h == h - 1,
        0 <= picture::tree_width(s, w) <= w / 2,
{
    reveal(picture::pass_picture);
    reveal(picture::pass_drawn);
    let p0 = picture::panels(s, w, h);
    let blank = Grid::blank(w, h);
    display::blank_is_consistent(w, h);
    frames::lemma_tree(p0, blank);
    let a = if p0.show_tree {
        picture::tree_picture(p0, blank)
    } else {
        blank
    };
    let p1 = if p0.show_tree {
        picture::tree_drawn(p0)
    } else {
        p0
    };
    frames::lemma_table(p1, a);
    (p0, p1, a, picture::table_picture(p1, a))
}

// ---------------------------------------------------------------------------
// Explorer
// ---------------------------------------------------------------------------

/// The mark of an entry: an arrow down for an expanded directory, an arrow to
/// the right for another one, a dot for the open file.
pub open spec fn mark_of(e: Line, open: Option<Seq<u8>>) -> char {
    if e.is_dir && e.expanded {
        '▾'
    } else if e.is_dir {
        '▸'
    } else if open matches Some(p) && path::same_path(p, e.path) {
        '●'
    } else {
        ' '
    }
}

/// The colors of an entry: bold blue for directories, bold green for the open
/// file, green for tables, dim for other files; on the selected entry, white
/// on blue in the panel with the focus, and gray behind it otherwise.
pub open spec fn colors_of(
    e: Line,
    open: Option<Seq<u8>>,
    selected: bool,
    focused: bool,
) -> Style {
    let fg = if e.is_dir {
        Color::Idx(4)
    } else if crate::tree::tabular(e.name) || (open matches Some(p) && path::same_path(
        p,
        e.path,
    )) {
        Color::Idx(2)
    } else {
        Color::Reset
    };
    let attr: u8 = if e.is_dir || (open matches Some(p) && path::same_path(p, e.path)) {
        1
    } else if crate::tree::tabular(e.name) {
        0
    } else {
        2
    };
    if selected && focused {
        Style { fg: Color::Idx(15), bg: Color::Idx(4), attr }
    } else if selected {
        Style { fg, bg: Color::Idx(236), attr }
    } else {
        Style { fg, bg: Color::Reset, attr }
    }
}

proof fn lemma_colors(e: Line, open: Option<Seq<u8>>, selected: bool, focused: bool)
    ensures
        picture::on_bg(picture::entry_style(e, open), picture::entry_bg(selected, focused))
            == colors_of(e, open, selected, focused),
{
    assert(0u8 | 1u8 == 1u8) by (bit_vector);
    assert(0u8 | 2u8 == 2u8) by (bit_vector);
}

/// The size shown behind the name of a file; directories have none.
pub open spec fn size_of(e: Line) -> Seq<char> {
    if e.is_dir {
        Seq::empty()
    } else {
        util::size_text(e.size as nat)
    }
}

/// Columns for the name of an entry in a panel: what is left behind the mark,
/// and before the size of a file and a space where there is room for them.
pub open spec fn name_room(e: Line, inner: Rect) -> int {
    let room = inner.w - 4 - 2 * e.depth;
    if room > size_of(e).len() + 2 {
        room - size_of(e).len() - 1
    } else {
        room
    }
}

/// Whether row `y` of a panel shows an entry: two columns further to the right
/// for every level, its mark, its name, cut off with an ellipsis when there is
/// no room for all of it, and on the right the size of a file.
pub open spec fn listed(
    g: Grid,
    e: Line,
    inner: Rect,
    y: int,
    open: Option<Seq<u8>>,
    st: Style,
) -> bool {
    let x = inner.x + 1 + 2 * e.depth;
    let right = inner.x + inner.w - 1;
    let size = size_of(e);
    let room = name_room(e, inner);
    x + 2 < right ==> {
        &&& g.at(x, y) == (Cell { ch: mark_of(e, open), st })
        &&& if screen::text_width(e.name) <= room {
            showing::shows(g, x + 2, y, e.name, st)
        } else {
            showing::shows(g, x + 2, y, screen::fitting(e.name, room - 1).push('…'), st)
        }
        &&& !e.is_dir && right - x - 2 > size.len() + 2 ==> showing::reads(
            g,
            right - size.len(),
            y,
            size,
        )
    }
}

/// Whether all characters of a text take one column.
spec fn slim(s: Seq<char>) -> bool {
    forall|k: int| 0 <= k < s.len() ==> (#[trigger] s[k] as u32) < 0x300
}

proof fn lemma_slim(s: Seq<char>)
    requires
        slim(s),
    ensures
        screen::text_width(s) == s.len(),
{
    assert forall|k: int| 0 <= k < s.len() implies screen::width_of(#[trigger] s[k]) == 1 by {
        screen::lemma_width_range(s[k]);
    }
    showing::lemma_narrow(s);
}

proof fn lemma_slim_decimal(n: nat)
    ensures
        slim(text::decimal(n)),
{
    text::lemma_decimal_digits(n);
    assert forall|k: int| 0 <= k < text::decimal(n).len() implies (#[trigger] text::decimal(
        n,
    )[k] as u32) < 0x300 by {
        text::lemma_code_point(text::decimal(n)[k]);
        assert(0x30 <= text::decimal(n)[k] as int <= 0x39);
    }
}

proof fn lemma_size_width(n: nat)
    ensures
        screen::text_width(util::size_text(n)) == util::size_text(n).len(),
{
    let v = util::double(n);
    let u = util::unit_of(v);
    let t = util::nearest(v * 10, util::unit_size(u));
    lemma_slim_decimal(n);
    lemma_slim_decimal(t / 10);
    lemma_slim_decimal(t % 10);
    lemma_slim_decimal(util::nearest(v, util::unit_size(u)));
    let s = util::size_text(n);
    let (a, b) = (text::decimal(t / 10).push('.'), text::decimal(t % 10));
    assert(slim(a));
    assert(slim(a + b)) by {
        assert forall|k: int| 0 <= k < (a + b).len() implies (#[trigger] (a + b)[k] as u32) < 0x300
            by {
            if k < a.len() {
                assert(a[k] == (a + b)[k]);
            } else {
                assert(b[k - a.len()] == (a + b)[k]);
            }
        }
    }
    assert(slim(s));
    lemma_slim(s);
}

/// What is shown of the name of an entry, and how wide it is.
proof fn lemma_name_width(e: Line, inner: Rect)
    requires
        frames::clean(e.name),
        inner.w - 4 - 2 * e.depth > 0,
    ensures
        1 <= name_room(e, inner) <= inner.w - 4 - 2 * e.depth,
        screen::text_width(e.name) >= 0,
        screen::text_width(screen::fitting(e.name, name_room(e, inner) - 1).push('…'))
            <= name_room(e, inner),
        frames::clean(screen::fitting(e.name, name_room(e, inner) - 1).push('…')),
{
    lemma_title_width(e.name, name_room(e, inner));
}

/// An entry's line shows it.
#[verifier::rlimit(40)]
#[verifier::spinoff_prover]
proof fn lemma_entry_shown(
    g: Grid,
    e: Line,
    inner: Rect,
    y: int,
    open: Option<Seq<u8>>,
    selected: bool,
    focused: bool,
)
    requires
        display::consistent(g),
        frames::clean(e.name),
        0 <= y < g.h,
        inner.x + inner.w <= g.w,
    ensures
        listed(
            picture::entry_line(g, e, inner, y, picture::entry_bg(selected, focused), open),
            e,
            inner,
            y,
            open,
            colors_of(e, open, selected, focused),
        ),
{
    let bg = picture::entry_bg(selected, focused);
    let x = inner.x + 1 + 2 * e.depth;
    let right = inner.x + inner.w - 1;
    if x + 2 < right {
        let plain = picture::on_bg(Style::plain(), bg);
        display::lemma_fill_rows_consistent(g, inner.x as int, y, inner.w as int, 1, plain);
        let a = if bg is Some {
            g.fill_rows(inner.x as int, y, inner.w as int, 1, plain)
        } else {
            g
        };
        let icon = picture::entry_icon(e, open)@;
        reveal_strlit("▾ ");
        reveal_strlit("▸ ");
        reveal_strlit("● ");
        reveal_strlit("  ");
        assert(icon.len() == 2 && icon[0] == mark_of(e, open) && icon[1] == ' ');
        assert(frames::clean(icon));
        assert(screen::width_of(icon[0]) == 1) by {
            reveal(screen::width_of);
        }
        screen::lemma_width_range(' ');
        showing::lemma_narrow(icon);
        let st = picture::on_bg(picture::entry_style(e, open), bg);
        lemma_colors(e, open, selected, focused);
        screen::lemma_fitting(icon, right - x);
        showing::drawn_text_is_shown(a, x, y, right - x, icon, st);
        display::text_keeps_grid_consistent(a, x, y, right - x, icon, st);
        let b = a.text(x, y, right - x, icon, st);
        assert(screen::text_width(icon.take(0)) == 0);
        assert(b.at(x + screen::text_width(icon.take(0)), y) == (Cell { ch: icon[0], st }));
        let size = size_of(e);
        assert(size =~= picture::entry_size(e));
        let sw = size.len() as int;
        let room = name_room(e, inner);
        lemma_name_width(e, inner);
        let c = b.ellipsis(x + 2, y, room, e.name, st);
        display::text_keeps_grid_consistent(b, x + 2, y, room, e.name, st);
        showing::lemma_only_text(b, x + 2, y, room, e.name, st);
        assert(c.at(x, y) == b.at(x, y));
        let shown = if screen::text_width(e.name) <= room {
            e.name
        } else {
            screen::fitting(e.name, room - 1).push('…')
        };
        assert(c == b.write(x + 2, y, shown, st)) by {
            if screen::text_width(e.name) > room {
                assert(shown.drop_last() =~= screen::fitting(e.name, room - 1));
            }
        }
        showing::written_text_is_shown(b, x + 2, y, shown, st);
        let ds = picture::on_bg(picture::dim(), bg);
        let z = picture::entry_line(g, e, inner, y, bg, open);
        if size.len() > 0 && right - x - 2 > sw + 2 {
            showing::lemma_only_text(c, right - sw, y, sw, size, ds);
            lemma_shows_kept(c, z, right - sw - 1, y, y + 1, x + 2, y, shown, st);
            frames::lemma_clean_size(e.size as nat);
            lemma_size_width(e.size as nat);
            showing::drawn_text_is_shown(c, right - sw, y, sw, size, ds);
            showing::lemma_shows_reads(z, right - sw, y, size, ds);
            assert(z.at(x, y) == c.at(x, y));
        }
    }
}

/// What an entry's line shows stays when nothing but what is beside it changes.
proof fn lemma_listed_kept(
    a: Grid,
    b: Grid,
    left: int,
    y0: int,
    y1: int,
    e: Line,
    inner: Rect,
    y: int,
    open: Option<Seq<u8>>,
    st: Style,
)
    requires
        showing::only(a, b, left, y0, y1),
        listed(a, e, inner, y, open, st),
        frames::clean(e.name),
        0 <= y < a.h,
        inner.x + inner.w <= a.w,
        inner.x + inner.w - 1 <= left || y < y0 || y1 <= y,
    ensures
        listed(b, e, inner, y, open, st),
{
    let x = inner.x + 1 + 2 * e.depth;
    let right = inner.x + inner.w - 1;
    if x + 2 < right {
        let room = name_room(e, inner);
        lemma_name_width(e, inner);
        let size = size_of(e);
        assert(size =~= picture::entry_size(e));
        let shown = if screen::text_width(e.name) <= room {
            e.name
        } else {
            screen::fitting(e.name, room - 1).push('…')
        };
        assert(b.at(x, y) == a.at(x, y));
        lemma_shows_kept(a, b, left, y0, y1, x + 2, y, shown, st);
        if !e.is_dir && right - x - 2 > size.len() + 2 {
            lemma_size_width(e.size as nat);
            showing::lemma_reads_kept(a, b, left, y0, y1, right - size.len(), y, size);
        }
    }
}

/// An entry's line touches no other line.
proof fn lemma_only_entry(
    g: Grid,
    e: Line,
    inner: Rect,
    y: int,
    bg: Option<u8>,
    open: Option<Seq<u8>>,
)
    requires
        g.wf(),
    ensures
        showing::only(
            g,
            picture::entry_line(g, e, inner, y, bg, open),
            inner.x - 1,
            y,
            y + 1,
        ),
{
    let plain = picture::on_bg(Style::plain(), bg);
    showing::lemma_only_line(g, inner.x as int, y, inner.w as int, plain);
    let a = if bg is Some {
        g.fill_rows(inner.x as int, y, inner.w as int, 1, plain)
    } else {
        g
    };
    let l = inner.x - 1;
    let x = inner.x + 1 + e.depth * 2;
    let right = picture::at_least_0(inner.x + inner.w - 1);
    if x < right {
        let icon = picture::entry_icon(e, open)@;
        let st = picture::on_bg(picture::entry_style(e, open), bg);
        let b = a.text(x, y, right - x, icon, st);
        showing::lemma_only_text(a, x, y, right - x, icon, st);
        lemma_add(g, a, b, l, y, y + 1, x - 1, y, y + 1);
        screen::lemma_fitting(icon, right - x);
        let x1 = x + picture::used(icon, right - x);
        let size = picture::entry_size(e);
        let sw = size.len() as int;
        let room = right - x1;
        let w = if room > sw + 2 {
            room - sw - 1
        } else {
            room
        };
        showing::lemma_only_text(b, x1, y, w, e.name, st);
        let c = b.ellipsis(x1, y, w, e.name, st);
        lemma_add(g, b, c, l, y, y + 1, x1 - 1, y, y + 1);
        if size.len() > 0 && room > sw + 2 {
            let ds = picture::on_bg(picture::dim(), bg);
            showing::lemma_only_text(c, right - sw, y, sw, size, ds);
            lemma_add(
                g,
                c,
                c.text(right - sw, y, sw, size, ds),
                l,
                y,
                y + 1,
                right - sw - 1,
                y,
                y + 1,
            );
        }
    }
}

proof fn lemma_entries_shown(
    g: Grid,
    t: Explorer,
    inner: Rect,
    focused: bool,
    open: Option<Seq<u8>>,
    n: int,
    k: int,
)
    requires
        display::consistent(g),
        0 <= t.off,
        0 <= k < n <= t.entries.len() - t.off,
        forall|i: int| 0 <= i < t.entries.len() ==> frames::clean((#[trigger] t.entries[i]).name),
        inner.y + n <= g.h,
        inner.x + inner.w <= g.w,
    ensures
        listed(
            picture::entry_lines(g, t, inner, focused, open, n),
            t.entries[t.off + k],
            inner,
            inner.y + k,
            open,
            colors_of(t.entries[t.off + k], open, t.off + k == t.sel, focused),
        ),
    decreases n,
{
    let i = t.off + n - 1;
    let e = t.entries[i];
    assert(frames::clean(t.entries[i].name));
    let before = picture::entry_lines(g, t, inner, focused, open, n - 1);
    frames::lemma_entry_lines(g, t, inner, focused, open, n - 1);
    let y = inner.y + n - 1;
    if k == n - 1 {
        lemma_entry_shown(before, e, inner, y, open, i == t.sel, focused);
    } else {
        lemma_entries_shown(g, t, inner, focused, open, n - 1, k);
        let bg = picture::entry_bg(i == t.sel, focused);
        lemma_only_entry(before, e, inner, y, bg, open);
        let o = t.entries[t.off + k];
        assert(frames::clean(t.entries[t.off + k].name));
        lemma_listed_kept(
            before,
            picture::entry_lines(g, t, inner, focused, open, n),
            inner.x - 1,
            y,
            y + 1,
            o,
            inner,
            inner.y + k,
            open,
            colors_of(o, open, t.off + k == t.sel, focused),
        );
    }
}

proof fn lemma_only_centered(
    g: Grid,
    r: Rect,
    y: int,
    ls: Seq<&'static str>,
    st: Style,
    n: int,
    h: int,
)
    requires
        g.wf(),
        n <= h,
        0 <= h,
    ensures
        showing::only(
            g,
            picture::centered_lines(g, r, y, ls, st, n),
            r.x - 1,
            y,
            y + h,
        ),
    decreases n,
{
    if n > 0 {
        lemma_only_centered(g, r, y, ls, st, n - 1, h);
        let a = picture::centered_lines(g, r, y, ls, st, n - 1);
        let l = ls[n - 1]@;
        let x = r.x + picture::at_least_0(r.w - screen::text_width(l)) / 2;
        let z = y + n - 1;
        showing::lemma_only_text(a, x, z, r.w as int, l, st);
        lemma_add(
            g,
            a,
            a.text(x, z, r.w as int, l, st),
            r.x - 1,
            y,
            y + h,
            x - 1,
            z,
            z + 1,
        );
    }
}

/// The panel of the table touches nothing before it or below it.
proof fn lemma_only_table(t: State, a: Grid)
    requires
        display::consistent(a),
        t.doc matches Some(d) ==> frames::doc_presentable(d),
        t.table_rect.x + t.table_rect.w <= a.w,
        t.table_rect.y + t.table_rect.h <= a.h,
        t.table_rect.h >= 3,
        t.table_rect.w >= 3,
    ensures
        showing::only(
            a,
            picture::table_picture(t, a),
            t.table_rect.x - 1,
            t.table_rect.y as int,
            t.table_rect.y + t.table_rect.h,
        ),
{
    let panel = t.table_rect;
    let r = panel.inside();
    match t.doc {
        Some(d) => {
            lemma_table_titles(t, a, d);
        },
        None => {
            let focused = t.focus == Focus::Table;
            let (l, u, v) = (panel.x - 1, panel.y as int, panel.y + panel.h);
            let g = a.frame(panel, " [2] Preview "@, ""@, focused);
            lemma_only_frame(a, panel, " [2] Preview "@, ""@, focused);
            if r.h < 11 || r.w < 40 {
                let room = picture::at_least_0(r.w - 1);
                let note = "Pick a file in the explorer and press enter."@;
                let (x, y) = (r.x + 1, r.y as int);
                showing::lemma_only_text(g, x, y, room, note, Style::plain());
                lemma_add(
                    a,
                    g,
                    g.text(x, y, room, note, Style::plain()),
                    l,
                    u,
                    v,
                    x - 1,
                    y,
                    y + 1,
                );
            } else {
                let y = r.y + (r.h - 11) / 2;
                let st = Style::fg(picture::GREEN).attr(screen::BOLD);
                let b = picture::centered_lines(g, r, y, picture::LOGO@, st, 6);
                lemma_only_centered(g, r, y, picture::LOGO@, st, 6, 6);
                lemma_add(a, g, b, l, u, v, r.x - 1, y, y + 6);
                let dim = picture::dim();
                lemma_only_centered(b, r, y + 6, picture::WELCOME@, dim, 5, 5);
                lemma_add(
                    a,
                    b,
                    picture::centered_lines(b, r, y + 6, picture::WELCOME@, dim, 5),
                    l,
                    u,
                    v,
                    r.x - 1,
                    y + 6,
                    y + 11,
                );
            }
        },
    }
}

/// One pass over the screen shows the entries of the explorer.
#[verifier::rlimit(40)]
#[verifier::spinoff_prover]
proof fn lemma_pass_entries(s: State, w: int, h: int, k: int)
    requires
        frames::presentable(s),
        30 <= w <= u16::MAX,
        6 <= h <= u16::MAX,
        s.overlay is Closed,
        s.show_tree,
    ensures
        frame_entries(
            picture::pass_drawn(s, w, h),
            picture::pass_picture(s, w, h),
            k,
            picture::open_path(s),
        ),
{
    let (p0, p1, a, b) = lemma_pass_parts(s, w, h);
    let u = picture::panels_drawn(s, w, h);
    let inner = p0.tree_rect.inside();
    let t = p0.tree.scrolled(inner.h as int);
    assert(u.tree == t);
    assert(u.tree_rect == p0.tree_rect);
    if 0 <= k < inner.h && t.off + k < t.entries.len() {
        crate::tree::scrolling_shows_the_selection(p0.tree, inner.h as int);
        let focused = s.focus == Focus::Tree;
        let open = picture::open_path(s);
        let n = picture::lines_shown(t, inner.h as int);
        let blank = Grid::blank(w, h);
        display::blank_is_consistent(w, h);
        let title = picture::tree_title(p0.tree, p0.home, p0.tree_rect.w as int);
        let f = blank.frame(p0.tree_rect, title, picture::tree_footer(p0.tree), focused);
        frames::lemma_tree_frame(p0, blank);
        lemma_entries_shown(f, t, inner, focused, open, n, k);
        let e = t.entries[t.off + k];
        let st = colors_of(e, open, t.off + k == t.sel, focused);
        assert(listed(a, e, inner, inner.y + k, open, st));
        lemma_only_table(p1, a);
        lemma_listed_kept(
            a,
            b,
            p1.table_rect.x - 1,
            0,
            h - 1,
            e,
            inner,
            inner.y + k,
            open,
            st,
        );
        showing::lemma_only_status(u, b, h - 1);
        lemma_listed_kept(
            b,
            picture::status_picture(u, b, h - 1),
            -1,
            h - 1,
            h,
            e,
            inner,
            inner.y + k,
            open,
            st,
        );
    }
}

/// Whether line `k` of the explorer shows the entry that it should: the `k`th
/// from the first on the screen on.
pub open spec fn frame_entries(t: State, g: Grid, k: int, open: Option<Seq<u8>>) -> bool {
    let inner = t.tree_rect.inside();
    let x = t.tree;
    &&& t.tree_page == inner.h
    &&& 0 <= k < inner.h && x.off + k < x.entries.len() ==> listed(
        g,
        x.entries[x.off + k],
        inner,
        inner.y + k,
        open,
        colors_of(x.entries[x.off + k], open, x.off + k == x.sel, t.focus == Focus::Tree),
    )
}

/// The frame shows the entries of the explorer from the first on the screen on,
/// each in a line of its own.
#[verifier::rlimit(40)]
#[verifier::spinoff_prover]
pub proof fn frame_shows_the_entries(s: State, w: int, h: int, k: int)
    requires
        frames::presentable(s),
        30 <= w <= u16::MAX,
        6 <= h <= u16::MAX,
        s.overlay is Closed,
        s.show_tree,
    ensures
        frame_entries(
            picture::rendered(s, w, h).0,
            picture::rendered(s, w, h).1,
            k,
            picture::open_path(s),
        ),
        picture::rendered(s, w, h).0.tree.entries == s.tree.entries,
        picture::rendered(s, w, h).0.tree.sel == s.tree.sel,
    decreases picture::new_cols(s), picture::new_width(s), picture::pending(s),
{
    lemma_pass_entries(s, w, h, k);
    lemma_pass_parts(s, w, h);
    let t = picture::pass_drawn(s, w, h);
    if let Some(d0) = s.doc {
        showing::lemma_pass_drawn(s, w, h, d0);
        let inner = t.table_rect.inside();
        let p = picture::placed(d0.clamped(), inner);
        showing::lemma_body_drawn(
            p,
            picture::ruling(p, inner, picture::number_width(p, inner.h - 2)),
        );
    }
    assert(picture::open_path(t) == picture::open_path(s));
    if t.relayout {
        picture::lemma_pass_gains(s, w, h);
        frames::lemma_pass(s, w, h);
        frame_shows_the_entries(State { relayout: false, ..t }, w, h, k);
    }
}

// ---------------------------------------------------------------------------
// The last line
// ---------------------------------------------------------------------------

/// A prompt is shown in the last line: what it asks for, what was typed, and a
/// cursor behind it.
#[verifier::rlimit(40)]
#[verifier::spinoff_prover]
pub proof fn prompt_is_shown(s: State, g: Grid, y: int, kind: PromptKind, input: Seq<char>)
    requires
        display::consistent(g),
        s.prompt == Some((kind, input)),
        frames::clean(input),
        0 <= y < g.h,
        screen::text_width(input) + 12 <= g.w,
    ensures
        ({
            let r = picture::status_picture(s, g, y);
            let label = match kind {
                PromptKind::Search => "Search: /"@,
                PromptKind::Goto => "Go to row: "@,
            };
            let z = label.len() + screen::text_width(input);
            &&& showing::reads(r, 0, y, label)
            &&& showing::shows(r, label.len() as int, y, input, Style::plain())
            &&& r.at(z, y) == (Cell {
                ch: ' ',
                st: Style { fg: Color::Reset, bg: Color::Reset, attr: 16 },
            })
        }),
{
    lemma_label(kind);
    let label = picture::prompt_label(kind)@;
    let hint = "enter: confirm | esc: cancel"@;
    let n = label.len() as int;
    screen::lemma_fitting(label, g.w);
    screen::lemma_width_le_bytes(input);
    screen::lemma_fitting(input, g.w - n);
    let st = Style::fg(picture::CYAN).attr(screen::BOLD);
    let rev = Style::plain().attr(screen::REVERSE);
    let a = g.text(0, y, g.w, label, st);
    display::text_keeps_grid_consistent(g, 0, y, g.w, label, st);
    showing::drawn_text_is_shown(g, 0, y, g.w, label, st);
    showing::lemma_shows_reads(a, 0, y, label, st);
    let b = a.text(n, y, g.w - n, input, Style::plain());
    showing::drawn_text_is_shown(a, n, y, g.w - n, input, Style::plain());
    display::text_keeps_grid_consistent(a, n, y, g.w - n, input, Style::plain());
    let z = n + screen::text_width(input);
    let c = b.put(z, y, ' ', rev);
    screen::lemma_width_range(' ');
    display::put_keeps_grid_consistent(b, z, y, ' ', rev);
    showing::lemma_put_here(b, z, y, ' ', rev);
    lemma_label_kept(a, b, c, y, label, st, input, z, rev);
    let r = picture::status_picture(s, g, y);
    if z + 28 + 4 < g.w {
        showing::lemma_only_text(c, g.w - 28, y, 28, hint, picture::dim());
        showing::lemma_reads_kept(c, r, g.w - 29, y, y + 1, 0, y, label);
        lemma_shows_kept(c, r, g.w - 29, y, y + 1, n, y, input, Style::plain());
        assert(r.at(z, y) == c.at(z, y));
    }
}

proof fn lemma_label(kind: PromptKind)
    ensures
        ({
            let label = picture::prompt_label(kind)@;
            &&& frames::clean(label)
            &&& slim(label)
            &&& screen::text_width(label) == label.len()
            &&& label.len() <= 11
        }),
        Style::plain().attr(screen::REVERSE) == (Style {
            fg: Color::Reset,
            bg: Color::Reset,
            attr: 16,
        }),
{
    assert(0u8 | 16u8 == 16u8) by (bit_vector);
    reveal_strlit("Search: /");
    reveal_strlit("Go to row: ");
    let label = picture::prompt_label(kind)@;
    assert(frames::clean(label));
    assert(slim(label)) by {
        assert forall|k: int| 0 <= k < label.len() implies (#[trigger] label[k] as u32) < 0x300
            by {}
    }
    lemma_slim(label);
}

/// What is typed, and the cursor, leave what stands before.
proof fn lemma_label_kept(
    a: Grid,
    b: Grid,
    c: Grid,
    y: int,
    label: Seq<char>,
    st: Style,
    input: Seq<char>,
    z: int,
    rev: Style,
)
    requires
        display::consistent(a),
        display::consistent(b),
        showing::shows(a, 0, y, label, st),
        screen::text_width(label) == label.len(),
        slim(label),
        frames::clean(label),
        frames::clean(input),
        0 <= y < a.h,
        z == label.len() + screen::text_width(input),
        0 <= screen::text_width(input),
        z < a.w,
        b == a.write(label.len() as int, y, input, Style::plain()),
        b.w == a.w && b.h == a.h,
        showing::shows(b, label.len() as int, y, input, Style::plain()),
        c == b.put(z, y, ' ', rev),
    ensures
        showing::reads(c, 0, y, label),
        showing::shows(c, label.len() as int, y, input, Style::plain()),
{
    let n = label.len() as int;
    screen::lemma_width_range(' ');
    assert forall|k: int| 0 <= k < label.len() && screen::width_of(label[k]) > 0 implies c.at(
        0 + screen::text_width(label.take(k)),
        y,
    ).ch == #[trigger] label[k] by {
        showing::lemma_place(label, k);
        let p = screen::text_width(label.take(k));
        screen::lemma_width_range(label[k]);
        assert(a.at(0 + p, y) == (Cell { ch: label[k], st }));
        assert(label[k] != CONT) by {
            assert(label.contains(label[k]));
        }
        crate::painting::writing_leaves_other_cells(a, n, y, input, Style::plain(), p, y);
        crate::painting::putting_leaves_other_cells(b, z, y, ' ', rev, p, y);
    }
    assert(c == a.write(n, y, input, Style::plain()).put(z, y, ' ', rev));
    lemma_before_put(b, n, z, y, input, Style::plain(), ' ', rev);
}

/// A text stays when a character is put behind it.
pub proof fn lemma_before_put(
    b: Grid,
    x: int,
    z: int,
    y: int,
    s: Seq<char>,
    st: Style,
    ch: char,
    other: Style,
)
    requires
        display::consistent(b),
        showing::shows(b, x, y, s, st),
        0 <= x,
        z >= x + screen::text_width(s),
        z < b.w,
        0 <= y < b.h,
        frames::clean(s),
        ch != CONT,
        screen::width_of(ch) == 1,
    ensures
        showing::shows(b.put(z, y, ch, other), x, y, s, st),
{
    let c = b.put(z, y, ch, other);
    showing::lemma_only_put(b, z, y, ch, other);
    screen::lemma_put_size(b, z, y, ch, other);
    assert forall|k: int|
        0 <= k < s.len() && screen::width_of(s[k]) > 0 && x + screen::text_width(s.take(k))
            + screen::width_of(s[k]) <= c.w implies c.at(x + screen::text_width(s.take(k)), y) == (
    Cell { ch: #[trigger] s[k], st }) by {
        showing::lemma_place(s, k);
        screen::lemma_width_range(s[k]);
        let p = x + screen::text_width(s.take(k));
        assert(b.at(p, y) == (Cell { ch: s[k], st }));
        assert(s.contains(s[k]));
        if screen::width_of(s[k]) == 1 {
            crate::painting::putting_leaves_other_cells(b, z, y, ch, other, p, y);
        } else {
            assert(c.at(p, y) == b.at(p, y));
        }
    }
}

/// What a pass leaves as it is.
proof fn lemma_pass_keeps(s: State, w: int, h: int)
    requires
        s.overlay is Closed,
    ensures
        ({
            let t = picture::pass_drawn(s, w, h);
            &&& t.overlay is Closed
            &&& t.prompt == s.prompt
            &&& t.msg == s.msg
            &&& t.focus == s.focus
            &&& t.search == s.search
            &&& t.doc is Some == s.doc is Some
        }),
{
    reveal(picture::pass_drawn);
}

/// The last line of a frame is the status line of the state that it shows, with
/// the prompt and the message that there are.
#[verifier::rlimit(40)]
#[verifier::spinoff_prover]
pub proof fn frame_ends_in_the_status_line(s: State, w: int, h: int) -> (g: Grid)
    requires
        frames::presentable(s),
        30 <= w <= u16::MAX,
        6 <= h <= u16::MAX,
        s.overlay is Closed,
    ensures
        display::consistent(g),
        g.w == w,
        g.h == h,
        ({
            let (t, r) = picture::rendered(s, w, h);
            &&& r == picture::status_picture(t, g, h - 1)
            &&& t.prompt == s.prompt
            &&& t.msg == s.msg
            &&& t.focus == s.focus
            &&& t.search == s.search
            &&& t.doc is Some == s.doc is Some
        }),
    decreases picture::new_cols(s), picture::new_width(s), picture::pending(s),
{
    let t = picture::pass_drawn(s, w, h);
    let (p0, p1, a, b) = lemma_pass_parts(s, w, h);
    lemma_pass_keeps(s, w, h);
    if t.relayout {
        picture::lemma_pass_gains(s, w, h);
        frames::lemma_pass(s, w, h);
        frame_ends_in_the_status_line(State { relayout: false, ..t }, w, h)
    } else {
        b
    }
}

/// Whether a text holds another one.
pub open spec fn holds(s: Seq<char>, t: Seq<char>) -> bool {
    exists|a: int| 0 <= a <= s.len() - t.len() && #[trigger] s.subrange(a, a + t.len()) == t
}

/// A text holds its end, and what its beginning or its end holds.
proof fn lemma_holds(a: Seq<char>, b: Seq<char>, t: Seq<char>)
    ensures
        holds(a + b, b),
        holds(a, t) ==> holds(a + b, t),
        holds(b, t) ==> holds(a + b, t),
{
    let s = a + b;
    let n = a.len() as int;
    assert(s.subrange(n, n + b.len()) =~= b);
    if holds(a, t) {
        let i = choose|i: int|
            0 <= i <= a.len() - t.len() && #[trigger] a.subrange(i, i + t.len()) == t;
        assert(s.subrange(i, i + t.len()) =~= a.subrange(i, i + t.len()));
    }
    if holds(b, t) {
        let i = choose|i: int|
            0 <= i <= b.len() - t.len() && #[trigger] b.subrange(i, i + t.len()) == t;
        assert(s.subrange(n + i, n + i + t.len()) =~= b.subrange(i, i + t.len()));
    }
}

/// What the part of the status line that tells of the table holds, with `a`
/// before it.
proof fn lemma_table_told(
    a: Seq<char>,
    rows: Seq<char>,
    by: Seq<char>,
    cols: Seq<char>,
    bar: Seq<char>,
    del: Seq<char>,
    hd: Seq<char>,
    size: Seq<char>,
    t: Seq<char>,
)
    ensures
        ({
            let all = a + rows + by + cols + bar + del + bar + hd + bar + size;
            &&& holds(all, rows + by + cols)
            &&& holds(all, del)
            &&& holds(all, bar + hd + bar)
            &&& holds(all, size)
            &&& holds(a, t) ==> holds(all, t)
        }),
{
    let b = a + rows + by + cols;
    let table = rows + by + cols;
    assert(b =~= a + table);
    lemma_holds(a, table, table);
    lemma_holds(a, table, t);
    let c = b + bar;
    let d = c + del;
    lemma_holds(b, bar, table);
    lemma_holds(b, bar, t);
    lemma_holds(c, del, del);
    lemma_holds(c, del, table);
    lemma_holds(c, del, t);
    let mid = bar + hd + bar;
    let e = d + bar + hd + bar;
    assert(e =~= d + mid);
    lemma_holds(d, mid, mid);
    lemma_holds(d, mid, table);
    lemma_holds(d, mid, del);
    lemma_holds(d, mid, t);
    lemma_holds(e, size, size);
    lemma_holds(e, size, mid);
    lemma_holds(e, size, table);
    lemma_holds(e, size, del);
    lemma_holds(e, size, t);
}

/// The right part of the last line tells the rows and columns, the delimiter,
/// whether there is a header, and the size of the file; as long as it is being
/// indexed, how far that is.
pub proof fn status_tells_of_the_document(s: State, d: Table)
    requires
        s.doc == Some(d),
    ensures
        ({
            let t = picture::status_right(s);
            &&& holds(
                t,
                util::grouped(d.rows() as nat) + " × "@ + text::decimal(d.ncols() as nat),
            )
            &&& holds(t, util::delim_text(d.delim)@)
            &&& d.has_header ==> holds(t, " │ header │ "@)
            &&& !d.has_header ==> holds(t, " │ no header │ "@)
            &&& holds(t, util::size_text(d.data.len()))
            &&& !d.done ==> holds(
                t,
                "indexing "@ + text::decimal(
                    util::percent_of(d.scanned as nat, d.data.len()),
                ) + "%"@,
            )
            &&& s.search is Some ==> holds(t, "searching…"@)
        }),
{
    let find = if s.search is Some {
        "searching… │ "@
    } else {
        ""@
    };
    let pc = text::decimal(util::percent_of(d.scanned as nat, d.data.len()));
    let ix = if d.done {
        ""@
    } else {
        "indexing "@ + pc + "% │ "@
    };
    let hd = if d.has_header {
        "header"@
    } else {
        "no header"@
    };
    let (rows, cols) = (util::grouped(d.rows() as nat), text::decimal(d.ncols() as nat));
    let (del, size) = (util::delim_text(d.delim)@, util::size_text(d.data.len()));
    let bar = " │ "@;
    lemma_words(pc);
    lemma_holds(find, ix, "searching…"@);
    lemma_holds(find, ix, "indexing "@ + pc + "%"@);
    let a = find + ix;
    let told = "indexing "@ + pc + "%"@;
    lemma_table_told(a, rows, " × "@, cols, bar, del, hd, size, "searching…"@);
    lemma_table_told(a, rows, " × "@, cols, bar, del, hd, size, told);
}

proof fn lemma_words(pc: Seq<char>)
    ensures
        " │ "@ + "header"@ + " │ "@ == " │ header │ "@,
        " │ "@ + "no header"@ + " │ "@ == " │ no header │ "@,
        holds("searching… │ "@, "searching…"@),
        holds("indexing "@ + pc + "% │ "@, "indexing "@ + pc + "%"@),
{
    lemma_header_words();
    lemma_search_words();
    lemma_index_words(pc);
}

proof fn lemma_header_words()
    ensures
        " │ "@ + "header"@ + " │ "@ == " │ header │ "@,
        " │ "@ + "no header"@ + " │ "@ == " │ no header │ "@,
{
    reveal_strlit(" │ ");
    reveal_strlit("header");
    reveal_strlit("no header");
    reveal_strlit(" │ header │ ");
    reveal_strlit(" │ no header │ ");
    assert(" │ "@ + "header"@ + " │ "@ =~= " │ header │ "@);
    assert(" │ "@ + "no header"@ + " │ "@ =~= " │ no header │ "@);
}

proof fn lemma_search_words()
    ensures
        holds("searching… │ "@, "searching…"@),
{
    reveal_strlit("searching… │ ");
    reveal_strlit("searching…");
    let (s, t) = ("searching… │ "@, "searching…"@);
    let z: int = 0;
    assert(s.subrange(z, z + t.len()) =~= t);
}

proof fn lemma_index_words(pc: Seq<char>)
    ensures
        holds("indexing "@ + pc + "% │ "@, "indexing "@ + pc + "%"@),
{
    reveal_strlit("% │ ");
    reveal_strlit("%");
    let a = "indexing "@ + pc;
    let (s, t) = (a + "% │ "@, a + "%"@);
    let z: int = 0;
    assert(s.subrange(z, z + t.len()) =~= t);
}

/// The frames tell where one is: that of the table the name of the file and the
/// current row among all, that of the explorer the selected entry among all.
pub proof fn frames_tell_where_one_is(d: Table, t: Explorer)
    ensures
        holds(picture::doc_title(d), d.name),
        d.rows() > 0 ==> holds(
            picture::doc_footer(d),
            " "@ + util::grouped((d.row + 1) as nat) + " of "@ + util::grouped(d.rows() as nat),
        ),
        d.rows() == 0 ==> picture::doc_footer(d).len() == 0,
        t.entries.len() > 0 ==> picture::tree_footer(t) == " "@ + text::decimal(
            (t.sel + 1) as nat,
        ) + " of "@ + text::decimal(t.entries.len()) + " "@,
        t.entries.len() == 0 ==> picture::tree_footer(t).len() == 0,
{
    lemma_holds(" [2] "@, d.name, d.name);
    lemma_holds(" [2] "@ + d.name, " "@, d.name);
    if d.rows() > 0 {
        let a = " "@ + util::grouped((d.row + 1) as nat) + " of "@ + util::grouped(
            d.rows() as nat,
        );
        let plus = if d.done {
            ""@
        } else {
            "+"@
        };
        let none = Seq::<char>::empty();
        assert(none + a =~= a);
        lemma_holds(none, a, a);
        lemma_holds(a, plus, a);
        lemma_holds(a + plus, " "@, a);
    }
}

/// A message is shown at the beginning of the last line, red when it tells of a
/// failure and green otherwise, when there is room for it beside what is said
/// of the document.
pub proof fn message_is_shown(s: State, g: Grid, y: int, m: Seq<char>, error: bool)
    requires
        display::consistent(g),
        s.prompt is None,
        s.msg == Some((m, error)),
        frames::clean(m),
        0 <= y < g.h,
        0 < g.w,
        screen::text_width(m) + screen::text_width(picture::status_right(s)) + 2 <= g.w,
        g.w <= u16::MAX,
    ensures
        showing::shows(
            picture::status_picture(s, g, y),
            0,
            y,
            m,
            Style {
                fg: Color::Idx(
                    if error {
                        1
                    } else {
                        2
                    },
                ),
                bg: Color::Reset,
                attr: 1,
            },
        ),
{
    assert(0u8 | 1u8 == 1u8) by (bit_vector);
    let right = picture::status_right(s);
    screen::lemma_width_le_bytes(right);
    screen::lemma_width_le_bytes(m);
    let rw = screen::text_width(right);
    assert(rw % 0x1_0000 == rw);
    if let Some(d) = s.doc {
        frames::lemma_doc_status(d, s.search is Some);
    }
    assert(frames::clean(right));
    display::text_keeps_grid_consistent(g, g.w - rw, y, rw, right, Style::fg(picture::CYAN));
    let a = if rw + 10 < g.w {
        g.text(g.w - rw, y, rw, right, Style::fg(picture::CYAN))
    } else {
        g
    };
    showing::written_text_is_shown(a, 0, y, m, picture::message_style(error));
}

} // verus!
