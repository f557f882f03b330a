//! What drawing promises: texts stand where they are written, and the table
//! shows the right rows and fields under the right numbers and titles.

use crate::display;
use crate::doc::{self, Table};
use crate::frames;
use crate::picture::{self, Ruling};
use crate::screen::{self, Cell, Grid, Style, CONT};
use crate::state::State;
use crate::{csv, index, text, util};
use vstd::prelude::*;

verus! {

// ---------------------------------------------------------------------------
// Cells
// ---------------------------------------------------------------------------

/// Whether drawing on `g` has left `r`, in which nothing else has changed than
/// the rows from `y0` to `y1`, from column `x` on.
pub open spec fn only(g: Grid, r: Grid, x: int, y0: int, y1: int) -> bool {
    &&& r.wf()
    &&& r.w == g.w
    &&& r.h == g.h
    &&& forall|i: int, j: int|
        0 <= i < g.w && 0 <= j < g.h && (j < y0 || y1 <= j || i < x) ==> #[trigger] r.at(i, j)
            == g.at(i, j)
}

proof fn lemma_cell_number(w: int, i: int, j: int)
    requires
        0 <= i < w,
    ensures
        (j * w + i) / w == j,
        (j * w + i) % w == i,
{
    vstd::arithmetic::div_mod::lemma_fundamental_div_mod_converse(j * w + i, w, j, i);
}

/// Cells of different rows have different numbers.
pub proof fn lemma_other_row(w: int, i: int, j: int, x: int, y: int)
    requires
        0 <= i < w,
        0 <= x < w,
        j != y,
    ensures
        j * w + i != y * w + x,
{
    lemma_cell_number(w, i, j);
    lemma_cell_number(w, x, y);
}

pub proof fn lemma_only_put(g: Grid, x: int, y: int, ch: char, st: Style)
    requires
        g.wf(),
    ensures
        only(g, g.put(x, y, ch, st), x - 1, y, y + 1),
{
    reveal(Grid::put);
    screen::lemma_put_size(g, x, y, ch, st);
    let r = g.put(x, y, ch, st);
    if 0 <= x < g.w && 0 <= y < g.h && screen::width_of(ch) != 0 {
        screen::lemma_index(g.w, g.h, x, y);
        assert forall|i: int, j: int|
            0 <= i < g.w && 0 <= j < g.h && (j < y || y + 1 <= j || i < x - 1) implies
            #[trigger] r.at(i, j) == g.at(i, j) by {
            screen::lemma_index(g.w, g.h, i, j);
            if j != y {
                lemma_other_row(g.w, i, j, x, y);
                if x > 0 {
                    lemma_other_row(g.w, i, j, x - 1, y);
                }
                if x + 1 < g.w {
                    lemma_other_row(g.w, i, j, x + 1, y);
                }
                if x + 2 < g.w {
                    lemma_other_row(g.w, i, j, x + 2, y);
                }
            }
        }
    }
}

pub proof fn lemma_only_then(a: Grid, b: Grid, c: Grid, x: int, y0: int, y1: int, z: int)
    requires
        only(a, b, x, y0, y1),
        only(b, c, z, y0, y1),
        x <= z,
    ensures
        only(a, c, x, y0, y1),
{
    assert forall|i: int, j: int|
        0 <= i < a.w && 0 <= j < a.h && (j < y0 || y1 <= j || i < x) implies #[trigger] c.at(i, j)
        == a.at(i, j) by {
        assert(c.at(i, j) == b.at(i, j));
        assert(b.at(i, j) == a.at(i, j));
    }
}

pub proof fn lemma_only_wider(a: Grid, b: Grid, x: int, y0: int, y1: int, z: int, v0: int, v1: int)
    requires
        only(a, b, x, y0, y1),
        z <= x,
        v0 <= y0,
        y1 <= v1,
    ensures
        only(a, b, z, v0, v1),
{
    assert forall|i: int, j: int|
        0 <= i < a.w && 0 <= j < a.h && (j < v0 || v1 <= j || i < z) implies #[trigger] b.at(i, j)
        == a.at(i, j) by {}
}

pub proof fn lemma_only_write(g: Grid, x: int, y: int, s: Seq<char>, st: Style)
    requires
        g.wf(),
    ensures
        only(g, g.write(x, y, s, st), x - 1, y, y + 1),
    decreases s.len(),
{
    if s.len() > 0 {
        let t = s.drop_last();
        lemma_only_write(g, x, y, t, st);
        screen::lemma_width_le_bytes(t);
        let a = g.write(x, y, t, st);
        lemma_only_put(a, x + screen::text_width(t), y, s.last(), st);
        lemma_only_then(
            g,
            a,
            g.write(x, y, s, st),
            x - 1,
            y,
            y + 1,
            x + screen::text_width(t) - 1,
        );
    }
}

pub proof fn lemma_only_text(g: Grid, x: int, y: int, room: int, s: Seq<char>, st: Style)
    requires
        g.wf(),
    ensures
        only(g, g.text(x, y, room, s, st), x - 1, y, y + 1),
        only(g, g.ellipsis(x, y, room, s, st), x - 1, y, y + 1),
{
    lemma_only_write(g, x, y, screen::fitting(s, room), st);
    if room > 0 {
        if screen::text_width(s) <= room {
            lemma_only_write(g, x, y, s, st);
        } else {
            let t = screen::fitting(s, room - 1);
            lemma_only_write(g, x, y, t, st);
            let a = g.write(x, y, t, st);
            screen::lemma_width_le_bytes(t);
            lemma_only_put(a, x + screen::text_width(t), y, '…', st);
            lemma_only_then(
                g,
                a,
                g.ellipsis(x, y, room, s, st),
                x - 1,
                y,
                y + 1,
                x + screen::text_width(t) - 1,
            );
        }
    }
}

pub proof fn lemma_only_hline(g: Grid, x: int, y: int, n: int, ch: char, st: Style)
    requires
        g.wf(),
    ensures
        only(g, g.hline(x, y, n, ch, st), x - 1, y, y + 1),
    decreases n,
{
    if n > 0 {
        lemma_only_hline(g, x, y, n - 1, ch, st);
        let a = g.hline(x, y, n - 1, ch, st);
        lemma_only_put(a, x + n - 1, y, ch, st);
        lemma_only_then(g, a, g.hline(x, y, n, ch, st), x - 1, y, y + 1, x + n - 2);
    }
}

pub proof fn lemma_only_line(g: Grid, x: int, y: int, w: int, st: Style)
    requires
        g.wf(),
    ensures
        only(g, g.fill_rows(x, y, w, 1, st), x - 1, y, y + 1),
{
    reveal_with_fuel(Grid::fill_rows, 2);
    lemma_only_hline(g, x, y, w, ' ', st);
}

/// What a put leaves in its own cell and in the one before.
pub proof fn lemma_put_here(g: Grid, x: int, y: int, ch: char, st: Style)
    requires
        g.wf(),
        0 <= x < g.w,
        0 <= y < g.h,
        screen::width_of(ch) > 0,
        x + screen::width_of(ch) <= g.w,
    ensures
        g.put(x, y, ch, st).at(x, y) == (Cell { ch, st }),
        x > 0 && g.at(x, y).ch != CONT ==> g.put(x, y, ch, st).at(x - 1, y) == g.at(x - 1, y),
{
    reveal(Grid::put);
    screen::lemma_index(g.w, g.h, x, y);
    screen::lemma_width_range(ch);
}

/// Whether the characters of `s` stand in row `y` from column `x` on, one after
/// the other and each as wide as it is, as far as the row goes.
pub open spec fn shows(g: Grid, x: int, y: int, s: Seq<char>, st: Style) -> bool {
    forall|k: int|
        0 <= k < s.len() && screen::width_of(s[k]) > 0 && x + screen::text_width(s.take(k))
            + screen::width_of(s[k]) <= g.w ==> g.at(
            x + screen::text_width(s.take(k)),
            y,
        ) == (Cell { ch: #[trigger] s[k], st })
}

/// No right half stands alone behind what takes one column.
proof fn lemma_not_cont(g: Grid, x: int, y: int)
    requires
        display::consistent(g),
        0 <= x,
        x + 1 < g.w,
        0 <= y < g.h,
        screen::width_of(g.at(x, y).ch) != 2,
    ensures
        g.at(x + 1, y).ch != CONT,
{
    screen::lemma_index(g.w, g.h, x, y);
    screen::lemma_index(g.w, g.h, x + 1, y);
    assert(display::settled(g.w, g.cells, g.index(x + 1, y)));
}

/// Writing makes a text stand where it is written.
pub proof fn written_text_is_shown(g: Grid, x: int, y: int, s: Seq<char>, st: Style)
    requires
        display::consistent(g),
        frames::clean(s),
        0 <= x,
        0 <= y < g.h,
    ensures
        shows(g.write(x, y, s, st), x, y, s, st),
        screen::text_width(s) > 0 && x + screen::text_width(s) < g.w ==> g.write(x, y, s, st).at(
            x + screen::text_width(s),
            y,
        ).ch != CONT,
    decreases s.len(),
{
    if s.len() > 0 {
        let t = s.drop_last();
        let c = s.last();
        assert(s.contains(c));
        assert(frames::clean(t)) by {
            if t.contains(CONT) {
                assert(s[t.index_of(CONT)] == CONT);
            }
        }
        written_text_is_shown(g, x, y, t, st);
        display::write_keeps_grid_consistent(g, x, y, t, st);
        display::write_keeps_grid_consistent(g, x, y, s, st);
        screen::lemma_width_le_bytes(t);
        screen::lemma_width_range(c);
        screen::lemma_width_range(CONT);
        let a = g.write(x, y, t, st);
        let at = x + screen::text_width(t);
        let r = g.write(x, y, s, st);
        screen::lemma_put_size(a, at, y, c, st);
        let cw = screen::width_of(c);
        if cw > 0 && at < g.w {
            lemma_only_put(a, at, y, c, st);
            if at + cw <= g.w {
                lemma_put_here(a, at, y, c, st);
                if cw == 1 && at + 1 < g.w {
                    lemma_not_cont(r, at, y);
                }
                if cw == 2 && at + 2 < g.w {
                    screen::lemma_index(g.w, g.h, at, y);
                    screen::lemma_index(g.w, g.h, at + 1, y);
                    assert(display::settled(g.w, r.cells, r.index(at, y)));
                    assert(r.at(at + 1, y).ch == CONT);
                    lemma_not_cont(r, at + 1, y);
                }
            }
        }
        assert forall|k: int|
            0 <= k < s.len() && screen::width_of(s[k]) > 0 && x + screen::text_width(s.take(k))
                + screen::width_of(s[k]) <= g.w implies r.at(
            x + screen::text_width(s.take(k)),
            y,
        ) == (Cell { ch: #[trigger] s[k], st }) by {
            if k < t.len() {
                assert(t.take(k) =~= s.take(k));
                assert(t[k] == s[k]);
                let p = x + screen::text_width(s.take(k));
                screen::lemma_width_take(t, k + 1);
                screen::lemma_width_le_bytes(t.take(k));
                assert(t.take(k + 1).drop_last() =~= t.take(k));
                assert(p + screen::width_of(s[k]) <= at);
                assert(a.at(p, y) == (Cell { ch: t[k], st }));
                if cw > 0 && at < g.w {
                    if p < at - 1 {
                        assert(r.at(p, y) == a.at(p, y));
                    } else {
                        assert(a.at(at, y).ch != CONT);
                        if at + cw <= g.w {
                        } else {
                            lemma_put_edge(a, at, y, c, st);
                        }
                    }
                }
            } else {
                assert(s.take(k) =~= t);
            }
        }
    }
}

/// A double-width character in the last column leaves the one before alone.
proof fn lemma_put_edge(g: Grid, x: int, y: int, ch: char, st: Style)
    requires
        g.wf(),
        0 < x < g.w,
        0 <= y < g.h,
        g.at(x, y).ch != CONT,
        x + 1 == g.w,
    ensures
        g.put(x, y, ch, st).at(x - 1, y) == g.at(x - 1, y),
{
    reveal(Grid::put);
    screen::lemma_index(g.w, g.h, x, y);
}

/// A text drawn into some columns is shown as far as it fits: the longest part
/// of it that does, and all of it if it does.
pub proof fn drawn_text_is_shown(g: Grid, x: int, y: int, room: int, s: Seq<char>, st: Style)
    requires
        display::consistent(g),
        frames::clean(s),
        0 <= x,
        0 <= y < g.h,
        0 <= room,
    ensures
        ({
            let t = screen::fitting(s, room);
            &&& shows(g.text(x, y, room, s, st), x, y, t, st)
            &&& t.is_prefix_of(s)
            &&& screen::text_width(t) <= room
            &&& t.len() < s.len() ==> screen::text_width(s.take(t.len() as int + 1)) > room
            &&& screen::text_width(s) <= room ==> t == s
        }),
{
    screen::lemma_fitting(s, room);
    let t = screen::fitting(s, room);
    assert(frames::clean(t)) by {
        if t.contains(CONT) {
            assert(s[t.index_of(CONT)] == CONT);
        }
    }
    written_text_is_shown(g, x, y, t, st);
    lemma_fit_longest(s, room);
}

pub proof fn lemma_fit_longest(s: Seq<char>, room: int)
    requires
        0 <= room,
    ensures
        0 <= screen::fit(s, room) <= s.len(),
        screen::fit(s, room) < s.len() ==> screen::text_width(s.take(screen::fit(s, room) + 1))
            > room,
    decreases s.len(),
{
    if s.len() > 0 && screen::text_width(s) > room {
        let t = s.drop_last();
        lemma_fit_longest(t, room);
        let k = screen::fit(s, room);
        if k < t.len() {
            assert(t.take(k + 1) =~= s.take(k + 1));
        } else {
            assert(s.take(k + 1) =~= s);
        }
    }
}

// ---------------------------------------------------------------------------
// Columns
// ---------------------------------------------------------------------------

/// Columns stand side by side in the panel: from column `c` on, each three
/// cells further to the right than the one before is wide, until the panel
/// ends. Each takes two cells more than it is wide, as far as the panel goes.
pub proof fn columns_stand_side_by_side(widths: Seq<u16>, c: int, x: int, right: int)
    requires
        0 <= c,
        0 <= x,
        right <= u16::MAX,
        widths.len() <= usize::MAX,
    ensures
        ({
            let h = picture::slots(widths, c, x, right);
            &&& h.len() > 0 ==> h[0].0 == x
            &&& forall|k: int|
                0 <= k < h.len() ==> (#[trigger] h[k]).2 == c + k && c + k < widths.len() && x
                    <= h[k].0 < right && h[k].1 == vstd::math::min(
                    h[k].0 + widths[c + k] + 2,
                    right,
                )
            &&& forall|k: int|
                0 <= k < h.len() - 1 ==> h[k + 1].0 == (#[trigger] h[k]).0 + widths[c + k] + 3
            &&& h.len() == 0 ==> c >= widths.len() || x >= right
            &&& h.len() > 0 ==> c + h.len() >= widths.len() || h.last().0 + widths[c + h.len() - 1]
                + 3 >= right
        }),
    decreases widths.len() - c,
{
    if c < widths.len() && x < right {
        let z = x + widths[c] + 3;
        columns_stand_side_by_side(widths, c + 1, z, right);
        let t = picture::slots(widths, c + 1, z, right);
        let h = picture::slots(widths, c, x, right);
        assert forall|k: int| 0 <= k < h.len() implies (#[trigger] h[k]).2 == c + k && c + k
            < widths.len() && x <= h[k].0 < right && h[k].1 == vstd::math::min(
            h[k].0 + widths[c + k] + 2,
            right,
        ) by {
            if k > 0 {
                assert(h[k] == t[k - 1]);
            }
        }
        assert forall|k: int| 0 <= k < h.len() - 1 implies h[k + 1].0 == (#[trigger] h[k]).0
            + widths[c + k] + 3 by {
            assert(h[k + 1] == t[k]);
            if k > 0 {
                assert(h[k] == t[k - 1]);
            }
        }
        if t.len() > 0 {
            assert(h.last() == t.last());
        }
    }
}

/// Later columns stand further to the right.
pub proof fn lemma_slots_apart(widths: Seq<u16>, c: int, x: int, right: int, i: int, k: int)
    requires
        0 <= c,
        0 <= x,
        right <= u16::MAX,
        widths.len() <= usize::MAX,
        0 <= i < k < picture::slots(widths, c, x, right).len(),
    ensures
        ({
            let h = picture::slots(widths, c, x, right);
            h[k].0 >= h[i].0 + widths[c + i] + 3
        }),
    decreases k,
{
    columns_stand_side_by_side(widths, c, x, right);
    let h = picture::slots(widths, c, x, right);
    assert(h[k - 1 + 1].0 == h[k - 1].0 + widths[c + k - 1] + 3);
    if i < k - 1 {
        lemma_slots_apart(widths, c, x, right, i, k - 1);
    }
}

// ---------------------------------------------------------------------------
// Rows
// ---------------------------------------------------------------------------

pub proof fn lemma_only_cell(
    g: Grid,
    x: int,
    end: int,
    y: int,
    width: int,
    s: Seq<char>,
    tw: int,
    cut: bool,
    to_right: bool,
    st: Style,
)
    requires
        g.wf(),
        0 <= width,
    ensures
        only(
            g,
            picture::cell_picture(g, x, end, y, width, s, tw, cut, to_right, st),
            x,
            y,
            y + 1,
        ),
{
    let avail = vstd::math::min(width, picture::at_least_0(end - x - 1));
    if avail != 0 {
        if cut && avail == width {
            lemma_only_text(g, x + 1, y, avail, s, st);
            let a = g.ellipsis(x + 1, y, avail, s, st);
            lemma_only_put(a, x + avail, y, '…', st);
            lemma_only_then(g, a, a.put(x + avail, y, '…', st), x, y, y + 1, x + avail - 1);
        } else {
            let off = if to_right && tw < avail {
                avail - tw
            } else {
                0
            };
            lemma_only_text(g, x + 1 + off, y, avail - off, s, st);
            lemma_only_wider(
                g,
                g.text(x + 1 + off, y, avail - off, s, st),
                x + off,
                y,
                y + 1,
                x,
                y,
                y + 1,
            );
        }
    }
}

pub proof fn lemma_only_separator(
    g: Grid,
    x: int,
    width: int,
    right: int,
    y: int,
    ch: char,
    st: Style,
)
    requires
        g.wf(),
    ensures
        only(
            g,
            picture::separator_picture(g, x, width, right, y, ch, st),
            x + width + 1,
            y,
            y + 1,
        ),
{
    lemma_only_put(g, x + width + 2, y, ch, st);
}

/// Whether the columns on the screen begin at `x` or further to the right.
pub open spec fn begin_at(r: Ruling, x: int) -> bool {
    forall|k: int| 0 <= k < r.hits.len() ==> (#[trigger] r.hits[k]).0 >= x
}

pub proof fn lemma_only_cells(
    g: Grid,
    d: Table,
    r: Ruling,
    needle: Option<Seq<char>>,
    focused: bool,
    row: int,
    pos: int,
    y: int,
    n: int,
    left: int,
)
    requires
        g.wf(),
        n <= r.hits.len(),
        begin_at(r, left),
    ensures
        only(
            g,
            picture::cells_picture(g, d, r, needle, focused, row, pos, y, n),
            left - 1,
            y,
            y + 1,
        ),
    decreases n,
{
    if n > 0 {
        lemma_only_cells(g, d, r, needle, focused, row, pos, y, n - 1, left);
        let before = picture::cells_picture(g, d, r, needle, focused, row, pos, y, n - 1);
        let after = picture::cells_picture(g, d, r, needle, focused, row, pos, y, n);
        lemma_only_last_cell(before, d, r, needle, focused, row, pos, y, n, after);
        assert(r.hits[n - 1].0 >= left);
        lemma_only_then(g, before, after, left - 1, y, y + 1, r.hits[n - 1].0 - 1);
    }
}

/// A cell touches nothing before its slot.
pub proof fn lemma_only_last_cell(
    before: Grid,
    d: Table,
    r: Ruling,
    needle: Option<Seq<char>>,
    focused: bool,
    row: int,
    pos: int,
    y: int,
    n: int,
    after: Grid,
)
    requires
        before.wf(),
        0 < n <= r.hits.len(),
        ({
            let (x, end, cu) = r.hits[n - 1];
            let c = cu as int;
            let w = d.layout.widths[c] as int;
            let raw = picture::raw_field(d, pos, c);
            let s = picture::shown_text(d, pos, c);
            let current = row == d.row;
            let selected = current && c == d.col;
            let hit = picture::is_hit(s, needle);
            let st = picture::cell_style(selected, hit, focused, current);
            let a = if selected || hit {
                before.fill_rows(x as int, y, end - x, 1, st)
            } else {
                before
            };
            after == picture::separator_picture(
                picture::cell_picture(
                    a,
                    x as int,
                    end as int,
                    y,
                    w,
                    s,
                    csv::columns(csv::field_text(raw, w, false)),
                    csv::field_cut(raw, w, false),
                    d.layout.numeric[c],
                    st,
                ),
                x as int,
                w,
                r.right(),
                y,
                '│',
                picture::row_line_style(current),
            )
        }),
    ensures
        only(before, after, r.hits[n - 1].0 - 1, y, y + 1),
{
    let (x, end, cu) = r.hits[n - 1];
    let c = cu as int;
    let w = d.layout.widths[c] as int;
    let raw = picture::raw_field(d, pos, c);
    let s = picture::shown_text(d, pos, c);
    let current = row == d.row;
    let selected = current && c == d.col;
    let hit = picture::is_hit(s, needle);
    let st = picture::cell_style(selected, hit, focused, current);
    lemma_only_line(before, x as int, y, end - x, st);
    let a = if selected || hit {
        before.fill_rows(x as int, y, end - x, 1, st)
    } else {
        before
    };
    let tw = csv::columns(csv::field_text(raw, w, false));
    let cut = csv::field_cut(raw, w, false);
    let num = d.layout.numeric[c];
    lemma_only_cell(a, x as int, end as int, y, w, s, tw, cut, num, st);
    let b = picture::cell_picture(a, x as int, end as int, y, w, s, tw, cut, num, st);
    lemma_only_then(before, a, b, x - 1, y, y + 1, x as int);
    lemma_only_separator(b, x as int, w, r.right(), y, '│', picture::row_line_style(current));
    lemma_only_then(before, b, after, x - 1, y, y + 1, x + w + 1);
}

pub proof fn lemma_only_row(
    g: Grid,
    d: Table,
    r: Ruling,
    needle: Option<Seq<char>>,
    focused: bool,
    row: int,
    pos: int,
    y: int,
)
    requires
        g.wf(),
        0 <= r.digits,
        begin_at(r, r.bar() + 1),
    ensures
        only(
            g,
            picture::row_picture(g, d, r, needle, focused, row, pos, y),
            r.inner.x - 1,
            y,
            y + 1,
        ),
{
    let x = r.inner.x as int;
    let current = row == d.row;
    lemma_only_line(g, x, y, r.inner.w as int, picture::row_style(true));
    let a = if current {
        g.fill_rows(x, y, r.inner.w as int, 1, picture::row_style(true))
    } else {
        g
    };
    let number = util::padded(text::decimal((row + 1) as nat), r.digits);
    let ns = picture::number_style(current);
    let ls = picture::row_line_style(current);
    lemma_only_text(a, x, y, r.digits, number, ns);
    let b = a.text(x, y, r.digits, number, ns);
    lemma_only_then(g, a, b, x - 1, y, y + 1, x - 1);
    lemma_only_put(b, r.bar(), y, '│', ls);
    let c = b.put(r.bar(), y, '│', ls);
    lemma_only_then(g, b, c, x - 1, y, y + 1, r.bar() - 1);
    let n = r.hits.len() as int;
    lemma_only_cells(c, d, r, needle, focused, row, pos, y, n, r.bar() + 1);
    lemma_only_then(
        g,
        c,
        picture::cells_picture(c, d, r, needle, focused, row, pos, y, n),
        x - 1,
        y,
        y + 1,
        r.bar(),
    );
}

proof fn lemma_padded_width(s: Seq<char>, w: int)
    requires
        s.len() <= w,
        forall|k: int| 0 <= k < s.len() ==> screen::width_of(#[trigger] s[k]) == 1,
    ensures
        util::padded(s, w).len() == w,
        forall|k: int| 0 <= k < w - s.len() ==> #[trigger] util::padded(s, w)[k] == ' ',
        forall|k: int|
            w - s.len() <= k < w ==> #[trigger] util::padded(s, w)[k] == s[k - (w - s.len())],
        forall|k: int| 0 <= k < w ==> screen::width_of(#[trigger] util::padded(s, w)[k]) == 1,
    decreases w - s.len(),
{
    if s.len() < w {
        let t = seq![' '] + s;
        screen::lemma_width_range(' ');
        assert forall|k: int| 0 <= k < t.len() implies screen::width_of(#[trigger] t[k]) == 1 by {
            if k > 0 {
                assert(t[k] == s[k - 1]);
            }
        }
        lemma_padded_width(t, w);
        let p = util::padded(s, w);
        assert(p == util::padded(t, w));
        assert forall|k: int| 0 <= k < w - s.len() implies #[trigger] p[k] == ' ' by {
            if k >= w - t.len() {
                assert(p[k] == t[k - (w - t.len())]);
            }
        }
        assert forall|k: int| w - s.len() <= k < w implies #[trigger] p[k] == s[k - (w
            - s.len())] by {
            assert(p[k] == t[k - (w - t.len())]);
        }
    }
}

/// A text of narrow characters takes as many columns as it has characters.
pub proof fn lemma_narrow(s: Seq<char>)
    requires
        forall|k: int| 0 <= k < s.len() ==> screen::width_of(#[trigger] s[k]) == 1,
    ensures
        screen::text_width(s) == s.len(),
    decreases s.len(),
{
    if s.len() > 0 {
        let t = s.drop_last();
        assert forall|k: int| 0 <= k < t.len() implies screen::width_of(#[trigger] t[k]) == 1 by {
            assert(t[k] == s[k]);
        }
        lemma_narrow(t);
    }
}

/// Whether row `y` begins, from column `x` on, with the number `n`, written to
/// the right in `digits` columns and followed by a line.
pub open spec fn numbered(g: Grid, x: int, y: int, digits: int, n: nat) -> bool {
    let t = text::decimal(n);
    &&& t.len() <= digits
    &&& forall|i: int|
        0 <= i < digits - t.len() ==> (#[trigger] g.at(x + i, y)).ch == ' '
    &&& forall|i: int|
        digits - t.len() <= i < digits ==> (#[trigger] g.at(x + i, y)).ch == t[i - (digits
            - t.len())]
}

/// A number stays when nothing but what is behind it or in other rows changes.
proof fn lemma_numbered_kept(
    a: Grid,
    b: Grid,
    left: int,
    y0: int,
    x: int,
    y: int,
    digits: int,
    n: nat,
)
    requires
        only(a, b, left, y0, y0 + 1),
        numbered(a, x, y, digits, n),
        0 <= x,
        x + digits <= a.w,
        0 <= y < a.h,
        x + digits <= left || y != y0,
    ensures
        numbered(b, x, y, digits, n),
{
    let t = text::decimal(n);
    assert forall|i: int| 0 <= i < digits implies #[trigger] b.at(x + i, y) == a.at(x + i, y) by {}
    assert forall|i: int| 0 <= i < digits - t.len() implies (#[trigger] b.at(x + i, y)).ch
        == ' ' by {
        assert(a.at(x + i, y).ch == ' ');
    }
    assert forall|i: int| digits - t.len() <= i < digits implies (#[trigger] b.at(x + i, y)).ch
        == t[i - (digits - t.len())] by {
        assert(a.at(x + i, y).ch == t[i - (digits - t.len())]);
    }
}

/// Narrow characters stand in neighbouring cells.
proof fn lemma_narrow_shown(g: Grid, x: int, y: int, s: Seq<char>, st: Style)
    requires
        shows(g, x, y, s, st),
        x + s.len() <= g.w,
        forall|k: int| 0 <= k < s.len() ==> screen::width_of(#[trigger] s[k]) == 1,
    ensures
        forall|i: int| 0 <= i < s.len() ==> (#[trigger] g.at(x + i, y)).ch == s[i],
{
    assert forall|i: int| 0 <= i < s.len() implies (#[trigger] g.at(x + i, y)).ch == s[i] by {
        let u = s.take(i);
        assert forall|k: int| 0 <= k < u.len() implies screen::width_of(#[trigger] u[k]) == 1 by {
            assert(u[k] == s[k]);
        }
        lemma_narrow(u);
        assert(screen::width_of(s[i]) == 1);
    }
}

proof fn lemma_bar_narrow()
    ensures
        screen::width_of('│') == 1,
{
    reveal(screen::width_of);
}

/// A number written to the right, with a line behind it.
#[verifier::spinoff_prover]
proof fn lemma_number(a: Grid, x: int, y: int, digits: int, n: nat, ns: Style, ls: Style)
    requires
        display::consistent(a),
        0 <= x,
        0 <= y < a.h,
        x + digits < a.w,
        text::decimal(n).len() <= digits,
    ensures
        ({
            let number = util::padded(text::decimal(n), digits);
            let c = a.text(x, y, digits, number, ns).put(x + digits, y, '│', ls);
            numbered(c, x, y, digits, n) && c.wf() && c.w == a.w && c.h == a.h
        }),
{
    let t = text::decimal(n);
    let number = util::padded(t, digits);
    text::lemma_decimal_digits(n);
    assert forall|k: int| 0 <= k < t.len() implies screen::width_of(#[trigger] t[k]) == 1 by {
        assert(0x30 <= t[k] as int <= 0x39);
        text::lemma_code_point(t[k]);
        screen::lemma_width_range(t[k]);
    }
    lemma_padded_width(t, digits);
    lemma_narrow(number);
    frames::lemma_clean_decimal(n);
    frames::lemma_clean_padded(t, digits);
    screen::lemma_fitting(number, digits);
    let b = a.text(x, y, digits, number, ns);
    assert(b == a.write(x, y, number, ns));
    written_text_is_shown(a, x, y, number, ns);
    display::write_keeps_grid_consistent(a, x, y, number, ns);
    let c = b.put(x + digits, y, '│', ls);
    lemma_only_put(b, x + digits, y, '│', ls);
    lemma_bar_narrow();
    lemma_put_here(b, x + digits, y, '│', ls);
    lemma_narrow_shown(b, x, y, number, ns);
    assert forall|i: int| 0 <= i < digits implies (#[trigger] c.at(x + i, y)).ch == number[i] by {
        assert(b.at(x + i, y).ch == number[i]);
        if i < digits - 1 {
            assert(c.at(x + i, y) == b.at(x + i, y));
        } else {
            assert(b.at(x + digits, y).ch != CONT);
        }
    }
}

proof fn lemma_row_numbered(
    g: Grid,
    d: Table,
    r: Ruling,
    needle: Option<Seq<char>>,
    focused: bool,
    row: int,
    pos: int,
    y: int,
)
    requires
        display::consistent(g),
        begin_at(r, r.bar() + 1),
        0 <= y < g.h,
        r.bar() < g.w,
        0 <= row,
        text::decimal((row + 1) as nat).len() <= r.digits,
    ensures
        numbered(
            picture::row_picture(g, d, r, needle, focused, row, pos, y),
            r.inner.x as int,
            y,
            r.digits,
            (row + 1) as nat,
        ),
{
    let x = r.inner.x as int;
    let current = row == d.row;
    display::lemma_fill_rows_consistent(g, x, y, r.inner.w as int, 1, picture::row_style(true));
    let a = if current {
        g.fill_rows(x, y, r.inner.w as int, 1, picture::row_style(true))
    } else {
        g
    };
    let number = util::padded(text::decimal((row + 1) as nat), r.digits);
    let ns = picture::number_style(current);
    let ls = picture::row_line_style(current);
    lemma_number(a, x, y, r.digits, (row + 1) as nat, ns, ls);
    let c = a.text(x, y, r.digits, number, ns).put(r.bar(), y, '│', ls);
    let n = r.hits.len() as int;
    lemma_only_cells(c, d, r, needle, focused, row, pos, y, n, r.bar() + 1);
    let e = picture::cells_picture(c, d, r, needle, focused, row, pos, y, n);
    lemma_numbered_kept(c, e, r.bar(), y, x, y, r.digits, (row + 1) as nat);
}

/// Rows that are drawn later leave those before alone.
proof fn lemma_rows_numbered(
    g: Grid,
    d: Table,
    r: Ruling,
    needle: Option<Seq<char>>,
    focused: bool,
    pos: int,
    n: int,
    m: int,
)
    requires
        display::consistent(g),
        d.layout.wf(),
        frames::hits_inside(d, r),
        begin_at(r, r.bar() + 1),
        0 <= m < n,
        r.inner.y + 2 + n <= g.h,
        r.bar() < g.w,
        0 <= d.row_off,
        text::decimal((d.row_off + m + 1) as nat).len() <= r.digits,
    ensures
        numbered(
            picture::rows_picture(g, d, r, needle, focused, pos, n),
            r.inner.x as int,
            r.inner.y + 2 + m,
            r.digits,
            (d.row_off + m + 1) as nat,
        ),
    decreases n,
{
    let before = picture::rows_picture(g, d, r, needle, focused, pos, n - 1);
    frames::lemma_rows(g, d, r, needle, focused, pos, n - 1);
    let y = r.inner.y + 2 + n - 1;
    let at = picture::nth_record(d, pos, n - 1);
    let row = d.row_off + n - 1;
    if m == n - 1 {
        lemma_row_numbered(before, d, r, needle, focused, row, at, y);
    } else {
        lemma_rows_numbered(g, d, r, needle, focused, pos, n - 1, m);
        lemma_only_row(before, d, r, needle, focused, row, at, y);
        let after = picture::rows_picture(g, d, r, needle, focused, pos, n);
        lemma_numbered_kept(
            before,
            after,
            r.inner.x - 1,
            y,
            r.inner.x as int,
            r.inner.y + 2 + m,
            r.digits,
            (d.row_off + m + 1) as nat,
        );
    }
}

/// Whether the characters of `s` are to be read in row `y` from column `x` on.
pub open spec fn reads(g: Grid, x: int, y: int, s: Seq<char>) -> bool {
    forall|k: int|
        0 <= k < s.len() && screen::width_of(s[k]) > 0 ==> g.at(
            x + screen::text_width(s.take(k)),
            y,
        ).ch == #[trigger] s[k]
}

/// What stands before a place stays when nothing but what is behind changes.
pub proof fn lemma_reads_kept(
    a: Grid,
    b: Grid,
    left: int,
    y0: int,
    y1: int,
    x: int,
    y: int,
    s: Seq<char>,
)
    requires
        only(a, b, left, y0, y1),
        reads(a, x, y, s),
        0 <= x,
        x + screen::text_width(s) <= a.w,
        0 <= y < a.h,
        x + screen::text_width(s) <= left || y < y0 || y1 <= y,
    ensures
        reads(b, x, y, s),
{
    assert forall|k: int| 0 <= k < s.len() && screen::width_of(s[k]) > 0 implies b.at(
        x + screen::text_width(s.take(k)),
        y,
    ).ch == #[trigger] s[k] by {
        lemma_place(s, k);
        let i = x + screen::text_width(s.take(k));
        assert(a.at(i, y).ch == s[k]);
        assert(b.at(i, y) == a.at(i, y));
    }
}

/// A character stands inside its text.
pub proof fn lemma_place(s: Seq<char>, k: int)
    requires
        0 <= k < s.len(),
    ensures
        0 <= screen::text_width(s.take(k)),
        screen::text_width(s.take(k)) + screen::width_of(s[k]) <= screen::text_width(s),
{
    screen::lemma_width_le_bytes(s.take(k));
    screen::lemma_width_take(s, k + 1);
    assert(s.take(k + 1).drop_last() =~= s.take(k));
}

pub proof fn lemma_shows_reads(g: Grid, x: int, y: int, s: Seq<char>, st: Style)
    requires
        shows(g, x, y, s, st),
        x + screen::text_width(s) <= g.w,
    ensures
        reads(g, x, y, s),
{
    assert forall|k: int| 0 <= k < s.len() && screen::width_of(s[k]) > 0 implies g.at(
        x + screen::text_width(s.take(k)),
        y,
    ).ch == #[trigger] s[k] by {
        lemma_place(s, k);
    }
}

/// A text in a slot that shows the whole column: on its left side or, for a
/// number, on its right.
proof fn lemma_cell_reads(
    g: Grid,
    x: int,
    end: int,
    y: int,
    width: int,
    s: Seq<char>,
    to_right: bool,
    st: Style,
)
    requires
        display::consistent(g),
        frames::clean(s),
        0 <= x,
        0 <= y < g.h,
        1 <= width,
        end - x - 1 >= width,
        x + 1 + width <= g.w,
        screen::text_width(s) <= width,
    ensures
        reads(
            picture::cell_picture(
                g,
                x,
                end,
                y,
                width,
                s,
                screen::text_width(s),
                false,
                to_right,
                st,
            ),
            x + 1 + if to_right {
                width - screen::text_width(s)
            } else {
                0
            },
            y,
            s,
        ),
{
    let tw = screen::text_width(s);
    let off = if to_right {
        width - tw
    } else {
        0
    };
    screen::lemma_width_le_bytes(s);
    drawn_text_is_shown(g, x + 1 + off, y, width - off, s, st);
    lemma_only_text(g, x + 1 + off, y, width - off, s, st);
    lemma_shows_reads(g.text(x + 1 + off, y, width - off, s, st), x + 1 + off, y, s, st);
}

/// Fields shown in one line have no line breaks.
proof fn lemma_one_line(cs: Seq<char>, quoted: bool)
    ensures
        !csv::visible(cs, quoted, false).contains('\n'),
    decreases cs.len(),
{
    if cs.len() > 0 {
        lemma_one_line(cs.drop_last(), quoted);
        let v = csv::visible(cs.drop_last(), quoted, false);
        text::lemma_code_point(cs.last());
        let c = csv::shown_as(cs.last(), false);
        if v.push(c).contains('\n') {
            let k = v.push(c).index_of('\n');
            if k < v.len() {
                assert(v[k] == '\n');
            }
        }
    }
}

proof fn lemma_columns_width(s: Seq<char>)
    requires
        !s.contains('\n'),
    ensures
        csv::columns(s) == screen::text_width(s),
    decreases s.len(),
{
    if s.len() > 0 {
        let t = s.drop_last();
        assert(!t.contains('\n')) by {
            if t.contains('\n') {
                assert(s[t.index_of('\n')] == '\n');
            }
        }
        assert(s.contains(s.last()));
        lemma_columns_width(t);
    }
}

pub proof fn lemma_field_width(raw: Seq<u8>, w: int)
    requires
        0 <= w,
    ensures
        ({
            let s = csv::field_text(raw, w, false);
            &&& csv::columns(s) == screen::text_width(s)
            &&& screen::text_width(s) <= w
            &&& frames::clean(s)
        }),
{
    let v = csv::field_visible(raw, w, false);
    lemma_one_line(
        text::utf8_lossy(csv::field_prefix(raw, w)),
        raw.len() > 0 && raw[0] == csv::QUOTE,
    );
    csv::clipped_text_fits(v, w);
    let s = csv::field_text(raw, w, false);
    assert(!s.contains('\n')) by {
        if s.contains('\n') {
            assert(v[s.index_of('\n')] == '\n');
        }
    }
    lemma_columns_width(s);
    frames::lemma_clean_field(raw, w, false);
}

/// Whether the field `raw` is to be read in full in row `y`, in the slot of a
/// column `w` wide that begins in column `x`: on the left or, in a column of
/// numbers, on the right.
pub open spec fn field_reads(g: Grid, x: int, y: int, w: int, raw: Seq<u8>, number: bool) -> bool {
    let s = csv::field_text(raw, w, false);
    reads(
        g,
        x + 1 + if number {
            w - screen::text_width(s)
        } else {
            0
        },
        y,
        s,
    )
}

proof fn lemma_cells_read(
    g: Grid,
    d: Table,
    r: Ruling,
    needle: Option<Seq<char>>,
    focused: bool,
    row: int,
    pos: int,
    y: int,
    n: int,
    k: int,
)
    requires
        display::consistent(g),
        d.layout.wf(),
        frames::hits_inside(d, r),
        0 <= k < n <= r.hits.len(),
        0 <= y < g.h,
        r.hits[k].1 <= g.w,
        r.hits[k].1 - r.hits[k].0 - 1 >= d.layout.widths[r.hits[k].2 as int],
        forall|j: int|
            k < j < r.hits.len() ==> (#[trigger] r.hits[j]).0 >= r.hits[k].0
                + d.layout.widths[r.hits[k].2 as int] + 3,
        !csv::field_cut(
            picture::raw_field(d, pos, r.hits[k].2 as int),
            d.layout.widths[r.hits[k].2 as int] as int,
            false,
        ),
    ensures
        field_reads(
            picture::cells_picture(g, d, r, needle, focused, row, pos, y, n),
            r.hits[k].0 as int,
            y,
            d.layout.widths[r.hits[k].2 as int] as int,
            picture::raw_field(d, pos, r.hits[k].2 as int),
            d.layout.numeric[r.hits[k].2 as int],
        ),
    decreases n,
{
    let (x, end, cu) = r.hits[k];
    let c = cu as int;
    assert(r.hits[k].2 < d.ncols());
    let w = d.layout.widths[c] as int;
    let raw = picture::raw_field(d, pos, c);
    let s = csv::field_text(raw, w, false);
    let num = d.layout.numeric[c];
    lemma_field_width(raw, w);
    screen::lemma_width_le_bytes(s);
    let before = picture::cells_picture(g, d, r, needle, focused, row, pos, y, n - 1);
    let after = picture::cells_picture(g, d, r, needle, focused, row, pos, y, n);
    frames::lemma_cells(g, d, r, needle, focused, row, pos, y, n - 1);
    let at = x + 1 + if num {
        w - screen::text_width(s)
    } else {
        0
    };
    if k == n - 1 {
        let current = row == d.row;
        let selected = current && c == d.col;
        let hit = picture::is_hit(s, needle);
        let st = picture::cell_style(selected, hit, focused, current);
        display::lemma_fill_rows_consistent(before, x as int, y, end - x, 1, st);
        let a = if selected || hit {
            before.fill_rows(x as int, y, end - x, 1, st)
        } else {
            before
        };
        lemma_cell_reads(a, x as int, end as int, y, w, s, num, st);
        let b = picture::cell_picture(
            a,
            x as int,
            end as int,
            y,
            w,
            s,
            screen::text_width(s),
            false,
            num,
            st,
        );
        lemma_only_cell(
            a,
            x as int,
            end as int,
            y,
            w,
            s,
            screen::text_width(s),
            false,
            num,
            st,
        );
        lemma_only_separator(b, x as int, w, r.right(), y, '│', picture::row_line_style(current));
        lemma_reads_kept(b, after, x + w + 1, y, y + 1, at, y, s);
    } else {
        lemma_cells_read(g, d, r, needle, focused, row, pos, y, n - 1, k);
        lemma_only_last_cell(before, d, r, needle, focused, row, pos, y, n, after);
        assert(r.hits[n - 1].0 >= x + w + 3);
        lemma_reads_kept(before, after, r.hits[n - 1].0 - 1, y, y + 1, at, y, s);
    }
}

proof fn lemma_rows_read(
    g: Grid,
    d: Table,
    r: Ruling,
    needle: Option<Seq<char>>,
    focused: bool,
    pos: int,
    n: int,
    m: int,
    k: int,
)
    requires
        display::consistent(g),
        d.layout.wf(),
        frames::hits_inside(d, r),
        begin_at(r, r.bar() + 1),
        0 <= r.digits,
        0 <= m < n,
        r.inner.y + 2 + n <= g.h,
        0 <= k < r.hits.len(),
        r.hits[k].1 <= g.w,
        r.hits[k].1 - r.hits[k].0 - 1 >= d.layout.widths[r.hits[k].2 as int],
        forall|j: int|
            k < j < r.hits.len() ==> (#[trigger] r.hits[j]).0 >= r.hits[k].0
                + d.layout.widths[r.hits[k].2 as int] + 3,
        !csv::field_cut(
            picture::raw_field(d, picture::nth_record(d, pos, m), r.hits[k].2 as int),
            d.layout.widths[r.hits[k].2 as int] as int,
            false,
        ),
    ensures
        field_reads(
            picture::rows_picture(g, d, r, needle, focused, pos, n),
            r.hits[k].0 as int,
            r.inner.y + 2 + m,
            d.layout.widths[r.hits[k].2 as int] as int,
            picture::raw_field(d, picture::nth_record(d, pos, m), r.hits[k].2 as int),
            d.layout.numeric[r.hits[k].2 as int],
        ),
    decreases n,
{
    let before = picture::rows_picture(g, d, r, needle, focused, pos, n - 1);
    frames::lemma_rows(g, d, r, needle, focused, pos, n - 1);
    let y = r.inner.y + 2 + n - 1;
    let at = picture::nth_record(d, pos, n - 1);
    let row = d.row_off + n - 1;
    if m == n - 1 {
        let x = r.inner.x as int;
        let current = row == d.row;
        display::lemma_fill_rows_consistent(
            before,
            x,
            y,
            r.inner.w as int,
            1,
            picture::row_style(true),
        );
        let a = if current {
            before.fill_rows(x, y, r.inner.w as int, 1, picture::row_style(true))
        } else {
            before
        };
        let t = text::decimal((row + 1) as nat);
        let number = util::padded(t, r.digits);
        let ns = picture::number_style(current);
        let ls = picture::row_line_style(current);
        frames::lemma_clean_decimal((row + 1) as nat);
        frames::lemma_clean_padded(t, r.digits);
        display::text_keeps_grid_consistent(a, x, y, r.digits, number, ns);
        let b = a.text(x, y, r.digits, number, ns);
        display::put_keeps_grid_consistent(b, r.bar(), y, '│', ls);
        let e = b.put(r.bar(), y, '│', ls);
        lemma_cells_read(e, d, r, needle, focused, row, at, y, r.hits.len() as int, k);
    } else {
        lemma_rows_read(g, d, r, needle, focused, pos, n - 1, m, k);
        lemma_only_row(before, d, r, needle, focused, row, at, y);
        let c = r.hits[k].2 as int;
        let w = d.layout.widths[c] as int;
        let raw = picture::raw_field(d, picture::nth_record(d, pos, m), c);
        let s = csv::field_text(raw, w, false);
        lemma_field_width(raw, w);
        screen::lemma_width_le_bytes(s);
        lemma_reads_kept(
            before,
            picture::rows_picture(g, d, r, needle, focused, pos, n),
            r.inner.x - 1,
            y,
            y + 1,
            r.hits[k].0 + 1 + if d.layout.numeric[c] {
                w - screen::text_width(s)
            } else {
                0
            },
            r.inner.y + 2 + m,
            s,
        );
    }
}

/// Records follow each other on the screen as they do in the file.
pub proof fn lemma_nth_record(d: Table, k: int, n: int)
    requires
        0 <= k,
        0 <= n,
        d.delim != csv::NL,
    ensures
        picture::nth_record(d, index::start_of(d.data, k), n) == index::start_of(d.data, k + n),
    decreases n,
{
    if n > 0 {
        lemma_nth_record(d, k, n - 1);
    }
}

// ---------------------------------------------------------------------------
// The table in the frame
// ---------------------------------------------------------------------------

pub proof fn lemma_only_hints(
    g: Grid,
    labels: Seq<&'static str>,
    keys: Seq<&'static str>,
    i: int,
    x: int,
    max: int,
    y: int,
)
    requires
        g.wf(),
        0 <= x,
    ensures
        only(g, picture::hints_picture(g, labels, keys, i, x, max, y), -1, y, y + 1),
    decreases labels.len() - i,
{
    if i < labels.len() && x + picture::hint_width(i == 0, labels[i]@, keys[i]@) <= max {
        let (l, k) = (labels[i]@, keys[i]@);
        let dim = picture::dim();
        let bar = " | "@;
        screen::lemma_width_le_bytes(screen::fitting(bar, 3));
        lemma_only_text(g, x, y, 3, bar, dim);
        let (a, x1) = if i == 0 {
            (g, x)
        } else {
            (g.text(x, y, 3, bar, dim), x + picture::used(bar, 3))
        };
        lemma_only_wider(g, g.text(x, y, 3, bar, dim), x - 1, y, y + 1, -1, y, y + 1);
        let x2 = x1 + picture::used(l, max - x1);
        screen::lemma_width_le_bytes(screen::fitting(l, max - x1));
        let x3 = x2 + picture::used(": "@, max - x2);
        screen::lemma_width_le_bytes(screen::fitting(": "@, max - x2));
        screen::lemma_width_le_bytes(screen::fitting(k, max - x3));
        let plain = Style::plain();
        let key = Style::fg(picture::BLUE).attr(screen::BOLD);
        lemma_only_text(a, x1, y, max - x1, l, plain);
        let b = a.text(x1, y, max - x1, l, plain);
        lemma_only_text(b, x2, y, max - x2, ": "@, plain);
        let c = b.text(x2, y, max - x2, ": "@, plain);
        lemma_only_text(c, x3, y, max - x3, k, key);
        let d = c.text(x3, y, max - x3, k, key);
        lemma_only_then(g, a, b, -1, y, y + 1, x1 - 1);
        lemma_only_then(g, b, c, -1, y, y + 1, x2 - 1);
        lemma_only_then(g, c, d, -1, y, y + 1, x3 - 1);
        assert(d == picture::hint_picture(g, i == 0, l, k, x, max, y));
        let z = picture::hint_end(i == 0, l, k, x, max);
        lemma_only_hints(d, labels, keys, i + 1, z, max, y);
        lemma_only_then(
            g,
            d,
            picture::hints_picture(d, labels, keys, i + 1, z, max, y),
            -1,
            y,
            y + 1,
            -1,
        );
    }
}

/// The status line touches nothing else.
pub proof fn lemma_only_status(s: State, g: Grid, y: int)
    requires
        g.wf(),
    ensures
        only(g, picture::status_picture(s, g, y), -1, y, y + 1),
{
    match s.prompt {
        Some((kind, input)) => {
            let label = picture::prompt_label(kind)@;
            let hint = "enter: confirm | esc: cancel"@;
            screen::lemma_width_le_bytes(screen::fitting(label, g.w));
            let x = picture::used(label, g.w);
            screen::lemma_width_le_bytes(screen::fitting(input, g.w - x));
            let z = x + picture::used(input, g.w - x);
            let st = Style::fg(picture::CYAN).attr(screen::BOLD);
            let rev = Style::plain().attr(screen::REVERSE);
            lemma_only_text(g, 0, y, g.w, label, st);
            let a = g.text(0, y, g.w, label, st);
            lemma_only_text(a, x, y, g.w - x, input, Style::plain());
            let b = a.text(x, y, g.w - x, input, Style::plain());
            lemma_only_put(b, z, y, ' ', rev);
            let c = b.put(z, y, ' ', rev);
            lemma_only_then(g, a, b, -1, y, y + 1, x - 1);
            lemma_only_then(g, b, c, -1, y, y + 1, z - 1);
            if z + 28 + 4 < g.w {
                lemma_only_text(c, g.w - 28, y, 28, hint, picture::dim());
                lemma_only_then(
                    g,
                    c,
                    c.text(g.w - 28, y, 28, hint, picture::dim()),
                    -1,
                    y,
                    y + 1,
                    g.w - 29,
                );
            }
        },
        None => {
            let right = picture::status_right(s);
            let rw = screen::text_width(right) % 0x1_0000;
            let cyan = Style::fg(picture::CYAN);
            let (a, left_max) = if rw + 10 < g.w {
                (g.text(g.w - rw, y, rw, right, cyan), g.w - rw - 2)
            } else {
                (g, g.w)
            };
            if rw + 10 < g.w {
                lemma_only_text(g, g.w - rw, y, rw, right, cyan);
                lemma_only_wider(g, a, g.w - rw - 1, y, y + 1, -1, y, y + 1);
            }
            assert(only(g, a, -1, y, y + 1));
            match s.msg {
                Some((m, error)) => {
                    lemma_only_text(a, 0, y, left_max, m, picture::message_style(error));
                    lemma_only_then(
                        g,
                        a,
                        a.ellipsis(0, y, left_max, m, picture::message_style(error)),
                        -1,
                        y,
                        y + 1,
                        -1,
                    );
                },
                None => {
                    lemma_only_hints(
                        a,
                        picture::TREE_LABELS@,
                        picture::TREE_KEYS@,
                        0,
                        0,
                        left_max,
                        y,
                    );
                    lemma_only_hints(
                        a,
                        picture::TABLE_LABELS@,
                        picture::TABLE_KEYS@,
                        0,
                        0,
                        left_max,
                        y,
                    );
                    lemma_only_then(
                        g,
                        a,
                        picture::status_picture(s, g, y),
                        -1,
                        y,
                        y + 1,
                        -1,
                    );
                },
            }
        },
    }
}

/// Longer numbers have more digits.
proof fn lemma_decimal_grows(a: nat, b: nat)
    requires
        a <= b,
    ensures
        text::decimal(a).len() <= text::decimal(b).len(),
    decreases b,
{
    if b >= 10 {
        if a >= 10 {
            lemma_decimal_grows(a / 10, b / 10);
        } else {
            lemma_decimal_grows(0, b / 10);
        }
    }
}

proof fn lemma_grouped_longer(s: Seq<char>, rest: int)
    ensures
        s.len() <= util::grouped_before(s, rest).len(),
    decreases s.len(),
{
    if s.len() > 0 {
        lemma_grouped_longer(s.drop_last(), rest + 1);
    }
}

/// Whether row `y` of the grid shows data row `row` of a document in a panel:
/// its number on the left and, in each slot that has room for the whole
/// column, the field of that column, if it fits.
pub open spec fn shows_row(
    g: Grid,
    d: Table,
    x: int,
    digits: int,
    hits: Seq<(u16, u16, usize)>,
    row: int,
    y: int,
) -> bool {
    &&& numbered(g, x, y, digits, (row + 1) as nat)
    &&& d.row_fields(row) matches Some(f) && forall|k: int|
        0 <= k < hits.len() && (#[trigger] hits[k]).2 < f.len() && hits[k].1 - hits[k].0 - 1
            >= d.layout.widths[hits[k].2 as int] && !csv::field_cut(
            d.data.subrange(f[hits[k].2 as int].0, f[hits[k].2 as int].1),
            d.layout.widths[hits[k].2 as int] as int,
            false,
        ) ==> field_reads(
            g,
            hits[k].0 as int,
            y,
            d.layout.widths[hits[k].2 as int] as int,
            d.data.subrange(f[hits[k].2 as int].0, f[hits[k].2 as int].1),
            d.layout.numeric[hits[k].2 as int],
        )
}

/// What a line shows stays when nothing but other lines change.
proof fn lemma_shows_row_kept(
    a: Grid,
    b: Grid,
    y0: int,
    d: Table,
    x: int,
    digits: int,
    hits: Seq<(u16, u16, usize)>,
    row: int,
    y: int,
)
    requires
        only(a, b, -1, y0, y0 + 1),
        shows_row(a, d, x, digits, hits, row, y),
        y != y0,
        0 <= y < a.h,
        0 <= x,
        x + digits <= a.w,
        forall|k: int| 0 <= k < hits.len() ==> (#[trigger] hits[k]).1 <= a.w,
    ensures
        shows_row(b, d, x, digits, hits, row, y),
{
    lemma_numbered_kept(a, b, -1, y0, x, y, digits, (row + 1) as nat);
    let f = d.row_fields(row)->0;
    assert forall|k: int|
        0 <= k < hits.len() && (#[trigger] hits[k]).2 < f.len() && hits[k].1 - hits[k].0 - 1
            >= d.layout.widths[hits[k].2 as int] && !csv::field_cut(
            d.data.subrange(f[hits[k].2 as int].0, f[hits[k].2 as int].1),
            d.layout.widths[hits[k].2 as int] as int,
            false,
        ) implies field_reads(
        b,
        hits[k].0 as int,
        y,
        d.layout.widths[hits[k].2 as int] as int,
        d.data.subrange(f[hits[k].2 as int].0, f[hits[k].2 as int].1),
        d.layout.numeric[hits[k].2 as int],
    ) by {
        let c = hits[k].2 as int;
        let wd = d.layout.widths[c] as int;
        let raw = d.data.subrange(f[c].0, f[c].1);
        lemma_field_width(raw, wd);
        let txt = csv::field_text(raw, wd, false);
        screen::lemma_width_le_bytes(txt);
        lemma_reads_kept(
            a,
            b,
            -1,
            y0,
            y0 + 1,
            hits[k].0 + 1 + if d.layout.numeric[c] {
                wd - screen::text_width(txt)
            } else {
                0
            },
            y,
            txt,
        );
    }
}

/// The rows of a document in a panel that is large enough.
#[verifier::rlimit(40)]
#[verifier::spinoff_prover]
proof fn lemma_body_rows(
    head: Grid,
    p: Table,
    r: Ruling,
    needle: Option<Seq<char>>,
    focused: bool,
    shown: int,
    n: int,
)
    requires
        display::consistent(head),
        p.layout.wf(),
        p.ncols() <= usize::MAX,
        p.delim != csv::NL,
        0 <= p.row_off,
        0 <= p.col_off,
        frames::hits_inside(p, r),
        2 <= r.digits < r.inner.w,
        r == picture::ruling(p, r.inner, r.digits),
        r.inner.x + r.inner.w <= head.w,
        r.inner.x + r.inner.w <= u16::MAX,
        r.inner.y + 2 + shown <= head.h,
        0 <= n < shown,
        p.row_off + n < p.rows(),
        text::decimal((p.row_off + n + 1) as nat).len() <= r.digits,
    ensures
        shows_row(
            picture::rows_picture(
                head,
                p,
                r,
                needle,
                focused,
                index::start_of(p.data, p.row_off + p.hdr()),
                shown,
            ),
            p,
            r.inner.x as int,
            r.digits,
            r.hits,
            p.row_off + n,
            r.inner.y + 2 + n,
        ),
{
    let row = p.row_off + n;
    let k0 = p.row_off + p.hdr();
    let pos = index::start_of(p.data, k0);
    let b = picture::rows_picture(head, p, r, needle, focused, pos, shown);
    let x0 = r.inner.x + r.digits + 1;
    let right = r.inner.x + r.inner.w;
    let hits = r.hits;
    columns_stand_side_by_side(p.layout.widths, p.col_off, x0, right);
    assert(begin_at(r, r.bar() + 1));
    lemma_rows_numbered(head, p, r, needle, focused, pos, shown, n);
    let y = r.inner.y + 2 + n;
    let fs = p.row_fields(row)->0;
    lemma_nth_record(p, k0, n);
    let at = picture::nth_record(p, pos, n);
    assert forall|k: int|
        0 <= k < hits.len() && (#[trigger] hits[k]).2 < fs.len() && hits[k].1 - hits[k].0 - 1
            >= p.layout.widths[hits[k].2 as int] && !csv::field_cut(
            p.data.subrange(fs[hits[k].2 as int].0, fs[hits[k].2 as int].1),
            p.layout.widths[hits[k].2 as int] as int,
            false,
        ) implies field_reads(
        b,
        hits[k].0 as int,
        y,
        p.layout.widths[hits[k].2 as int] as int,
        p.data.subrange(fs[hits[k].2 as int].0, fs[hits[k].2 as int].1),
        p.layout.numeric[hits[k].2 as int],
    ) by {
        let c = hits[k].2 as int;
        assert(picture::raw_field(p, at, c) == p.data.subrange(fs[c].0, fs[c].1));
        assert forall|j: int| k < j < hits.len() implies (#[trigger] hits[j]).0 >= hits[k].0
            + p.layout.widths[c] + 3 by {
            lemma_slots_apart(p.layout.widths, p.col_off, x0, right, k, j);
        }
        lemma_rows_read(head, p, r, needle, focused, pos, shown, n, k);
    }
}

/// The table shows the rows of the document.
#[verifier::rlimit(40)]
#[verifier::spinoff_prover]
proof fn lemma_table_rows(t: State, a: Grid, d0: Table, n: int)
    requires
        display::consistent(a),
        t.doc == Some(d0),
        frames::doc_presentable(d0),
        d0.delim != csv::NL,
        d0.rows() <= usize::MAX,
        ({
            let inner = t.table_rect.inside();
            let p = picture::placed(d0.clamped(), inner);
            &&& inner.h >= 3
            &&& inner.w >= 10
            &&& inner.x + inner.w <= a.w
            &&& inner.y + inner.h <= a.h
            &&& picture::number_width(p, inner.h - 2) < inner.w
            &&& 0 <= n < inner.h - 2
            &&& p.row_off + n < p.rows()
        }),
    ensures
        ({
            let inner = t.table_rect.inside();
            let p = picture::placed(d0.clamped(), inner);
            let r = picture::ruling(p, inner, picture::number_width(p, inner.h - 2));
            &&& shows_row(
                picture::table_picture(t, a),
                p,
                inner.x as int,
                r.digits,
                r.hits,
                p.row_off + n,
                inner.y + 2 + n,
            )
            &&& forall|k: int|
                0 <= k < r.hits.len() ==> (#[trigger] r.hits[k]).1 <= inner.x + inner.w
        }),
{
    let inner = t.table_rect.inside();
    let d = d0.clamped();
    let focused = t.focus == crate::state::Focus::Table;
    frames::lemma_table_head(d, t.table_rect, a, focused);
    let p = picture::placed(d, inner);
    let r = picture::ruling(p, inner, picture::number_width(p, inner.h - 2));
    let f = a.frame(t.table_rect, picture::doc_title(d), picture::doc_footer(d), focused);
    let head = picture::header_picture(f, p, r);
    picture::current_cell_is_in_view(d, inner);
    let most = vstd::math::max(
        p.rows(),
        vstd::math::min(p.row_off + (inner.h - 2), usize::MAX as int),
    );
    lemma_decimal_grows((p.row_off + n + 1) as nat, most as nat);
    lemma_grouped_longer(text::decimal(most as nat), 0);
    let shown = picture::rows_shown(p, inner.h - 2);
    lemma_body_rows(head, p, r, t.needle, focused, shown, n);
    columns_stand_side_by_side(
        p.layout.widths,
        p.col_off,
        inner.x + r.digits + 1,
        inner.x + inner.w,
    );
}

/// One pass over the screen shows the rows of the document.
#[verifier::rlimit(40)]
#[verifier::spinoff_prover]
proof fn lemma_pass_rows(s: State, w: int, h: int, n: int)
    requires
        frames::presentable(s),
        30 <= w <= u16::MAX,
        6 <= h <= u16::MAX,
        s.overlay is Closed,
        s.doc is Some,
        (s.doc->0).delim != csv::NL,
        (s.doc->0).rows() <= usize::MAX,
        ({
            let inner = picture::panels(s, w, h).table_rect.inside();
            let p = picture::placed((s.doc->0).clamped(), inner);
            &&& inner.h >= 3
            &&& inner.w >= 10
            &&& picture::number_width(p, inner.h - 2) < inner.w
            &&& 0 <= n < inner.h - 2
            &&& p.row_off + n < p.rows()
        }),
    ensures
        ({
            let inner = picture::panels(s, w, h).table_rect.inside();
            let p = picture::placed((s.doc->0).clamped(), inner);
            let r = picture::ruling(p, inner, picture::number_width(p, inner.h - 2));
            shows_row(
                picture::pass_picture(s, w, h),
                p,
                inner.x as int,
                r.digits,
                r.hits,
                p.row_off + n,
                inner.y + 2 + n,
            )
        }),
{
    reveal(picture::pass_picture);
    let p0 = picture::panels(s, w, h);
    let inner = p0.table_rect.inside();
    let blank = Grid::blank(w, h);
    display::blank_is_consistent(w, h);
    frames::lemma_tree(p0, blank);
    let a = if p0.show_tree {
        picture::tree_picture(p0, blank)
    } else {
        blank
    };
    let t = if p0.show_tree {
        picture::tree_drawn(p0)
    } else {
        p0
    };
    let d0 = s.doc->0;
    lemma_table_rows(t, a, d0, n);
    frames::lemma_table(t, a);
    let b = picture::table_picture(t, a);
    let u = picture::panels_drawn(s, w, h);
    lemma_only_status(u, b, h - 1);
    let p = picture::placed(d0.clamped(), inner);
    let r = picture::ruling(p, inner, picture::number_width(p, inner.h - 2));
    lemma_shows_row_kept(
        b,
        picture::status_picture(u, b, h - 1),
        h - 1,
        p,
        inner.x as int,
        r.digits,
        r.hits,
        p.row_off + n,
        inner.y + 2 + n,
    );
}

/// New columns leave the old ones as they are.
proof fn lemma_with_cols(l: doc::Layout, n: int)
    requires
        l.wf(),
    ensures
        ({
            let m = l.with_cols(n);
            &&& l.headers.is_prefix_of(m.headers)
            &&& l.numeric.is_prefix_of(m.numeric)
            &&& l.widths.is_prefix_of(m.widths)
        }),
    decreases n - l.widths.len(),
{
    if l.widths.len() < n {
        let m = doc::Layout {
            headers: l.headers.push(doc::col_text(l.widths.len() as int)),
            widths: l.widths.push(8),
            numeric: l.numeric.push(false),
        };
        lemma_with_cols(m, n);
        let r = m.with_cols(n);
        assert forall|k: int| 0 <= k < l.headers.len() implies l.headers[k] == r.headers[k] by {
            assert(m.headers[k] == r.headers[k]);
        }
        assert forall|k: int| 0 <= k < l.numeric.len() implies l.numeric[k] == r.numeric[k] by {
            assert(m.numeric[k] == r.numeric[k]);
        }
        assert forall|k: int| 0 <= k < l.widths.len() implies l.widths[k] == r.widths[k] by {
            assert(m.widths[k] == r.widths[k]);
        }
    }
}

/// Drawing the rows changes nothing of a document but its layout.
pub proof fn lemma_body_drawn(p: Table, r: Ruling)
    requires
        p.layout.wf(),
    ensures
        ({
            let q = picture::body_drawn(p, r);
            &&& q == (Table { layout: q.layout, ..p })
            &&& p.layout.numeric.is_prefix_of(q.layout.numeric)
            &&& p.layout.headers.is_prefix_of(q.layout.headers)
            &&& p.ncols() <= q.ncols()
        }),
{
    if let Some(pos) = p.record(p.row_off) {
        let n = picture::rows_shown(p, r.inner.h - 2);
        lemma_with_cols(p.layout, picture::fields_shown(p, pos, n));
    }
}

/// What a pass leaves of the document and of the panels.
pub proof fn lemma_pass_drawn(s: State, w: int, h: int, d0: Table)
    requires
        s.doc == Some(d0),
        d0.layout.wf(),
    ensures
        ({
            let t = picture::pass_drawn(s, w, h);
            let inner = picture::panels(s, w, h).table_rect.inside();
            let p = picture::placed(d0.clamped(), inner);
            let r = picture::ruling(p, inner, picture::number_width(p, inner.h - 2));
            &&& t.table_rect == picture::panels(s, w, h).table_rect
            &&& t.overlay is Closed == s.overlay is Closed
            &&& t.focus == s.focus
            &&& t.show_tree == s.show_tree
            &&& t.doc matches Some(q) && if inner.h < 3 || inner.w < 10 {
                q == d0.clamped()
            } else {
                &&& q == picture::body_drawn(p, r)
                &&& t.col_hits == r.hits
                &&& !t.relayout ==> q.layout.widths.take(p.ncols()) == p.layout.widths
            }
        }),
{
    reveal(picture::pass_drawn);
}

/// What one pass shows is so of the document as it leaves it.
#[verifier::rlimit(40)]
#[verifier::spinoff_prover]
proof fn lemma_pass_shows(s: State, w: int, h: int, d0: Table, n: int)
    requires
        frames::presentable(s),
        30 <= w <= u16::MAX,
        6 <= h <= u16::MAX,
        s.overlay is Closed,
        s.doc == Some(d0),
        d0.delim != csv::NL,
        d0.rows() <= usize::MAX,
        !picture::pass_drawn(s, w, h).relayout,
    ensures
        frame_rows(picture::pass_drawn(s, w, h), picture::pass_picture(s, w, h), n),
{
    lemma_pass_drawn(s, w, h, d0);
    let t = picture::pass_drawn(s, w, h);
    let g = picture::pass_picture(s, w, h);
    let inner = t.table_rect.inside();
    let q = t.doc->0;
    if inner.h >= 3 && inner.w >= 10 {
        let d = d0.clamped();
        let p = picture::placed(d, inner);
        let digits = picture::number_width(p, inner.h - 2);
        let r = picture::ruling(p, inner, digits);
        picture::current_cell_is_in_view(d, inner);
        lemma_body_drawn(p, r);
        if digits < inner.w && 0 <= n < inner.h - 2 && p.row_off + n < p.rows() {
            lemma_pass_rows(s, w, h, n);
            let row = p.row_off + n;
            let y = inner.y + 2 + n;
            let f = p.row_fields(row)->0;
            frames::lemma_scroll_cols_nonneg(
                d.layout.widths,
                d.col,
                d.col_off,
                picture::at_least_0(
                    inner.w - picture::number_width(
                        picture::scrolled_down(d, inner.h - 2),
                        inner.h - 2,
                    ) - 1,
                ),
            );
            frames::lemma_slots(
                p.layout.widths,
                p.col_off,
                inner.x + digits + 1,
                inner.x + inner.w,
            );
            assert forall|k: int|
                0 <= k < r.hits.len() && (#[trigger] r.hits[k]).2 < f.len() && r.hits[k].1
                    - r.hits[k].0 - 1 >= q.layout.widths[r.hits[k].2 as int] && !csv::field_cut(
                    q.data.subrange(f[r.hits[k].2 as int].0, f[r.hits[k].2 as int].1),
                    q.layout.widths[r.hits[k].2 as int] as int,
                    false,
                ) implies field_reads(
                g,
                r.hits[k].0 as int,
                y,
                q.layout.widths[r.hits[k].2 as int] as int,
                q.data.subrange(f[r.hits[k].2 as int].0, f[r.hits[k].2 as int].1),
                q.layout.numeric[r.hits[k].2 as int],
            ) by {
                let c = r.hits[k].2 as int;
                assert(q.layout.widths.take(p.ncols())[c] == p.layout.widths[c]);
                assert(q.layout.numeric[c] == p.layout.numeric[c]);
            }
        }
    }
}

/// Whether a frame shows the `n`th row on the screen as it should, and the
/// current row among those on the screen.
pub open spec fn frame_rows(t: State, g: Grid, n: int) -> bool {
    let inner = t.table_rect.inside();
    t.doc matches Some(d) && (inner.h >= 3 && inner.w >= 10 ==> {
        let digits = picture::number_width(d, inner.h - 2);
        &&& d.row_off <= d.row < d.row_off + inner.h - 2
        &&& digits < inner.w && 0 <= n < inner.h - 2 && d.row_off + n < d.rows() ==> shows_row(
            g,
            d,
            inner.x as int,
            digits,
            t.col_hits,
            d.row_off + n,
            inner.y + 2 + n,
        )
    })
}

/// The frame shows the rows of the document from the first on the screen on:
/// the line of each begins with its number, counted from 1 in the whole table,
/// and shows its fields, each in the slot of its column.
#[verifier::rlimit(40)]
#[verifier::spinoff_prover]
pub proof fn frame_shows_the_rows(s: State, w: int, h: int, d0: Table, n: int)
    requires
        frames::presentable(s),
        30 <= w <= u16::MAX,
        6 <= h <= u16::MAX,
        s.overlay is Closed,
        s.doc == Some(d0),
        d0.delim != csv::NL,
        d0.rows() <= usize::MAX,
    ensures
        frame_rows(picture::rendered(s, w, h).0, picture::rendered(s, w, h).1, n),
        picture::rendered(s, w, h).0.doc matches Some(d) && d.data == d0.data && d.delim
            == d0.delim && d.has_header == d0.has_header && d.found == d0.found && d.row
            == d0.clamped().row && d.col == d0.clamped().col,
    decreases picture::new_cols(s), picture::new_width(s), picture::pending(s),
{
    lemma_pass_drawn(s, w, h, d0);
    let t = picture::pass_drawn(s, w, h);
    let inner = t.table_rect.inside();
    let d = d0.clamped();
    let p = picture::placed(d, inner);
    let r = picture::ruling(p, inner, picture::number_width(p, inner.h - 2));
    lemma_body_drawn(p, r);
    let q = t.doc->0;
    assert(q.ncols() >= d0.ncols());
    if t.relayout {
        picture::lemma_pass_gains(s, w, h);
        frames::lemma_pass(s, w, h);
        frame_shows_the_rows(State { relayout: false, ..t }, w, h, q, n);
    } else {
        lemma_pass_shows(s, w, h, d0, n);
    }
}

} // verus!
