//! What a terminal shows: drawing keeps double-width characters whole, and the
//! instructions of a frame make the terminal show the grid.

use crate::screen::{Cell, Grid, Op, Pen, Rect, Style, CONT};
use crate::screen;
use vstd::prelude::*;

verus! {

// ---------------------------------------------------------------------------
// Double-width characters stay whole
// ---------------------------------------------------------------------------

/// Whether cell `i` is in order: it takes a column, a double-width character is
/// followed by its right half, and a right half stands behind its double-width
/// character, in the same style.
pub open spec fn settled(w: int, cells: Seq<Cell>, i: int) -> bool {
    &&& screen::width_of(cells[i].ch) > 0
    &&& screen::width_of(cells[i].ch) == 2 ==> i % w + 1 < w && i + 1 < cells.len() && cells[i
        + 1].ch == CONT
    &&& cells[i].ch == CONT ==> i % w > 0 && screen::width_of(cells[i - 1].ch) == 2 && cells[i
        - 1].st == cells[i].st
}

/// Whether every cell is in order.
pub open spec fn whole(w: int, cells: Seq<Cell>) -> bool {
    forall|i: int| 0 <= i < cells.len() ==> #[trigger] settled(w, cells, i)
}

/// A grid whose double-width characters are whole.
pub open spec fn consistent(g: Grid) -> bool {
    g.wf() && whole(g.w, g.cells)
}

/// Whether drawing on `g` has left the grid `r`, whose size is the same and
/// whose double-width characters are whole.
pub open spec fn kept(g: Grid, r: Grid) -> bool {
    consistent(r) && r.w == g.w && r.h == g.h
}

/// Column and row of the cell number of `(x, y)`.
proof fn lemma_column(w: int, x: int, y: int)
    requires
        0 <= x < w,
    ensures
        (y * w + x) % w == x,
        (y * w + x) / w == y,
{
    vstd::arithmetic::div_mod::lemma_fundamental_div_mod_converse(y * w + x, w, y, x);
}

/// Column and row of cell `i`.
proof fn lemma_position(w: int, h: int, i: int)
    requires
        0 < w,
        0 <= i < w * h,
    ensures
        0 <= i % w < w,
        0 <= i / w < h,
        (i / w) * w + i % w == i,
{
    vstd::arithmetic::div_mod::lemma_fundamental_div_mod(i, w);
    vstd::arithmetic::mul::lemma_mul_is_commutative(i / w, w);
    vstd::arithmetic::div_mod::lemma_div_pos_is_pos(i, w);
    assert(i / w < h) by (nonlinear_arith)
        requires
            w * (i / w) + i % w == i,
            0 <= i % w,
            i < w * h,
            0 < w,
    ;
}

/// A blank grid is consistent.
pub proof fn blank_is_consistent(w: int, h: int)
    requires
        0 <= w <= u16::MAX,
        0 <= h <= u16::MAX,
    ensures
        consistent(Grid::blank(w, h)),
{
    screen::lemma_area(w, h);
    screen::lemma_width_range(' ');
}

/// Putting a character keeps the grid consistent.
pub proof fn put_keeps_grid_consistent(g: Grid, x: int, y: int, ch: char, st: Style)
    requires
        consistent(g),
        ch != CONT,
    ensures
        kept(g, g.put(x, y, ch, st)),
{
    reveal(Grid::put);
    screen::lemma_put_size(g, x, y, ch, st);
    screen::lemma_width_range(ch);
    screen::lemma_width_range(' ');
    screen::lemma_width_range(CONT);
    if 0 <= x < g.w && 0 <= y < g.h && screen::width_of(ch) != 0 {
        let w = g.w;
        let i = g.index(x, y);
        let r = g.put(x, y, ch, st);
        screen::lemma_index(g.w, g.h, x, y);
        lemma_column(w, x, y);
        assert(forall|k: int| 0 <= k <= 2 && x + k < w ==> (#[trigger] (i + k)) % w == x + k) by {
            assert forall|k: int| 0 <= k <= 2 && x + k < w implies (#[trigger] (i + k)) % w == x
                + k by {
                lemma_column(w, x + k, y);
            }
        }
        assert(x > 0 ==> (i - 1) % w == x - 1) by {
            if x > 0 {
                lemma_column(w, x - 1, y);
            }
        }
        let c = g.cells;
        let d = r.cells;
        assert(settled(w, c, i));
        assert(x > 0 ==> settled(w, c, i - 1));
        assert(x + 1 < w ==> settled(w, c, i + 1));
        assert(x + 1 < w ==> (i + 1) % w == x + 1);
        assert(x + 2 < w ==> settled(w, c, i + 2));
        assert((i + 0) % w == x);
        if x == 0 && i > 0 {
            assert(settled(w, c, i - 1));
            lemma_column(w, w - 1, y - 1);
            assert((y - 1) * w + w == y * w) by (nonlinear_arith);
        }
        if x + 1 == w && i + 1 < c.len() {
            assert(settled(w, c, i + 1));
            lemma_column(w, 0, y + 1);
            assert((y + 1) * w == y * w + w) by (nonlinear_arith);
        }
        assert(settled(w, d, i));
        if i + 1 < d.len() {
            assert(settled(w, d, i + 1));
        }
        if i > 0 {
            assert(settled(w, d, i - 1));
        }
        if i + 2 < d.len() {
            assert(settled(w, c, i + 2));
            assert(settled(w, d, i + 2));
        }
        assert forall|j: int| 0 <= j < d.len() implies #[trigger] settled(w, d, j) by {
            assert(settled(w, c, j));
            if j < i - 1 || j > i + 2 {
                if j == i - 2 {
                    assert(d[i - 1].ch == c[i - 1].ch || c[i].ch == CONT);
                    assert(screen::width_of(c[j].ch) == 2 ==> d[i - 1].ch == CONT);
                } else if j + 1 < d.len() {
                    assert(d[j + 1] == c[j + 1]);
                }
                if j == i + 3 {
                    assert(c[j].ch == CONT ==> d[i + 2] == c[i + 2]);
                } else if 0 < j {
                    assert(d[j - 1] == c[j - 1]);
                } else {
                    vstd::arithmetic::div_mod::lemma_small_mod(0, w as nat);
                }
                lemma_settled_kept(w, c, d, j);
            }
        }
    }
}

/// A cell stays in order as long as its other half stays.
proof fn lemma_settled_kept(w: int, c: Seq<Cell>, d: Seq<Cell>, j: int)
    requires
        settled(w, c, j),
        0 <= j < c.len(),
        c.len() == d.len(),
        d[j] == c[j],
        screen::width_of(c[j].ch) == 2 ==> d[j + 1].ch == CONT,
        c[j].ch == CONT ==> d[j - 1] == c[j - 1],
    ensures
        settled(w, d, j),
{
}

/// Writing a text keeps the grid consistent.
pub proof fn write_keeps_grid_consistent(g: Grid, x: int, y: int, s: Seq<char>, st: Style)
    requires
        consistent(g),
        !s.contains(CONT),
    ensures
        kept(g, g.write(x, y, s, st)),
    decreases s.len(),
{
    if s.len() > 0 {
        assert(forall|k: int| 0 <= k < s.drop_last().len() ==> s.drop_last()[k] == s[k]);
        assert(s.contains(s.last()));
        assert(!s.drop_last().contains(CONT)) by {
            if s.drop_last().contains(CONT) {
                let k = s.drop_last().index_of(CONT);
                assert(s[k] == CONT);
            }
        }
        write_keeps_grid_consistent(g, x, y, s.drop_last(), st);
        put_keeps_grid_consistent(
            g.write(x, y, s.drop_last(), st),
            x + screen::text_width(s.drop_last()),
            y,
            s.last(),
            st,
        );
    }
}

/// Drawing a text, clipped or with an ellipsis, keeps the grid consistent.
pub proof fn text_keeps_grid_consistent(
    g: Grid,
    x: int,
    y: int,
    room: int,
    s: Seq<char>,
    st: Style,
)
    requires
        consistent(g),
        !s.contains(CONT),
        0 <= room,
    ensures
        kept(g, g.text(x, y, room, s, st)),
        kept(g, g.ellipsis(x, y, room, s, st)),
{
    lemma_prefix_without(s, room);
    write_keeps_grid_consistent(g, x, y, screen::fitting(s, room), st);
    if room > 0 {
        write_keeps_grid_consistent(g, x, y, s, st);
        lemma_prefix_without(s, room - 1);
        write_keeps_grid_consistent(g, x, y, screen::fitting(s, room - 1), st);
        put_keeps_grid_consistent(
            g.text(x, y, room - 1, s, st),
            x + screen::text_width(screen::fitting(s, room - 1)),
            y,
            '…',
            st,
        );
    }
}

proof fn lemma_prefix_without(s: Seq<char>, room: int)
    requires
        0 <= room,
        !s.contains(CONT),
    ensures
        !screen::fitting(s, room).contains(CONT),
{
    screen::lemma_fitting(s, room);
    let t = screen::fitting(s, room);
    if t.contains(CONT) {
        let k = t.index_of(CONT);
        assert(s[k] == CONT);
    }
}

/// Drawing a line keeps the grid consistent.
pub proof fn hline_keeps_grid_consistent(g: Grid, x: int, y: int, n: int, ch: char, st: Style)
    requires
        consistent(g),
        ch != CONT,
    ensures
        kept(g, g.hline(x, y, n, ch, st)),
    decreases n,
{
    if n > 0 {
        hline_keeps_grid_consistent(g, x, y, n - 1, ch, st);
        put_keeps_grid_consistent(g.hline(x, y, n - 1, ch, st), x + n - 1, y, ch, st);
    }
}

pub proof fn lemma_fill_rows_consistent(g: Grid, x: int, y: int, w: int, h: int, st: Style)
    requires
        consistent(g),
    ensures
        kept(g, g.fill_rows(x, y, w, h, st)),
    decreases h,
{
    if h > 0 {
        lemma_fill_rows_consistent(g, x, y, w, h - 1, st);
        hline_keeps_grid_consistent(g.fill_rows(x, y, w, h - 1, st), x, y + h - 1, w, ' ', st);
    }
}

/// Filling a rectangle keeps the grid consistent.
pub proof fn fill_keeps_grid_consistent(g: Grid, r: Rect, st: Style)
    requires
        consistent(g),
    ensures
        kept(g, g.fill(r, st)),
{
    lemma_fill_rows_consistent(g, r.x as int, r.y as int, r.w as int, r.h as int, st);
}

proof fn lemma_sides_consistent(g: Grid, x0: int, x1: int, y: int, n: int, st: Style)
    requires
        consistent(g),
    ensures
        kept(g, g.sides(x0, x1, y, n, st)),
    decreases n,
{
    if n > 0 {
        lemma_sides_consistent(g, x0, x1, y, n - 1, st);
        let a = g.sides(x0, x1, y, n - 1, st);
        put_keeps_grid_consistent(a, x0, y + n - 1, '│', st);
        put_keeps_grid_consistent(a.put(x0, y + n - 1, '│', st), x1, y + n - 1, '│', st);
    }
}

/// Drawing a frame keeps the grid consistent.
pub proof fn frame_keeps_grid_consistent(
    g: Grid,
    r: Rect,
    title: Seq<char>,
    footer: Seq<char>,
    focused: bool,
)
    requires
        consistent(g),
        !title.contains(CONT),
        !footer.contains(CONT),
    ensures
        kept(g, g.frame(r, title, footer, focused)),
{
    if r.w >= 2 && r.h >= 2 {
        let st = screen::border_style(focused);
        let (x0, y0) = (r.x as int, r.y as int);
        let (x1, y1) = (r.x + r.w - 1, r.y + r.h - 1);
        let a = g.put(x0, y0, '╭', st);
        put_keeps_grid_consistent(g, x0, y0, '╭', st);
        let b = a.put(x1, y0, '╮', st);
        put_keeps_grid_consistent(a, x1, y0, '╮', st);
        let c = b.put(x0, y1, '╰', st);
        put_keeps_grid_consistent(b, x0, y1, '╰', st);
        let d = c.put(x1, y1, '╯', st);
        put_keeps_grid_consistent(c, x1, y1, '╯', st);
        let e = d.hline(x0 + 1, y0, r.w - 2, '─', st);
        hline_keeps_grid_consistent(d, x0 + 1, y0, r.w - 2, '─', st);
        let f = e.hline(x0 + 1, y1, r.w - 2, '─', st);
        hline_keeps_grid_consistent(e, x0 + 1, y1, r.w - 2, '─', st);
        lemma_sides_consistent(f, x0, x1, y0 + 1, r.h - 2, st);
        let b1 = g.border(r, st);
        if r.w > 4 {
            text_keeps_grid_consistent(
                b1,
                r.x + 1,
                r.y as int,
                r.w - 3,
                title,
                screen::title_style(focused),
            );
        }
        let t = if title.len() > 0 && r.w > 4 {
            b1.ellipsis(r.x + 1, r.y as int, r.w - 3, title, screen::title_style(focused))
        } else {
            b1
        };
        let fw = screen::text_width(footer) % 0x1_0000;
        text_keeps_grid_consistent(t, r.x + r.w - 2 - fw, r.y + r.h - 1, fw, footer, st);
    }
}

// ---------------------------------------------------------------------------
// The terminal shows the grid
// ---------------------------------------------------------------------------

/// A terminal: what it shows, where its cursor stands, how it paints.
#[verifier::ext_equal]
pub struct Terminal {
    pub grid: Grid,
    pub x: int,
    pub y: int,
    pub st: Style,
}

/// What a terminal does with an instruction.
pub open spec fn obey(t: Terminal, op: Op) -> Terminal {
    match op {
        Op::Clear => Terminal {
            grid: Grid::blank(t.grid.w, t.grid.h),
            st: Style::plain(),
            ..t
        },
        Op::Goto(x, y) => Terminal { x, y, ..t },
        Op::Paint(st) => Terminal { st, ..t },
        Op::Show(c) => Terminal {
            grid: t.grid.put(t.x, t.y, c, t.st),
            x: t.x + screen::width_of(c),
            ..t
        },
        Op::Reset => Terminal { st: Style::plain(), ..t },
    }
}

/// What a terminal does with several instructions.
pub open spec fn obey_all(t: Terminal, ops: Seq<Op>) -> Terminal
    decreases ops.len(),
{
    if ops.len() == 0 {
        t
    } else {
        obey(obey_all(t, ops.drop_last()), ops.last())
    }
}

proof fn lemma_obey_push(t: Terminal, ops: Seq<Op>, op: Op)
    ensures
        obey_all(t, ops.push(op)) == obey(obey_all(t, ops), op),
{
    assert(ops.push(op).drop_last() =~= ops);
}

/// What the terminal shows once the first `n` cells have been dealt with: the
/// new cells so far, and behind them the old ones, but for right halves that
/// are due to be overwritten.
spec fn halfway(t: Seq<Cell>, cells: Seq<Cell>, prev: Seq<Cell>, n: int) -> bool {
    &&& t.len() == cells.len()
    &&& forall|j: int| 0 <= j < n ==> t[j] == cells[j]
    &&& forall|j: int| #![trigger t[j]]
        n <= j < t.len() ==> t[j] == prev[j] || (prev[j].ch == CONT && cells[j] != prev[j]
            && cells[j].ch != CONT) || (j == n && cells[j].ch == CONT && t[j] == cells[j])
}

proof fn lemma_emit(
    t: Terminal,
    cells: Seq<Cell>,
    prev: Seq<Cell>,
    full: bool,
    w: int,
    h: int,
    n: int,
)
    requires
        consistent(Grid { w, h, cells }),
        consistent(Grid { w, h, cells: prev }),
        t.grid.w == w,
        t.grid.h == h,
        full ==> prev == Grid::blank(w, h).cells,
        !full ==> t.grid.cells == prev,
        0 <= n <= cells.len(),
    ensures
        ({
            let p = screen::emit(cells, prev, full, w, n);
            let u = obey_all(t, p.ops);
            &&& u.grid.w == w
            &&& u.grid.h == h
            &&& consistent(u.grid)
            &&& halfway(u.grid.cells, cells, prev, n)
            &&& n < cells.len() && cells[n].ch == CONT ==> u.grid.cells[n] == cells[n]
            &&& p.st matches Some(st) ==> u.st == st
            &&& p.pos matches Some(q) ==> (u.x, u.y) == q
        }),
    decreases n,
{
    if n == 0 {
        let p = screen::emit(cells, prev, full, w, 0);
        if full {
            assert(p.ops.drop_last() =~= Seq::<Op>::empty());
            reveal_with_fuel(obey_all, 2);
            assert(p.ops.last() == Op::Clear);
            assert(obey_all(t, p.ops).grid == Grid::blank(w, h));
        }
        assert(obey_all(t, p.ops).grid =~= (Grid { w, h, cells: prev }));
        if 0 < cells.len() {
            assert(settled(w, cells, 0));
        }
    } else {
        lemma_emit(t, cells, prev, full, w, h, n - 1);
        let i = n - 1;
        let p = screen::emit(cells, prev, full, w, i);
        let u = obey_all(t, p.ops);
        let a = u.grid.cells;
        assert(w > 0) by {
            if w == 0 {
                assert(w * h == 0) by (nonlinear_arith)
                    requires
                        w == 0,
                ;
            }
        }
        lemma_position(w, h, i);
        let x = i % w;
        let y = i / w;
        let c = cells[i];
        if screen::is_sent(cells, prev, full, i) {
            let v = lemma_show(t, p, x, y, c);
            let g = u.grid.put(x, y, c.ch, c.st);
            put_keeps_grid_consistent(u.grid, x, y, c.ch, c.st);
            screen::lemma_put_size(u.grid, x, y, c.ch, c.st);
            assert(cells[i] == c);
            lemma_put_at(u.grid, cells, prev, i);
            assert(screen::emit(cells, prev, full, w, n) == p.show(x, y, c));
        } else {
            assert(a[i] == cells[i]);
            if n < cells.len() && cells[n].ch == CONT {
                assert(settled(w, cells, n));
                assert(screen::width_of(cells[i].ch) == 2);
                if c.ch == CONT {
                    screen::lemma_width_range(CONT);
                }
                assert(prev[i] == cells[i]);
                assert(settled(w, prev, i));
                assert(settled(w, prev, n));
                assert(prev[n].ch == CONT);
                assert(prev[n].st == prev[i].st);
                assert(prev[n] == cells[n]);
                assert(a[n] == a[n]);
            }
        }
    }
}

/// The instructions for one cell put it where it belongs.
proof fn lemma_show(t: Terminal, p: Pen, x: int, y: int, c: Cell) -> (v: Terminal)
    requires
        ({
            let u = obey_all(t, p.ops);
            &&& p.st matches Some(st) ==> u.st == st
            &&& p.pos matches Some(q) ==> (u.x, u.y) == q
        }),
    ensures
        v == obey_all(t, p.show(x, y, c).ops),
        v.grid == obey_all(t, p.ops).grid.put(x, y, c.ch, c.st),
        v.st == c.st,
        (v.x, v.y) == (x + screen::width_of(c.ch), y),
{
    let a = if p.pos == Some((x, y)) {
        p.ops
    } else {
        p.ops.push(Op::Goto(x, y))
    };
    let b = if p.st == Some(c.st) {
        a
    } else {
        a.push(Op::Paint(c.st))
    };
    lemma_obey_push(t, p.ops, Op::Goto(x, y));
    lemma_obey_push(t, a, Op::Paint(c.st));
    lemma_obey_push(t, b, Op::Show(c.ch));
    obey_all(t, p.show(x, y, c).ops)
}

/// Sending cell `i` brings the terminal from halfway before it to halfway
/// behind it.
proof fn lemma_put_at(u: Grid, cells: Seq<Cell>, prev: Seq<Cell>, i: int)
    requires
        consistent(u),
        consistent(Grid { cells, ..u }),
        consistent(Grid { cells: prev, ..u }),
        0 <= i < cells.len(),
        halfway(u.cells, cells, prev, i),
        cells[i].ch != CONT,
        u.w > 0,
    ensures
        ({
            let g = u.put(i % u.w, i / u.w, cells[i].ch, cells[i].st);
            &&& halfway(g.cells, cells, prev, i + 1)
            &&& i + 1 < cells.len() && cells[i + 1].ch == CONT ==> g.cells[i + 1] == cells[i + 1]
        }),
{
    reveal(Grid::put);
    let w = u.w;
    lemma_position(w, u.h, i);
    let x = i % w;
    let y = i / w;
    screen::lemma_index(w, u.h, x, y);
    let ch = cells[i].ch;
    screen::lemma_width_range(ch);
    screen::lemma_width_range(CONT);
    screen::lemma_width_range(' ');
    let g = u.put(x, y, ch, cells[i].st);
    let a = u.cells;
    let d = g.cells;
    // No right half is overwritten: its left half would still be shown.
    assert(a[i].ch != CONT) by {
        if a[i].ch == CONT {
            assert(settled(w, a, i));
            assert(a[i - 1] == cells[i - 1]);
            assert(settled(w, cells, i - 1));
        }
    }
    assert(settled(w, cells, i));
    if screen::width_of(ch) == 2 {
        assert(settled(w, cells, i + 1));
        assert(cells[i + 1].ch == CONT);
        assert(cells[i + 1].st == cells[i].st);
    }
    if i + 1 < cells.len() {
        assert(settled(w, cells, i + 1));
    }
    assert(d[i] == cells[i]);
    assert forall|j: int| 0 <= j < i + 1 implies d[j] == cells[j] by {
        assert(a[j] == a[j]);
    }
    assert forall|j: int| #![trigger d[j]] i + 1 <= j < d.len() implies d[j] == prev[j] || (
    prev[j].ch == CONT && cells[j] != prev[j] && cells[j].ch != CONT) || (j == i + 1
        && cells[j].ch == CONT && d[j] == cells[j]) by {
        assert(a[j] == a[j]);
        assert(settled(w, cells, j));
        if j == i + 1 {
            assert(settled(w, a, i));
        }
        if j == i + 2 {
            assert(settled(w, a, i + 1));
        }
    }
}

/// A terminal of the screen's size that shows what was sent last, or anything
/// at all when a frame is sent in full, shows the new grid once it has obeyed
/// the frame's instructions.
pub proof fn frame_shows_the_grid(t: Terminal, g: Grid, prev: Seq<Cell>, full: bool)
    requires
        consistent(g),
        prev.len() == g.cells.len(),
        t.grid.w == g.w,
        t.grid.h == g.h,
        !full ==> t.grid.cells == prev && consistent(t.grid),
    ensures
        obey_all(t, screen::frame_ops(g.cells, prev, full, g.w)).grid == g,
{
    let base = if full {
        Grid::blank(g.w, g.h).cells
    } else {
        prev
    };
    let n = g.cells.len() as int;
    if full {
        blank_is_consistent(g.w, g.h);
        lemma_emit_full(g.cells, prev, base, g.w, n);
    }
    lemma_emit(t, g.cells, base, full, g.w, g.h, n);
    let p = screen::emit(g.cells, prev, full, g.w, n);
    lemma_obey_push(t, p.ops, Op::Reset);
    assert(obey_all(t, p.ops).grid.cells =~= g.cells);
    assert(obey_all(t, p.ops).grid =~= g);
}

/// A frame that is sent in full does not depend on what was sent before.
proof fn lemma_emit_full(cells: Seq<Cell>, a: Seq<Cell>, b: Seq<Cell>, w: int, n: int)
    ensures
        screen::emit(cells, a, true, w, n) == screen::emit(cells, b, true, w, n),
    decreases n,
{
    if n > 0 {
        lemma_emit_full(cells, a, b, w, n - 1);
    }
}

/// A grid that has not changed since it was sent costs nothing: a frame then
/// has no instruction at all.
pub proof fn unchanged_grid_sends_nothing(cells: Seq<Cell>, w: int)
    ensures
        screen::frame_ops(cells, cells, false, w) == Seq::<Op>::empty(),
{
    lemma_emit_nothing(cells, w, cells.len() as int);
}

proof fn lemma_emit_nothing(cells: Seq<Cell>, w: int, n: int)
    requires
        n <= cells.len(),
    ensures
        screen::emit(cells, cells, false, w, n) == (Pen { ops: seq![], st: None, pos: None }),
    decreases n,
{
    if n > 0 {
        lemma_emit_nothing(cells, w, n - 1);
    }
}

} // verus!
