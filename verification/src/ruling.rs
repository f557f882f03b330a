//! What the lines of the table promise, and what is said where there is nothing
//! to show.

use crate::doc::Table;
use crate::picture::{self, Ruling};
use crate::screen::{self, Color, Grid, Style};
use crate::state::State;
use crate::{csv, display, frames, painting, showing};
use vstd::prelude::*;

verus! {

// ---------------------------------------------------------------------------
// Lines between the columns
// ---------------------------------------------------------------------------

/// Further to the right than any screen.
spec fn far() -> int {
    0x10_0000
}

/// Drawing a cell leaves what stands before its slot.
proof fn lemma_cell_beside(
    g: Grid,
    x: int,
    end: int,
    y: int,
    width: int,
    s: Seq<char>,
    tw: int,
    cut: bool,
    to_right: bool,
    st: Style,
)
    requires
        display::consistent(g),
        frames::clean(s),
        0 <= x <= u16::MAX,
        0 <= width <= u16::MAX,
        0 <= tw,
    ensures
        painting::beside(
            g,
            picture::cell_picture(g, x, end, y, width, s, tw, cut, to_right, st),
            x,
            far(),
            y,
        ),
{
    painting::lemma_edges();
    let avail = vstd::math::min(width, picture::at_least_0(end - x - 1));
    if avail == 0 {
        painting::lemma_beside_self(g, x, far(), y);
    } else if cut && avail == width {
        let a = g.ellipsis(x + 1, y, avail, s, st);
        painting::lemma_text_beside(g, x + 1, y, avail, s, st);
        painting::lemma_beside_wider(g, a, x + 1, x + 1 + avail, y, x, far());
        let b = a.put(x + avail, y, '…', st);
        painting::lemma_put_beside(a, x + avail, y, '…', st);
        painting::lemma_beside_then(g, a, b, x, far(), y, x + avail, x + avail + 1);
    } else {
        let off = if to_right && tw < avail {
            avail - tw
        } else {
            0
        };
        painting::lemma_text_beside(g, x + 1 + off, y, avail - off, s, st);
        painting::lemma_beside_wider(
            g,
            g.text(x + 1 + off, y, avail - off, s, st),
            x + 1 + off,
            x + 1 + avail,
            y,
            x,
            far(),
        );
    }
}

/// Whether a line stands behind the slot `k` in row `y`, as far as there is room
/// for it in the panel.
pub open spec fn parted(g: Grid, d: Table, r: Ruling, k: int, y: int) -> bool {
    let x = r.hits[k].0 + d.layout.widths[r.hits[k].2 as int] + 2;
    x < r.right() ==> g.at(x, y).ch == '│'
}

/// The line behind a slot, and what it leaves.
proof fn lemma_separator(g: Grid, x: int, w: int, right: int, y: int, st: Style)
    requires
        display::consistent(g),
        0 <= x <= u16::MAX,
        0 <= w <= u16::MAX,
        right <= g.w,
        0 <= y < g.h,
    ensures
        ({
            let r = picture::separator_picture(g, x, w, right, y, '│', st);
            &&& painting::beside(g, r, x, far(), y)
            &&& x + w + 2 < right ==> r.at(x + w + 2, y).ch == '│'
        }),
{
    painting::lemma_edges();
    if x + w + 2 < right {
        let r = g.put(x + w + 2, y, '│', st);
        painting::lemma_put_beside(g, x + w + 2, y, '│', st);
        showing::lemma_put_here(g, x + w + 2, y, '│', st);
        painting::lemma_beside_wider(g, r, x + w + 2, x + w + 3, y, x, far());
    } else {
        painting::lemma_beside_self(g, x, far(), y);
    }
}

/// A line between two columns stays when what is behind it is drawn.
proof fn lemma_parted_kept(a: Grid, b: Grid, d: Table, r: Ruling, k: int, y: int, x: int)
    requires
        painting::beside(a, b, x, far(), y),
        parted(a, d, r, k, y),
        r.hits[k].0 + d.layout.widths[r.hits[k].2 as int] + 2 < x,
        r.right() <= a.w,
        0 <= y < a.h,
    ensures
        parted(b, d, r, k, y),
{
    painting::lemma_edges();
    let z = r.hits[k].0 + d.layout.widths[r.hits[k].2 as int] + 2;
    if z < r.right() {
        assert(painting::narrow(a.at(z, y)));
    }
}

/// Whether the slots stand one behind the other, with room for the lines.
pub open spec fn in_order(d: Table, r: Ruling) -> bool {
    &&& frames::hits_inside(d, r)
    &&& forall|i: int, k: int|
        0 <= i < k < r.hits.len() ==> (#[trigger] r.hits[k]).0 >= (#[trigger] r.hits[i]).0
            + d.layout.widths[r.hits[i].2 as int] + 3
}

/// Titles are parted by lines.
#[verifier::rlimit(40)]
#[verifier::spinoff_prover]
pub proof fn lines_part_the_titles(g: Grid, d: Table, r: Ruling, n: int, k: int)
    requires
        display::consistent(g),
        frames::doc_clean(d),
        d.layout.wf(),
        in_order(d, r),
        0 <= k < n <= r.hits.len(),
        r.inner.y < g.h,
        r.right() <= g.w,
    ensures
        parted(picture::titles_picture(g, d, r, n), d, r, k, r.inner.y as int),
    decreases n,
{
    let (x, end, cu) = r.hits[n - 1];
    let c = cu as int;
    assert(r.hits[n - 1].2 < d.ncols());
    let name = d.layout.headers[c];
    let w = d.layout.widths[c] as int;
    let tw = screen::text_width(name);
    screen::lemma_width_le_bytes(name);
    let y = r.inner.y as int;
    let st = picture::title_style(d, c);
    let num = d.layout.numeric[c];
    let a = picture::titles_picture(g, d, r, n - 1);
    frames::lemma_titles(g, d, r, n - 1);
    lemma_cell_beside(a, x as int, end as int, y, w, name, tw, tw > w, num, st);
    let b = picture::cell_picture(a, x as int, end as int, y, w, name, tw, tw > w, num, st);
    lemma_separator(b, x as int, w, r.right(), y, picture::dim());
    if k < n - 1 {
        lines_part_the_titles(g, d, r, n - 1, k);
        assert(r.hits[n - 1].0 >= r.hits[k].0 + d.layout.widths[r.hits[k].2 as int] + 3);
        lemma_parted_kept(a, b, d, r, k, y, x as int);
        lemma_parted_kept(b, picture::titles_picture(g, d, r, n), d, r, k, y, x as int);
    }
}

/// The cells of a row are parted by lines.
#[verifier::rlimit(40)]
#[verifier::spinoff_prover]
pub proof fn lines_part_the_cells(
    g: Grid,
    d: Table,
    r: Ruling,
    needle: Option<Seq<char>>,
    focused: bool,
    row: int,
    pos: int,
    y: int,
    n: int,
    k: int,
)
    requires
        display::consistent(g),
        d.layout.wf(),
        in_order(d, r),
        0 <= k < n <= r.hits.len(),
        0 <= y < g.h,
        r.right() <= g.w,
        forall|i: int| 0 <= i < r.hits.len() ==> (#[trigger] r.hits[i]).0 <= r.hits[i].1 <= g.w,
    ensures
        parted(
            picture::cells_picture(g, d, r, needle, focused, row, pos, y, n),
            d,
            r,
            k,
            y,
        ),
    decreases n,
{
    let (x, end, cu) = r.hits[n - 1];
    let c = cu as int;
    assert(r.hits[n - 1].2 < d.ncols());
    let w = d.layout.widths[c] as int;
    let raw = picture::raw_field(d, pos, c);
    let s = picture::shown_text(d, pos, c);
    let current = row == d.row;
    let selected = current && c == d.col;
    let hit = picture::is_hit(s, needle);
    let st = picture::cell_style(selected, hit, focused, current);
    let before = picture::cells_picture(g, d, r, needle, focused, row, pos, y, n - 1);
    frames::lemma_cells(g, d, r, needle, focused, row, pos, y, n - 1);
    assert(r.hits[n - 1].0 <= r.hits[n - 1].1 <= g.w);
    painting::lemma_fill_rows(before, x as int, y, end - x, 1, st);
    let a = if selected || hit {
        before.fill_rows(x as int, y, end - x, 1, st)
    } else {
        before
    };
    assert(painting::beside(before, a, x as int, far(), y)) by {
        if !(selected || hit) {
            painting::lemma_beside_self(before, x as int, far(), y);
        }
    }
    showing::lemma_field_width(raw, w);
    showing::lemma_field_width(
        raw,
        if picture::too_narrow(d, pos, c) {
            crate::doc::MAX_COL_W as int
        } else {
            w
        },
    );
    let tw = csv::columns(csv::field_text(raw, w, false));
    screen::lemma_width_le_bytes(csv::field_text(raw, w, false));
    let cut = csv::field_cut(raw, w, false);
    let num = d.layout.numeric[c];
    lemma_cell_beside(a, x as int, end as int, y, w, s, tw, cut, num, st);
    let b = picture::cell_picture(a, x as int, end as int, y, w, s, tw, cut, num, st);
    lemma_separator(b, x as int, w, r.right(), y, picture::row_line_style(current));
    if k < n - 1 {
        lines_part_the_cells(g, d, r, needle, focused, row, pos, y, n - 1, k);
        assert(r.hits[n - 1].0 >= r.hits[k].0 + d.layout.widths[r.hits[k].2 as int] + 3);
        lemma_parted_kept(before, a, d, r, k, y, x as int);
        lemma_parted_kept(a, b, d, r, k, y, x as int);
        lemma_parted_kept(
            b,
            picture::cells_picture(g, d, r, needle, focused, row, pos, y, n),
            d,
            r,
            k,
            y,
            x as int,
        );
    }
}

// ---------------------------------------------------------------------------
// Nothing to show
// ---------------------------------------------------------------------------

/// On a screen with less than 30 columns or 6 lines nothing is drawn but a note
/// that it is too small, and nothing changes.
pub proof fn small_screens_are_told(s: State, w: int, h: int)
    requires
        0 < w <= u16::MAX,
        0 < h <= u16::MAX,
        w < 30 || h < 6,
    ensures
        ({
            let (t, g) = picture::rendered(s, w, h);
            let note = screen::fitting("Terminal too small"@, w);
            &&& t == s
            &&& showing::shows(
                g,
                0,
                0,
                note,
                Style { fg: Color::Idx(1), bg: Color::Reset, attr: 0 },
            )
            &&& w >= 18 ==> note == "Terminal too small"@
        }),
{
    let blank = Grid::blank(w, h);
    display::blank_is_consistent(w, h);
    let note = "Terminal too small"@;
    reveal_strlit("Terminal too small");
    assert(frames::clean(note));
    assert forall|k: int| 0 <= k < note.len() implies screen::width_of(#[trigger] note[k]) == 1 by {
        screen::lemma_width_range(note[k]);
    }
    showing::lemma_narrow(note);
    let red = Style::fg(picture::RED);
    showing::drawn_text_is_shown(blank, 0, 0, w, note, red);
}

/// A table without rows says so, or that it is being indexed.
pub proof fn missing_rows_are_told(
    g: Grid,
    d: Table,
    r: Ruling,
    needle: Option<Seq<char>>,
    focused: bool,
)
    requires
        display::consistent(g),
        d.rows() == 0,
        0 <= r.digits,
        r.inner.y + 2 < g.h,
        r.inner.w - r.digits - 1 >= 9,
    ensures
        ({
            let b = picture::body_picture(g, d, r, needle, focused);
            let dim = Style { fg: Color::Reset, bg: Color::Reset, attr: 2 };
            let (x, y) = (r.inner.x + r.digits + 2, r.inner.y + 2);
            &&& d.done ==> showing::shows(b, x, y, "(no rows)"@, dim)
            &&& !d.done ==> showing::shows(b, x, y, "Indexing…"@, dim)
        }),
{
    assert(0u8 | 2u8 == 2u8) by (bit_vector);
    lemma_notes();
    let note = if d.done {
        "(no rows)"@
    } else {
        "Indexing…"@
    };
    let room = r.inner.w - r.digits - 1;
    let (x, y) = (r.bar() + 2, r.inner.y + 2);
    showing::drawn_text_is_shown(g, x, y, room, note, picture::dim());
}

#[verifier::rlimit(40)]
#[verifier::spinoff_prover]
proof fn lemma_notes()
    ensures
        frames::clean("(no rows)"@) && screen::text_width("(no rows)"@) == 9,
        frames::clean("Indexing…"@) && screen::text_width("Indexing…"@) == 9,
        frames::clean("(empty)"@) && screen::text_width("(empty)"@) == 7,
{
    painting::lemma_edges();
    reveal_strlit("(no rows)");
    reveal_strlit("Indexing…");
    reveal_strlit("(empty)");
    let (a, b, c) = ("(no rows)"@, "Indexing…"@, "(empty)"@);
    assert(frames::clean(a) && frames::clean(b) && frames::clean(c));
    assert forall|k: int| 0 <= k < a.len() implies screen::width_of(#[trigger] a[k]) == 1 by {
        screen::lemma_width_range(a[k]);
    }
    assert forall|k: int| 0 <= k < b.len() implies screen::width_of(#[trigger] b[k]) == 1 by {
        screen::lemma_width_range(b[k]);
        if k == 8 {
            assert(b[k] == '…');
        }
    }
    assert forall|k: int| 0 <= k < c.len() implies screen::width_of(#[trigger] c[k]) == 1 by {
        screen::lemma_width_range(c[k]);
    }
    showing::lemma_narrow(a);
    showing::lemma_narrow(b);
    showing::lemma_narrow(c);
}

/// An explorer without entries says so.
pub proof fn empty_directory_is_told(s: State, g: Grid)
    requires
        display::consistent(g),
        frames::tree_clean(s.tree),
        s.tree.entries.len() == 0,
        s.tree_rect.w >= 11,
        s.tree_rect.h >= 3,
        s.tree_rect.x + s.tree_rect.w <= g.w,
        s.tree_rect.y + s.tree_rect.h <= g.h,
    ensures
        showing::shows(
            picture::tree_picture(s, g),
            s.tree_rect.x + 2,
            s.tree_rect.y + 1,
            "(empty)"@,
            Style { fg: Color::Reset, bg: Color::Reset, attr: 2 },
        ),
{
    assert(0u8 | 2u8 == 2u8) by (bit_vector);
    lemma_notes();
    frames::lemma_tree_frame(s, g);
    let r = s.tree_rect;
    let inner = r.inside();
    let a = g.frame(
        r,
        picture::tree_title(s.tree, s.home, r.w as int),
        picture::tree_footer(s.tree),
        s.focus == crate::state::Focus::Tree,
    );
    showing::drawn_text_is_shown(
        a,
        inner.x + 1,
        inner.y as int,
        inner.w - 1,
        "(empty)"@,
        picture::dim(),
    );
}

/// A hint names what can be done, a colon and the key, one behind the other.
pub proof fn hints_name_the_key(
    g: Grid,
    label: Seq<char>,
    key: Seq<char>,
    x: int,
    max: int,
    y: int,
)
    requires
        display::consistent(g),
        frames::clean(label),
        frames::clean(key),
        0 <= x,
        0 <= y < g.h,
        max <= g.w,
        x + screen::text_width(label) + 2 + screen::text_width(key) <= max,
    ensures
        ({
            let r = picture::hint_picture(g, true, label, key, x, max, y);
            let z = x + screen::text_width(label) + 2;
            &&& showing::shows(
                r,
                z,
                y,
                key,
                Style { fg: Color::Idx(4), bg: Color::Reset, attr: 1 },
            )
            &&& picture::hint_end(true, label, key, x, max) == z + screen::text_width(key)
        }),
{
    assert(0u8 | 1u8 == 1u8) by (bit_vector);
    reveal_strlit(": ");
    let colon = ": "@;
    assert(frames::clean(colon));
    assert forall|k: int| 0 <= k < colon.len() implies screen::width_of(#[trigger] colon[k]) == 1
        by {
        screen::lemma_width_range(colon[k]);
    }
    showing::lemma_narrow(colon);
    let (lw, kw) = (screen::text_width(label), screen::text_width(key));
    screen::lemma_width_le_bytes(label);
    screen::lemma_width_le_bytes(key);
    screen::lemma_fitting(label, max - x);
    screen::lemma_fitting(colon, max - x - lw);
    screen::lemma_fitting(key, max - x - lw - 2);
    let a = g.text(x, y, max - x, label, Style::plain());
    display::text_keeps_grid_consistent(g, x, y, max - x, label, Style::plain());
    let b = a.text(x + lw, y, max - x - lw, colon, Style::plain());
    display::text_keeps_grid_consistent(a, x + lw, y, max - x - lw, colon, Style::plain());
    let st = Style::fg(picture::BLUE).attr(screen::BOLD);
    showing::drawn_text_is_shown(b, x + lw + 2, y, max - x - lw - 2, key, st);
}

} // verus!
