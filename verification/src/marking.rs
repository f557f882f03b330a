//! What the cells of the table promise: texts that do not fit are cut off
//! visibly, and colors tell the current cell, the current row and what was
//! searched for.

use crate::doc::Table;
use crate::picture::{self, Ruling};
use crate::screen::{self, Cell, Color, Grid, Style, CONT};
use crate::state::{Focus, State};
use crate::{browsing, csv, display, frames, index, panels, search, showing, text, util};
use vstd::prelude::*;

verus! {

/// The colors of a cell: white on blue for the current one, or gray when the
/// other panel has the focus, black on yellow for what was searched for, and
/// a dark background for the rest of the current row.
pub open spec fn cell_colors(current: bool, row: bool, hit: bool, focused: bool) -> Style {
    if current && focused {
        Style { fg: Color::Idx(15), bg: Color::Idx(4), attr: 1 }
    } else if current {
        Style { fg: Color::Reset, bg: Color::Idx(240), attr: 0 }
    } else if hit {
        Style { fg: Color::Idx(0), bg: Color::Idx(3), attr: 0 }
    } else if row {
        Style { fg: Color::Reset, bg: Color::Idx(236), attr: 0 }
    } else {
        Style { fg: Color::Reset, bg: Color::Reset, attr: 0 }
    }
}

/// Whether a text holds what was searched for last.
pub open spec fn found_in(s: Seq<char>, needle: Option<Seq<char>>) -> bool {
    needle matches Some(n) && n.len() > 0 && exists|p: int| #[trigger]
        browsing::occurs(vstd::utf8::encode_utf8(s), vstd::utf8::encode_utf8(n), p)
}

proof fn lemma_colors(current: bool, row: bool, hit: bool, focused: bool)
    requires
        current ==> row,
    ensures
        picture::cell_style(current, hit, focused, row) == cell_colors(
            current,
            row,
            hit,
            focused,
        ),
{
    assert(0u8 | 1u8 == 1u8) by (bit_vector);
}

proof fn lemma_hit(s: Seq<char>, needle: Option<Seq<char>>)
    ensures
        picture::is_hit(s, needle) == found_in(s, needle),
{
    if let Some(n) = needle {
        let (a, b) = (vstd::utf8::encode_utf8(s), vstd::utf8::encode_utf8(n));
        let ci = search::ignores_case(b);
        assert forall|p: int| #[trigger] search::matches_at(a, b, ci, p) == browsing::occurs(
            a,
            b,
            p,
        ) by {
            browsing::lemma_occurs(a, b, p);
        }
        if !search::no_match(a, b, ci) {
            let p = choose|p: int| #[trigger] search::matches_at(a, b, ci, p);
            assert(browsing::occurs(a, b, p));
        }
        if exists|p: int| #[trigger] browsing::occurs(a, b, p) {
            let p = choose|p: int| #[trigger] browsing::occurs(a, b, p);
            assert(search::matches_at(a, b, ci, p));
        }
    }
}

/// Whether the slot of column `c` that begins at column `x` shows the field
/// `raw` in row `y`: all of it, on the left or, for numbers, on the right; or,
/// when the column is too narrow for it, as much as leaves room for an ellipsis
/// in the last column of the slot. Numbers are not cut in columns that can
/// become wider.
pub open spec fn marked(
    g: Grid,
    d: Table,
    x: int,
    y: int,
    c: int,
    raw: Seq<u8>,
    st: Style,
) -> bool {
    let w = d.layout.widths[c] as int;
    let s = csv::field_text(raw, w, false);
    if !csv::field_cut(raw, w, false) {
        showing::shows(
            g,
            x + 1 + if d.layout.numeric[c] {
                w - screen::text_width(s)
            } else {
                0
            },
            y,
            s,
            st,
        )
    } else {
        d.layout.numeric[c] && w < 40 || {
            &&& showing::shows(g, x + 1, y, screen::fitting(s, w - 1), st)
            &&& g.at(x + w, y) == (Cell { ch: '…', st })
        }
    }
}

/// The colors of the field `raw` of column `c` in row `row`.
pub open spec fn field_colors(
    d: Table,
    row: int,
    c: int,
    raw: Seq<u8>,
    needle: Option<Seq<char>>,
    focused: bool,
) -> Style {
    cell_colors(
        row == d.row && c == d.col,
        row == d.row,
        found_in(csv::field_text(raw, d.layout.widths[c] as int, false), needle),
        focused,
    )
}

proof fn lemma_shows_part(g: Grid, x: int, y: int, s: Seq<char>, k: int, st: Style)
    requires
        showing::shows(g, x, y, s, st),
        0 <= k <= s.len(),
    ensures
        showing::shows(g, x, y, s.take(k), st),
{
    let t = s.take(k);
    assert forall|i: int|
        0 <= i < t.len() && screen::width_of(t[i]) > 0 && x + screen::text_width(t.take(i))
            + screen::width_of(t[i]) <= g.w implies g.at(x + screen::text_width(t.take(i)), y) == (
    Cell { ch: #[trigger] t[i], st }) by {
        assert(t.take(i) =~= s.take(i));
        assert(t[i] == s[i]);
    }
}

/// A field in a slot that has room for its whole column.
proof fn lemma_cell_marked(
    g: Grid,
    d: Table,
    x: int,
    end: int,
    y: int,
    c: int,
    raw: Seq<u8>,
    st: Style,
)
    requires
        display::consistent(g),
        1 <= d.layout.widths[c],
        0 <= x,
        0 <= y < g.h,
        end - x - 1 >= d.layout.widths[c],
        x + 1 + d.layout.widths[c] <= g.w,
        !(csv::field_cut(raw, d.layout.widths[c] as int, false) && d.layout.numeric[c]
            && d.layout.widths[c] < 40),
    ensures
        ({
            let w = d.layout.widths[c] as int;
            let s = csv::field_text(raw, w, false);
            marked(
                picture::cell_picture(
                    g,
                    x,
                    end,
                    y,
                    w,
                    s,
                    csv::columns(s),
                    csv::field_cut(raw, w, false),
                    d.layout.numeric[c],
                    st,
                ),
                d,
                x,
                y,
                c,
                raw,
                st,
            )
        }),
{
    let w = d.layout.widths[c] as int;
    let s = csv::field_text(raw, w, false);
    showing::lemma_field_width(raw, w);
    screen::lemma_width_le_bytes(s);
    if !csv::field_cut(raw, w, false) {
        let off = if d.layout.numeric[c] {
            w - screen::text_width(s)
        } else {
            0
        };
        showing::drawn_text_is_shown(g, x + 1 + off, y, w - off, s, st);
    } else {
        let a = g.write(x + 1, y, s, st);
        assert(a == g.ellipsis(x + 1, y, w, s, st));
        showing::written_text_is_shown(g, x + 1, y, s, st);
        display::write_keeps_grid_consistent(g, x + 1, y, s, st);
        screen::lemma_fitting(s, w - 1);
        let t = screen::fitting(s, w - 1);
        lemma_shows_part(a, x + 1, y, s, screen::fit(s, w - 1), st);
        assert(frames::clean(t)) by {
            if t.contains(CONT) {
                assert(s[t.index_of(CONT)] == CONT);
            }
        }
        assert(screen::width_of('…') == 1) by {
            reveal(screen::width_of);
        }
        panels::lemma_before_put(a, x + 1, x + w, y, t, st, '…', st);
        showing::lemma_put_here(a, x + w, y, '…', st);
    }
}

/// What a cell shows stays when nothing but what is beside it changes.
proof fn lemma_marked_kept(
    a: Grid,
    b: Grid,
    left: int,
    y0: int,
    y1: int,
    d: Table,
    x: int,
    y: int,
    c: int,
    raw: Seq<u8>,
    st: Style,
)
    requires
        showing::only(a, b, left, y0, y1),
        marked(a, d, x, y, c, raw, st),
        1 <= d.layout.widths[c],
        0 <= x,
        x + 1 + d.layout.widths[c] <= a.w,
        0 <= y < a.h,
        x + 1 + d.layout.widths[c] <= left || y < y0 || y1 <= y,
    ensures
        marked(b, d, x, y, c, raw, st),
{
    let w = d.layout.widths[c] as int;
    let s = csv::field_text(raw, w, false);
    showing::lemma_field_width(raw, w);
    screen::lemma_width_le_bytes(s);
    if !csv::field_cut(raw, w, false) {
        let at = x + 1 + if d.layout.numeric[c] {
            w - screen::text_width(s)
        } else {
            0
        };
        panels::lemma_shows_kept(a, b, left, y0, y1, at, y, s, st);
    } else if !(d.layout.numeric[c] && w < 40) {
        screen::lemma_fitting(s, w - 1);
        let t = screen::fitting(s, w - 1);
        panels::lemma_shows_kept(a, b, left, y0, y1, x + 1, y, t, st);
        assert(b.at(x + w, y) == a.at(x + w, y));
    }
}

#[verifier::rlimit(40)]
#[verifier::spinoff_prover]
proof fn lemma_cells_marked(
    g: Grid,
    d: Table,
    r: Ruling,
    needle: Option<Seq<char>>,
    focused: bool,
    row: int,
    pos: int,
    y: int,
    n: int,
    k: int,
)
    requires
        display::consistent(g),
        d.layout.wf(),
        frames::hits_inside(d, r),
        0 <= k < n <= r.hits.len(),
        0 <= y < g.h,
        panels::slot_is_whole(g, d, r, k),
    ensures
        ({
            let c = r.hits[k].2 as int;
            let raw = picture::raw_field(d, pos, c);
            marked(
                picture::cells_picture(g, d, r, needle, focused, row, pos, y, n),
                d,
                r.hits[k].0 as int,
                y,
                c,
                raw,
                field_colors(d, row, c, raw, needle, focused),
            )
        }),
    decreases n,
{
    let (x, end, cu) = r.hits[k];
    let c = cu as int;
    assert(r.hits[k].2 < d.ncols());
    let w = d.layout.widths[c] as int;
    let raw = picture::raw_field(d, pos, c);
    let st = field_colors(d, row, c, raw, needle, focused);
    let before = picture::cells_picture(g, d, r, needle, focused, row, pos, y, n - 1);
    let after = picture::cells_picture(g, d, r, needle, focused, row, pos, y, n);
    frames::lemma_cells(g, d, r, needle, focused, row, pos, y, n - 1);
    if k < n - 1 {
        lemma_cells_marked(g, d, r, needle, focused, row, pos, y, n - 1, k);
        showing::lemma_only_last_cell(before, d, r, needle, focused, row, pos, y, n, after);
        assert(r.hits[n - 1].0 >= x + w + 3);
        lemma_marked_kept(
            before,
            after,
            r.hits[n - 1].0 - 1,
            y,
            y + 1,
            d,
            x as int,
            y,
            c,
            raw,
            st,
        );
    } else if !picture::too_narrow(d, pos, c) {
        let s = csv::field_text(raw, w, false);
        let current = row == d.row;
        let selected = current && c == d.col;
        let hit = picture::is_hit(s, needle);
        lemma_hit(s, needle);
        lemma_colors(selected, current, hit, focused);
        display::lemma_fill_rows_consistent(before, x as int, y, end - x, 1, st);
        let a = if selected || hit {
            before.fill_rows(x as int, y, end - x, 1, st)
        } else {
            before
        };
        let num = d.layout.numeric[c];
        let cut = csv::field_cut(raw, w, false);
        lemma_cell_marked(a, d, x as int, end as int, y, c, raw, st);
        let b = picture::cell_picture(
            a,
            x as int,
            end as int,
            y,
            w,
            s,
            csv::columns(s),
            cut,
            num,
            st,
        );
        showing::lemma_only_cell(
            a,
            x as int,
            end as int,
            y,
            w,
            s,
            csv::columns(s),
            cut,
            num,
            st,
        );
        let ls = picture::row_line_style(current);
        showing::lemma_only_separator(b, x as int, w, r.right(), y, '│', ls);
        lemma_marked_kept(b, after, x + w + 1, y, y + 1, d, x as int, y, c, raw, st);
    }
}

#[verifier::rlimit(40)]
#[verifier::spinoff_prover]
proof fn lemma_rows_marked(
    g: Grid,
    d: Table,
    r: Ruling,
    needle: Option<Seq<char>>,
    focused: bool,
    pos: int,
    n: int,
    m: int,
    k: int,
)
    requires
        display::consistent(g),
        d.layout.wf(),
        frames::hits_inside(d, r),
        showing::begin_at(r, r.bar() + 1),
        0 <= r.digits,
        0 <= m < n,
        r.inner.y + 2 + n <= g.h,
        0 <= k < r.hits.len(),
        panels::slot_is_whole(g, d, r, k),
    ensures
        ({
            let c = r.hits[k].2 as int;
            let raw = picture::raw_field(d, picture::nth_record(d, pos, m), c);
            marked(
                picture::rows_picture(g, d, r, needle, focused, pos, n),
                d,
                r.hits[k].0 as int,
                r.inner.y + 2 + m,
                c,
                raw,
                field_colors(d, d.row_off + m, c, raw, needle, focused),
            )
        }),
    decreases n,
{
    let before = picture::rows_picture(g, d, r, needle, focused, pos, n - 1);
    frames::lemma_rows(g, d, r, needle, focused, pos, n - 1);
    let y = r.inner.y + 2 + n - 1;
    let at = picture::nth_record(d, pos, n - 1);
    let row = d.row_off + n - 1;
    let c = r.hits[k].2 as int;
    assert(r.hits[k].2 < d.ncols());
    if m == n - 1 {
        let x = r.inner.x as int;
        let current = row == d.row;
        let rs = picture::row_style(true);
        display::lemma_fill_rows_consistent(before, x, y, r.inner.w as int, 1, rs);
        let a = if current {
            before.fill_rows(x, y, r.inner.w as int, 1, rs)
        } else {
            before
        };
        let t = text::decimal((row + 1) as nat);
        let number = util::padded(t, r.digits);
        let ns = picture::number_style(current);
        let ls = picture::row_line_style(current);
        frames::lemma_clean_decimal((row + 1) as nat);
        frames::lemma_clean_padded(t, r.digits);
        display::text_keeps_grid_consistent(a, x, y, r.digits, number, ns);
        let b = a.text(x, y, r.digits, number, ns);
        display::put_keeps_grid_consistent(b, r.bar(), y, '│', ls);
        let e = b.put(r.bar(), y, '│', ls);
        lemma_cells_marked(e, d, r, needle, focused, row, at, y, r.hits.len() as int, k);
    } else {
        lemma_rows_marked(g, d, r, needle, focused, pos, n - 1, m, k);
        showing::lemma_only_row(before, d, r, needle, focused, row, at, y);
        let raw = picture::raw_field(d, picture::nth_record(d, pos, m), c);
        lemma_marked_kept(
            before,
            picture::rows_picture(g, d, r, needle, focused, pos, n),
            r.inner.x - 1,
            y,
            y + 1,
            d,
            r.hits[k].0 as int,
            r.inner.y + 2 + m,
            c,
            raw,
            field_colors(d, d.row_off + m, c, raw, needle, focused),
        );
    }
}

/// The bytes of field `c` of a row; none when the row has fewer fields.
pub open spec fn bytes_of(d: Table, row: int, c: int) -> Seq<u8> {
    match d.row_fields(row) {
        Some(f) => if c < f.len() {
            d.data.subrange(f[c].0, f[c].1)
        } else {
            seq![]
        },
        None => seq![],
    }
}

/// The table marks the cells of the document.
#[verifier::rlimit(40)]
#[verifier::spinoff_prover]
proof fn lemma_table_marked(t: State, a: Grid, d0: Table, n: int, k: int)
    requires
        display::consistent(a),
        t.doc == Some(d0),
        frames::doc_presentable(d0),
        d0.delim != csv::NL,
        d0.rows() <= usize::MAX,
        t.table_rect.x + t.table_rect.w <= a.w,
        t.table_rect.y + t.table_rect.h <= a.h,
        ({
            let inner = t.table_rect.inside();
            let p = picture::placed(d0.clamped(), inner);
            let r = picture::ruling(p, inner, picture::number_width(p, inner.h - 2));
            &&& inner.h >= 3
            &&& inner.w >= 10
            &&& 0 <= n < inner.h - 2
            &&& p.row_off + n < p.rows()
            &&& 0 <= k < r.hits.len()
            &&& r.hits[k].1 - r.hits[k].0 - 1 >= p.layout.widths[r.hits[k].2 as int]
        }),
    ensures
        ({
            let inner = t.table_rect.inside();
            let p = picture::placed(d0.clamped(), inner);
            let r = picture::ruling(p, inner, picture::number_width(p, inner.h - 2));
            let c = r.hits[k].2 as int;
            let raw = bytes_of(p, p.row_off + n, c);
            &&& c < p.ncols()
            &&& marked(
                picture::table_picture(t, a),
                p,
                r.hits[k].0 as int,
                inner.y + 2 + n,
                c,
                raw,
                field_colors(p, p.row_off + n, c, raw, t.needle, t.focus == Focus::Table),
            )
        }),
{
    let inner = t.table_rect.inside();
    let d = d0.clamped();
    let focused = t.focus == Focus::Table;
    frames::lemma_table_head(d, t.table_rect, a, focused);
    let p = picture::placed(d, inner);
    let r = picture::ruling(p, inner, picture::number_width(p, inner.h - 2));
    let f = a.frame(t.table_rect, picture::doc_title(d), picture::doc_footer(d), focused);
    let head = picture::header_picture(f, p, r);
    picture::current_cell_is_in_view(d, inner);
    let x0 = inner.x + r.digits + 1;
    let right = inner.x + inner.w;
    showing::columns_stand_side_by_side(p.layout.widths, p.col_off, x0, right);
    assert(showing::begin_at(r, r.bar() + 1));
    assert(r.hits[k].2 < p.ncols());
    assert forall|j: int| k < j < r.hits.len() implies (#[trigger] r.hits[j]).0 >= r.hits[k].0
        + p.layout.widths[r.hits[k].2 as int] + 3 by {
        showing::lemma_slots_apart(p.layout.widths, p.col_off, x0, right, k, j);
    }
    assert(panels::slot_is_whole(head, p, r, k));
    let shown = picture::rows_shown(p, inner.h - 2);
    let k0 = p.row_off + p.hdr();
    let pos = index::start_of(p.data, k0);
    showing::lemma_nth_record(p, k0, n);
    lemma_rows_marked(head, p, r, t.needle, focused, pos, shown, n, k);
    let c = r.hits[k].2 as int;
    let at = picture::nth_record(p, pos, n);
    assert(picture::raw_field(p, at, c) =~= bytes_of(p, p.row_off + n, c));
}

/// Whether a frame marks the cell in slot `k` of the `n`th row on the screen as
/// it should.
pub open spec fn frame_cell(t: State, g: Grid, n: int, k: int) -> bool {
    let inner = t.table_rect.inside();
    t.doc matches Some(d) && (inner.h >= 3 && inner.w >= 10 && 0 <= n < inner.h - 2 && d.row_off + n
        < d.rows() && 0 <= k < t.col_hits.len() && t.col_hits[k].1 - t.col_hits[k].0 - 1
        >= d.layout.widths[t.col_hits[k].2 as int] ==> {
        let c = t.col_hits[k].2 as int;
        let raw = bytes_of(d, d.row_off + n, c);
        marked(
            g,
            d,
            t.col_hits[k].0 as int,
            inner.y + 2 + n,
            c,
            raw,
            field_colors(d, d.row_off + n, c, raw, t.needle, t.focus == Focus::Table),
        )
    })
}

/// One pass over the screen marks the cells of the document as it was placed.
#[verifier::rlimit(40)]
#[verifier::spinoff_prover]
proof fn lemma_pass_cell(s: State, w: int, h: int, d0: Table, n: int, k: int)
    requires
        frames::presentable(s),
        30 <= w <= u16::MAX,
        6 <= h <= u16::MAX,
        s.overlay is Closed,
        s.doc == Some(d0),
        d0.delim != csv::NL,
        d0.rows() <= usize::MAX,
        ({
            let inner = picture::panels(s, w, h).table_rect.inside();
            let p = picture::placed(d0.clamped(), inner);
            let r = picture::ruling(p, inner, picture::number_width(p, inner.h - 2));
            &&& inner.h >= 3
            &&& inner.w >= 10
            &&& 0 <= n < inner.h - 2
            &&& p.row_off + n < p.rows()
            &&& 0 <= k < r.hits.len()
            &&& r.hits[k].1 - r.hits[k].0 - 1 >= p.layout.widths[r.hits[k].2 as int]
        }),
    ensures
        ({
            let inner = picture::panels(s, w, h).table_rect.inside();
            let p = picture::placed(d0.clamped(), inner);
            let r = picture::ruling(p, inner, picture::number_width(p, inner.h - 2));
            let c = r.hits[k].2 as int;
            let raw = bytes_of(p, p.row_off + n, c);
            &&& c < p.ncols()
            &&& marked(
                picture::pass_picture(s, w, h),
                p,
                r.hits[k].0 as int,
                inner.y + 2 + n,
                c,
                raw,
                field_colors(p, p.row_off + n, c, raw, s.needle, s.focus == Focus::Table),
            )
        }),
{
    let (p0, p1, a, b) = panels::lemma_pass_parts(s, w, h);
    let inner = p0.table_rect.inside();
    let p = picture::placed(d0.clamped(), inner);
    let r = picture::ruling(p, inner, picture::number_width(p, inner.h - 2));
    let c = r.hits[k].2 as int;
    lemma_table_marked(p1, a, d0, n, k);
    let u = picture::panels_drawn(s, w, h);
    showing::lemma_only_status(u, b, h - 1);
    frames::lemma_table_head(d0.clamped(), p0.table_rect, a, p1.focus == Focus::Table);
    showing::columns_stand_side_by_side(
        p.layout.widths,
        p.col_off,
        inner.x + r.digits + 1,
        inner.x + inner.w,
    );
    let raw = bytes_of(p, p.row_off + n, c);
    lemma_marked_kept(
        b,
        picture::status_picture(u, b, h - 1),
        -1,
        h - 1,
        h,
        p,
        r.hits[k].0 as int,
        inner.y + 2 + n,
        c,
        raw,
        field_colors(p, p.row_off + n, c, raw, s.needle, s.focus == Focus::Table),
    );
}

/// What a pass keeps of what is shown in a cell.
proof fn lemma_same_cell(p: Table, q: Table, row: int, c: int)
    requires
        q == (Table { layout: q.layout, ..p }),
        q.layout.widths[c] == p.layout.widths[c],
        q.layout.numeric[c] == p.layout.numeric[c],
    ensures
        bytes_of(p, row, c) == bytes_of(q, row, c),
        forall|g: Grid, x: int, y: int, raw: Seq<u8>, st: Style| #[trigger]
            marked(g, p, x, y, c, raw, st) == marked(g, q, x, y, c, raw, st),
        forall|raw: Seq<u8>, needle: Option<Seq<char>>, focused: bool| #[trigger]
            field_colors(p, row, c, raw, needle, focused) == field_colors(
                q,
                row,
                c,
                raw,
                needle,
                focused,
            ),
{
}

#[verifier::rlimit(40)]
#[verifier::spinoff_prover]
proof fn lemma_pass_marked(s: State, w: int, h: int, d0: Table, n: int, k: int)
    requires
        frames::presentable(s),
        30 <= w <= u16::MAX,
        6 <= h <= u16::MAX,
        s.overlay is Closed,
        s.doc == Some(d0),
        d0.delim != csv::NL,
        d0.rows() <= usize::MAX,
        !picture::pass_drawn(s, w, h).relayout,
    ensures
        frame_cell(picture::pass_drawn(s, w, h), picture::pass_picture(s, w, h), n, k),
{
    showing::lemma_pass_drawn(s, w, h, d0);
    let t = picture::pass_drawn(s, w, h);
    let q = t.doc->0;
    let inner = t.table_rect.inside();
    assert(t.needle == s.needle) by {
        reveal(picture::pass_drawn);
    }
    if inner.h >= 3 && inner.w >= 10 {
        let p = picture::placed(d0.clamped(), inner);
        let r = picture::ruling(p, inner, picture::number_width(p, inner.h - 2));
        showing::lemma_body_drawn(p, r);
        if 0 <= n < inner.h - 2 && p.row_off + n < p.rows() && 0 <= k < r.hits.len()
            && r.hits[k].1 - r.hits[k].0 - 1 >= q.layout.widths[r.hits[k].2 as int] {
            lemma_hit_inside(s, w, h, d0, k);
            let c = r.hits[k].2 as int;
            assert(q.layout.widths.take(p.ncols())[c] == p.layout.widths[c]);
            assert(q.layout.numeric[c] == p.layout.numeric[c]);
            lemma_pass_cell(s, w, h, d0, n, k);
            lemma_same_cell(p, q, p.row_off + n, c);
        }
    }
}

/// The columns on the screen are columns of the document.
proof fn lemma_hit_inside(s: State, w: int, h: int, d0: Table, k: int)
    requires
        frames::presentable(s),
        30 <= w <= u16::MAX,
        6 <= h <= u16::MAX,
        s.overlay is Closed,
        s.doc == Some(d0),
        ({
            let inner = picture::panels(s, w, h).table_rect.inside();
            let p = picture::placed(d0.clamped(), inner);
            let r = picture::ruling(p, inner, picture::number_width(p, inner.h - 2));
            0 <= k < r.hits.len()
        }),
    ensures
        ({
            let inner = picture::panels(s, w, h).table_rect.inside();
            let p = picture::placed(d0.clamped(), inner);
            let r = picture::ruling(p, inner, picture::number_width(p, inner.h - 2));
            r.hits[k].2 < p.ncols()
        }),
{
    let (p0, p1, a, b) = panels::lemma_pass_parts(s, w, h);
    frames::lemma_table_head(d0.clamped(), p0.table_rect, a, p1.focus == Focus::Table);
}

/// The frame shows every field in its slot, or as much of it as there is room
/// for, in the colors of its cell.
#[verifier::rlimit(40)]
#[verifier::spinoff_prover]
pub proof fn frame_marks_the_cells(s: State, w: int, h: int, d0: Table, n: int, k: int)
    requires
        frames::presentable(s),
        30 <= w <= u16::MAX,
        6 <= h <= u16::MAX,
        s.overlay is Closed,
        s.doc == Some(d0),
        d0.delim != csv::NL,
        d0.rows() <= usize::MAX,
    ensures
        frame_cell(picture::rendered(s, w, h).0, picture::rendered(s, w, h).1, n, k),
    decreases picture::new_cols(s), picture::new_width(s), picture::pending(s),
{
    showing::lemma_pass_drawn(s, w, h, d0);
    let t = picture::pass_drawn(s, w, h);
    let inner = t.table_rect.inside();
    let p = picture::placed(d0.clamped(), inner);
    showing::lemma_body_drawn(
        p,
        picture::ruling(p, inner, picture::number_width(p, inner.h - 2)),
    );
    if t.relayout {
        picture::lemma_pass_gains(s, w, h);
        frames::lemma_pass(s, w, h);
        frame_marks_the_cells(State { relayout: false, ..t }, w, h, t.doc->0, n, k);
    } else {
        lemma_pass_marked(s, w, h, d0, n, k);
    }
}

} // verus!
