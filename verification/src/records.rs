//! What the record view and the help promise: every field of the record, in
//! full, under its title, and every line of the help.

use crate::doc::Table;
use crate::picture::{self, RecordLine};
use crate::screen::{self, Cell, Color, Grid, Rect, Style};
use crate::state::Record;
use crate::{csv, display, doc, frames, panels, showing, util, wrap};
use vstd::prelude::*;

verus! {

// ---------------------------------------------------------------------------
// Fields and lines
// ---------------------------------------------------------------------------

/// The record view holds all columns and all fields of the current row, each
/// with its title and, when the row has it, its whole text with line breaks.
pub proof fn record_holds_all_fields(r: Record, d: Table, f: Seq<(int, int)>, c: int)
    requires
        r.row != d.row,
        d.row_fields(d.row) == Some(f),
        d.layout.wf(),
        0 <= c,
        c < d.ncols() || c < f.len(),
    ensures
        ({
            let v = picture::record_loaded(r, d);
            &&& v.row == d.row
            &&& c < v.fields.len()
            &&& v.fields.len() == d.ncols() || v.fields.len() == f.len()
            &&& c < d.ncols() ==> v.fields[c].0 == d.layout.headers[c]
            &&& c >= d.ncols() ==> v.fields[c].0 == doc::col_text(c)
            &&& c < f.len() ==> v.fields[c].1 == csv::field_text(
                d.data.subrange(f[c].0, f[c].1),
                1048576,
                true,
            )
            &&& c >= f.len() ==> v.fields[c].1.len() == 0
        }),
{
}

/// Fields that were read already are not read again for the same row.
pub proof fn record_stays_for_its_row(r: Record, d: Table)
    requires
        r.row == d.row,
    ensures
        picture::record_loaded(r, d) == r,
{
}

proof fn lemma_field_lines(c: int, ls: Seq<Seq<char>>, n: int)
    requires
        0 <= n <= ls.len(),
    ensures
        picture::field_lines(c, ls, n).len() == n,
        forall|i: int|
            0 <= i < n ==> (#[trigger] picture::field_lines(c, ls, n)[i]) == (RecordLine {
                col: c,
                first: i == 0,
                text: ls[i],
            }),
    decreases n,
{
    if n > 0 {
        lemma_field_lines(c, ls, n - 1);
    }
}

/// The lines of the record are those of its fields, one field behind the other:
/// those of a field are its text wrapped, and the first of them is marked.
pub proof fn record_lines_are_those_of_the_fields(
    fields: Seq<(Seq<char>, Seq<char>)>,
    width: int,
    n: int,
    c: int,
) -> (start: int)
    requires
        0 <= c < n <= fields.len(),
    ensures
        ({
            let all = picture::record_lines(fields, width, n);
            let own = wrap::wrap_from(seq![], fields[c].1, 0, width, 2000);
            &&& 0 <= start
            &&& start + own.len() <= all.len()
            &&& own.len() >= 1
            &&& forall|i: int|
                0 <= i < own.len() ==> #[trigger] all[start + i] == (RecordLine {
                    col: c,
                    first: i == 0,
                    text: own[i],
                })
            &&& c == 0 ==> start == 0
            &&& c > 0 ==> start > 0 && all[start - 1].col == c - 1
            &&& start == picture::record_lines(fields, width, c).len()
        }),
    decreases n,
{
    let own = wrap::wrap_from(seq![], fields[n - 1].1, 0, width, 2000);
    let a = picture::record_lines(fields, width, n - 1);
    let b = picture::field_lines(n - 1, own, own.len() as int);
    let all = picture::record_lines(fields, width, n);
    lemma_field_lines(n - 1, own, own.len() as int);
    lemma_some_line(seq![], fields[n - 1].1, 0, width, 2000);
    if c == n - 1 {
        let start = a.len() as int;
        assert forall|i: int| 0 <= i < own.len() implies #[trigger] all[start + i] == (RecordLine {
            col: c,
            first: i == 0,
            text: own[i],
        }) by {
            assert(all[start + i] == b[i]);
        }
        if c > 0 {
            let s = record_lines_are_those_of_the_fields(fields, width, n - 1, c - 1);
            let before = wrap::wrap_from(seq![], fields[c - 1].1, 0, width, 2000);
            lemma_last_field(fields, width, n - 1);
            assert(all[start - 1] == a[start - 1]);
        }
        start
    } else {
        let start = record_lines_are_those_of_the_fields(fields, width, n - 1, c);
        let mine = wrap::wrap_from(seq![], fields[c].1, 0, width, 2000);
        assert forall|i: int| 0 <= i < mine.len() implies #[trigger] all[start + i] == (
        RecordLine { col: c, first: i == 0, text: mine[i] }) by {
            assert(all[start + i] == a[start + i]);
        }
        if c > 0 {
            assert(all[start - 1] == a[start - 1]);
        }
        start
    }
}

proof fn lemma_last_field(fields: Seq<(Seq<char>, Seq<char>)>, width: int, n: int)
    requires
        0 < n <= fields.len(),
    ensures
        ({
            let all = picture::record_lines(fields, width, n);
            all.len() > 0 && all.last().col == n - 1
        }),
{
    let own = wrap::wrap_from(seq![], fields[n - 1].1, 0, width, 2000);
    lemma_field_lines(n - 1, own, own.len() as int);
    lemma_some_line(seq![], fields[n - 1].1, 0, width, 2000);
    let b = picture::field_lines(n - 1, own, own.len() as int);
    assert(b[own.len() - 1].col == n - 1);
}

/// A text has at least one line.
proof fn lemma_some_line(lines: Seq<Seq<char>>, s: Seq<char>, i: int, width: int, max: int)
    requires
        0 <= i <= s.len(),
        0 <= max,
    ensures
        wrap::wrap_from(lines, s, i, width, max).len() >= 1,
    decreases s.len() - i,
{
    wrap::lemma_para_end(s, i);
    let e = wrap::para_end(s, i);
    let more = wrap::wrap_para(lines, s.subrange(i, e), width);
    assert(more.len() >= 1);
    if more.len() < max && e < s.len() {
        lemma_some_line(more, s, e + 1, width, max);
    }
}

/// A record that was just opened shows the first line of the current column.
pub proof fn record_opens_at_the_current_column(r: Record, width: int, col: int, vis: int)
    requires
        r.jump,
        0 <= col < r.fields.len(),
        0 < vis,
    ensures
        ({
            let all = picture::record_lines(r.fields, width, r.fields.len() as int);
            let top = picture::record_scroll(r, width, col, vis);
            exists|i: int|
                0 <= top <= i < top + vis && i < all.len() && (#[trigger] all[i]).col == col
                    && all[i].first
        }),
{
    let n = r.fields.len() as int;
    let start = record_lines_are_those_of_the_fields(r.fields, width, n, col);
    let all = picture::record_lines(r.fields, width, n);
    assert(all[start + 0].col == col && all[start + 0].first);
}

/// A record is scrolled as it was asked for, but not beyond its last line.
pub proof fn record_scrolls_to_its_end(r: Record, width: int, col: int, vis: int)
    requires
        !r.jump,
        0 <= r.scroll,
        0 < vis,
    ensures
        ({
            let all = picture::record_lines(r.fields, width, r.fields.len() as int);
            let top = picture::record_scroll(r, width, col, vis);
            &&& r.scroll + vis <= all.len() ==> top == r.scroll
            &&& r.scroll + vis > all.len() && all.len() >= vis ==> top + vis == all.len()
            &&& all.len() < vis ==> top == 0
        }),
{
}

proof fn lemma_widest(fields: Seq<(Seq<char>, Seq<char>)>, c: int)
    requires
        0 <= c < fields.len(),
    ensures
        screen::text_width(fields[c].0) <= picture::widest_title(fields),
    decreases fields.len(),
{
    if c < fields.len() - 1 {
        lemma_widest(fields.drop_last(), c);
        assert(fields.drop_last()[c] == fields[c]);
    }
}

/// Titles have as many columns as the widest of them takes, but at least 4 and
/// at most 28.
pub proof fn titles_have_room(fields: Seq<(Seq<char>, Seq<char>)>, c: int)
    requires
        0 <= c < fields.len(),
    ensures
        4 <= picture::label_width(fields) <= 28,
        screen::text_width(fields[c].0) <= 28 ==> screen::text_width(fields[c].0)
            <= picture::label_width(fields),
{
    lemma_widest(fields, c);
}

/// The record view takes four fifths of the screen, at least 40 columns and 8
/// lines where there are so many, and leaves a margin; the help takes 62
/// columns and as many lines as it has, where there are so many. Both stand in
/// the middle.
pub proof fn covers_stand_in_the_middle(g: Grid)
    requires
        30 <= g.w <= u16::MAX,
        6 <= g.h <= u16::MAX,
    ensures
        ({
            let r = picture::record_rect(g);
            let h = picture::help_rect(g);
            &&& r.w <= g.w - 2 && r.h <= g.h - 2 && h.w <= g.w - 2 && h.h <= g.h - 2
            &&& 50 <= g.w ==> 5 * r.w <= 4 * g.w < 5 * r.w + 5
            &&& 42 <= g.w < 50 ==> r.w == 40
            &&& 10 <= g.h ==> 5 * r.h <= 4 * g.h < 5 * r.h + 5
            &&& 64 <= g.w ==> h.w == 62
            &&& 36 <= g.h ==> h.h == 34
            &&& 0 <= (g.w - r.w - r.x) - r.x <= 1 && 0 <= (g.h - r.h - r.y) - r.y <= 1
            &&& 0 <= (g.w - h.w - h.x) - h.x <= 1 && 0 <= (g.h - h.h - h.y) - h.y <= 1
        }),
{
}

// ---------------------------------------------------------------------------
// Drawing
// ---------------------------------------------------------------------------

/// Whether row `y` shows a line of the record: the title of its field when it
/// is the first, a bar, and the text; a sign in place of an empty text. The
/// lines of the current column have a dark background.
pub open spec fn recorded(
    g: Grid,
    inner: Rect,
    label_w: int,
    fields: Seq<(Seq<char>, Seq<char>)>,
    l: RecordLine,
    col: int,
    y: int,
) -> bool {
    let title = fields[l.col].0;
    let bg = if l.col == col {
        Color::Idx(236)
    } else {
        Color::Reset
    };
    let x = inner.x + label_w + 4;
    &&& l.first ==> showing::shows(
        g,
        inner.x + 1,
        y,
        if screen::text_width(title) <= label_w {
            title
        } else {
            screen::fitting(title, label_w - 1).push('…')
        },
        Style { fg: Color::Idx(3), bg, attr: 1 },
    )
    &&& g.at(x - 2, y) == (Cell { ch: '│', st: Style { fg: Color::Reset, bg, attr: 2 } })
    &&& l.text.len() == 0 && l.first ==> g.at(x, y) == (Cell {
        ch: '∅',
        st: Style { fg: Color::Reset, bg, attr: 2 },
    })
    &&& l.text.len() > 0 && screen::text_width(l.text) <= inner.w - label_w - 5 ==> showing::shows(
        g,
        x,
        y,
        l.text,
        Style { fg: Color::Reset, bg, attr: 0 },
    )
}

proof fn lemma_styles(current: bool)
    ensures
        ({
            let bg = if current {
                Color::Idx(236)
            } else {
                Color::Reset
            };
            let s = picture::row_style(current);
            &&& s == (Style { fg: Color::Reset, bg, attr: 0 })
            &&& s.with_fg(picture::YELLOW).attr(screen::BOLD) == (Style {
                fg: Color::Idx(3),
                bg,
                attr: 1,
            })
            &&& s.attr(screen::DIM) == (Style { fg: Color::Reset, bg, attr: 2 })
        }),
{
    assert(0u8 | 1u8 == 1u8) by (bit_vector);
    assert(0u8 | 2u8 == 2u8) by (bit_vector);
}

proof fn lemma_signs()
    ensures
        screen::width_of('∅') == 1,
        screen::width_of('│') == 1,
        "∅"@.len() == 1,
        "∅"@[0] == '∅',
        frames::clean("∅"@),
{
    reveal(screen::width_of);
    reveal_strlit("∅");
}

/// A line touches nothing but its row.
proof fn lemma_only_line(
    g: Grid,
    inner: Rect,
    label_w: int,
    fields: Seq<(Seq<char>, Seq<char>)>,
    l: RecordLine,
    col: int,
    y: int,
)
    requires
        g.wf(),
        0 <= label_w,
    ensures
        showing::only(
            g,
            picture::record_line(g, inner, label_w, fields, l, col, y),
            inner.x - 1,
            y,
            y + 1,
        ),
{
    let current = l.col == col;
    let bg = picture::row_style(current);
    let x = inner.x + 1 + label_w + 3;
    let w = inner.x + inner.w - x - 1;
    let left = inner.x - 1;
    showing::lemma_only_line(g, inner.x as int, y, inner.w as int, bg);
    let a = if current {
        g.fill_rows(inner.x as int, y, inner.w as int, 1, bg)
    } else {
        g
    };
    let title = fields[l.col].0;
    let ts = bg.with_fg(picture::YELLOW).attr(screen::BOLD);
    showing::lemma_only_text(a, inner.x + 1, y, label_w, title, ts);
    let b = if l.first {
        a.ellipsis(inner.x + 1, y, label_w, title, ts)
    } else {
        a
    };
    if l.first {
        panels::lemma_add(g, a, b, left, y, y + 1, inner.x as int, y, y + 1);
    }
    let ds = bg.attr(screen::DIM);
    let c = b.put(x - 2, y, '│', ds);
    showing::lemma_only_put(b, x - 2, y, '│', ds);
    panels::lemma_add(g, b, c, left, y, y + 1, x - 3, y, y + 1);
    showing::lemma_only_text(c, x, y, w, "∅"@, ds);
    showing::lemma_only_text(c, x, y, w, l.text, bg);
    panels::lemma_add(
        g,
        c,
        picture::record_line(g, inner, label_w, fields, l, col, y),
        left,
        y,
        y + 1,
        x - 1,
        y,
        y + 1,
    );
}

#[verifier::rlimit(40)]
#[verifier::spinoff_prover]
proof fn lemma_line_shown(
    g: Grid,
    inner: Rect,
    label_w: int,
    fields: Seq<(Seq<char>, Seq<char>)>,
    l: RecordLine,
    col: int,
    y: int,
)
    requires
        display::consistent(g),
        frames::fields_clean(fields),
        frames::clean(l.text),
        0 <= l.col < fields.len(),
        1 <= label_w,
        1 <= inner.w - label_w - 5,
        inner.x + inner.w <= g.w,
        0 <= y < g.h,
    ensures
        recorded(
            picture::record_line(g, inner, label_w, fields, l, col, y),
            inner,
            label_w,
            fields,
            l,
            col,
            y,
        ),
{
    let current = l.col == col;
    lemma_styles(current);
    lemma_signs();
    let bg = picture::row_style(current);
    let x = inner.x + 1 + label_w + 3;
    let w = inner.x + inner.w - x - 1;
    display::lemma_fill_rows_consistent(g, inner.x as int, y, inner.w as int, 1, bg);
    let a = if current {
        g.fill_rows(inner.x as int, y, inner.w as int, 1, bg)
    } else {
        g
    };
    let title = fields[l.col].0;
    assert(frames::clean(fields[l.col].0));
    let ts = bg.with_fg(picture::YELLOW).attr(screen::BOLD);
    display::text_keeps_grid_consistent(a, inner.x + 1, y, label_w, title, ts);
    panels::lemma_title_width(title, label_w);
    let shown = if screen::text_width(title) <= label_w {
        title
    } else {
        screen::fitting(title, label_w - 1).push('…')
    };
    let b = if l.first {
        a.ellipsis(inner.x + 1, y, label_w, title, ts)
    } else {
        a
    };
    if l.first {
        assert(b == a.write(inner.x + 1, y, shown, ts)) by {
            if screen::text_width(title) > label_w {
                assert(shown.drop_last() =~= screen::fitting(title, label_w - 1));
            }
        }
        showing::written_text_is_shown(a, inner.x + 1, y, shown, ts);
    }
    let ds = bg.attr(screen::DIM);
    let c = b.put(x - 2, y, '│', ds);
    showing::lemma_only_put(b, x - 2, y, '│', ds);
    display::put_keeps_grid_consistent(b, x - 2, y, '│', ds);
    showing::lemma_put_here(b, x - 2, y, '│', ds);
    let z = picture::record_line(g, inner, label_w, fields, l, col, y);
    showing::lemma_only_text(c, x, y, w, "∅"@, ds);
    showing::lemma_only_text(c, x, y, w, l.text, bg);
    assert(z.at(x - 2, y) == c.at(x - 2, y));
    if l.first {
        panels::lemma_shows_kept(b, c, x - 3, y, y + 1, inner.x + 1, y, shown, ts);
        panels::lemma_shows_kept(c, z, x - 1, y, y + 1, inner.x + 1, y, shown, ts);
    }
    if l.text.len() == 0 && l.first {
        let none = "∅"@;
        showing::lemma_narrow(none);
        screen::lemma_fitting(none, w);
        showing::written_text_is_shown(c, x, y, none, ds);
        assert(screen::text_width(none.take(0)) == 0);
        assert(z.at(x + screen::text_width(none.take(0)), y) == (Cell { ch: none[0], st: ds }));
    } else if screen::text_width(l.text) <= w {
        screen::lemma_fitting(l.text, w);
        showing::written_text_is_shown(c, x, y, l.text, bg);
    }
}

proof fn lemma_recorded_kept(
    a: Grid,
    b: Grid,
    y0: int,
    inner: Rect,
    label_w: int,
    fields: Seq<(Seq<char>, Seq<char>)>,
    l: RecordLine,
    col: int,
    y: int,
)
    requires
        showing::only(a, b, inner.x - 1, y0, y0 + 1),
        recorded(a, inner, label_w, fields, l, col, y),
        frames::fields_clean(fields),
        0 <= l.col < fields.len(),
        1 <= label_w,
        1 <= inner.w - label_w - 5,
        inner.x + inner.w <= a.w,
        0 <= y < a.h,
        y != y0,
    ensures
        recorded(b, inner, label_w, fields, l, col, y),
{
    let title = fields[l.col].0;
    assert(frames::clean(fields[l.col].0));
    lemma_styles(l.col == col);
    panels::lemma_title_width(title, label_w);
    let shown = if screen::text_width(title) <= label_w {
        title
    } else {
        screen::fitting(title, label_w - 1).push('…')
    };
    let x = inner.x + label_w + 4;
    let bg = picture::row_style(l.col == col);
    let ts = bg.with_fg(picture::YELLOW).attr(screen::BOLD);
    assert(b.at(x - 2, y) == a.at(x - 2, y));
    assert(b.at(x, y) == a.at(x, y));
    if l.first {
        panels::lemma_shows_kept(a, b, inner.x - 1, y0, y0 + 1, inner.x + 1, y, shown, ts);
    }
    if l.text.len() > 0 && screen::text_width(l.text) <= inner.w - label_w - 5 {
        panels::lemma_shows_kept(a, b, inner.x - 1, y0, y0 + 1, x, y, l.text, bg);
    }
}

#[verifier::rlimit(40)]
#[verifier::spinoff_prover]
proof fn lemma_lines_shown(
    g: Grid,
    inner: Rect,
    label_w: int,
    fields: Seq<(Seq<char>, Seq<char>)>,
    ls: Seq<RecordLine>,
    scroll: int,
    col: int,
    n: int,
    k: int,
)
    requires
        display::consistent(g),
        frames::fields_clean(fields),
        frames::record_clean(ls, fields.len() as int),
        0 <= scroll,
        scroll + n <= ls.len(),
        1 <= label_w,
        1 <= inner.w - label_w - 5,
        inner.x + inner.w <= g.w,
        inner.y + n <= g.h,
        0 <= k < n,
    ensures
        recorded(
            picture::record_lines_picture(g, inner, label_w, fields, ls, scroll, col, n),
            inner,
            label_w,
            fields,
            ls[scroll + k],
            col,
            inner.y + k,
        ),
    decreases n,
{
    let before = picture::record_lines_picture(
        g,
        inner,
        label_w,
        fields,
        ls,
        scroll,
        col,
        n - 1,
    );
    frames::lemma_record_lines_picture(g, inner, label_w, fields, ls, scroll, col, n - 1);
    let l = ls[scroll + n - 1];
    assert(frames::clean(ls[scroll + n - 1].text));
    let y = inner.y + n - 1;
    if k == n - 1 {
        lemma_line_shown(before, inner, label_w, fields, l, col, y);
    } else {
        lemma_lines_shown(g, inner, label_w, fields, ls, scroll, col, n - 1, k);
        lemma_only_line(before, inner, label_w, fields, l, col, y);
        assert(frames::clean(ls[scroll + k].text));
        lemma_recorded_kept(
            before,
            picture::record_lines_picture(g, inner, label_w, fields, ls, scroll, col, n),
            y,
            inner,
            label_w,
            fields,
            ls[scroll + k],
            col,
            inner.y + k,
        );
    }
}

/// The record view shows its lines, from the one that it is scrolled to on.
#[verifier::rlimit(40)]
#[verifier::spinoff_prover]
pub proof fn record_is_shown(r0: Record, d: Table, g: Grid, k: int)
    requires
        display::consistent(g),
        frames::fields_clean(r0.fields),
        frames::doc_clean(d),
        0 <= r0.scroll,
        30 <= g.w,
        6 <= g.h,
        ({
            let r = picture::record_drawn(r0, d, g);
            let inner = picture::record_rect(g).inside();
            let label_w = picture::label_width(r.fields);
            let ls = picture::record_lines(
                r.fields,
                inner.w - label_w - 5,
                r.fields.len() as int,
            );
            &&& inner.w - label_w - 5 >= 4
            &&& 0 <= k < inner.h
            &&& r.scroll + k < ls.len()
        }),
    ensures
        ({
            let r = picture::record_drawn(r0, d, g);
            let inner = picture::record_rect(g).inside();
            let label_w = picture::label_width(r.fields);
            let ls = picture::record_lines(
                r.fields,
                inner.w - label_w - 5,
                r.fields.len() as int,
            );
            recorded(
                picture::record_picture(r0, d, g),
                inner,
                label_w,
                r.fields,
                ls[r.scroll + k],
                d.col,
                inner.y + k,
            )
        }),
{
    frames::lemma_record(r0, d, g);
    let r = picture::record_drawn(r0, d, g);
    let rect = picture::record_rect(g);
    let inner = rect.inside();
    let label_w = picture::label_width(r.fields);
    let w = picture::value_width(inner, label_w);
    assert(w == inner.w - label_w - 5);
    let ls = picture::record_lines(r.fields, w, r.fields.len() as int);
    frames::lemma_record_lines(r.fields, w, r.fields.len() as int);
    let a = g.fill(rect, Style::plain()).frame(
        rect,
        " Row "@ + util::grouped((d.row + 1) as nat) + " of "@ + util::grouped(d.rows() as nat)
            + " "@,
        " j/k scroll │ h/l prev/next row │ y copy │ esc close "@,
        true,
    );
    frames::lemma_record_frame(d, g);
    let n = vstd::math::min(inner.h as int, ls.len() - r.scroll);
    lemma_lines_shown(a, inner, label_w, r.fields, ls, r.scroll, d.col, n, k);
}

// ---------------------------------------------------------------------------
// Help
// ---------------------------------------------------------------------------

/// Whether row `y` shows line `i` of the help: a heading, or a key and, further
/// to the right, what it does.
pub open spec fn explained(g: Grid, inner: Rect, i: int, y: int) -> bool {
    let (key, what) = (picture::HELP_KEYS@[i]@, picture::HELP_TEXTS@[i]@);
    let (green, blue) = (
        Style { fg: Color::Idx(2), bg: Color::Reset, attr: 1 },
        Style { fg: Color::Idx(4), bg: Color::Reset, attr: 1 },
    );
    let plain = Style { fg: Color::Reset, bg: Color::Reset, attr: 0 };
    &&& what.len() == 0 && screen::text_width(key) <= inner.w - 1 ==> showing::shows(
        g,
        inner.x + 1,
        y,
        key,
        green,
    )
    &&& what.len() > 0 ==> {
        &&& screen::text_width(key) <= 16 ==> showing::shows(g, inner.x + 3, y, key, blue)
        &&& screen::text_width(what) <= inner.w - 21 ==> showing::shows(
            g,
            inner.x + 20,
            y,
            what,
            plain,
        )
    }
}

proof fn lemma_help_styles()
    ensures
        Style::fg(picture::GREEN).attr(screen::BOLD) == (Style {
            fg: Color::Idx(2),
            bg: Color::Reset,
            attr: 1,
        }),
        Style::fg(picture::BLUE).attr(screen::BOLD) == (Style {
            fg: Color::Idx(4),
            bg: Color::Reset,
            attr: 1,
        }),
{
    assert(0u8 | 1u8 == 1u8) by (bit_vector);
}

proof fn lemma_only_help_line(
    g: Grid,
    inner: Rect,
    y: int,
    key: Seq<char>,
    what: Seq<char>,
)
    requires
        g.wf(),
    ensures
        showing::only(g, picture::help_line(g, inner, y, key, what), inner.x as int, y, y + 1),
{
    let green = Style::fg(picture::GREEN).attr(screen::BOLD);
    let blue = Style::fg(picture::BLUE).attr(screen::BOLD);
    let x = inner.x as int;
    showing::lemma_only_text(g, x + 1, y, inner.w - 1, key, green);
    let a = g.text(x + 3, y, 16, key, blue);
    showing::lemma_only_text(g, x + 3, y, 16, key, blue);
    showing::lemma_only_wider(g, a, x + 2, y, y + 1, x, y, y + 1);
    let room = picture::at_least_0(inner.w - 21);
    showing::lemma_only_text(a, x + 20, y, room, what, Style::plain());
    panels::lemma_add(
        g,
        a,
        a.text(x + 20, y, room, what, Style::plain()),
        x,
        y,
        y + 1,
        x + 19,
        y,
        y + 1,
    );
}

proof fn lemma_help_line_shown(g: Grid, inner: Rect, i: int, y: int)
    requires
        display::consistent(g),
        0 <= i < 32,
        0 <= y < g.h,
        22 <= inner.w,
        inner.x + inner.w <= g.w,
    ensures
        explained(
            picture::help_line(g, inner, y, picture::HELP_KEYS@[i]@, picture::HELP_TEXTS@[i]@),
            inner,
            i,
            y,
        ),
{
    frames::lemma_help_clean();
    lemma_help_styles();
    let (key, what) = (picture::HELP_KEYS@[i]@, picture::HELP_TEXTS@[i]@);
    assert(frames::clean(picture::HELP_KEYS@[i]@) && frames::clean(picture::HELP_TEXTS@[i]@));
    let green = Style::fg(picture::GREEN).attr(screen::BOLD);
    let blue = Style::fg(picture::BLUE).attr(screen::BOLD);
    let x = inner.x as int;
    screen::lemma_width_le_bytes(key);
    screen::lemma_width_le_bytes(what);
    if what.len() == 0 {
        showing::drawn_text_is_shown(g, x + 1, y, inner.w - 1, key, green);
    } else {
        let a = g.text(x + 3, y, 16, key, blue);
        showing::drawn_text_is_shown(g, x + 3, y, 16, key, blue);
        display::text_keeps_grid_consistent(g, x + 3, y, 16, key, blue);
        let room = inner.w - 21;
        showing::lemma_only_text(a, x + 20, y, room, what, Style::plain());
        showing::drawn_text_is_shown(a, x + 20, y, room, what, Style::plain());
        let z = a.text(x + 20, y, room, what, Style::plain());
        if screen::text_width(key) <= 16 {
            panels::lemma_shows_kept(a, z, x + 19, y, y + 1, x + 3, y, key, blue);
        }
    }
}

proof fn lemma_help_kept(a: Grid, b: Grid, y0: int, inner: Rect, i: int, y: int)
    requires
        showing::only(a, b, inner.x as int, y0, y0 + 1),
        explained(a, inner, i, y),
        22 <= inner.w,
        inner.x + inner.w <= a.w,
        0 <= y < a.h,
        y != y0,
    ensures
        explained(b, inner, i, y),
{
    let (key, what) = (picture::HELP_KEYS@[i]@, picture::HELP_TEXTS@[i]@);
    let (green, blue) = (
        Style { fg: Color::Idx(2), bg: Color::Reset, attr: 1 },
        Style { fg: Color::Idx(4), bg: Color::Reset, attr: 1 },
    );
    let plain = Style { fg: Color::Reset, bg: Color::Reset, attr: 0 };
    let x = inner.x as int;
    screen::lemma_width_le_bytes(key);
    screen::lemma_width_le_bytes(what);
    if what.len() == 0 {
        if screen::text_width(key) <= inner.w - 1 {
            panels::lemma_shows_kept(a, b, x, y0, y0 + 1, x + 1, y, key, green);
        }
    } else {
        if screen::text_width(key) <= 16 {
            panels::lemma_shows_kept(a, b, x, y0, y0 + 1, x + 3, y, key, blue);
        }
        if screen::text_width(what) <= inner.w - 21 {
            panels::lemma_shows_kept(a, b, x, y0, y0 + 1, x + 20, y, what, plain);
        }
    }
}

proof fn lemma_help_lines_shown(g: Grid, inner: Rect, scroll: int, n: int, k: int)
    requires
        display::consistent(g),
        0 <= scroll,
        scroll + n <= 32,
        0 <= k < n,
        22 <= inner.w,
        inner.x + inner.w <= g.w,
        inner.y + n <= g.h,
    ensures
        explained(
            picture::help_lines(g, inner, scroll, n),
            inner,
            scroll + k,
            inner.y + k,
        ),
    decreases n,
{
    let before = picture::help_lines(g, inner, scroll, n - 1);
    frames::lemma_help_lines(g, inner, scroll, n - 1);
    let y = inner.y + n - 1;
    let i = scroll + n - 1;
    if k == n - 1 {
        lemma_help_line_shown(before, inner, i, y);
    } else {
        lemma_help_lines_shown(g, inner, scroll, n - 1, k);
        let (key, what) = (picture::HELP_KEYS@[i]@, picture::HELP_TEXTS@[i]@);
        lemma_only_help_line(before, inner, y, key, what);
        lemma_help_kept(
            before,
            picture::help_lines(g, inner, scroll, n),
            y,
            inner,
            scroll + k,
            inner.y + k,
        );
    }
}

/// The help shows its lines, from the one that it is scrolled to on, and does
/// not scroll beyond its last line.
pub proof fn help_is_shown(g: Grid, scroll: int, k: int)
    requires
        display::consistent(g),
        30 <= g.w,
        6 <= g.h,
        0 <= scroll,
    ensures
        ({
            let inner = picture::help_rect(g).inside();
            let top = picture::help_scroll(g, scroll);
            &&& 0 <= top <= scroll
            &&& scroll + inner.h <= 32 ==> top == scroll
            &&& scroll + inner.h > 32 ==> top + inner.h == 32
            &&& 0 <= k < inner.h ==> explained(
                picture::help_picture(g, scroll),
                inner,
                top + k,
                inner.y + k,
            )
        }),
{
    let r = picture::help_rect(g);
    let inner = r.inside();
    let top = picture::help_scroll(g, scroll);
    if 0 <= k < inner.h {
        reveal_strlit(" Keybindings ");
        reveal_strlit(" esc: close ");
        assert(frames::clean(" Keybindings "@) && frames::clean(" esc: close "@));
        display::fill_keeps_grid_consistent(g, r, Style::plain());
        let a = g.fill(r, Style::plain());
        display::frame_keeps_grid_consistent(a, r, " Keybindings "@, " esc: close "@, true);
        let f = a.frame(r, " Keybindings "@, " esc: close "@, true);
        lemma_help_lines_shown(f, inner, top, vstd::math::min(32 - top, inner.h as int), k);
    }
}

} // verus!
