//! Every frame keeps double-width characters whole, so that a terminal shows it
//! as it was drawn.

use crate::display::{self, Terminal};
use crate::doc::{self, Table};
use crate::picture::{self, RecordLine, Ruling};
use crate::screen::{self, Cell, Grid, Rect, Style, CONT};
use crate::state::{Cover, PromptKind, Record, State};
use crate::tree::{Explorer, Line};
use crate::{csv, text, util, wrap};
use vstd::prelude::*;

verus! {

// ---------------------------------------------------------------------------
// Texts
// ---------------------------------------------------------------------------

/// A text without the character that marks right halves.
pub open spec fn clean(s: Seq<char>) -> bool {
    !s.contains(CONT)
}

proof fn lemma_clean_part(s: Seq<char>, a: int, b: int)
    requires
        clean(s),
        0 <= a <= b <= s.len(),
    ensures
        clean(s.subrange(a, b)),
{
    let t = s.subrange(a, b);
    if t.contains(CONT) {
        let k = t.index_of(CONT);
        assert(s[a + k] == CONT);
    }
}

pub proof fn lemma_clean_concat(a: Seq<char>, b: Seq<char>)
    requires
        clean(a),
        clean(b),
    ensures
        clean(a + b),
{
    let t = a + b;
    if t.contains(CONT) {
        let k = t.index_of(CONT);
        if k < a.len() {
            assert(a[k] == CONT);
        } else {
            assert(b[k - a.len()] == CONT);
        }
    }
}

proof fn lemma_clean_push(a: Seq<char>, c: char)
    requires
        clean(a),
        c != CONT,
    ensures
        clean(a.push(c)),
{
    let t = a.push(c);
    if t.contains(CONT) {
        let k = t.index_of(CONT);
        if k < a.len() {
            assert(a[k] == CONT);
        }
    }
}

pub proof fn lemma_clean_decimal(n: nat)
    ensures
        clean(text::decimal(n)),
{
    text::lemma_decimal_digits(n);
    if text::decimal(n).contains(CONT) {
        let k = text::decimal(n).index_of(CONT);
        assert(text::decimal(n)[k] as int == 0);
    }
}

proof fn lemma_clean_grouped(s: Seq<char>, rest: int)
    requires
        clean(s),
    ensures
        clean(util::grouped_before(s, rest)),
    decreases s.len(),
{
    if s.len() > 0 {
        let t = s.drop_last();
        lemma_clean_part(s, 0, s.len() - 1);
        assert(s.subrange(0, s.len() - 1) =~= t);
        assert(s.contains(s.last()));
        lemma_clean_grouped(t, rest + 1);
        let g = util::grouped_before(t, rest + 1);
        lemma_clean_push(g, ',');
        lemma_clean_push(g.push(','), s.last());
        lemma_clean_push(g, s.last());
    }
}

pub proof fn lemma_clean_number(n: nat)
    ensures
        clean(util::grouped(n)),
{
    lemma_clean_decimal(n);
    lemma_clean_grouped(text::decimal(n), 0);
}

pub proof fn lemma_clean_size(n: nat)
    ensures
        clean(util::size_text(n)),
{
    let v = util::double(n);
    let u = util::unit_of(v);
    let t = util::nearest(v * 10, util::unit_size(u));
    lemma_clean_decimal(n);
    lemma_clean_push(text::decimal(n), 'B');
    lemma_clean_decimal(t / 10);
    lemma_clean_decimal(t % 10);
    lemma_clean_push(text::decimal(t / 10), '.');
    lemma_clean_concat(text::decimal(t / 10).push('.'), text::decimal(t % 10));
    lemma_clean_push(text::decimal(t / 10).push('.') + text::decimal(t % 10), util::unit(u));
    lemma_clean_decimal(util::nearest(v, util::unit_size(u)));
    lemma_clean_push(text::decimal(util::nearest(v, util::unit_size(u))), util::unit(u));
}

pub proof fn lemma_clean_padded(s: Seq<char>, w: int)
    requires
        clean(s),
    ensures
        clean(util::padded(s, w)),
    decreases w - s.len(),
{
    if s.len() < w {
        lemma_clean_push(seq![], ' ');
        assert(seq![' '] =~= Seq::<char>::empty().push(' '));
        lemma_clean_concat(seq![' '], s);
        lemma_clean_padded(seq![' '] + s, w);
    }
}

proof fn lemma_clean_visible(cs: Seq<char>, quoted: bool, multiline: bool)
    ensures
        clean(csv::visible(cs, quoted, multiline)),
    decreases cs.len(),
{
    if cs.len() > 0 {
        lemma_clean_visible(cs.drop_last(), quoted, multiline);
        text::lemma_code_point(cs.last());
        lemma_clean_push(
            csv::visible(cs.drop_last(), quoted, multiline),
            csv::shown_as(cs.last(), multiline),
        );
    }
}

/// Decoded fields are clean, whatever is in the file.
pub proof fn lemma_clean_field(raw: Seq<u8>, max_w: int, multiline: bool)
    requires
        0 <= max_w,
    ensures
        clean(csv::field_text(raw, max_w, multiline)),
{
    let v = csv::field_visible(raw, max_w, multiline);
    lemma_clean_visible(
        text::utf8_lossy(csv::field_prefix(raw, max_w)),
        raw.len() > 0 && raw[0] == csv::QUOTE,
        multiline,
    );
    csv::clipped_text_fits(v, max_w);
    let t = csv::clipped(v, max_w);
    lemma_clean_part(v, 0, t.len() as int);
    assert(v.subrange(0, t.len() as int) =~= t);
}

proof fn lemma_clean_trim_start(s: Seq<char>)
    requires
        clean(s),
    ensures
        clean(text::trim_start(s)),
    decreases s.len(),
{
    if s.len() > 0 && text::is_space(s[0]) {
        lemma_clean_part(s, 1, s.len() as int);
        assert(s.subrange(1, s.len() as int) =~= s.drop_first());
        lemma_clean_trim_start(s.drop_first());
    }
}

proof fn lemma_clean_trim_end(s: Seq<char>)
    requires
        clean(s),
    ensures
        clean(text::trim_end(s)),
    decreases s.len(),
{
    if s.len() > 0 && text::is_space(s.last()) {
        lemma_clean_part(s, 0, s.len() - 1);
        assert(s.subrange(0, s.len() - 1) =~= s.drop_last());
        lemma_clean_trim_end(s.drop_last());
    }
}

proof fn lemma_clean_col(i: int)
    ensures
        0 <= i ==> clean(doc::col_text(i)),
    decreases i,
{
    if 0 <= i {
        if i < 26 {
            lemma_clean_push(seq![], doc::letter(i));
            assert(doc::col_text(i) =~= Seq::<char>::empty().push(doc::letter(i)));
        } else {
            lemma_clean_col(i / 26 - 1);
            lemma_clean_push(doc::col_text(i / 26 - 1), doc::letter(i % 26));
        }
    }
}

/// The titles of a document's columns are clean when it was just laid out.
pub proof fn titles_are_clean(data: Seq<u8>, delim: u8, has_header: bool)
    ensures
        ({
            let l = doc::layout_of(data, delim, has_header);
            forall|c: int| 0 <= c < l.headers.len() ==> clean(#[trigger] l.headers[c])
        }),
{
    let l = doc::layout_of(data, delim, has_header);
    let sample = doc::sample_from(data, delim, 0, 0);
    assert forall|c: int| 0 <= c < l.headers.len() implies clean(#[trigger] l.headers[c]) by {
        lemma_clean_col(c);
        if let Some(raw) = doc::cell(data, delim, sample[0], c) {
            lemma_clean_field(raw, 200, false);
            lemma_clean_trim_start(csv::field_text(raw, 200, false));
            lemma_clean_trim_end(text::trim_start(csv::field_text(raw, 200, false)));
        }
    }
}

proof fn lemma_clean_end(s: Seq<char>, room: int)
    requires
        clean(s),
    ensures
        clean(util::fitting_end(s, room)),
    decreases s.len(),
{
    if s.len() > 0 && screen::text_width(s) > room {
        lemma_clean_part(s, 1, s.len() as int);
        assert(s.subrange(1, s.len() as int) =~= s.drop_first());
        lemma_clean_end(s.drop_first(), room);
    }
}

proof fn lemma_clean_tail(s: Seq<char>, max: int)
    requires
        clean(s),
    ensures
        clean(util::tail_of(s, max)),
{
    lemma_clean_end(s, max - 1);
    lemma_clean_push(seq![], '…');
    assert(seq!['…'] =~= Seq::<char>::empty().push('…'));
    lemma_clean_concat(seq!['…'], util::fitting_end(s, max - 1));
}

proof fn lemma_clean_home(p: Seq<char>, home: Option<Seq<char>>)
    requires
        clean(p),
    ensures
        clean(util::under_home(p, home)),
{
    if let Some(h) = home {
        if h.len() > 0 && h.is_prefix_of(p) {
            lemma_clean_part(p, h.len() as int, p.len() as int);
            assert(p.subrange(h.len() as int, p.len() as int) =~= p.skip(h.len() as int));
            lemma_clean_push(seq![], '~');
            assert(seq!['~'] =~= Seq::<char>::empty().push('~'));
            lemma_clean_concat(seq!['~'], p.skip(h.len() as int));
        }
    }
}

// ---------------------------------------------------------------------------
// Explorer
// ---------------------------------------------------------------------------

pub proof fn lemma_entry_line(
    g: Grid,
    e: Line,
    inner: Rect,
    y: int,
    bg: Option<u8>,
    open: Option<Seq<u8>>,
)
    requires
        display::consistent(g),
        clean(e.name),
    ensures
        display::kept(g, picture::entry_line(g, e, inner, y, bg, open)),
{
    let plain = picture::on_bg(Style::plain(), bg);
    display::lemma_fill_rows_consistent(g, inner.x as int, y, inner.w as int, 1, plain);
    let a = if bg is Some {
        g.fill_rows(inner.x as int, y, inner.w as int, 1, plain)
    } else {
        g
    };
    let x = inner.x + 1 + e.depth * 2;
    let right = picture::at_least_0(inner.x + inner.w - 1);
    if x < right {
        let icon = picture::entry_icon(e, open)@;
        reveal_strlit("▾ ");
        reveal_strlit("▸ ");
        reveal_strlit("● ");
        reveal_strlit("  ");
        assert(clean(icon));
        let st = picture::on_bg(picture::entry_style(e, open), bg);
        display::text_keeps_grid_consistent(a, x, y, right - x, icon, st);
        screen::lemma_fitting(icon, right - x);
        let b = a.text(x, y, right - x, icon, st);
        let x1 = x + picture::used(icon, right - x);
        let size = picture::entry_size(e);
        let sw = size.len() as int;
        let room = right - x1;
        lemma_clean_size(e.size as nat);
        assert(clean(size));
        let w = if room > sw + 2 {
            room - sw - 1
        } else {
            room
        };
        display::text_keeps_grid_consistent(b, x1, y, w, e.name, st);
        let c = b.ellipsis(x1, y, w, e.name, st);
        display::text_keeps_grid_consistent(
            c,
            right - sw,
            y,
            sw,
            size,
            picture::on_bg(picture::dim(), bg),
        );
    }
}

pub proof fn lemma_entry_lines(
    g: Grid,
    t: Explorer,
    inner: Rect,
    focused: bool,
    open: Option<Seq<u8>>,
    n: int,
)
    requires
        display::consistent(g),
        0 <= t.off,
        n <= t.entries.len() - t.off,
        forall|k: int| 0 <= k < t.entries.len() ==> clean((#[trigger] t.entries[k]).name),
    ensures
        display::kept(g, picture::entry_lines(g, t, inner, focused, open, n)),
    decreases n,
{
    if n > 0 {
        lemma_entry_lines(g, t, inner, focused, open, n - 1);
        let i = t.off + n - 1;
        assert(clean(t.entries[i].name));
        lemma_entry_line(
            picture::entry_lines(g, t, inner, focused, open, n - 1),
            t.entries[i],
            inner,
            inner.y + n - 1,
            picture::entry_bg(i == t.sel, focused),
            open,
        );
    }
}

/// Whether all that the explorer shows is clean.
pub open spec fn tree_clean(t: Explorer) -> bool {
    &&& clean(text::utf8_lossy(t.root))
    &&& forall|k: int| 0 <= k < t.entries.len() ==> clean((#[trigger] t.entries[k]).name)
}

pub proof fn lemma_tree_frame(s: State, g: Grid)
    requires
        display::consistent(g),
        tree_clean(s.tree),
    ensures
        display::kept(
            g,
            g.frame(
                s.tree_rect,
                picture::tree_title(s.tree, s.home, s.tree_rect.w as int),
                picture::tree_footer(s.tree),
                s.focus == crate::state::Focus::Tree,
            ),
        ),
{
    let r = s.tree_rect;
    let focused = s.focus == crate::state::Focus::Tree;
    let root = text::utf8_lossy(s.tree.root);
    reveal_strlit(" [1] ");
    reveal_strlit(" ");
    reveal_strlit(" of ");
    assert(clean(" [1] "@) && clean(" "@) && clean(" of "@));
    lemma_clean_home(root, s.home);
    let tail = util::tail_of(
        util::under_home(root, s.home),
        picture::at_least_0(r.w - 10),
    );
    lemma_clean_tail(util::under_home(root, s.home), picture::at_least_0(r.w - 10));
    lemma_clean_concat(" [1] "@, tail);
    lemma_clean_concat(" [1] "@ + tail, " "@);
    let n1 = text::decimal((s.tree.sel + 1) as nat);
    let n2 = text::decimal(s.tree.entries.len());
    lemma_clean_decimal((s.tree.sel + 1) as nat);
    lemma_clean_decimal(s.tree.entries.len());
    lemma_clean_concat(" "@, n1);
    lemma_clean_concat(" "@ + n1, " of "@);
    lemma_clean_concat(" "@ + n1 + " of "@, n2);
    lemma_clean_concat(" "@ + n1 + " of "@ + n2, " "@);
    let title = picture::tree_title(s.tree, s.home, r.w as int);
    let footer = picture::tree_footer(s.tree);
    display::frame_keeps_grid_consistent(g, r, title, footer, focused);
}

pub proof fn lemma_tree(s: State, g: Grid)
    requires
        display::consistent(g),
        tree_clean(s.tree),
        s.tree.wf(),
        0 <= s.tree.off,
    ensures
        display::kept(g, picture::tree_picture(s, g)),
{
    let r = s.tree_rect;
    let inner = r.inside();
    let focused = s.focus == crate::state::Focus::Tree;
    lemma_tree_frame(s, g);
    reveal_strlit("(empty)");
    assert(clean("(empty)"@));
    let title = picture::tree_title(s.tree, s.home, r.w as int);
    let a = g.frame(r, title, picture::tree_footer(s.tree), focused);
    display::text_keeps_grid_consistent(
        a,
        inner.x + 1,
        inner.y as int,
        picture::at_least_0(inner.w - 1),
        "(empty)"@,
        picture::dim(),
    );
    let t = s.tree.scrolled(inner.h as int);
    lemma_entry_lines(
        a,
        t,
        inner,
        focused,
        picture::open_path(s),
        picture::lines_shown(t, inner.h as int),
    );
}

// ---------------------------------------------------------------------------
// Welcome
// ---------------------------------------------------------------------------

proof fn lemma_centered_lines(
    g: Grid,
    r: Rect,
    y: int,
    ls: Seq<&'static str>,
    st: Style,
    n: int,
)
    requires
        display::consistent(g),
        n <= ls.len(),
        forall|k: int| 0 <= k < ls.len() ==> clean((#[trigger] ls[k])@),
    ensures
        display::kept(g, picture::centered_lines(g, r, y, ls, st, n)),
    decreases n,
{
    if n > 0 {
        lemma_centered_lines(g, r, y, ls, st, n - 1);
        let l = ls[n - 1]@;
        assert(clean(ls[n - 1]@));
        display::text_keeps_grid_consistent(
            picture::centered_lines(g, r, y, ls, st, n - 1),
            r.x + picture::at_least_0(r.w - screen::text_width(l)) / 2,
            y + n - 1,
            r.w as int,
            l,
            st,
        );
    }
}

proof fn lemma_logo_clean()
    ensures
        forall|k: int| 0 <= k < 6 ==> clean((#[trigger] picture::LOGO@[k])@),
        forall|k: int| 0 <= k < 5 ==> clean((#[trigger] picture::WELCOME@[k])@),
{
    reveal_strlit(" _                                 ");
    reveal_strlit("| | __ _ _____   _  ___ _____   __ ");
    reveal_strlit("| |/ _` |_  / | | |/ __/ __\\ \\ / / ");
    reveal_strlit("| | (_| |/ /| |_| | (__\\__ \\\\ V /  ");
    reveal_strlit("|_|\\__,_/___|\\__, |\\___|___/ \\_/   ");
    reveal_strlit("             |___/                 ");
    reveal_strlit("");
    reveal_strlit("Pick a file in the explorer and press enter.");
    reveal_strlit("tab  switch panel      /  search      ?  help");
    reveal_strlit("e    toggle explorer   :  go to row   q  quit");
}

proof fn lemma_welcome(g: Grid, r: Rect)
    requires
        display::consistent(g),
    ensures
        display::kept(g, picture::welcome(g, r)),
{
    lemma_logo_clean();
    assert(clean(picture::WELCOME@[1]@));
    display::text_keeps_grid_consistent(
        g,
        r.x + 1,
        r.y as int,
        picture::at_least_0(r.w - 1),
        "Pick a file in the explorer and press enter."@,
        Style::plain(),
    );
    if r.h >= 11 && r.w >= 40 {
        let y = r.y + (r.h - 11) / 2;
        let st = Style::fg(picture::GREEN).attr(screen::BOLD);
        lemma_centered_lines(g, r, y, picture::LOGO@, st, 6);
        lemma_centered_lines(
            picture::centered_lines(g, r, y, picture::LOGO@, st, 6),
            r,
            y + 6,
            picture::WELCOME@,
            picture::dim(),
            5,
        );
    }
}

// ---------------------------------------------------------------------------
// Table
// ---------------------------------------------------------------------------

proof fn lemma_cell(
    g: Grid,
    x: int,
    end: int,
    y: int,
    width: int,
    s: Seq<char>,
    tw: int,
    cut: bool,
    to_right: bool,
    st: Style,
)
    requires
        display::consistent(g),
        clean(s),
        0 <= width,
        0 <= tw,
    ensures
        display::kept(
            g,
            picture::cell_picture(g, x, end, y, width, s, tw, cut, to_right, st),
        ),
{
    let avail = vstd::math::min(width, picture::at_least_0(end - x - 1));
    if avail != 0 {
        if cut && avail == width {
            display::text_keeps_grid_consistent(g, x + 1, y, avail, s, st);
            let a = g.ellipsis(x + 1, y, avail, s, st);
            display::put_keeps_grid_consistent(a, x + avail, y, '…', st);
        } else {
            let off = if to_right && tw < avail {
                avail - tw
            } else {
                0
            };
            display::text_keeps_grid_consistent(g, x + 1 + off, y, avail - off, s, st);
        }
    }
}

proof fn lemma_separator(
    g: Grid,
    x: int,
    width: int,
    right: int,
    y: int,
    ch: char,
    st: Style,
)
    requires
        display::consistent(g),
        ch != CONT,
    ensures
        display::kept(g, picture::separator_picture(g, x, width, right, y, ch, st)),
{
    display::put_keeps_grid_consistent(g, x + width + 2, y, ch, st);
}

/// Whether the columns on the screen are columns of the document.
pub open spec fn hits_inside(d: Table, r: Ruling) -> bool {
    forall|k: int| 0 <= k < r.hits.len() ==> (#[trigger] r.hits[k]).2 < d.ncols()
}

/// Whether all that the document shows besides its fields is clean.
pub open spec fn doc_clean(d: Table) -> bool {
    &&& clean(d.name)
    &&& forall|c: int| 0 <= c < d.layout.headers.len() ==> clean(#[trigger] d.layout.headers[c])
}

pub proof fn lemma_titles(g: Grid, d: Table, r: Ruling, n: int)
    requires
        display::consistent(g),
        doc_clean(d),
        d.layout.wf(),
        hits_inside(d, r),
        n <= r.hits.len(),
    ensures
        display::kept(g, picture::titles_picture(g, d, r, n)),
    decreases n,
{
    if n > 0 {
        lemma_titles(g, d, r, n - 1);
        let (x, end, c) = r.hits[n - 1];
        assert(r.hits[n - 1].2 < d.ncols());
        let name = d.layout.headers[c as int];
        let w = d.layout.widths[c as int] as int;
        let tw = screen::text_width(name);
        screen::lemma_width_le_bytes(name);
        let y = r.inner.y as int;
        let before = picture::titles_picture(g, d, r, n - 1);
        let st = picture::title_style(d, c as int);
        let num = d.layout.numeric[c as int];
        lemma_cell(before, x as int, end as int, y, w, name, tw, tw > w, num, st);
        lemma_separator(
            picture::cell_picture(before, x as int, end as int, y, w, name, tw, tw > w, num, st),
            x as int,
            w,
            r.right(),
            y,
            '│',
            picture::dim(),
        );
    }
}

proof fn lemma_crossings(g: Grid, d: Table, r: Ruling, n: int)
    requires
        display::consistent(g),
    ensures
        display::kept(g, picture::crossings_picture(g, d, r, n)),
    decreases n,
{
    if n > 0 {
        lemma_crossings(g, d, r, n - 1);
        let (x, end, c) = r.hits[n - 1];
        lemma_separator(
            picture::crossings_picture(g, d, r, n - 1),
            x as int,
            d.layout.widths[c as int] as int,
            r.right(),
            r.inner.y + 1,
            '┼',
            picture::dim(),
        );
    }
}

pub proof fn lemma_header(g: Grid, d: Table, r: Ruling)
    requires
        display::consistent(g),
        doc_clean(d),
        d.layout.wf(),
        hits_inside(d, r),
        0 <= r.digits,
    ensures
        display::kept(g, picture::header_picture(g, d, r)),
{
    let y = r.inner.y as int;
    let x = r.inner.x as int;
    let n = r.hits.len() as int;
    let dim = picture::dim();
    reveal_strlit("#");
    assert(clean("#"@));
    lemma_clean_padded("#"@, r.digits);
    let hash = util::padded("#"@, r.digits);
    display::text_keeps_grid_consistent(g, x, y, r.digits, hash, dim);
    let a = g.text(x, y, r.digits, hash, dim);
    display::put_keeps_grid_consistent(a, r.bar(), y, '│', dim);
    let b = a.put(r.bar(), y, '│', dim);
    lemma_titles(b, d, r, n);
    let c = picture::titles_picture(b, d, r, n);
    display::hline_keeps_grid_consistent(c, x, y + 1, r.inner.w as int, '─', dim);
    let e = c.hline(x, y + 1, r.inner.w as int, '─', dim);
    display::put_keeps_grid_consistent(e, r.bar(), y + 1, '┼', dim);
    lemma_crossings(e.put(r.bar(), y + 1, '┼', dim), d, r, n);
}

pub proof fn lemma_cells(
    g: Grid,
    d: Table,
    r: Ruling,
    needle: Option<Seq<char>>,
    focused: bool,
    row: int,
    pos: int,
    y: int,
    n: int,
)
    requires
        display::consistent(g),
        d.layout.wf(),
        hits_inside(d, r),
        n <= r.hits.len(),
    ensures
        display::kept(
            g,
            picture::cells_picture(g, d, r, needle, focused, row, pos, y, n),
        ),
    decreases n,
{
    if n > 0 {
        lemma_cells(g, d, r, needle, focused, row, pos, y, n - 1);
        let before = picture::cells_picture(g, d, r, needle, focused, row, pos, y, n - 1);
        let (x, end, cu) = r.hits[n - 1];
        assert(r.hits[n - 1].2 < d.ncols());
        let c = cu as int;
        let w = d.layout.widths[c] as int;
        let raw = picture::raw_field(d, pos, c);
        let s = picture::shown_text(d, pos, c);
        lemma_clean_field(raw, w, false);
        lemma_clean_field(raw, doc::MAX_COL_W as int, false);
        csv::clipped_text_fits(csv::field_visible(raw, w, false), w);
        let current = row == d.row;
        let selected = current && c == d.col;
        let hit = picture::is_hit(s, needle);
        let st = picture::cell_style(selected, hit, focused, current);
        display::lemma_fill_rows_consistent(before, x as int, y, end - x, 1, st);
        let a = if selected || hit {
            before.fill_rows(x as int, y, end - x, 1, st)
        } else {
            before
        };
        let tw = csv::columns(csv::field_text(raw, w, false));
        let cut = csv::field_cut(raw, w, false);
        let num = d.layout.numeric[c];
        lemma_cell(a, x as int, end as int, y, w, s, tw, cut, num, st);
        lemma_separator(
            picture::cell_picture(a, x as int, end as int, y, w, s, tw, cut, num, st),
            x as int,
            w,
            r.right(),
            y,
            '│',
            picture::row_line_style(current),
        );
    }
}

pub proof fn lemma_rows(
    g: Grid,
    d: Table,
    r: Ruling,
    needle: Option<Seq<char>>,
    focused: bool,
    pos: int,
    n: int,
)
    requires
        display::consistent(g),
        d.layout.wf(),
        hits_inside(d, r),
        0 <= r.digits,
    ensures
        display::kept(g, picture::rows_picture(g, d, r, needle, focused, pos, n)),
    decreases n,
{
    if n > 0 {
        lemma_rows(g, d, r, needle, focused, pos, n - 1);
        let before = picture::rows_picture(g, d, r, needle, focused, pos, n - 1);
        let row = d.row_off + n - 1;
        let y = r.inner.y + 2 + n - 1;
        let x = r.inner.x as int;
        let w = r.inner.w as int;
        let current = row == d.row;
        let st = picture::row_style(true);
        display::lemma_fill_rows_consistent(before, x, y, w, 1, st);
        let a = if current {
            before.fill_rows(x, y, w, 1, st)
        } else {
            before
        };
        let number = text::decimal((row + 1) as nat);
        lemma_clean_decimal((row + 1) as nat);
        lemma_clean_padded(number, r.digits);
        let padded = util::padded(number, r.digits);
        let ns = picture::number_style(current);
        display::text_keeps_grid_consistent(a, x, y, r.digits, padded, ns);
        let b = a.text(x, y, r.digits, padded, ns);
        let ls = picture::row_line_style(current);
        display::put_keeps_grid_consistent(b, r.bar(), y, '│', ls);
        lemma_cells(
            b.put(r.bar(), y, '│', ls),
            d,
            r,
            needle,
            focused,
            row,
            picture::nth_record(d, pos, n - 1),
            y,
            r.hits.len() as int,
        );
    }
}

pub proof fn lemma_slots(widths: Seq<u16>, c: int, x: int, right: int)
    requires
        0 <= c,
        widths.len() <= usize::MAX,
    ensures
        ({
            let h = picture::slots(widths, c, x, right);
            forall|k: int| 0 <= k < h.len() ==> (#[trigger] h[k]).2 < widths.len()
        }),
    decreases widths.len() - c,
{
    if c < widths.len() && x < right {
        let rest = picture::slots(widths, c + 1, x + widths[c] + 3, right);
        lemma_slots(widths, c + 1, x + widths[c] + 3, right);
        let h = picture::slots(widths, c, x, right);
        assert forall|k: int| 0 <= k < h.len() implies (#[trigger] h[k]).2 < widths.len() by {
            if k > 0 {
                assert(h[k] == rest[k - 1]);
            }
        }
    }
}

/// The frame and the header of the table.
pub proof fn lemma_table_head(d: Table, panel: Rect, g: Grid, focused: bool)
    requires
        display::consistent(g),
        doc_clean(d),
        d.layout.wf(),
        0 <= d.col_off,
        0 <= d.col,
        d.ncols() <= usize::MAX,
    ensures
        ({
            let inner = panel.inside();
            let a = g.frame(panel, picture::doc_title(d), picture::doc_footer(d), focused);
            let p = picture::placed(d, inner);
            let r = picture::ruling(p, inner, picture::number_width(p, inner.h - 2));
            &&& display::kept(g, a)
            &&& hits_inside(p, r)
            &&& 0 <= p.col_off
            &&& 2 <= r.digits
            &&& display::kept(g, picture::header_picture(a, p, r))
        }),
{
    let inner = panel.inside();
    reveal_strlit("");
    reveal_strlit(" [2] ");
    reveal_strlit(" ");
    reveal_strlit(" of ");
    reveal_strlit("+");
    assert(clean(""@) && clean(" [2] "@) && clean(" "@) && clean(" of "@) && clean("+"@));
    lemma_clean_concat(" [2] "@, d.name);
    lemma_clean_concat(" [2] "@ + d.name, " "@);
    let n1 = util::grouped((d.row + 1) as nat);
    let n2 = util::grouped(d.rows() as nat);
    lemma_clean_number((d.row + 1) as nat);
    lemma_clean_number(d.rows() as nat);
    lemma_clean_concat(" "@, n1);
    lemma_clean_concat(" "@ + n1, " of "@);
    lemma_clean_concat(" "@ + n1 + " of "@, n2);
    let plus = if d.done {
        ""@
    } else {
        "+"@
    };
    lemma_clean_concat(" "@ + n1 + " of "@ + n2, plus);
    lemma_clean_concat(" "@ + n1 + " of "@ + n2 + plus, " "@);
    let footer = picture::doc_footer(d);
    assert(clean(footer));
    display::frame_keeps_grid_consistent(g, panel, picture::doc_title(d), footer, focused);
    let a = g.frame(panel, picture::doc_title(d), footer, focused);
    let p = picture::placed(d, inner);
    let digits = picture::number_width(p, inner.h - 2);
    let r = picture::ruling(p, inner, digits);
    lemma_scroll_cols_nonneg(
        d.layout.widths,
        d.col,
        d.col_off,
        picture::at_least_0(
            inner.w - picture::number_width(
                picture::scrolled_down(d, inner.h - 2),
                inner.h - 2,
            ) - 1,
        ),
    );
    lemma_slots(p.layout.widths, p.col_off, inner.x + digits + 1, inner.x + inner.w);
    lemma_header(a, p, r);
}

pub proof fn lemma_table(s: State, g: Grid)
    requires
        display::consistent(g),
        s.doc matches Some(d) ==> doc_clean(d) && d.layout.wf() && 0 <= d.col_off && 0 <= d.col
            && d.ncols() <= usize::MAX,
    ensures
        display::kept(g, picture::table_picture(s, g)),
{
    let panel = s.table_rect;
    let inner = panel.inside();
    let focused = s.focus == crate::state::Focus::Table;
    reveal_strlit(" [2] Preview ");
    reveal_strlit("");
    reveal_strlit("(no rows)");
    reveal_strlit("Indexing…");
    assert(clean(" [2] Preview "@) && clean(""@) && clean("(no rows)"@) && clean("Indexing…"@));
    match s.doc {
        None => {
            display::frame_keeps_grid_consistent(g, panel, " [2] Preview "@, ""@, focused);
            lemma_welcome(g.frame(panel, " [2] Preview "@, ""@, focused), inner);
        },
        Some(d0) => {
            let d = d0.clamped();
            lemma_table_head(d, panel, g, focused);
            let a = g.frame(panel, picture::doc_title(d), picture::doc_footer(d), focused);
            if inner.h >= 3 && inner.w >= 10 {
                let p = picture::placed(d, inner);
                let r = picture::ruling(p, inner, picture::number_width(p, inner.h - 2));
                let h = picture::header_picture(a, p, r);
                display::text_keeps_grid_consistent(
                    h,
                    r.bar() + 2,
                    r.inner.y + 2,
                    picture::at_least_0(r.inner.w - r.digits - 1),
                    if p.done {
                        "(no rows)"@
                    } else {
                        "Indexing…"@
                    },
                    picture::dim(),
                );
                if let Some(pos) = p.record(p.row_off) {
                    lemma_rows(
                        h,
                        p,
                        r,
                        s.needle,
                        focused,
                        pos,
                        picture::rows_shown(p, r.inner.h - 2),
                    );
                }
            }
        },
    }
}

pub proof fn lemma_scroll_cols_nonneg(widths: Seq<u16>, col: int, col_off: int, avail: int)
    requires
        0 <= col,
        0 <= col_off,
    ensures
        0 <= picture::scroll_cols(widths, col, col_off, avail),
    decreases col - col_off,
{
    if col > col_off && picture::span(widths, col_off, col) > avail {
        lemma_scroll_cols_nonneg(widths, col, col_off + 1, avail);
    }
}

// ---------------------------------------------------------------------------
// Status line
// ---------------------------------------------------------------------------

proof fn lemma_prompt(g: Grid, kind: PromptKind, input: Seq<char>, y: int)
    requires
        display::consistent(g),
        clean(input),
    ensures
        display::kept(g, picture::prompt_picture(g, kind, input, y)),
{
    reveal_strlit("Search: /");
    reveal_strlit("Go to row: ");
    reveal_strlit("enter: confirm | esc: cancel");
    let label = picture::prompt_label(kind)@;
    let hint = "enter: confirm | esc: cancel"@;
    assert(clean(label) && clean(hint));
    let bold = Style::fg(picture::CYAN).attr(screen::BOLD);
    let x = picture::used(label, g.w);
    screen::lemma_fitting(label, g.w);
    screen::lemma_fitting(input, g.w - x);
    let z = x + picture::used(input, g.w - x);
    display::text_keeps_grid_consistent(g, 0, y, g.w, label, bold);
    let a = g.text(0, y, g.w, label, bold);
    display::text_keeps_grid_consistent(a, x, y, g.w - x, input, Style::plain());
    let b = a.text(x, y, g.w - x, input, Style::plain());
    let rev = Style::plain().attr(screen::REVERSE);
    display::put_keeps_grid_consistent(b, z, y, ' ', rev);
    display::text_keeps_grid_consistent(
        b.put(z, y, ' ', rev),
        g.w - 28,
        y,
        28,
        hint,
        picture::dim(),
    );
}

pub proof fn lemma_doc_status(d: Table, searching: bool)
    ensures
        clean(picture::doc_status(d, searching)),
{
    reveal_strlit("searching… │ ");
    reveal_strlit("");
    reveal_strlit("indexing ");
    reveal_strlit("% │ ");
    reveal_strlit(" × ");
    reveal_strlit(" │ ");
    reveal_strlit("header");
    reveal_strlit("no header");
    reveal_strlit("comma");
    reveal_strlit("semicolon");
    reveal_strlit("tab");
    reveal_strlit("pipe");
    reveal_strlit("?");
    let a = if searching {
        "searching… │ "@
    } else {
        ""@
    };
    assert(clean(a));
    assert(clean("indexing "@) && clean("% │ "@) && clean(" × "@) && clean(" │ "@));
    let n = text::decimal(util::percent_of(d.scanned as nat, d.data.len()));
    lemma_clean_decimal(util::percent_of(d.scanned as nat, d.data.len()));
    lemma_clean_concat("indexing "@, n);
    lemma_clean_concat("indexing "@ + n, "% │ "@);
    let b = if d.done {
        ""@
    } else {
        "indexing "@ + n + "% │ "@
    };
    assert(clean(""@));
    lemma_clean_concat(a, b);
    let c = a + b;
    lemma_clean_number(d.rows() as nat);
    lemma_clean_concat(c, util::grouped(d.rows() as nat));
    let e = c + util::grouped(d.rows() as nat);
    lemma_clean_concat(e, " × "@);
    lemma_clean_decimal(d.ncols() as nat);
    lemma_clean_concat(e + " × "@, text::decimal(d.ncols() as nat));
    let f = e + " × "@ + text::decimal(d.ncols() as nat);
    lemma_clean_concat(f, " │ "@);
    let name = util::delim_text(d.delim)@;
    assert(clean(name));
    lemma_clean_concat(f + " │ "@, name);
    let h = f + " │ "@ + name;
    lemma_clean_concat(h, " │ "@);
    let k = if d.has_header {
        "header"@
    } else {
        "no header"@
    };
    assert(clean(k));
    lemma_clean_concat(h + " │ "@, k);
    lemma_clean_concat(h + " │ "@ + k, " │ "@);
    lemma_clean_size(d.data.len());
    lemma_clean_concat(h + " │ "@ + k + " │ "@, util::size_text(d.data.len()));
}

proof fn lemma_hints_clean()
    ensures
        forall|k: int| 0 <= k < 7 ==> clean((#[trigger] picture::TREE_LABELS@[k])@),
        forall|k: int| 0 <= k < 7 ==> clean((#[trigger] picture::TREE_KEYS@[k])@),
        forall|k: int| 0 <= k < 8 ==> clean((#[trigger] picture::TABLE_LABELS@[k])@),
        forall|k: int| 0 <= k < 8 ==> clean((#[trigger] picture::TABLE_KEYS@[k])@),
{
    reveal_strlit(".");
    reveal_strlit("/");
    reveal_strlit(":");
    reveal_strlit("?");
    reveal_strlit("Collapse");
    reveal_strlit("Copy");
    reveal_strlit("D");
    reveal_strlit("Delim");
    reveal_strlit("Go to");
    reveal_strlit("Header");
    reveal_strlit("Help");
    reveal_strlit("Hidden");
    reveal_strlit("Next");
    reveal_strlit("Open");
    reveal_strlit("Quit");
    reveal_strlit("Record");
    reveal_strlit("Search");
    reveal_strlit("Switch");
    reveal_strlit("T");
    reveal_strlit("Up dir");
    reveal_strlit("enter");
    reveal_strlit("h");
    reveal_strlit("n/N");
    reveal_strlit("q");
    reveal_strlit("tab");
    reveal_strlit("y");
    reveal_strlit("⌫");
}

proof fn lemma_hints(
    g: Grid,
    labels: Seq<&'static str>,
    keys: Seq<&'static str>,
    i: int,
    x: int,
    max: int,
    y: int,
)
    requires
        display::consistent(g),
        0 <= i,
        0 <= x <= max,
        labels.len() == keys.len(),
        forall|k: int| 0 <= k < labels.len() ==> clean((#[trigger] labels[k])@),
        forall|k: int| 0 <= k < keys.len() ==> clean((#[trigger] keys[k])@),
    ensures
        display::kept(g, picture::hints_picture(g, labels, keys, i, x, max, y)),
    decreases labels.len() - i,
{
    if i < labels.len() && x + picture::hint_width(i == 0, labels[i]@, keys[i]@) <= max {
        reveal_strlit(" | ");
        reveal_strlit(": ");
        assert(clean(" | "@) && clean(": "@));
        assert(clean(labels[i]@) && clean(keys[i]@));
        let (label, key) = (labels[i]@, keys[i]@);
        let plain = Style::plain();
        let blue = Style::fg(picture::BLUE).attr(screen::BOLD);
        screen::lemma_width_le_bytes(key);
        screen::lemma_fitting(" | "@, 3);
        display::text_keeps_grid_consistent(g, x, y, 3, " | "@, picture::dim());
        let (a, x1) = if i == 0 {
            (g, x)
        } else {
            (
                g.text(x, y, 3, " | "@, picture::dim()),
                x + picture::used(" | "@, 3),
            )
        };
        screen::lemma_fitting(label, max - x1);
        let x2 = x1 + picture::used(label, max - x1);
        screen::lemma_fitting(": "@, max - x2);
        let x3 = x2 + picture::used(": "@, max - x2);
        screen::lemma_fitting(key, max - x3);
        display::text_keeps_grid_consistent(a, x1, y, max - x1, label, plain);
        let b = a.text(x1, y, max - x1, label, plain);
        display::text_keeps_grid_consistent(b, x2, y, max - x2, ": "@, plain);
        let c = b.text(x2, y, max - x2, ": "@, plain);
        display::text_keeps_grid_consistent(c, x3, y, max - x3, key, blue);
        lemma_hints(
            picture::hint_picture(g, i == 0, label, key, x, max, y),
            labels,
            keys,
            i + 1,
            picture::hint_end(i == 0, label, key, x, max),
            max,
            y,
        );
    }
}

/// Whether the prompt and the message are clean.
pub open spec fn line_clean(s: State) -> bool {
    &&& s.prompt matches Some(p) ==> clean(p.1)
    &&& s.msg matches Some(m) ==> clean(m.0)
}

pub proof fn lemma_status(s: State, g: Grid, y: int)
    requires
        display::consistent(g),
        line_clean(s),
    ensures
        display::kept(g, picture::status_picture(s, g, y)),
{
    match s.prompt {
        Some((kind, input)) => lemma_prompt(g, kind, input, y),
        None => {
            let right = picture::status_right(s);
            if let Some(d) = s.doc {
                lemma_doc_status(d, s.search is Some);
            }
            assert(clean(right));
            let rw = screen::text_width(right) % 0x1_0000;
            display::text_keeps_grid_consistent(
                g,
                g.w - rw,
                y,
                rw,
                right,
                Style::fg(picture::CYAN),
            );
            let (a, left_max) = if rw + 10 < g.w {
                (g.text(g.w - rw, y, rw, right, Style::fg(picture::CYAN)), g.w - rw - 2)
            } else {
                (g, g.w)
            };
            if let Some((m, error)) = s.msg {
                display::text_keeps_grid_consistent(
                    a,
                    0,
                    y,
                    left_max,
                    m,
                    picture::message_style(error),
                );
            }
            lemma_hints_clean();
            lemma_hints(
                a,
                picture::TREE_LABELS@,
                picture::TREE_KEYS@,
                0,
                0,
                left_max,
                y,
            );
            lemma_hints(
                a,
                picture::TABLE_LABELS@,
                picture::TABLE_KEYS@,
                0,
                0,
                left_max,
                y,
            );
        },
    }
}

// ---------------------------------------------------------------------------
// Help
// ---------------------------------------------------------------------------

pub proof fn lemma_help_clean()
    ensures
        forall|k: int| 0 <= k < 32 ==> clean((#[trigger] picture::HELP_KEYS@[k])@),
        forall|k: int| 0 <= k < 32 ==> clean((#[trigger] picture::HELP_TEXTS@[k])@),
{
    reveal_strlit("");
    reveal_strlit("+ < =");
    reveal_strlit(".");
    reveal_strlit("/");
    reveal_strlit("0 / $");
    reveal_strlit("5 columns right / left");
    reveal_strlit(":");
    reveal_strlit("?");
    reveal_strlit("D");
    reveal_strlit("Explorer");
    reveal_strlit("Global");
    reveal_strlit("R");
    reveal_strlit("T");
    reveal_strlit("Table");
    reveal_strlit("backspace / -");
    reveal_strlit("c");
    reveal_strlit("clear search highlight");
    reveal_strlit("click to select, wheel to scroll");
    reveal_strlit("copy cell / row (OSC 52)");
    reveal_strlit("ctrl-d / ctrl-u");
    reveal_strlit("cycle delimiter , ; tab |");
    reveal_strlit("e");
    reveal_strlit("enter");
    reveal_strlit("enter / space");
    reveal_strlit("esc");
    reveal_strlit("expand / collapse (or go to parent)");
    reveal_strlit("first / last column");
    reveal_strlit("first / last row");
    reveal_strlit("g / G");
    reveal_strlit("go to row number");
    reveal_strlit("h j k l, arrows");
    reveal_strlit("half page down / up");
    reveal_strlit("j k ↑ ↓");
    reveal_strlit("l →  /  h ←");
    reveal_strlit("mouse");
    reveal_strlit("move");
    reveal_strlit("move cell");
    reveal_strlit("n / N");
    reveal_strlit("next / previous match");
    reveal_strlit("open file / toggle directory");
    reveal_strlit("page down / up");
    reveal_strlit("pgdn / pgup");
    reveal_strlit("q, ctrl-c");
    reveal_strlit("quit");
    reveal_strlit("refresh");
    reveal_strlit("search (smart case)");
    reveal_strlit("set parent directory as root");
    reveal_strlit("set selected directory as root");
    reveal_strlit("show / hide the explorer");
    reveal_strlit("show full record");
    reveal_strlit("show hidden files");
    reveal_strlit("switch panel");
    reveal_strlit("tab / 1 / 2");
    reveal_strlit("this help");
    reveal_strlit("toggle header row");
    reveal_strlit("w / b");
    reveal_strlit("widen / narrow / autofit column");
    reveal_strlit("y / Y");
}

pub proof fn lemma_help_lines(g: Grid, inner: Rect, scroll: int, n: int)
    requires
        display::consistent(g),
        0 <= scroll,
        scroll + n <= 32,
        inner.w >= 1,
    ensures
        display::kept(g, picture::help_lines(g, inner, scroll, n)),
    decreases n,
{
    if n > 0 {
        lemma_help_lines(g, inner, scroll, n - 1);
        lemma_help_clean();
        let a = picture::help_lines(g, inner, scroll, n - 1);
        let k = scroll + n - 1;
        let y = inner.y + n - 1;
        let key = picture::HELP_KEYS@[k]@;
        let desc = picture::HELP_TEXTS@[k]@;
        assert(clean(picture::HELP_KEYS@[k]@) && clean(picture::HELP_TEXTS@[k]@));
        let green = Style::fg(picture::GREEN).attr(screen::BOLD);
        let blue = Style::fg(picture::BLUE).attr(screen::BOLD);
        display::text_keeps_grid_consistent(a, inner.x + 1, y, inner.w - 1, key, green);
        display::text_keeps_grid_consistent(a, inner.x + 3, y, 16, key, blue);
        display::text_keeps_grid_consistent(
            a.text(inner.x + 3, y, 16, key, blue),
            inner.x + 20,
            y,
            picture::at_least_0(inner.w - 21),
            desc,
            Style::plain(),
        );
    }
}

pub proof fn lemma_help(g: Grid, scroll: int)
    requires
        display::consistent(g),
        g.w >= 30,
        g.h >= 6,
        0 <= scroll,
    ensures
        display::kept(g, picture::help_picture(g, scroll)),
{
    let r = picture::help_rect(g);
    let inner = r.inside();
    reveal_strlit(" Keybindings ");
    reveal_strlit(" esc: close ");
    assert(clean(" Keybindings "@) && clean(" esc: close "@));
    display::fill_keeps_grid_consistent(g, r, Style::plain());
    let a = g.fill(r, Style::plain());
    display::frame_keeps_grid_consistent(a, r, " Keybindings "@, " esc: close "@, true);
    let top = picture::help_scroll(g, scroll);
    lemma_help_lines(
        a.frame(r, " Keybindings "@, " esc: close "@, true),
        inner,
        top,
        vstd::math::min(32 - top, inner.h as int),
    );
}

// ---------------------------------------------------------------------------
// Record
// ---------------------------------------------------------------------------

/// Whether all of some lines are clean.
spec fn lines_clean(ls: Seq<Seq<char>>) -> bool {
    forall|k: int| 0 <= k < ls.len() ==> clean(#[trigger] ls[k])
}

proof fn lemma_add_chars(w: wrap::Wrap, word: Seq<char>, width: int)
    requires
        lines_clean(w.lines),
        clean(w.line),
        clean(word),
    ensures
        lines_clean(w.add_chars(word, width).lines),
        clean(w.add_chars(word, width).line),
    decreases word.len(),
{
    if word.len() > 0 {
        lemma_clean_part(word, 0, word.len() - 1);
        assert(word.subrange(0, word.len() - 1) =~= word.drop_last());
        assert(word.contains(word.last()));
        lemma_add_chars(w, word.drop_last(), width);
        let v = w.add_chars(word.drop_last(), width);
        lemma_clean_push(v.line, word.last());
        lemma_clean_push(seq![], word.last());
        assert(lines_clean(v.feed().lines));
    }
}

proof fn lemma_wrap_words(w: wrap::Wrap, p: Seq<char>, i: int, width: int)
    requires
        0 <= i <= p.len(),
        lines_clean(w.lines),
        clean(w.line),
        clean(p),
    ensures
        lines_clean(wrap::wrap_words(w, p, i, width).lines),
        clean(wrap::wrap_words(w, p, i, width).line),
    decreases p.len() - i,
{
    if i < p.len() {
        wrap::lemma_word_end(p, i);
        let e = wrap::word_end(p, i);
        let word = p.subrange(i, e);
        lemma_clean_part(p, i, e);
        assert(lines_clean(w.feed().lines));
        lemma_add_chars(w, word, width);
        lemma_add_chars(w.feed(), word, width);
        lemma_clean_concat(w.line, word);
        lemma_clean_concat(seq![], word);
        lemma_wrap_words(w.add_word(word, width), p, e, width);
    }
}

proof fn lemma_wrap_from(
    lines: Seq<Seq<char>>,
    s: Seq<char>,
    i: int,
    width: int,
    max_lines: int,
)
    requires
        0 <= i <= s.len(),
        0 <= max_lines,
        lines_clean(lines),
        clean(s),
    ensures
        lines_clean(wrap::wrap_from(lines, s, i, width, max_lines)),
    decreases s.len() - i,
{
    wrap::lemma_para_end(s, i);
    let e = wrap::para_end(s, i);
    let p = s.subrange(i, e);
    lemma_clean_part(s, i, e);
    let w = wrap::Wrap { lines, line: seq![] };
    lemma_wrap_words(w, p, 0, width);
    let more = wrap::wrap_para(lines, p, width);
    assert(lines_clean(more));
    if more.len() >= max_lines {
        lemma_clean_push(seq![], '…');
        assert(seq!['…'] =~= Seq::<char>::empty().push('…'));
        assert(lines_clean(more.take(max_lines).push(seq!['…'])));
    } else if e < s.len() {
        lemma_wrap_from(more, s, e + 1, width, max_lines);
    }
}

/// Whether titles and texts are clean.
pub open spec fn fields_clean(fields: Seq<(Seq<char>, Seq<char>)>) -> bool {
    forall|k: int|
        0 <= k < fields.len() ==> clean((#[trigger] fields[k]).0) && clean(fields[k].1)
}

/// Whether the lines of a record are clean and belong to its fields.
pub open spec fn record_clean(ls: Seq<RecordLine>, n: int) -> bool {
    forall|k: int|
        0 <= k < ls.len() ==> clean((#[trigger] ls[k]).text) && 0 <= ls[k].col < n
}

proof fn lemma_field_lines(c: int, ls: Seq<Seq<char>>, n: int, total: int)
    requires
        n <= ls.len(),
        lines_clean(ls),
        0 <= c < total,
    ensures
        record_clean(picture::field_lines(c, ls, n), total),
    decreases n,
{
    if n > 0 {
        lemma_field_lines(c, ls, n - 1, total);
        assert(clean(ls[n - 1]));
    }
}

pub proof fn lemma_record_lines(
    fields: Seq<(Seq<char>, Seq<char>)>,
    width: int,
    n: int,
)
    requires
        n <= fields.len(),
        fields_clean(fields),
    ensures
        record_clean(picture::record_lines(fields, width, n), fields.len() as int),
    decreases n,
{
    if n > 0 {
        lemma_record_lines(fields, width, n - 1);
        assert(clean(fields[n - 1].0) && clean(fields[n - 1].1));
        let ls = wrap::wrap_from(seq![], fields[n - 1].1, 0, width, 2000);
        lemma_wrap_from(seq![], fields[n - 1].1, 0, width, 2000);
        lemma_field_lines(n - 1, ls, ls.len() as int, fields.len() as int);
        let a = picture::record_lines(fields, width, n - 1);
        let b = picture::field_lines(n - 1, ls, ls.len() as int);
        let t = a + b;
        assert forall|k: int| 0 <= k < t.len() implies clean((#[trigger] t[k]).text) && 0
            <= t[k].col < fields.len() by {
            if k < a.len() {
                assert(t[k] == a[k]);
            } else {
                assert(t[k] == b[k - a.len()]);
            }
        }
    }
}

pub proof fn lemma_record_line(
    g: Grid,
    inner: Rect,
    label_w: int,
    fields: Seq<(Seq<char>, Seq<char>)>,
    l: RecordLine,
    col: int,
    y: int,
)
    requires
        display::consistent(g),
        fields_clean(fields),
        clean(l.text),
        0 <= l.col < fields.len(),
        0 <= label_w,
        0 <= inner.w - label_w - 5,
    ensures
        display::kept(g, picture::record_line(g, inner, label_w, fields, l, col, y)),
{
    reveal_strlit("∅");
    assert(clean("∅"@));
    assert(clean(fields[l.col].0));
    let bg = picture::row_style(l.col == col);
    let x = inner.x + 1 + label_w + 3;
    let w = inner.x + inner.w - x - 1;
    display::lemma_fill_rows_consistent(g, inner.x as int, y, inner.w as int, 1, bg);
    let a = if l.col == col {
        g.fill_rows(inner.x as int, y, inner.w as int, 1, bg)
    } else {
        g
    };
    let name = fields[l.col].0;
    let st = bg.with_fg(picture::YELLOW).attr(screen::BOLD);
    display::text_keeps_grid_consistent(a, inner.x + 1, y, label_w, name, st);
    let b = if l.first {
        a.ellipsis(inner.x + 1, y, label_w, name, st)
    } else {
        a
    };
    display::put_keeps_grid_consistent(b, x - 2, y, '│', bg.attr(screen::DIM));
    let c = b.put(x - 2, y, '│', bg.attr(screen::DIM));
    display::text_keeps_grid_consistent(c, x, y, w, "∅"@, bg.attr(screen::DIM));
    display::text_keeps_grid_consistent(c, x, y, w, l.text, bg);
}

pub proof fn lemma_record_lines_picture(
    g: Grid,
    inner: Rect,
    label_w: int,
    fields: Seq<(Seq<char>, Seq<char>)>,
    ls: Seq<RecordLine>,
    scroll: int,
    col: int,
    n: int,
)
    requires
        display::consistent(g),
        fields_clean(fields),
        record_clean(ls, fields.len() as int),
        0 <= scroll,
        scroll + n <= ls.len(),
        0 <= label_w,
        0 <= inner.w - label_w - 5,
    ensures
        display::kept(
            g,
            picture::record_lines_picture(g, inner, label_w, fields, ls, scroll, col, n),
        ),
    decreases n,
{
    if n > 0 {
        lemma_record_lines_picture(g, inner, label_w, fields, ls, scroll, col, n - 1);
        let l = ls[scroll + n - 1];
        assert(clean(ls[scroll + n - 1].text));
        lemma_record_line(
            picture::record_lines_picture(g, inner, label_w, fields, ls, scroll, col, n - 1),
            inner,
            label_w,
            fields,
            l,
            col,
            inner.y + n - 1,
        );
    }
}

pub proof fn lemma_record_loaded(r: Record, d: Table)
    requires
        fields_clean(r.fields),
        doc_clean(d),
    ensures
        fields_clean(picture::record_loaded(r, d).fields),
{
    if let Some(f) = d.row_fields(d.row) {
        let v = picture::record_fields(d);
        assert forall|k: int| 0 <= k < v.len() implies clean((#[trigger] v[k]).0) && clean(
            v[k].1,
        ) by {
            assert(v[k] == picture::record_field(d, f, k));
            lemma_clean_col(k);
            if k < f.len() {
                lemma_clean_field(d.data.subrange(f[k].0, f[k].1), 0x10_0000, true);
            }
            if k < d.layout.headers.len() {
                assert(clean(d.layout.headers[k]));
            }
        }
    }
}

pub proof fn lemma_record_frame(d: Table, g: Grid)
    requires
        display::consistent(g),
    ensures
        ({
            let rect = picture::record_rect(g);
            display::kept(
                g,
                g.fill(rect, Style::plain()).frame(
                    rect,
                    " Row "@ + util::grouped((d.row + 1) as nat) + " of "@ + util::grouped(
                        d.rows() as nat,
                    ) + " "@,
                    " j/k scroll │ h/l prev/next row │ y copy │ esc close "@,
                    true,
                ),
            )
        }),
{
    let rect = picture::record_rect(g);
    reveal_strlit(" Row ");
    reveal_strlit(" of ");
    reveal_strlit(" ");
    reveal_strlit(" j/k scroll │ h/l prev/next row │ y copy │ esc close ");
    let keys = " j/k scroll │ h/l prev/next row │ y copy │ esc close "@;
    assert(clean(" Row "@) && clean(" of "@) && clean(" "@) && clean(keys));
    let n1 = util::grouped((d.row + 1) as nat);
    let n2 = util::grouped(d.rows() as nat);
    lemma_clean_number((d.row + 1) as nat);
    lemma_clean_number(d.rows() as nat);
    lemma_clean_concat(" Row "@, n1);
    lemma_clean_concat(" Row "@ + n1, " of "@);
    lemma_clean_concat(" Row "@ + n1 + " of "@, n2);
    lemma_clean_concat(" Row "@ + n1 + " of "@ + n2, " "@);
    let title = " Row "@ + n1 + " of "@ + n2 + " "@;
    display::fill_keeps_grid_consistent(g, rect, Style::plain());
    let f = g.fill(rect, Style::plain());
    display::frame_keeps_grid_consistent(f, rect, title, keys, true);
}

pub proof fn lemma_record(r0: Record, d: Table, g: Grid)
    requires
        display::consistent(g),
        fields_clean(r0.fields),
        doc_clean(d),
        0 <= r0.scroll,
        g.w >= 30,
        g.h >= 6,
    ensures
        display::kept(g, picture::record_picture(r0, d, g)),
        fields_clean(picture::record_drawn(r0, d, g).fields),
        0 <= picture::record_drawn(r0, d, g).scroll,
{
    lemma_record_loaded(r0, d);
    let r = picture::record_drawn(r0, d, g);
    let rect = picture::record_rect(g);
    let inner = rect.inside();
    let label_w = picture::label_width(r.fields);
    let w = picture::value_width(inner, label_w);
    let keys = " j/k scroll │ h/l prev/next row │ y copy │ esc close "@;
    let n1 = util::grouped((d.row + 1) as nat);
    let n2 = util::grouped(d.rows() as nat);
    let title = " Row "@ + n1 + " of "@ + n2 + " "@;
    let f = g.fill(rect, Style::plain());
    lemma_record_frame(d, g);
    if w >= 4 {
        let ls = picture::record_lines(r.fields, w, r.fields.len() as int);
        lemma_record_lines(r.fields, w, r.fields.len() as int);
        lemma_record_lines_picture(
            f.frame(rect, title, keys, true),
            inner,
            label_w,
            r.fields,
            ls,
            r.scroll,
            d.col,
            vstd::math::min(inner.h as int, ls.len() - r.scroll),
        );
    }
}

// ---------------------------------------------------------------------------
// The frame
// ---------------------------------------------------------------------------

/// Whether a document can be drawn: its layout is in order, its cursor and
/// scroll positions are positions, and its texts are clean.
pub open spec fn doc_presentable(d: Table) -> bool {
    &&& doc_clean(d)
    &&& d.layout.wf()
    &&& d.ncols() <= usize::MAX
    &&& d.data.len() < usize::MAX
    &&& 0 <= d.row
    &&& 0 <= d.col
    &&& 0 <= d.row_off
    &&& 0 <= d.col_off
}

/// Whether what lies over the panels can be drawn.
pub open spec fn cover_presentable(c: Cover) -> bool {
    match c {
        Cover::Closed => true,
        Cover::Help(n) => 0 <= n,
        Cover::Record(r) => fields_clean(r.fields) && 0 <= r.scroll,
    }
}

/// Whether a state can be drawn: it is in order, and none of its texts holds
/// the character that marks right halves.
pub open spec fn presentable(s: State) -> bool {
    &&& tree_clean(s.tree)
    &&& s.tree.wf()
    &&& 0 <= s.tree.off
    &&& s.doc matches Some(d) ==> doc_presentable(d)
    &&& line_clean(s)
    &&& cover_presentable(s.overlay)
}

proof fn lemma_with_cols(l: doc::Layout, n: int)
    requires
        l.wf(),
        forall|c: int| 0 <= c < l.headers.len() ==> clean(#[trigger] l.headers[c]),
    ensures
        l.with_cols(n).wf(),
        l.with_cols(n).widths.len() == vstd::math::max(l.widths.len() as int, n),
        forall|c: int|
            0 <= c < l.with_cols(n).headers.len() ==> clean(#[trigger] l.with_cols(n).headers[c]),
    decreases n - l.widths.len(),
{
    if l.widths.len() < n {
        let m = doc::Layout {
            headers: l.headers.push(doc::col_text(l.widths.len() as int)),
            widths: l.widths.push(8),
            numeric: l.numeric.push(false),
        };
        lemma_clean_col(l.widths.len() as int);
        assert forall|c: int| 0 <= c < m.widths.len() implies 1 <= #[trigger] m.widths[c]
            <= 500 by {
            if c < l.widths.len() {
                assert(m.widths[c] == l.widths[c]);
            }
        }
        assert forall|c: int| 0 <= c < m.headers.len() implies clean(#[trigger] m.headers[c]) by {
            if c < l.headers.len() {
                assert(m.headers[c] == l.headers[c]);
            }
        }
        lemma_with_cols(m, n);
    }
}

pub proof fn lemma_body_presentable(d: Table, r: Ruling)
    requires
        doc_presentable(d),
    ensures
        doc_presentable(picture::body_drawn(d, r)),
{
    if let Some(pos) = d.record(d.row_off) {
        let n = picture::rows_shown(d, r.inner.h - 2);
        crate::index::lemma_start_step(d.data, d.row_off + d.hdr());
        picture::lemma_fields_shown(d, pos, n);
        let most = picture::fields_shown(d, pos, n);
        lemma_with_cols(d.layout, most);
        picture::lemma_with_cols(d.layout, most);
        let q = picture::body_drawn(d, r);
        let g = picture::grown_widths(d, r, pos, n);
        let wide = d.layout.with_cols(most).widths;
        assert forall|c: int| 0 <= c < q.layout.widths.len() implies 1
            <= #[trigger] q.layout.widths[c] <= 500 by {
            if c < g.len() {
                picture::lemma_needed_width(d, pos, n, c);
                assert(1 <= d.layout.widths[c] <= 500);
                assert(q.layout.widths[c] == g[c]);
            } else {
                assert(q.layout.widths[c] == wide[c]);
                assert(1 <= wide[c] <= 500);
            }
        }
    }
}

pub proof fn lemma_placed_presentable(d: Table, inner: Rect)
    requires
        doc_presentable(d),
        inner.h >= 3,
    ensures
        doc_presentable(picture::placed(d, inner)),
{
    let vis = inner.h - 2;
    let a = picture::scrolled_down(d, vis);
    lemma_scroll_cols_nonneg(
        d.layout.widths,
        d.col,
        d.col_off,
        picture::at_least_0(inner.w - picture::number_width(a, vis) - 1),
    );
}

pub proof fn lemma_pass(s: State, w: int, h: int)
    requires
        presentable(s),
        30 <= w <= u16::MAX,
        6 <= h <= u16::MAX,
    ensures
        display::kept(Grid::blank(w, h), picture::pass_picture(s, w, h)),
        presentable(picture::pass_drawn(s, w, h)),
{
    reveal(picture::pass_drawn);
    reveal(picture::pass_picture);
    let p = picture::panels(s, w, h);
    let g = Grid::blank(w, h);
    display::blank_is_consistent(w, h);
    lemma_tree(p, g);
    let a = if p.show_tree {
        picture::tree_picture(p, g)
    } else {
        g
    };
    let t = if p.show_tree {
        picture::tree_drawn(p)
    } else {
        p
    };
    crate::tree::moving_keeps_the_explorer_in_order(
        p.tree,
        0,
        seq![],
        p.tree_rect.inside().h as int,
    );
    lemma_table(t, a);
    let b = picture::table_picture(t, a);
    let u = picture::panels_drawn(s, w, h);
    let inner = t.table_rect.inside();
    if let Some(d0) = t.doc {
        let d = d0.clamped();
        if inner.h >= 3 && inner.w >= 10 {
            lemma_placed_presentable(d, inner);
            let q = picture::placed(d, inner);
            lemma_body_presentable(
                q,
                picture::ruling(q, inner, picture::number_width(q, inner.h - 2)),
            );
        }
    }
    lemma_status(u, b, h - 1);
    let c = picture::panels_picture(s, w, h);
    match u.overlay {
        Cover::Closed => {},
        Cover::Help(n) => {
            lemma_help(c, n);
        },
        Cover::Record(r) => {
            if let Some(d) = u.doc {
                lemma_record(r, d, c);
            }
        },
    }
}

/// Every frame keeps double-width characters whole, whatever there is to show,
/// and leaves a state that can be drawn again.
pub proof fn frames_keep_wide_characters_whole(s: State, w: int, h: int)
    requires
        presentable(s),
        0 <= w <= u16::MAX,
        0 <= h <= u16::MAX,
    ensures
        display::kept(Grid::blank(w, h), picture::rendered(s, w, h).1),
        presentable(picture::rendered(s, w, h).0),
    decreases picture::new_cols(s), picture::new_width(s), picture::pending(s),
{
    if w < 30 || h < 6 {
        display::blank_is_consistent(w, h);
        reveal_strlit("Terminal too small");
        assert(clean("Terminal too small"@));
        display::text_keeps_grid_consistent(
            Grid::blank(w, h),
            0,
            0,
            w,
            "Terminal too small"@,
            Style::fg(picture::RED),
        );
    } else {
        lemma_pass(s, w, h);
        let t = picture::pass_drawn(s, w, h);
        if t.relayout {
            picture::lemma_pass_gains(s, w, h);
            frames_keep_wide_characters_whole(State { relayout: false, ..t }, w, h);
        }
    }
}

/// A terminal shows every frame as it was drawn: one of the screen's size that
/// shows what was sent last, or anything when the frame is sent in full, shows
/// the frame once it has obeyed its instructions.
pub proof fn terminal_shows_the_frame(
    s: State,
    w: int,
    h: int,
    t: Terminal,
    prev: Seq<Cell>,
    full: bool,
)
    requires
        presentable(s),
        0 <= w <= u16::MAX,
        0 <= h <= u16::MAX,
        t.grid.w == w,
        t.grid.h == h,
        prev.len() == w * h,
        !full ==> t.grid.cells == prev && display::consistent(t.grid),
    ensures
        display::obey_all(
            t,
            screen::frame_ops(picture::rendered(s, w, h).1.cells, prev, full, w),
        ).grid == picture::rendered(s, w, h).1,
{
    frames_keep_wide_characters_whole(s, w, h);
    display::frame_shows_the_grid(t, picture::rendered(s, w, h).1, prev, full);
}

} // verus!
