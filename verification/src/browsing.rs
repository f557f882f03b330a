//! What moving about promises: where a search leads, what keys and clicks do.

use crate::doc::{Doc, Table};
use crate::state::{Act, Cover, Focus, Poll, PromptKind, Record, State};
use crate::term::{Event, Key};
use crate::tree::{Explorer, TreeOp};
use crate::{csv, doc, search, state, text};
use vstd::prelude::*;

verus! {

// ---------------------------------------------------------------------------
// Searching
// ---------------------------------------------------------------------------

/// Whether a text holds an ASCII capital.
pub open spec fn has_capital(n: Seq<u8>) -> bool {
    exists|k: int| 0 <= k < n.len() && 0x41 <= #[trigger] n[k] <= 0x5a
}

/// Whether two bytes match: they are equal or, for a text without capitals, the
/// one in the file is the capital of the other.
pub open spec fn byte_matches(in_file: u8, wanted: u8, smart: bool) -> bool {
    in_file == wanted || (smart && 0x61 <= wanted <= 0x7a && in_file == wanted - 0x20)
}

/// Whether the text `n` stands in the file at byte `p`, in small letters or
/// capitals when it has no capitals itself.
pub open spec fn occurs(data: Seq<u8>, n: Seq<u8>, p: int) -> bool {
    &&& 0 <= p <= data.len() - n.len()
    &&& forall|k: int|
        0 <= k < n.len() ==> byte_matches(data[p + k], #[trigger] n[k], !has_capital(n))
}

pub proof fn lemma_occurs(data: Seq<u8>, n: Seq<u8>, p: int)
    ensures
        search::matches_at(data, n, search::ignores_case(n), p) == occurs(data, n, p),
{
    let ci = search::ignores_case(n);
    assert(ci == !has_capital(n)) by {
        if !ci {
            let k = choose|k: int| 0 <= k < n.len() && 0x41 <= #[trigger] n[k] <= 0x5a;
            assert(0x41 <= n[k] <= 0x5a);
        }
    }
    if 0 <= p <= data.len() - n.len() {
        assert forall|k: int| 0 <= k < n.len() implies search::same(data[p + k], n[k], ci)
            == byte_matches(data[p + k], #[trigger] n[k], ci) by {
            if ci {
                assert(!(0x41 <= n[k] <= 0x5a));
            }
        }
        if search::matches_at(data, n, ci, p) {
            assert forall|k: int| 0 <= k < n.len() implies byte_matches(
                data[p + k],
                #[trigger] n[k],
                ci,
            ) by {
                assert(search::same(data[p + k], n[k], ci));
            }
        }
        if occurs(data, n, p) {
            assert forall|k: int| 0 <= k < n.len() implies #[trigger] search::same(
                data[p + k],
                n[k],
                ci,
            ) by {
                assert(byte_matches(data[p + k], n[k], ci));
            }
        }
    }
}

/// What a search for `n` from byte `from` answers: going forwards the first
/// place at or behind `from` where the text stands, else the first of all;
/// going backwards the last place before `from`, else the last of all. In the
/// second case the search has wrapped around. There is no answer when the text
/// stands nowhere.
pub proof fn answer_is_the_nearest_place(
    data: Seq<u8>,
    n: Seq<u8>,
    from: int,
    forward: bool,
    r: Option<(usize, bool)>,
    q: int,
)
    requires
        search::is_answer(data, n, search::ignores_case(n), from, forward, r),
    ensures
        r is None ==> !occurs(data, n, q),
        r matches Some((p, wrapped)) ==> {
            &&& occurs(data, n, p as int)
            &&& forward ==> wrapped == (p < from)
            &&& !forward ==> wrapped == (p >= from)
            &&& occurs(data, n, q) && forward && q >= from ==> from <= p <= q
            &&& occurs(data, n, q) && !forward && q < from ==> q <= p < from
            &&& occurs(data, n, q) && wrapped && forward ==> p <= q < from
            &&& occurs(data, n, q) && wrapped && !forward ==> from <= q <= p
        },
{
    lemma_occurs(data, n, q);
    let ci = search::ignores_case(n);
    if let Some((p, wrapped)) = r {
        lemma_occurs(data, n, p as int);
        if search::matches_at(data, n, ci, q) {
        }
    } else {
        assert(!search::matches_at(data, n, ci, q));
    }
}

/// Nothing is skipped: with the cursor on a cell, the search for the next match
/// leads to the first one behind that cell, and the search for the previous one
/// to the last one before it. Only when there is none does it wrap around.
pub proof fn no_match_is_skipped(
    s: State,
    d: Table,
    n: Seq<char>,
    forward: bool,
    r: Option<(usize, bool)>,
    q: int,
)
    requires
        s.doc == Some(d),
        s.needle == Some(n),
        d.row_fields(d.row) matches Some(f) && 0 <= d.col < f.len(),
        s.search_again(forward).1 matches Act::Search(m, from, fw) && search::is_answer(
            d.data,
            vstd::utf8::encode_utf8(m),
            search::ignores_case(vstd::utf8::encode_utf8(m)),
            from,
            fw,
            r,
        ),
        occurs(d.data, vstd::utf8::encode_utf8(n), q),
    ensures
        ({
            let c = (d.row_fields(d.row)->0)[d.col];
            &&& r is Some
            &&& r matches Some((p, wrapped)) ==> {
                &&& occurs(d.data, vstd::utf8::encode_utf8(n), p as int)
                &&& forward && c.1 <= q ==> !wrapped && c.1 <= p <= q
                &&& !forward && q < c.0 ==> !wrapped && q <= p < c.0
                &&& forward && wrapped ==> p <= q < c.1
                &&& !forward && wrapped ==> c.0 <= q <= p
                &&& forward && !wrapped ==> c.1 <= p
                &&& !forward && !wrapped ==> p < c.0
            }
        }),
{
    let c = (d.row_fields(d.row)->0)[d.col];
    let b = vstd::utf8::encode_utf8(n);
    answer_is_the_nearest_place(
        d.data,
        b,
        if forward {
            c.1
        } else {
            c.0
        },
        forward,
        r,
        q,
    );
}

/// A search is for the text that was looked for last, in the direction that
/// was asked for, and from a cell that is not there it starts at the top.
pub proof fn search_is_for_the_last_text(s: State, d: Table, n: Seq<char>, forward: bool)
    requires
        s.doc == Some(d),
        s.needle == Some(n),
    ensures
        s.search_again(forward).0 == (State { search: Some(None), ..s }),
        s.search_again(forward).1 matches Act::Search(m, from, fw) && m == n && fw == forward && (
        d.row_fields(d.row) is None || (d.row_fields(d.row)->0).len() <= d.col ==> from == 0),
{
}

/// `n` and `N` look for the last text again, forwards and backwards.
pub proof fn keys_search_again(s: State, d: Table)
    requires
        over_table(s, d),
    ensures
        s.on_key(Key::Char('n')) == (State { msg: None, ..s }).search_again(true),
        s.on_key(Key::Char('N')) == (State { msg: None, ..s }).search_again(false),
        s.needle is None ==> s.on_key(Key::Char('n')).1 == Act::Nothing && s.on_key(
            Key::Char('N'),
        ).1 == Act::Nothing,
{
}

/// The match that a search finds puts the cursor on the cell that it lies in,
/// and says so when the search wrapped around.
pub proof fn match_gets_the_cursor(s: State, d: Doc, off: usize, wrapped: bool, row: int, col: int)
    requires
        d.wf(),
        d.delim != csv::NL,
        s.doc == Some(d@),
        s.search == Some(None::<(usize, bool)>),
        d@.done || off < d@.scanned,
        0 <= row,
        d@.row_fields(row) matches Some(f) && 0 <= col < f.len() && f[col].0 <= off < f[col].1,
    ensures
        ({
            let t = s.tick(Poll::Done(Some((off, wrapped))));
            &&& t.search is None
            &&& t.doc matches Some(e) && e.row == row && e.col == col && e.data == d@.data
                && e.ncols() > col && e.rows() == d@.rows()
            &&& wrapped ==> t.msg == Some(("Search wrapped around"@, false))
            &&& !wrapped ==> t.msg == s.msg
        }),
{
    doc::locating_finds_the_cell(d, row, col, off as int);
    crate::picture::lemma_with_cols(d@.layout, col + 1);
}

/// A match behind what is indexed waits for the index.
pub proof fn match_waits_for_the_index(s: State, d: Table, off: usize, wrapped: bool)
    requires
        s.doc == Some(d),
        s.search == Some(None::<(usize, bool)>),
        !d.done,
        off >= d.scanned,
    ensures
        s.tick(Poll::Done(Some((off, wrapped)))) == (State {
            search: Some(Some((off, wrapped))),
            ..s
        }),
{
}

/// A text that is found nowhere is said not to be found, and the cursor stays.
pub proof fn missing_text_is_reported(s: State, n: Seq<char>)
    requires
        s.search == Some(None::<(usize, bool)>),
        s.needle == Some(n),
    ensures
        s.tick(Poll::Done(None)) == (State {
            search: None,
            msg: Some(("Pattern not found: "@ + n, true)),
            ..s
        }),
{
}

// ---------------------------------------------------------------------------
// Keys
// ---------------------------------------------------------------------------

/// Whether keys go to the table, with its cursor inside.
pub open spec fn over_table(s: State, d: Table) -> bool {
    &&& s.doc == Some(d)
    &&& s.prompt is None
    &&& s.overlay is Closed
    &&& s.focus == Focus::Table
    &&& 0 <= d.row
    &&& 0 <= d.col
    &&& d.row < d.rows() || (d.row == 0 && d.rows() == 0)
    &&& d.col < d.ncols()
    &&& d.rows() <= isize::MAX
    &&& d.ncols() <= isize::MAX
}

/// The state with the cursor elsewhere, and nothing else changed but the
/// message taken away.
pub open spec fn cursor_at(s: State, d: Table, row: int, col: int) -> (State, Act) {
    (State { msg: None, doc: Some(Table { row, col, ..d }), ..s }, Act::Nothing)
}

/// `n` further than `at`, but not outside `0..len`.
pub open spec fn within(at: int, n: int, len: int) -> int {
    if at + n >= len {
        if len > 0 {
            len - 1
        } else {
            0
        }
    } else if at + n < 0 {
        0
    } else {
        at + n
    }
}

proof fn lemma_moved(d: Table, n: int)
    requires
        0 <= d.row,
        0 <= d.col,
        d.row < d.rows() || (d.row == 0 && d.rows() == 0),
        d.col < d.ncols(),
        d.rows() <= isize::MAX,
        d.ncols() <= isize::MAX,
        -isize::MAX <= n <= isize::MAX,
    ensures
        d.moved_row(n) == (Table { row: within(d.row, n, d.rows()), ..d }),
        d.moved_col(n) == (Table { col: within(d.col, n, d.ncols()), ..d }),
        d.rows() >= 0,
{
}

/// A key that goes to the table does there what it does.
proof fn lemma_table_key(s: State, d: Table, k: Key)
    requires
        over_table(s, d),
        k != Key::Char('q'),
        k != Key::Ctrl('c'),
        k != Key::Char('?'),
        k != Key::Tab,
        k != Key::BackTab,
        k != Key::Char('1'),
        k != Key::Char('2'),
        k != Key::Char('e'),
    ensures
        s.on_key(k) == (State { msg: None, ..s }).table_key(k),
        k matches Key::Char(c) ==> s.on_key(k) == (State { msg: None, ..s }).table_letter(d, c),
{
}

/// Keys move the cursor one row, a page or half a page up and down, and to the
/// first and the last row, but never out of the table.
pub proof fn keys_move_the_cursor_by_rows(s: State, d: Table)
    requires
        over_table(s, d),
        0 <= s.page <= isize::MAX,
    ensures
        ({
            let (r, c, n) = (d.row, d.col, d.rows());
            let page = if s.page < 1 {
                1
            } else {
                s.page
            };
            &&& s.on_key(Key::Down) == cursor_at(s, d, within(r, 1, n), c)
            &&& s.on_key(Key::Char('j')) == cursor_at(s, d, within(r, 1, n), c)
            &&& s.on_key(Key::Up) == cursor_at(s, d, within(r, -1, n), c)
            &&& s.on_key(Key::Char('k')) == cursor_at(s, d, within(r, -1, n), c)
            &&& s.on_key(Key::PageDown) == cursor_at(s, d, within(r, page, n), c)
            &&& s.on_key(Key::Ctrl('f')) == cursor_at(s, d, within(r, page, n), c)
            &&& s.on_key(Key::PageUp) == cursor_at(s, d, within(r, -page, n), c)
            &&& s.on_key(Key::Ctrl('b')) == cursor_at(s, d, within(r, -page, n), c)
            &&& s.on_key(Key::Ctrl('d')) == cursor_at(s, d, within(r, page / 2, n), c)
            &&& s.on_key(Key::Ctrl('u')) == cursor_at(s, d, within(r, -(page / 2), n), c)
            &&& s.on_key(Key::Home) == cursor_at(s, d, 0, c)
            &&& s.on_key(Key::Char('g')) == cursor_at(s, d, 0, c)
            &&& s.on_key(Key::End) == cursor_at(s, d, within(n, 0, n), c)
            &&& s.on_key(Key::Char('G')) == cursor_at(s, d, within(n, 0, n), c)
        }),
{
    let page = if s.page < 1 {
        1
    } else {
        s.page
    };
    lemma_moved(d, 1);
    lemma_moved(d, -1);
    lemma_moved(d, page);
    lemma_moved(d, -page);
    lemma_moved(d, page / 2);
    lemma_moved(d, -(page / 2));
    lemma_moved(d, isize::MAX as int);
    lemma_table_key(s, d, Key::Down);
    lemma_table_key(s, d, Key::Char('j'));
    lemma_table_key(s, d, Key::Up);
    lemma_table_key(s, d, Key::Char('k'));
    lemma_table_key(s, d, Key::PageDown);
    lemma_table_key(s, d, Key::Ctrl('f'));
    lemma_table_key(s, d, Key::PageUp);
    lemma_table_key(s, d, Key::Ctrl('b'));
    lemma_table_key(s, d, Key::Ctrl('d'));
    lemma_table_key(s, d, Key::Ctrl('u'));
    lemma_table_key(s, d, Key::Home);
    lemma_table_key(s, d, Key::Char('g'));
    lemma_table_key(s, d, Key::End);
    lemma_table_key(s, d, Key::Char('G'));
    assert(within(d.row, isize::MAX as int, d.rows()) == within(d.rows(), 0, d.rows()));
}

/// Keys move the cursor one column or five to the left and to the right, and to
/// the first and the last column, but never out of the table.
pub proof fn keys_move_the_cursor_by_columns(s: State, d: Table)
    requires
        over_table(s, d),
    ensures
        ({
            let (r, c, n) = (d.row, d.col, d.ncols());
            &&& s.on_key(Key::Right) == cursor_at(s, d, r, within(c, 1, n))
            &&& s.on_key(Key::Char('l')) == cursor_at(s, d, r, within(c, 1, n))
            &&& s.on_key(Key::Left) == cursor_at(s, d, r, within(c, -1, n))
            &&& s.on_key(Key::Char('h')) == cursor_at(s, d, r, within(c, -1, n))
            &&& s.on_key(Key::Char('w')) == cursor_at(s, d, r, within(c, 5, n))
            &&& s.on_key(Key::Char('b')) == cursor_at(s, d, r, within(c, -5, n))
            &&& s.on_key(Key::Char('0')) == cursor_at(s, d, r, 0)
            &&& s.on_key(Key::Char('^')) == cursor_at(s, d, r, 0)
            &&& s.on_key(Key::Char('$')) == cursor_at(s, d, r, n - 1)
        }),
{
    lemma_moved(d, 1);
    lemma_moved(d, -1);
    lemma_moved(d, 5);
    lemma_moved(d, -5);
    lemma_moved(d, isize::MAX as int);
    lemma_table_key(s, d, Key::Right);
    lemma_table_key(s, d, Key::Char('l'));
    lemma_table_key(s, d, Key::Left);
    lemma_table_key(s, d, Key::Char('h'));
    lemma_table_key(s, d, Key::Char('w'));
    lemma_table_key(s, d, Key::Char('b'));
    lemma_table_key(s, d, Key::Char('0'));
    lemma_table_key(s, d, Key::Char('^'));
    lemma_table_key(s, d, Key::Char('$'));
    assert(within(d.col, isize::MAX as int, d.ncols()) == d.ncols() - 1);
}

/// Whether keys go to the panels.
pub open spec fn over_panels(s: State) -> bool {
    s.prompt is None && s.overlay is Closed
}

/// Keys that work in either panel: quitting, the help, switching the panel and
/// showing or hiding the explorer. A panel without a document cannot be
/// switched to.
pub proof fn keys_work_in_both_panels(s: State)
    requires
        over_panels(s),
    ensures
        ({
            let t = State { msg: None, ..s };
            let to_tree = State { focus: Focus::Tree, show_tree: true, ..t };
            let to_table = if s.doc is Some {
                State { focus: Focus::Table, ..t }
            } else {
                State { msg: Some(("No file open: pick one in the explorer"@, false)), ..t }
            };
            let other = if s.focus == Focus::Tree {
                to_table
            } else {
                to_tree
            };
            &&& s.on_key(Key::Char('q')) == (State { quit: true, ..t }, Act::Nothing)
            &&& s.on_key(Key::Ctrl('c')) == (State { quit: true, ..t }, Act::Nothing)
            &&& s.on_key(Key::Char('?')) == (State { overlay: Cover::Help(0), ..t }, Act::Nothing)
            &&& s.on_key(Key::Tab) == (other, Act::Nothing)
            &&& s.on_key(Key::BackTab) == (other, Act::Nothing)
            &&& s.on_key(Key::Char('1')) == (to_tree, Act::Nothing)
            &&& s.on_key(Key::Char('2')) == (to_table, Act::Nothing)
            &&& s.on_key(Key::Char('e')) == (
                State {
                    show_tree: !s.show_tree,
                    focus: if s.show_tree && s.doc is Some {
                        Focus::Table
                    } else {
                        s.focus
                    },
                    ..t
                },
                Act::Nothing,
            )
        }),
{
}

/// Keys of the table that ask for something: a text to look for, a row to go
/// to, the record in full. Escape ends the search and its marks.
pub proof fn keys_ask_in_the_table(s: State, d: Table)
    requires
        over_table(s, d),
    ensures
        ({
            let t = State { msg: None, ..s };
            &&& s.on_key(Key::Char('/')) == (
                State { prompt: Some((PromptKind::Search, seq![])), ..t },
                Act::Nothing,
            )
            &&& s.on_key(Key::Char(':')) == (
                State { prompt: Some((PromptKind::Goto, seq![])), ..t },
                Act::Nothing,
            )
            &&& s.on_key(Key::Esc) == (State { needle: None, search: None, ..t }, Act::Cancel)
            &&& s.on_key(Key::Enter).1 == Act::Nothing
            &&& s.on_key(Key::Enter).0 == (State { overlay: s.on_key(Key::Enter).0.overlay, ..t })
            &&& s.on_key(Key::Enter).0.overlay matches Cover::Record(r) && r.jump && r.scroll == 0
                && r.fields.len() == 0 && r.row == usize::MAX
        }),
{
    lemma_table_key(s, d, Key::Char('/'));
    lemma_table_key(s, d, Key::Char(':'));
    lemma_table_key(s, d, Key::Esc);
    lemma_table_key(s, d, Key::Enter);
}

/// Keys make the current column wider and narrower by two, from 1 to 500 cells,
/// and leave everything else alone.
pub proof fn keys_resize_the_column(s: State, d: Table)
    requires
        over_table(s, d),
        d.layout.wf(),
    ensures
        ({
            let w = d.layout.widths[d.col] as int;
            let more = if w + 2 > 500 {
                500
            } else {
                w + 2
            };
            let less = if w - 2 < 1 {
                1
            } else {
                w - 2
            };
            &&& s.on_key(Key::Char('+')) == with_width(s, d, more)
            &&& s.on_key(Key::Char('>')) == with_width(s, d, more)
            &&& s.on_key(Key::Char('<')) == with_width(s, d, less)
        }),
{
    lemma_table_key(s, d, Key::Char('+'));
    lemma_table_key(s, d, Key::Char('>'));
    lemma_table_key(s, d, Key::Char('<'));
    assert(1 <= d.layout.widths[d.col] <= 500);
}

/// The state with the current column of another width.
pub open spec fn with_width(s: State, d: Table, w: int) -> (State, Act) {
    let layout = doc::Layout { widths: d.layout.widths.update(d.col, w as u16), ..d.layout };
    (State { msg: None, doc: Some(Table { layout, ..d }), ..s }, Act::Nothing)
}

/// `D` takes the next delimiter, from the comma over the semicolon and the tab
/// to the pipe and back, and goes to the first column; `T` takes the first
/// record as the header, or no longer, and stays on its record.
pub proof fn keys_change_how_the_file_is_read(s: State, d: Table)
    requires
        over_table(s, d),
        d.layout.wf(),
        0 <= d.row_off,
        0 <= d.col_off,
    ensures
        s.on_key(Key::Char('D')).1 == Act::Nothing,
        s.on_key(Key::Char('D')).0.doc matches Some(e) && {
            &&& d.delim == 0x2c ==> e.delim == 0x3b
            &&& d.delim == 0x3b ==> e.delim == 0x09
            &&& d.delim == 0x09 ==> e.delim == 0x7c
            &&& d.delim == 0x7c ==> e.delim == 0x2c
            &&& e.layout == doc::layout_of(d.data, e.delim, d.has_header)
            &&& e == (Table { delim: e.delim, col: 0, col_off: 0, layout: e.layout, ..d })
        },
        s.on_key(Key::Char('T')).1 == Act::Nothing,
        s.on_key(Key::Char('T')).0.doc matches Some(e) && {
            &&& e.has_header == !d.has_header
            &&& e.layout == doc::layout_of(d.data, d.delim, e.has_header)
            &&& d.record(d.row) is Some && (d.has_header || d.row > 0) ==> e.record(e.row)
                == d.record(d.row)
            &&& e.data == d.data && e.delim == d.delim && e.found == d.found
            &&& e.col == if d.col < e.ncols() {
                d.col
            } else {
                e.ncols() - 1
            }
        },
{
    lemma_table_key(s, d, Key::Char('D'));
    lemma_table_key(s, d, Key::Char('T'));
    assert(doc::layout_of(d.data, doc::next_delim(d.delim), d.has_header).widths.len() >= 1);
    assert(doc::layout_of(d.data, d.delim, !d.has_header).widths.len() >= 1);
    if d.record(d.row) is Some && (d.has_header || d.row > 0) {
        doc::toggling_the_header_keeps_the_record(d);
    }
}

/// Keys of the explorer move the selection by entries and pages, and to the
/// first and the last entry, but never out of the list.
pub proof fn keys_move_the_selection(s: State)
    requires
        over_panels(s),
        s.focus == Focus::Tree,
        0 <= s.tree.sel,
        s.tree.sel < s.tree.entries.len() || s.tree.sel == 0,
        s.tree.entries.len() <= isize::MAX,
        0 <= s.tree_page <= isize::MAX,
    ensures
        ({
            let (e, n) = (s.tree.sel, s.tree.entries.len() as int);
            let page = if s.tree_page < 1 {
                1
            } else {
                s.tree_page
            };
            &&& s.on_key(Key::Down) == selected_at(s, within(e, 1, n))
            &&& s.on_key(Key::Char('j')) == selected_at(s, within(e, 1, n))
            &&& s.on_key(Key::Up) == selected_at(s, within(e, -1, n))
            &&& s.on_key(Key::Char('k')) == selected_at(s, within(e, -1, n))
            &&& s.on_key(Key::PageDown) == selected_at(s, within(e, page, n))
            &&& s.on_key(Key::Ctrl('f')) == selected_at(s, within(e, page, n))
            &&& s.on_key(Key::PageUp) == selected_at(s, within(e, -page, n))
            &&& s.on_key(Key::Ctrl('b')) == selected_at(s, within(e, -page, n))
            &&& s.on_key(Key::Ctrl('d')) == selected_at(s, within(e, page / 2, n))
            &&& s.on_key(Key::Ctrl('u')) == selected_at(s, within(e, -(page / 2), n))
            &&& s.on_key(Key::Home) == selected_at(s, 0)
            &&& s.on_key(Key::Char('g')) == selected_at(s, 0)
            &&& s.on_key(Key::End) == selected_at(s, within(n, 0, n))
            &&& s.on_key(Key::Char('G')) == selected_at(s, within(n, 0, n))
        }),
{
    let page = if s.tree_page < 1 {
        1
    } else {
        s.tree_page
    };
    lemma_tree_moved(s.tree, 1);
    lemma_tree_moved(s.tree, -1);
    lemma_tree_moved(s.tree, page);
    lemma_tree_moved(s.tree, -page);
    lemma_tree_moved(s.tree, page / 2);
    lemma_tree_moved(s.tree, -(page / 2));
    lemma_tree_moved(s.tree, isize::MAX as int);
    lemma_tree_key(s, Key::Down);
    lemma_tree_key(s, Key::Char('j'));
    lemma_tree_key(s, Key::Up);
    lemma_tree_key(s, Key::Char('k'));
    lemma_tree_key(s, Key::PageDown);
    lemma_tree_key(s, Key::Ctrl('f'));
    lemma_tree_key(s, Key::PageUp);
    lemma_tree_key(s, Key::Ctrl('b'));
    lemma_tree_key(s, Key::Ctrl('d'));
    lemma_tree_key(s, Key::Ctrl('u'));
    lemma_tree_key(s, Key::Home);
    lemma_tree_key(s, Key::Char('g'));
    lemma_tree_key(s, Key::End);
    lemma_tree_key(s, Key::Char('G'));
    let n = s.tree.entries.len() as int;
    assert(within(s.tree.sel, isize::MAX as int, n) == within(n, 0, n));
}

/// The state with another entry selected.
pub open spec fn selected_at(s: State, i: int) -> (State, Act) {
    (State { msg: None, tree: Explorer { sel: i, ..s.tree }, ..s }, Act::Nothing)
}

proof fn lemma_tree_moved(t: Explorer, n: int)
    requires
        0 <= t.sel,
        t.sel < t.entries.len() || t.sel == 0,
        t.entries.len() <= isize::MAX,
        -isize::MAX <= n <= isize::MAX,
    ensures
        t.moved(n) == (Explorer { sel: within(t.sel, n, t.entries.len() as int), ..t }),
{
}

proof fn lemma_tree_key(s: State, k: Key)
    requires
        over_panels(s),
        s.focus == Focus::Tree,
        k != Key::Char('q'),
        k != Key::Ctrl('c'),
        k != Key::Char('?'),
        k != Key::Tab,
        k != Key::BackTab,
        k != Key::Char('1'),
        k != Key::Char('2'),
        k != Key::Char('e'),
    ensures
        s.on_key(k) == (State { msg: None, ..s }).tree_key(k),
{
}

/// Keys of the explorer that take reading directories, and those that open the
/// selected entry: a file is opened, unless it is the open one; a directory is
/// expanded or, by enter and space, collapsed again.
pub proof fn keys_open_entries(s: State)
    requires
        over_panels(s),
        s.focus == Focus::Tree,
        0 <= s.tree.sel < s.tree.entries.len(),
    ensures
        ({
            let t = State { msg: None, ..s };
            let l = s.tree.entries[s.tree.sel];
            let open = s.doc matches Some(d) && crate::path::same_path(d.path, l.path);
            let on = if !l.is_dir {
                if open {
                    (State { focus: Focus::Table, ..t }, Act::Nothing)
                } else {
                    (State { search: None, ..t }, Act::Open(l.path))
                }
            } else if !l.expanded {
                (t, Act::Tree(TreeOp::Expand))
            } else {
                (t, Act::Nothing)
            };
            let toggle = if l.is_dir && l.expanded {
                (State { tree: s.tree.collapsed(), ..t }, Act::Nothing)
            } else {
                on
            };
            &&& s.on_key(Key::Right) == on
            &&& s.on_key(Key::Char('l')) == on
            &&& s.on_key(Key::Enter) == toggle
            &&& s.on_key(Key::Char(' ')) == toggle
            &&& s.on_key(Key::Left) == (
                State { tree: s.tree.collapsed_or_parent(), ..t },
                Act::Nothing,
            )
            &&& s.on_key(Key::Char('h')) == s.on_key(Key::Left)
            &&& s.on_key(Key::Backspace) == (t, Act::Tree(TreeOp::GoUp))
            &&& s.on_key(Key::Char('-')) == (t, Act::Tree(TreeOp::GoUp))
            &&& s.on_key(Key::Char('.')) == (t, Act::Tree(TreeOp::ToggleHidden))
            &&& s.on_key(Key::Char('R')) == (t, Act::Tree(TreeOp::Reload))
            &&& s.on_key(Key::Char('c')) == (t, Act::Tree(TreeOp::EnterDir))
        }),
{
    lemma_tree_key(s, Key::Right);
    lemma_tree_key(s, Key::Char('l'));
    lemma_tree_key(s, Key::Enter);
    lemma_tree_key(s, Key::Char(' '));
    lemma_tree_key(s, Key::Left);
    lemma_tree_key(s, Key::Char('h'));
    lemma_tree_key(s, Key::Backspace);
    lemma_tree_key(s, Key::Char('-'));
    lemma_tree_key(s, Key::Char('.'));
    lemma_tree_key(s, Key::Char('R'));
    lemma_tree_key(s, Key::Char('c'));
}

/// Editing at the prompt: backspace takes away the last character, and closes
/// the prompt when there is none; ctrl-u empties it; escape and ctrl-c close
/// it.
pub proof fn keys_edit_the_prompt(s: State, kind: PromptKind, input: Seq<char>, c: char)
    requires
        s.prompt == Some((kind, input)),
    ensures
        ({
            let t = State { msg: None, ..s };
            let closed = State { prompt: None, ..t };
            &&& s.on_key(Key::Backspace) == (
                if input.len() == 0 {
                    closed
                } else {
                    State { prompt: Some((kind, input.take(input.len() - 1))), ..t }
                },
                Act::Nothing,
            )
            &&& s.on_key(Key::Ctrl('u')) == (
                State { prompt: Some((kind, seq![])), ..t },
                Act::Nothing,
            )
            &&& s.on_key(Key::Esc) == (closed, Act::Nothing)
            &&& s.on_key(Key::Ctrl('c')) == (closed, Act::Nothing)
            &&& s.on_key(Key::Char(c)) == (
                State { prompt: Some((kind, input.push(c))), ..t },
                Act::Nothing,
            )
        }),
{
    if input.len() > 0 {
        assert(input.drop_last() =~= input.take(input.len() - 1));
    }
}

/// The digits of a number are the digits of its notation.
proof fn lemma_digits_of(n: nat)
    ensures
        state::digits_of(text::decimal(n)) == text::decimal_bytes(n),
    decreases n,
{
    text::lemma_decimal_digits(n);
    lemma_digits_only(text::decimal(n));
}

proof fn lemma_digits_only(s: Seq<char>)
    requires
        forall|k: int| 0 <= k < s.len() ==> 0x30 <= #[trigger] s[k] as int <= 0x39,
    ensures
        state::digits_of(s) == s.map_values(|c: char| c as u8),
    decreases s.len(),
{
    let m = s.map_values(|c: char| c as u8);
    if s.len() > 0 {
        let t = s.drop_last();
        assert forall|k: int| 0 <= k < t.len() implies 0x30 <= #[trigger] t[k] as int <= 0x39 by {
            assert(t[k] == s[k]);
        }
        lemma_digits_only(t);
        assert(0x30 <= s[s.len() - 1] as int <= 0x39);
        text::lemma_code_point(s.last());
        assert(m =~= t.map_values(|c: char| c as u8).push(s.last() as u8));
    } else {
        assert(m =~= seq![]);
    }
}

/// Typing the number of a row and pressing enter goes to that row, counted from
/// 1, and to the last one when there are not so many.
pub proof fn typed_row_number_is_gone_to(s: State, d: Table, n: nat)
    requires
        s.doc == Some(d),
        s.msg is None,
        s.prompt == Some((PromptKind::Goto, Seq::<char>::empty())),
        0 < n <= usize::MAX,
        0 <= d.col < d.ncols(),
    ensures
        ({
            let (t, a) = state::typing(s, text::decimal(n)).on_key(Key::Enter);
            &&& a == Act::Nothing
            &&& t.prompt is None
            &&& t.doc matches Some(e) && e == (Table { row: e.row, ..d }) && e.row == if n
                <= d.rows() {
                n - 1
            } else if d.rows() > 0 {
                d.rows() - 1
            } else {
                0
            }
            &&& n <= d.rows() || d.done ==> t.msg is None
            &&& n > d.rows() && !d.done ==> t.msg == Some(
                ("Only "@ + crate::util::grouped(d.rows() as nat) + " rows indexed so far"@, false),
            )
        }),
{
    let keys = text::decimal(n);
    state::prompt_takes_typed_text(s, PromptKind::Goto, seq![], keys);
    assert(Seq::<char>::empty() + keys =~= keys);
    lemma_digits_of(n);
    text::decimal_reads_back(n);
    text::lemma_decimal_digits(n);
    let b = text::decimal_bytes(n);
    assert forall|k: int| 0 <= k < b.len() implies text::is_digit_byte(#[trigger] b[k]) by {
        assert(0x30 <= keys[k] as int <= 0x39);
        text::lemma_code_point(keys[k]);
    }
    lemma_decimal_nonempty(n);
    assert(b.len() == keys.len());
}

proof fn lemma_decimal_nonempty(n: nat)
    ensures
        text::decimal(n).len() > 0,
    decreases n,
{
}

proof fn lemma_digits_concat(a: Seq<char>, b: Seq<char>)
    ensures
        state::digits_of(a + b) == state::digits_of(a) + state::digits_of(b),
    decreases b.len(),
{
    if b.len() > 0 {
        lemma_digits_concat(a, b.drop_last());
        assert((a + b).drop_last() =~= a + b.drop_last());
        assert((a + b).last() == b.last());
        assert(state::digits_of(a + b) =~= state::digits_of(a) + state::digits_of(b));
    } else {
        assert(a + b =~= a);
        assert(state::digits_of(b) =~= seq![]);
        assert(state::digits_of(a) + state::digits_of(b) =~= state::digits_of(a));
    }
}

/// Only the digits of what is typed to go to a row count: any other character
/// between them may be left out.
pub proof fn only_digits_tell_the_row(s: State, a: Seq<char>, c: char, b: Seq<char>)
    requires
        !(0x30 <= c as int <= 0x39),
    ensures
        s.goto(a + seq![c] + b).doc == s.goto(a + b).doc,
{
    text::lemma_code_point(c);
    assert(seq![c].drop_last() =~= seq![]);
    assert(seq![c].last() == c);
    reveal_with_fuel(state::digits_of, 2);
    assert(state::digits_of(seq![c]) =~= seq![]);
    lemma_digits_concat(a, seq![c]);
    lemma_digits_concat(a + seq![c], b);
    lemma_digits_concat(a, b);
    assert(state::digits_of(a) + state::digits_of(seq![c]) =~= state::digits_of(a));
}

/// News of a search: none change nothing, an end without a result ends it, and
/// a match that waits for the index is gone to once it is indexed.
pub proof fn news_of_a_search_are_taken_up(s: State, d: Table, off: usize, wrapped: bool, p: Poll)
    requires
        s.doc == Some(d),
    ensures
        s.search is None ==> s.tick(p) == s,
        s.search == Some(None::<(usize, bool)>) ==> s.tick(Poll::Empty) == s && s.tick(
            Poll::Disconnected,
        ) == (State { search: None, ..s }),
        s.search == Some(Some((off, wrapped))) ==> s.tick(p) == (State {
            search: Some(None::<(usize, bool)>),
            ..s
        }).tick(Poll::Done(Some((off, wrapped)))),
{
    if s.search == Some(Some((off, wrapped))) {
        let t = State { search: Some(None::<(usize, bool)>), ..s };
        assert(t.goto_match(off, wrapped) == s.goto_match(off, wrapped));
    }
}

/// What is typed to go to a row has to hold a digit.
pub proof fn row_number_needs_a_digit(s: State, input: Seq<char>, d: Table)
    requires
        s.doc == Some(d),
        s.prompt == Some((PromptKind::Goto, input)),
        forall|k: int|
            0 <= k < input.len() ==> !(0x30 <= #[trigger] input[k] as int <= 0x39),
    ensures
        s.on_key(Key::Enter) == (
            State {
                prompt: None,
                msg: Some(("Invalid row number: "@ + input, true)),
                ..s
            },
            Act::Nothing,
        ),
{
    lemma_no_digits(input);
}

proof fn lemma_no_digits(s: Seq<char>)
    requires
        forall|k: int| 0 <= k < s.len() ==> !(0x30 <= #[trigger] s[k] as int <= 0x39),
    ensures
        state::digits_of(s).len() == 0,
    decreases s.len(),
{
    if s.len() > 0 {
        let t = s.drop_last();
        assert forall|k: int| 0 <= k < t.len() implies !(0x30 <= #[trigger] t[k] as int
            <= 0x39) by {
            assert(t[k] == s[k]);
        }
        lemma_no_digits(t);
        assert(!(0x30 <= s[s.len() - 1] as int <= 0x39));
        text::lemma_code_point(s.last());
    }
}

// ---------------------------------------------------------------------------
// Copying
// ---------------------------------------------------------------------------

/// Whether `sent` asks the terminal to put `bytes` on its clipboard: between the
/// introducer `ESC ] 5 2 ; c ;` and a bell stands what decodes to them.
pub open spec fn sets_clipboard(sent: Seq<u8>, bytes: Seq<u8>) -> bool {
    exists|b: Seq<char>|
        #![trigger crate::base64::unbase64(b)]
        crate::base64::unbase64(b) == bytes && sent == seq![
            0x1bu8,
            0x5d,
            0x35,
            0x32,
            0x3b,
            0x63,
            0x3b,
        ] + vstd::utf8::encode_utf8(b) + seq![0x07u8]
}

/// Copying a text sends it to the clipboard behind what is to be sent anyway,
/// says how many characters it has, and changes nothing else.
pub proof fn copied_text_is_sent(s: State, t: Seq<char>, what: Seq<char>)
    ensures
        ({
            let u = s.copied(t, what);
            &&& s.output.is_prefix_of(u.output)
            &&& sets_clipboard(
                u.output.skip(s.output.len() as int),
                vstd::utf8::encode_utf8(t),
            )
            &&& u == (State { output: u.output, msg: u.msg, ..s })
            &&& u.msg == Some(
                (
                    "Copied "@ + what + " to clipboard ("@ + text::decimal(t.len()) + " chars)"@,
                    false,
                ),
            )
        }),
{
    let u = s.copied(t, what);
    let bytes = vstd::utf8::encode_utf8(t);
    let b = crate::base64::base64_from(bytes, 0);
    crate::base64::base64_decodes_back(bytes);
    assert(u.output.skip(s.output.len() as int) =~= state::clipboard(bytes));
    assert(crate::base64::unbase64(b) == bytes);
}

/// `y` copies the text of the current cell, with its line breaks, and `Y` the
/// current record without the end of its line.
pub proof fn keys_copy(s: State, d: Table)
    requires
        over_table(s, d),
        d.record(d.row) is Some,
    ensures
        ({
            let t = State { msg: None, ..s };
            let f = d.row_fields(d.row)->0;
            let start = d.record(d.row)->0;
            let line = text::utf8_lossy(
                d.data.subrange(start, csv::record_end(d.data, start)),
            );
            &&& s.on_key(Key::Char('y')) == (
                t.copied(
                    if d.col < f.len() {
                        csv::field_text(
                            d.data.subrange(f[d.col].0, f[d.col].1),
                            0x100_0000,
                            true,
                        )
                    } else {
                        seq![]
                    },
                    "cell"@,
                ),
                Act::Nothing,
            )
            &&& s.on_key(Key::Char('Y')).1 == Act::Nothing
            &&& exists|n: int| #[trigger]
                ends_line_at(line, n) && s.on_key(Key::Char('Y')).0 == t.copied(
                    line.take(n),
                    "row"@,
                )
        }),
{
    lemma_table_key(s, d, Key::Char('y'));
    lemma_table_key(s, d, Key::Char('Y'));
    let start = d.record(d.row)->0;
    let line = text::utf8_lossy(d.data.subrange(start, csv::record_end(d.data, start)));
    lemma_without_line_end(line);
}

/// Whether what follows character `n` is nothing but the end of the line, and
/// all of it.
pub open spec fn ends_line_at(line: Seq<char>, n: int) -> bool {
    &&& 0 <= n <= line.len()
    &&& n == 0 || (line[n - 1] != '\r' && line[n - 1] != '\n')
    &&& forall|k: int| n <= k < line.len() ==> line[k] == '\r' || line[k] == '\n'
}

proof fn lemma_without_line_end(line: Seq<char>)
    ensures
        ({
            let w = state::without_line_end(line);
            w.len() <= line.len() && ends_line_at(line, w.len() as int) && w == line.take(
                w.len() as int,
            )
        }),
    decreases line.len(),
{
    if line.len() > 0 && (line.last() == '\r' || line.last() == '\n') {
        let t = line.drop_last();
        lemma_without_line_end(t);
        let w = state::without_line_end(line);
        assert(t.take(w.len() as int) =~= line.take(w.len() as int));
        assert forall|k: int| w.len() <= k < line.len() implies line[k] == '\r' || line[k]
            == '\n' by {
            if k < t.len() {
                assert(t[k] == line[k]);
            }
        }
        if w.len() > 0 {
            assert(t[w.len() - 1] == line[w.len() - 1]);
        }
    } else {
        assert(line.take(line.len() as int) =~= line);
    }
}

// ---------------------------------------------------------------------------
// What lies over the panels
// ---------------------------------------------------------------------------

/// Over the help, the arrows scroll it, ctrl-c quits and any other key closes
/// it.
pub proof fn keys_over_the_help(s: State, n: int, k: Key)
    requires
        s.prompt is None,
        s.overlay == Cover::Help(n),
        0 <= n < usize::MAX,
    ensures
        ({
            let t = State { msg: None, ..s };
            s.on_key(k) == (
                if k == Key::Down || k == Key::Char('j') {
                    State { overlay: Cover::Help(n + 1), ..t }
                } else if k == Key::Up || k == Key::Char('k') {
                    State {
                        overlay: Cover::Help(
                            if n > 0 {
                                n - 1
                            } else {
                                0
                            },
                        ),
                        ..t
                    }
                } else if k == Key::Ctrl('c') {
                    State { quit: true, ..t }
                } else {
                    State { overlay: Cover::Closed, ..t }
                },
                Act::Nothing,
            )
        }),
{
}

/// Over a record, keys scroll it by a line or by ten and to its ends, go to the
/// records before and behind, copy, and close it.
pub proof fn keys_over_the_record(s: State, r: Record, d: Table)
    requires
        s.prompt is None,
        s.overlay == Cover::Record(r),
        s.doc == Some(d),
        0 <= r.scroll <= isize::MAX,
        0 <= d.row,
        0 <= d.col < d.ncols(),
        d.row < d.rows() || (d.row == 0 && d.rows() == 0),
        d.rows() <= isize::MAX,
        d.ncols() <= isize::MAX,
    ensures
        ({
            let t = State { msg: None, ..s };
            let up = |n: int|
                if r.scroll > n {
                    r.scroll - n
                } else {
                    0
                };
            let closed = State { overlay: Cover::Closed, ..t };
            let prev = State { doc: Some(Table { row: within(d.row, -1, d.rows()), ..d }), ..t };
            let next = State { doc: Some(Table { row: within(d.row, 1, d.rows()), ..d }), ..t };
            &&& s.on_key(Key::Esc).0 == closed
            &&& s.on_key(Key::Enter).0 == closed
            &&& s.on_key(Key::Char('q')).0 == closed
            &&& s.on_key(Key::Down).0 == record_at(t, r, r.scroll + 1)
            &&& s.on_key(Key::Char('j')).0 == record_at(t, r, r.scroll + 1)
            &&& s.on_key(Key::Up).0 == record_at(t, r, up(1))
            &&& s.on_key(Key::Char('k')).0 == record_at(t, r, up(1))
            &&& s.on_key(Key::PageDown).0 == record_at(t, r, r.scroll + 10)
            &&& s.on_key(Key::PageUp).0 == record_at(t, r, up(10))
            &&& s.on_key(Key::Home).0 == record_at(t, r, 0)
            &&& s.on_key(Key::Char('g')).0 == record_at(t, r, 0)
            &&& s.on_key(Key::End).0 == record_at(t, r, usize::MAX as int)
            &&& s.on_key(Key::Char('G')).0 == record_at(t, r, usize::MAX as int)
            &&& s.on_key(Key::Left).0 == prev
            &&& s.on_key(Key::Char('h')).0 == prev
            &&& s.on_key(Key::Right).0 == next
            &&& s.on_key(Key::Char('l')).0 == next
            &&& s.on_key(Key::Char('y')).0 == t.copy_cell()
            &&& s.on_key(Key::Char('Y')).0 == t.copy_row()
            &&& s.on_key(Key::Ctrl('c')).0 == (State { quit: true, ..t })
        }),
{
    lemma_moved(d, 1);
    lemma_moved(d, -1);
}

/// The state with a record scrolled.
pub open spec fn record_at(s: State, r: Record, scroll: int) -> State {
    State { overlay: Cover::Record(Record { scroll, ..r }), ..s }
}

// ---------------------------------------------------------------------------
// Mouse
// ---------------------------------------------------------------------------

/// The slot that holds a column of the screen is found.
proof fn lemma_hit(hits: Seq<(u16, u16, usize)>, x: int, i: int, k: int)
    requires
        0 <= i <= k < hits.len(),
        hits[k].0 <= x < hits[k].1,
        forall|j: int| 0 <= j < k ==> (#[trigger] hits[j]).1 <= hits[k].0,
    ensures
        state::hit(hits, x, i) == Some(hits[k].2),
    decreases k - i,
{
    if i < k {
        assert(hits[i].1 <= hits[k].0);
        lemma_hit(hits, x, i + 1, k);
    }
}

/// A click on a cell of the table puts the cursor there: on the row that the
/// line shows and on the column whose slot it lies in.
pub proof fn click_selects_the_cell(s: State, d: Table, x: int, y: int, k: int)
    requires
        s.overlay is Closed,
        s.doc == Some(d),
        !(s.show_tree && s.tree_rect.inside().has(x, y)),
        s.table_rect.has(x, y),
        s.rows_y <= y,
        d.row_off + (y - s.rows_y) < d.rows(),
        0 <= k < s.col_hits.len(),
        s.col_hits[k].0 <= x < s.col_hits[k].1,
        forall|j: int| 0 <= j < k ==> (#[trigger] s.col_hits[j]).1 <= s.col_hits[k].0,
    ensures
        s.on_click(x, y) == (
            State {
                focus: Focus::Table,
                doc: Some(
                    Table {
                        row: d.row_off + (y - s.rows_y),
                        col: s.col_hits[k].2 as int,
                        ..d
                    },
                ),
                ..s
            },
            Act::Nothing,
        ),
{
    lemma_hit(s.col_hits, x, 0, k);
}

/// A click on an entry of the explorer selects and opens it; a click while
/// something lies over the panels only takes that away.
pub proof fn click_opens_the_entry(s: State, x: int, y: int)
    ensures
        !(s.overlay is Closed) ==> s.on_click(x, y) == (
            State { overlay: Cover::Closed, ..s },
            Act::Nothing,
        ),
        s.overlay is Closed && s.show_tree && s.tree_rect.inside().has(x, y) ==> {
            let i = s.tree.off + (y - s.tree_rect.inside().y);
            let t = State { focus: Focus::Tree, ..s };
            if i < s.tree.entries.len() {
                s.on_click(x, y) == (State {
                    tree: Explorer { sel: i, ..s.tree },
                    ..t
                }).activate_tree(false)
            } else {
                s.on_click(x, y) == (t, Act::Nothing)
            }
        },
{
}

/// The wheel moves by three: the help, the record, the selection of the
/// explorer when it is over it, and else the row of the table.
pub proof fn wheel_moves_by_three(s: State, x: u16, y: u16, down: bool)
    ensures
        ({
            let n = if down {
                3int
            } else {
                -3int
            };
            let (t, a) = s.handle(
                Event::Scroll(
                    x,
                    y,
                    if down {
                        1i8
                    } else {
                        (-1) as i8
                    },
                ),
            );
            &&& a == Act::Nothing
            &&& s.overlay matches Cover::Help(m) ==> (3 <= m < usize::MAX - 3 ==> t == (State {
                overlay: Cover::Help(m + n),
                ..s
            }))
            &&& s.overlay matches Cover::Record(r) ==> (3 <= r.scroll < usize::MAX - 3 ==> t == (
            State { overlay: Cover::Record(Record { scroll: r.scroll + n, ..r }), ..s }))
            &&& s.overlay is Closed && s.show_tree && s.tree_rect.has(x as int, y as int)
                ==> t == (State { tree: s.tree.moved(n), ..s })
            &&& s.overlay is Closed && !(s.show_tree && s.tree_rect.has(x as int, y as int))
                ==> (s.doc matches Some(d) ==> t == (State { doc: Some(d.moved_row(n)), ..s }))
        }),
{
}

} // verus!
