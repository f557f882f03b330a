//! What starting and opening files promises.

use crate::doc::{self, Table};
use crate::state::{self, Act, Cover, Focus, State};
use crate::tree::{self, Listed};
use crate::{index, path, text};
use vstd::prelude::*;

verus! {

/// The program starts in the explorer, which shows what is in the directory
/// that it was started for, without hidden files and with nothing expanded.
pub proof fn program_starts_in_the_explorer(
    root: Seq<u8>,
    home: Option<Seq<char>>,
    ls: Seq<Listed>,
)
    ensures
        ({
            let (s, a) = state::started_with(root, None, home, ls);
            &&& a == Act::Nothing
            &&& !s.quit
            &&& s.focus == Focus::Tree
            &&& s.show_tree
            &&& s.doc is None && s.prompt is None && s.msg is None
            &&& s.overlay == Cover::Closed
            &&& s.search is None && s.needle is None
            &&& s.output.len() == 0
            &&& s.home == home
            &&& s.tree.root == root
            &&& s.tree.entries == tree::listing(tree::items_in(ls, root), root, 0, false)
            &&& s.tree.sel == 0 && s.tree.off == 0
            &&& !s.tree.show_hidden
        }),
{
    let its = tree::items_in(ls, root);
    let es = tree::listing(its, root, 0, false);
    let from = crate::exploring::entries_show_the_items(its, root, 0, false);
    assert forall|k: int| 0 <= k < es.len() implies !(#[trigger] es[k]).expanded by {
        assert(0 <= from[k]);
    }
    crate::exploring::lemma_closed(ls, false, root, 0, es);
}

/// A file named at the start is selected in the explorer, where it is listed,
/// and opened.
pub proof fn named_file_is_opened(
    root: Seq<u8>,
    file: Seq<u8>,
    home: Option<Seq<char>>,
    ls: Seq<Listed>,
    k: int,
)
    ensures
        ({
            let (s, a) = state::started_with(root, Some(file), home, ls);
            let none = state::started_with(root, None, home, ls).0;
            &&& a == Act::Open(file)
            &&& s.tree.entries == none.tree.entries
            &&& 0 <= k < s.tree.entries.len() && path::same_path(s.tree.entries[k].path, file)
                ==> 0 <= s.tree.sel <= k && path::same_path(
                s.tree.entries[s.tree.sel].path,
                file,
            )
        }),
{
    let s = state::started(root, home, ls);
    if 0 <= k < s.tree.entries.len() && path::same_path(s.tree.entries[k].path, file) {
        crate::exploring::selecting_finds_the_path(s.tree, file, k);
    }
}

/// A file that was opened is shown from its first row and column on, under the
/// last part of its path, with its first record as the header; the keys go to
/// the table, nothing lies over it and no search goes on.
pub proof fn opened_file_is_shown_from_the_top(
    s: State,
    p: Seq<u8>,
    data: Seq<u8>,
    delim: u8,
)
    ensures
        ({
            let t = s.opened(doc::opened(p, data, delim));
            &&& t.focus == Focus::Table
            &&& t.overlay == Cover::Closed
            &&& t.search is None
            &&& t.tree == s.tree && t.needle == s.needle && t.msg == s.msg
            &&& t.prompt == s.prompt && t.show_tree == s.show_tree && t.quit == s.quit
            &&& t.output == s.output
            &&& t.doc matches Some(d) && {
                &&& d.path == p && d.data == data && d.delim == delim
                &&& d.has_header
                &&& d.row == 0 && d.col == 0 && d.row_off == 0 && d.col_off == 0
                &&& d.found == 0 && d.scanned == 0 && !d.done && !d.cancelled
                &&& path::name_of(p) matches Some(n) ==> d.name == text::utf8_lossy(n)
            }
        }),
{
}

/// What keeps a file from being opened is told, and nothing else changes.
pub proof fn failure_to_open_is_told(s: State, p: Seq<u8>, why: Seq<char>)
    ensures
        ({
            let t = s.open_failed(p, why);
            &&& t == (State { msg: t.msg, ..s })
            &&& t.msg == Some(("Cannot open "@ + text::utf8_lossy(p) + ": "@ + why, true))
        }),
{
}

/// A file that is open already is not opened again: the keys go to it. Opening
/// another one gives up the search.
pub proof fn open_file_is_not_opened_again(s: State, d: Table, p: Seq<u8>)
    requires
        s.doc == Some(d),
    ensures
        path::same_path(d.path, p) ==> s.open_file(p).0 == (State { focus: Focus::Table, ..s })
            && s.open_file(p).1 == Act::Nothing,
        !path::same_path(d.path, p) ==> s.open_file(p).0 == (State { search: None, ..s })
            && s.open_file(p).1 == Act::Open(p),
{
}

/// There is something to wait for as long as a search goes on or the file is
/// not indexed to its end.
pub proof fn work_goes_on_until_all_is_indexed(s: State, d: Table)
    requires
        s.doc == Some(d),
    ensures
        !d.done ==> s.busy(),
        s.search is Some ==> s.busy(),
        d.done && s.search is None ==> !s.busy(),
{
}

/// A table has as many rows as the file has records, but for the header.
pub proof fn header_is_no_row(d: Table)
    requires
        0 <= d.found,
    ensures
        d.has_header && d.found > 0 ==> d.rows() == d.found - 1,
        !d.has_header ==> d.rows() == d.found,
        forall|row: int|
            0 <= row < d.rows() ==> #[trigger] d.record(row) == Some(
                index::start_of(
                    d.data,
                    if d.has_header {
                        row + 1
                    } else {
                        row
                    },
                ),
            ),
{
}

/// Records are counted to the end of the file: there is a record with a number
/// exactly when it starts before the end.
pub proof fn records_are_counted_to_the_end(data: Seq<u8>, k: int)
    requires
        0 <= k,
    ensures
        (k < index::row_count(data)) == (index::start_of(data, k) < data.len()),
{
    index::lemma_row_exists(data, k);
}

} // verus!
