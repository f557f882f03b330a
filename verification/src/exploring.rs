//! What the file explorer promises: which entries it shows, in which order, and
//! what expanding, collapsing and moving do to them.

use crate::tree::{Explorer, Item, Line, Listed};
use crate::{order, path, text, tree};
use vstd::prelude::*;

verus! {

// ---------------------------------------------------------------------------
// Entries of a directory
// ---------------------------------------------------------------------------

/// Whether a line shows an item of `dir`, closed and `depth` levels deep.
pub open spec fn shows_item(l: Line, it: Item, dir: Seq<u8>, depth: u16) -> bool {
    &&& l.name == text::utf8_lossy(it.file_name)
    &&& l.path == path::joined(dir, it.file_name)
    &&& l.is_dir == it.is_dir
    &&& l.size == it.size
    &&& l.depth == depth
    &&& !l.expanded
}

/// Whether a name begins with a dot.
pub open spec fn dotted(it: Item) -> bool {
    let n = text::utf8_lossy(it.file_name);
    n.len() > 0 && n[0] == '.'
}

proof fn lemma_unsorted(its: Seq<Item>, dir: Seq<u8>, depth: u16, hidden: bool)
    ensures
        ({
            let ls = tree::unsorted(its, dir, depth, hidden);
            let shown = its.filter(|it: Item| hidden || !dotted(it));
            &&& ls.len() == shown.len()
            &&& forall|k: int|
                0 <= k < ls.len() ==> shows_item(#[trigger] ls[k], shown[k], dir, depth)
        }),
    decreases its.len(),
{
    reveal(Seq::filter);
    if its.len() > 0 {
        lemma_unsorted(its.drop_last(), dir, depth, hidden);
    }
}

/// The entries of a directory show the items in it, each once: all of them when
/// hidden files are shown, and those whose name does not begin with a dot
/// otherwise.
pub proof fn entries_show_the_items(
    its: Seq<Item>,
    dir: Seq<u8>,
    depth: u16,
    hidden: bool,
) -> (from: Seq<int>)
    ensures
        ({
            let es = tree::listing(its, dir, depth, hidden);
            let shown = its.filter(|it: Item| hidden || !dotted(it));
            &&& es.len() == shown.len()
            &&& from.len() == shown.len()
            &&& from.no_duplicates()
            &&& forall|k: int|
                0 <= k < es.len() ==> 0 <= #[trigger] from[k] < shown.len() && shows_item(
                    es[k],
                    shown[from[k]],
                    dir,
                    depth,
                )
        }),
{
    let ls = tree::unsorted(its, dir, depth, hidden);
    let ks = tree::sort_keys(ls);
    let o = order::stable_order(ks, ls.len() as int);
    order::stable_order_sorts(ks, ls.len() as int);
    lemma_unsorted(its, dir, depth, hidden);
    let es = tree::listing(its, dir, depth, hidden);
    let shown = its.filter(|it: Item| hidden || !dotted(it));
    assert forall|k: int| 0 <= k < es.len() implies 0 <= #[trigger] o[k] < shown.len()
        && shows_item(es[k], shown[o[k]], dir, depth) by {
        assert(es[k] == ls[o[k]]);
    }
    o
}

/// Whether `a` stands before `b` in the dictionary, or is equal to it: it is the
/// beginning of `b`, or has the smaller character where they differ first.
pub open spec fn before(a: Seq<char>, b: Seq<char>) -> bool {
    a.is_prefix_of(b) || exists|k: int|
        0 <= k < a.len() && k < b.len() && #[trigger] a.take(k) == b.take(k) && (a[k] as int) < (
        b[k] as int)
}

proof fn lemma_before(a: Seq<char>, b: Seq<char>)
    requires
        order::name_le(a, b),
    ensures
        before(a, b),
    decreases a.len(),
{
    if a.len() > 0 {
        if a[0] != b[0] {
            assert(a.take(0) =~= b.take(0));
        } else {
            let (c, d) = (a.drop_first(), b.drop_first());
            lemma_before(c, d);
            if c.is_prefix_of(d) {
                assert(a =~= b.take(a.len() as int)) by {
                    assert forall|i: int| 0 <= i < a.len() implies a[i] == b.take(a.len() as int)[i]
                        by {
                        if i > 0 {
                            assert(c[i - 1] == d.take(c.len() as int)[i - 1]);
                        }
                    }
                }
            } else {
                let k = choose|k: int|
                    0 <= k < c.len() && k < d.len() && #[trigger] c.take(k) == d.take(k) && (
                    c[k] as int) < (d[k] as int);
                assert(a.take(k + 1) =~= b.take(k + 1)) by {
                    assert forall|i: int| 0 <= i < k + 1 implies #[trigger] a.take(
                        k + 1,
                    )[i] == b.take(
                        k + 1,
                    )[i] by {
                        if i > 0 {
                            assert(c.take(k)[i - 1] == d.take(k)[i - 1]);
                        }
                    }
                }
            }
        }
    }
}

/// Directories come first; among directories, and among files, entries stand in
/// the order of their names in lower case.
pub proof fn entries_are_sorted(
    its: Seq<Item>,
    dir: Seq<u8>,
    depth: u16,
    hidden: bool,
    a: int,
    b: int,
)
    requires
        0 <= a < b < tree::listing(its, dir, depth, hidden).len(),
    ensures
        ({
            let es = tree::listing(its, dir, depth, hidden);
            &&& es[b].is_dir ==> es[a].is_dir
            &&& es[a].is_dir == es[b].is_dir ==> before(
                text::lowercase(es[a].name),
                text::lowercase(es[b].name),
            )
        }),
{
    tree::listing_is_in_order(its, dir, depth, hidden, a, b);
    let es = tree::listing(its, dir, depth, hidden);
    let ks = tree::sort_keys(es);
    assert(ks[a].is_dir == es[a].is_dir && ks[b].is_dir == es[b].is_dir);
    if es[a].is_dir == es[b].is_dir {
        lemma_before(ks[a].name, ks[b].name);
    }
}

// ---------------------------------------------------------------------------
// Expanding and collapsing
// ---------------------------------------------------------------------------

/// Expanding a directory puts the entries of what is in it right behind it, one
/// level deeper, and leaves all other entries where they are.
pub proof fn expanding_shows_what_is_inside(t: Explorer, ls: Seq<Listed>, k: int)
    requires
        t.wf(),
        t.selected() matches Some(l) && l.is_dir && !l.expanded && l.depth < u16::MAX,
        0 <= k < t.expanded(ls).entries.len(),
    ensures
        ({
            let u = t.expanded(ls);
            let l = t.entries[t.sel];
            let inside = tree::listing(
                tree::items_in(ls, l.path),
                l.path,
                (l.depth + 1) as u16,
                t.show_hidden,
            );
            let n = inside.len() as int;
            &&& u.entries.len() == t.entries.len() + n
            &&& u.sel == t.sel && u.off == t.off && u.root == t.root
            &&& u.show_hidden == t.show_hidden
            &&& u.entries[t.sel] == Line { expanded: true, ..l }
            &&& k < t.sel ==> u.entries[k] == t.entries[k]
            &&& t.sel < k <= t.sel + n ==> u.entries[k] == inside[k - t.sel - 1]
            &&& t.sel + n < k ==> u.entries[k] == t.entries[k - n]
        }),
{
}

proof fn lemma_subtree_end(es: Seq<Line>, depth: u16, i: int)
    requires
        0 <= i <= es.len(),
    ensures
        ({
            let e = tree::subtree_end(es, depth, i);
            &&& i <= e <= es.len()
            &&& forall|k: int| i <= k < e ==> (#[trigger] es[k]).depth > depth
            &&& e < es.len() ==> es[e].depth <= depth
        }),
    decreases es.len() - i,
{
    if i < es.len() && es[i].depth > depth {
        lemma_subtree_end(es, depth, i + 1);
    }
}

/// Collapsing a directory takes away the entries behind it that are deeper, up
/// to the first that is not, and leaves all others. Other entries and files
/// are not changed by it.
pub proof fn collapsing_hides_what_is_inside(t: Explorer) -> (end: int)
    requires
        t.wf(),
        t.entries.len() > 0,
    ensures
        ({
            let u = t.collapsed();
            let l = t.entries[t.sel];
            &&& !l.expanded ==> u == t
            &&& l.expanded ==> {
                &&& t.sel < end <= t.entries.len()
                &&& forall|k: int|
                    t.sel < k < end ==> (#[trigger] t.entries[k]).depth > l.depth
                &&& end < t.entries.len() ==> t.entries[end].depth <= l.depth
                &&& u.entries == t.entries.take(t.sel) + seq![Line { expanded: false, ..l }]
                    + t.entries.skip(end)
                &&& u.sel == t.sel && u.off == t.off && u.root == t.root
                &&& u.show_hidden == t.show_hidden
            }
        }),
{
    let l = t.entries[t.sel];
    lemma_subtree_end(t.entries, l.depth, t.sel + 1);
    let end = tree::subtree_end(t.entries, l.depth, t.sel + 1);
    assert(t.entries.take(t.sel).push(Line { expanded: false, ..l }) =~= t.entries.take(t.sel)
        + seq![Line { expanded: false, ..l }]);
    end
}

proof fn lemma_parent_index(es: Seq<Line>, depth: u16, i: int)
    requires
        0 <= i <= es.len(),
    ensures
        ({
            let p = tree::parent_index(es, depth, i);
            &&& -1 <= p < i || p == -1
            &&& p >= 0 ==> es[p].depth < depth
            &&& forall|k: int| p < k < i ==> (#[trigger] es[k]).depth >= depth
        }),
    decreases i,
{
    if i > 0 && es[i - 1].depth >= depth {
        lemma_parent_index(es, depth, i - 1);
    }
}

/// On an entry that is not expanded, the key that collapses goes to the nearest
/// entry above that is less deep; where there is none, it does nothing.
pub proof fn left_goes_to_the_parent(t: Explorer, k: int)
    requires
        t.wf(),
        t.entries.len() > 0,
        !t.entries[t.sel].expanded,
    ensures
        ({
            let u = t.collapsed_or_parent();
            let depth = t.entries[t.sel].depth;
            &&& u == (Explorer { sel: u.sel, ..t })
            &&& 0 <= u.sel <= t.sel
            &&& u.sel < t.sel ==> t.entries[u.sel].depth < depth
            &&& u.sel < k < t.sel ==> t.entries[k].depth >= depth
            &&& u.sel == t.sel && 0 <= k < t.sel ==> t.entries[k].depth >= depth
        }),
{
    lemma_parent_index(t.entries, t.entries[t.sel].depth, t.sel);
}

/// On an expanded directory, the key that collapses does just that; the one
/// that toggles does too, and expands one that is not.
pub proof fn toggling_expands_or_collapses(t: Explorer, ls: Seq<Listed>)
    requires
        t.wf(),
        t.entries.len() > 0,
    ensures
        t.entries[t.sel].expanded ==> t.collapsed_or_parent() == t.collapsed() && t.toggled(ls)
            == t.collapsed(),
        !t.entries[t.sel].expanded ==> t.toggled(ls) == t.expanded(ls),
        !t.entries[t.sel].is_dir ==> t.expanded(ls) == t && t.entered(ls) == t,
        t.entries[t.sel].expanded ==> t.expanded(ls) == t,
{
}

// ---------------------------------------------------------------------------
// Roots and selection
// ---------------------------------------------------------------------------

/// Entering a directory shows what is in it, with nothing expanded and the
/// first entry selected.
pub proof fn entering_shows_the_directory(t: Explorer, ls: Seq<Listed>)
    requires
        t.wf(),
        t.selected() matches Some(l) && l.is_dir,
    ensures
        ({
            let u = t.entered(ls);
            let dir = t.entries[t.sel].path;
            &&& u.root == dir
            &&& u.entries == tree::listing(tree::items_in(ls, dir), dir, 0, t.show_hidden)
            &&& u.sel == 0
            &&& u.show_hidden == t.show_hidden
        }),
{
    let dir = t.entries[t.sel].path;
    let es = tree::listing(tree::items_in(ls, dir), dir, 0, t.show_hidden);
    let from = entries_show_the_items(tree::items_in(ls, dir), dir, 0, t.show_hidden);
    assert forall|k: int| 0 <= k < es.len() implies !(#[trigger] es[k]).expanded by {
        assert(0 <= from[k]);
    }
    assert(tree::open_paths(seq![]) =~= seq![]);
    lemma_closed(ls, t.show_hidden, dir, 0, es);
}

pub proof fn lemma_closed(ls: Seq<Listed>, hidden: bool, dir: Seq<u8>, depth: u16, es: Seq<Line>)
    requires
        forall|k: int| 0 <= k < es.len() ==> !(#[trigger] es[k]).expanded,
    ensures
        tree::with_contents(ls, seq![], hidden, dir, depth, es) == es,
    decreases es.len(),
{
    if es.len() > 0 {
        let t = es.drop_last();
        assert(forall|k: int| 0 <= k < t.len() ==> (#[trigger] t[k]) == es[k]);
        lemma_closed(ls, hidden, dir, depth, t);
        let l = es.last();
        assert(!es[es.len() - 1].expanded);
        assert(!tree::includes(seq![], l.path));
        assert((Line { expanded: false, ..l }) =~= l);
        assert(t.push(l) =~= es);
    }
}

proof fn lemma_index_of_path(es: Seq<Line>, p: Seq<u8>, i: int)
    requires
        0 <= i <= es.len(),
    ensures
        ({
            let k = tree::index_of_path(es, p, i);
            &&& i <= k <= es.len()
            &&& k < es.len() ==> path::same_path(es[k].path, p)
            &&& forall|j: int| i <= j < k ==> !path::same_path((#[trigger] es[j]).path, p)
        }),
    decreases es.len() - i,
{
    if i < es.len() && !path::same_path(es[i].path, p) {
        lemma_index_of_path(es, p, i + 1);
    }
}

/// Selecting a path selects the first entry that has it; where none has, the
/// selection stays.
pub proof fn selecting_finds_the_path(t: Explorer, p: Seq<u8>, k: int)
    requires
        0 <= k < t.entries.len(),
        path::same_path(t.entries[k].path, p),
    ensures
        ({
            let u = t.selecting(p);
            &&& u == (Explorer { sel: u.sel, ..t })
            &&& 0 <= u.sel <= k
            &&& path::same_path(t.entries[u.sel].path, p)
        }),
{
    lemma_index_of_path(t.entries, p, 0);
}

/// Reading the directories anew keeps the root and the selected entry, as long
/// as it is still there, and so does showing or hiding hidden files.
pub proof fn reloading_keeps_the_selection(t: Explorer, ls: Seq<Listed>, k: int)
    requires
        t.wf(),
        t.entries.len() > 0,
    ensures
        ({
            let u = t.reloaded(ls);
            let p = t.entries[t.sel].path;
            &&& u.root == t.root && u.show_hidden == t.show_hidden
            &&& 0 <= k < u.entries.len() && path::same_path(u.entries[k].path, p)
                ==> u.selected() is Some && path::same_path(u.entries[u.sel].path, p)
        }),
        ({
            let u = t.hidden_toggled(ls);
            let p = t.entries[t.sel].path;
            &&& u.root == t.root && u.show_hidden == !t.show_hidden
            &&& 0 <= k < u.entries.len() && path::same_path(u.entries[k].path, p)
                ==> u.selected() is Some && path::same_path(u.entries[u.sel].path, p)
        }),
{
    let p = t.entries[t.sel].path;
    lemma_index_of_path(t.reloaded(ls).entries, p, 0);
    lemma_index_of_path(t.hidden_toggled(ls).entries, p, 0);
}

/// The selection moves by as many entries as it is told to, and stops at the
/// first and at the last.
pub proof fn selection_stays_within_the_entries(t: Explorer, d: int)
    requires
        t.wf(),
        0 < t.entries.len() <= usize::MAX,
    ensures
        t.moved(d) == (Explorer { sel: t.moved(d).sel, ..t }),
        0 <= t.sel + d < t.entries.len() ==> t.moved(d).sel == t.sel + d,
        t.sel + d < 0 ==> t.moved(d).sel == 0,
        t.sel + d >= t.entries.len() ==> t.moved(d).sel == t.entries.len() - 1,
{
}

/// Scrolling moves the entries on the screen no further than it takes: not at
/// all when the selected one is shown already, and otherwise until it is the
/// first or the last one.
pub proof fn scrolling_is_no_further_than_needed(t: Explorer, height: int)
    requires
        t.wf(),
        0 <= t.off,
        0 < height,
        t.off + height <= t.entries.len(),
    ensures
        t.scrolled(height) == (Explorer { off: t.scrolled(height).off, ..t }),
        t.off <= t.sel < t.off + height ==> t.scrolled(height).off == t.off,
        t.sel < t.off ==> t.scrolled(height).off == t.sel,
        t.sel >= t.off + height ==> t.scrolled(height).off == t.sel + 1 - height,
{
}

// ---------------------------------------------------------------------------
// Names
// ---------------------------------------------------------------------------

/// Whether a character is a letter, small or capital.
pub open spec fn letter(c: char, small: char, capital: char) -> bool {
    c == small || c == capital
}

/// A file is taken for a table by the end of its name, in any case: `.csv`,
/// `.tsv`, `.tab` or `.psv`, whatever stands before.
pub proof fn endings_tell_tables(stem: Seq<char>, a: char, b: char, c: char)
    ensures
        tree::tabular(stem + seq!['.', a, b, c]) == {
            ||| letter(a, 'c', 'C') && letter(b, 's', 'S') && letter(c, 'v', 'V')
            ||| letter(a, 't', 'T') && letter(b, 's', 'S') && letter(c, 'v', 'V')
            ||| letter(a, 't', 'T') && letter(b, 'a', 'A') && letter(c, 'b', 'B')
            ||| letter(a, 'p', 'P') && letter(b, 's', 'S') && letter(c, 'v', 'V')
        },
{
    let s = stem + seq!['.', a, b, c];
    let n = s.len() as int;
    assert(s[n - 4] == '.' && s[n - 3] == a && s[n - 2] == b && s[n - 1] == c);
    text::lemma_code_point(a);
    text::lemma_code_point(b);
    text::lemma_code_point(c);
}

/// A name without a dot before its last three characters is no table.
pub proof fn other_names_are_no_tables(name: Seq<char>)
    requires
        name.len() < 4 || name[name.len() - 4] != '.',
    ensures
        !tree::tabular(name),
{
}

} // verus!
