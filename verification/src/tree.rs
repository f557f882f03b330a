//! File explorer: a flattened, lazily expanded directory tree.

use crate::order::SortKey;
use crate::{order, path, text, util};
use vstd::prelude::*;

verus! {

// ---------------------------------------------------------------------------
// Directory listings
// ---------------------------------------------------------------------------

/// One item of a directory as the system reports it. Links are followed.
pub struct DirItem {
    pub file_name: Vec<u8>,
    pub is_dir: bool,
    pub size: u64,
}

/// The contents of a directory item.
#[verifier::ext_equal]
pub struct Item {
    pub file_name: Seq<u8>,
    pub is_dir: bool,
    pub size: u64,
}

impl View for DirItem {
    type V = Item;

    open spec fn view(&self) -> Item {
        Item { file_name: self.file_name@, is_dir: self.is_dir, size: self.size }
    }
}

/// The items of a directory. A directory that cannot be read has none.
pub struct Listing {
    pub dir: Vec<u8>,
    pub items: Vec<DirItem>,
}

/// The contents of a listing.
#[verifier::ext_equal]
pub struct Listed {
    pub dir: Seq<u8>,
    pub items: Seq<Item>,
}

impl View for Listing {
    type V = Listed;

    open spec fn view(&self) -> Listed {
        Listed { dir: self.dir@, items: items(self.items@) }
    }
}

pub open spec fn items(v: Seq<DirItem>) -> Seq<Item> {
    v.map_values(|i: DirItem| i@)
}

pub open spec fn listings(v: Seq<Listing>) -> Seq<Listed> {
    v.map_values(|l: Listing| l@)
}

/// The items listed for a directory; none when it was not listed.
pub open spec fn items_in(ls: Seq<Listed>, dir: Seq<u8>) -> Seq<Item>
    decreases ls.len(),
{
    if ls.len() == 0 {
        seq![]
    } else if path::same_path(ls[0].dir, dir) {
        ls[0].items
    } else {
        items_in(ls.drop_first(), dir)
    }
}

/// One line of the explorer.
pub struct Entry {
    pub path: Vec<u8>,
    pub name: String,
    pub depth: u16,
    pub is_dir: bool,
    pub expanded: bool,
    pub size: u64,
}

/// The contents of an entry.
#[verifier::ext_equal]
pub struct Line {
    pub path: Seq<u8>,
    pub name: Seq<char>,
    pub depth: u16,
    pub is_dir: bool,
    pub expanded: bool,
    pub size: u64,
}

impl View for Entry {
    type V = Line;

    open spec fn view(&self) -> Line {
        Line {
            path: self.path@,
            name: self.name@,
            depth: self.depth,
            is_dir: self.is_dir,
            expanded: self.expanded,
            size: self.size,
        }
    }
}

pub open spec fn lines(v: Seq<Entry>) -> Seq<Line> {
    v.map_values(|e: Entry| e@)
}

/// A copy of an entry.
fn copy_entry(e: &Entry) -> (r: Entry)
    ensures
        r@ == e@,
{
    Entry {
        path: text::bytes_copy(e.path.as_slice()),
        name: text::to_string(e.name.as_str()),
        depth: e.depth,
        is_dir: e.is_dir,
        expanded: e.expanded,
        size: e.size,
    }
}

/// Whether a name marks a hidden file.
pub open spec fn hidden_name(name: Seq<char>) -> bool {
    name.len() > 0 && name[0] == '.'
}

/// Whether a name marks a hidden file.
pub fn is_hidden(name: &str) -> (r: bool)
    ensures
        r == hidden_name(name@),
{
    let cs = text::chars_of(name);
    cs.len() > 0 && cs[0] == '.'
}

/// The entry of an item of `dir`.
pub open spec fn line_of(item: Item, dir: Seq<u8>, depth: u16) -> Line {
    Line {
        path: path::joined(dir, item.file_name),
        name: text::utf8_lossy(item.file_name),
        depth,
        is_dir: item.is_dir,
        expanded: false,
        size: item.size,
    }
}

/// The entries of the items that are shown, in the order of the items.
pub open spec fn unsorted(its: Seq<Item>, dir: Seq<u8>, depth: u16, hidden: bool) -> Seq<Line>
    decreases its.len(),
{
    if its.len() == 0 {
        seq![]
    } else {
        let l = line_of(its.last(), dir, depth);
        let before = unsorted(its.drop_last(), dir, depth, hidden);
        if !hidden && hidden_name(l.name) {
            before
        } else {
            before.push(l)
        }
    }
}

/// What entries are sorted by.
pub open spec fn sort_keys(ls: Seq<Line>) -> Seq<order::Key> {
    ls.map_values(
        |l: Line| order::Key { is_dir: l.is_dir, name: text::lowercase(l.name) },
    )
}

/// The entries of a directory: directories first, then by name regardless of
/// case.
pub open spec fn listing(its: Seq<Item>, dir: Seq<u8>, depth: u16, hidden: bool) -> Seq<Line> {
    let ls = unsorted(its, dir, depth, hidden);
    let o = order::stable_order(sort_keys(ls), ls.len() as int);
    Seq::new(ls.len(), |k: int| ls[o[k]])
}

/// The entries of a directory.
fn list(its: &Vec<DirItem>, dir: &[u8], depth: u16, hidden: bool) -> (r: Vec<Entry>)
    ensures
        lines(r@) == listing(items(its@), dir@, depth, hidden),
{
    let mut all: Vec<Entry> = Vec::new();
    let mut ks: Vec<SortKey> = Vec::new();
    let ghost iv = items(its@);
    let mut i: usize = 0;
    assert(iv.take(0) =~= seq![]);
    assert(lines(all@) =~= seq![]);
    assert(order::keys(ks@) =~= sort_keys(lines(all@)));
    while i < its.len()
        invariant
            i <= its@.len(),
            iv == items(its@),
            lines(all@) == unsorted(iv.take(i as int), dir@, depth, hidden),
            order::keys(ks@) == sort_keys(lines(all@)),
        decreases its@.len() - i,
    {
        let it = &its[i];
        let name = text::from_utf8_lossy(it.file_name.as_slice());
        let ghost l = line_of(it@, dir@, depth);
        proof {
            assert(iv.take(i + 1).drop_last() =~= iv.take(i as int));
            assert(iv.take(i + 1).last() == it@);
        }
        if hidden || !is_hidden(name.as_str()) {
            let lower = text::to_lowercase(name.as_str());
            let key = SortKey { is_dir: it.is_dir, name: text::chars_of(lower.as_str()) };
            let e = Entry {
                path: path::join(dir, it.file_name.as_slice()),
                name,
                depth,
                is_dir: it.is_dir,
                expanded: false,
                size: it.size,
            };
            let ghost (before, kb) = (all@, ks@);
            all.push(e);
            ks.push(key);
            proof {
                assert(e@ =~= l);
                assert(lines(all@) =~= lines(before).push(l));
                assert(order::keys(ks@) =~= order::keys(kb).push(key@));
                assert(sort_keys(lines(all@)) =~= sort_keys(lines(before)).push(key@));
            }
        }
        i += 1;
    }
    assert(iv.take(i as int) =~= iv);
    let o = order::sort_order(&ks);
    let ghost lv = lines(all@);
    assert(ks@.len() == order::keys(ks@).len());
    let mut r: Vec<Entry> = Vec::new();
    let mut k: usize = 0;
    while k < o.len()
        invariant
            k <= o@.len(),
            lv == lines(all@),
            o@.len() == all@.len(),
            order::permutes(order::indices(o@), all@.len() as int),
            r@.len() == k,
            forall|j: int| 0 <= j < k ==> (#[trigger] r@[j])@ == lv[order::indices(o@)[j]],
        decreases o@.len() - k,
    {
        let ghost ix = order::indices(o@);
        assert(0 <= ix[k as int] < all@.len());
        let e = copy_entry(&all[o[k]]);
        assert(e@ == lv[ix[k as int]]);
        r.push(e);
        k += 1;
    }
    assert(lines(r@) =~= listing(iv, dir@, depth, hidden));
    r
}

/// The items listed for a directory.
fn find_items<'a>(ls: &'a Vec<Listing>, dir: &[u8]) -> (r: Option<&'a Vec<DirItem>>)
    ensures
        match r {
            Some(v) => items(v@) == items_in(listings(ls@), dir@),
            None => items_in(listings(ls@), dir@) == Seq::<Item>::empty(),
        },
{
    let ghost lv = listings(ls@);
    let mut i: usize = 0;
    assert(lv.skip(0) =~= lv);
    while i < ls.len()
        invariant
            i <= ls@.len(),
            lv == listings(ls@),
            items_in(lv, dir@) == items_in(lv.skip(i as int), dir@),
        decreases ls@.len() - i,
    {
        assert(lv.skip(i as int)[0] == ls@[i as int]@);
        if path::same(ls[i].dir.as_slice(), dir) {
            return Some(&ls[i].items);
        }
        assert(lv.skip(i as int).drop_first() =~= lv.skip(i + 1));
        i += 1;
    }
    None
}

/// The entries of a listed directory.
fn list_dir(ls: &Vec<Listing>, dir: &[u8], depth: u16, hidden: bool) -> (r: Vec<Entry>)
    ensures
        lines(r@) == listing(items_in(listings(ls@), dir@), dir@, depth, hidden),
{
    match find_items(ls, dir) {
        Some(its) => list(its, dir, depth, hidden),
        None => {
            let none: Vec<DirItem> = Vec::new();
            assert(items(none@) =~= seq![]);
            list(&none, dir, depth, hidden)
        },
    }
}

// ---------------------------------------------------------------------------
// Building the tree
// ---------------------------------------------------------------------------

/// One level deeper.
pub open spec fn deeper(depth: u16) -> u16 {
    if depth < u16::MAX {
        (depth + 1) as u16
    } else {
        depth
    }
}

/// Whether a path is one of some paths.
pub open spec fn includes(ps: Seq<Seq<u8>>, p: Seq<u8>) -> bool {
    exists|k: int| 0 <= k < ps.len() && path::same_path(#[trigger] ps[k], p)
}

/// Number of components of the longest of some paths.
pub open spec fn longest(ps: Seq<Seq<u8>>) -> nat
    decreases ps.len(),
{
    if ps.len() == 0 {
        0
    } else {
        vstd::math::max(
            longest(ps.drop_last()) as int,
            path::parts(ps.last()).len() as int,
        ) as nat
    }
}

pub proof fn lemma_longest(ps: Seq<Seq<u8>>, p: Seq<u8>)
    requires
        includes(ps, p),
    ensures
        path::parts(p).len() <= longest(ps),
    decreases ps.len(),
{
    let k = choose|k: int| 0 <= k < ps.len() && path::same_path(#[trigger] ps[k], p);
    if k < ps.len() - 1 {
        assert(path::same_path(ps.drop_last()[k], p));
        lemma_longest(ps.drop_last(), p);
    }
}

/// How many more components than `dir` the paths of open directories can have.
pub open spec fn gap(open: Seq<Seq<u8>>, dir: Seq<u8>) -> nat {
    if path::parts(dir).len() > longest(open) {
        0
    } else {
        (longest(open) - path::parts(dir).len() + 1) as nat
    }
}

/// Whether an entry of `dir` is shown with its contents. One that is `dir`
/// itself is not.
pub open spec fn is_open(l: Line, dir: Seq<u8>, open: Seq<Seq<u8>>) -> bool {
    l.is_dir && path::parts(l.path).len() > path::parts(dir).len() && includes(open, l.path)
}

/// Entries of `dir`, each open directory followed by what is below it.
pub open spec fn with_contents(
    ls: Seq<Listed>,
    open: Seq<Seq<u8>>,
    hidden: bool,
    dir: Seq<u8>,
    depth: u16,
    es: Seq<Line>,
) -> Seq<Line>
    decreases gap(open, dir), 0int, es.len(),
{
    if es.len() == 0 {
        seq![]
    } else {
        let before = with_contents(ls, open, hidden, dir, depth, es.drop_last());
        let l = es.last();
        if is_open(l, dir, open) {
            proof {
                lemma_longest(open, l.path);
            }
            before.push(Line { expanded: true, ..l }) + below(
                ls,
                open,
                hidden,
                l.path,
                deeper(depth),
            )
        } else {
            before.push(Line { expanded: false, ..l })
        }
    }
}

/// Everything below `dir` that is shown when the directories `open` are
/// expanded.
pub open spec fn below(
    ls: Seq<Listed>,
    open: Seq<Seq<u8>>,
    hidden: bool,
    dir: Seq<u8>,
    depth: u16,
) -> Seq<Line>
    decreases gap(open, dir), 1int, 0nat,
{
    with_contents(
        ls,
        open,
        hidden,
        dir,
        depth,
        listing(items_in(ls, dir), dir, depth, hidden),
    )
}

/// Whether `p` is one of `ps`.
fn has_path(ps: &Vec<Vec<u8>>, p: &[u8]) -> (r: bool)
    ensures
        r == includes(text::contents(ps@), p@),
{
    let ghost pv = text::contents(ps@);
    let mut i: usize = 0;
    while i < ps.len()
        invariant
            i <= ps@.len(),
            pv == text::contents(ps@),
            forall|k: int| 0 <= k < i ==> !path::same_path(#[trigger] pv[k], p@),
        decreases ps@.len() - i,
    {
        assert(pv[i as int] == ps@[i as int]@);
        if path::same(ps[i].as_slice(), p) {
            return true;
        }
        i += 1;
    }
    false
}

/// Appends everything below `dir`.
fn build(
    ls: &Vec<Listing>,
    open: &Vec<Vec<u8>>,
    hidden: bool,
    dir: &[u8],
    depth: u16,
    out: &mut Vec<Entry>,
)
    ensures
        lines(final(out)@) == lines(old(out)@) + below(
            listings(ls@),
            text::contents(open@),
            hidden,
            dir@,
            depth,
        ),
    decreases gap(text::contents(open@), dir@),
{
    let es = list_dir(ls, dir, depth, hidden);
    let n = path::count_parts(dir);
    let ghost ev = lines(es@);
    let ghost (lv, ov) = (listings(ls@), text::contents(open@));
    let mut i: usize = 0;
    assert(ev.take(0) =~= seq![]);
    assert(lines(out@) + seq![] =~= lines(out@));
    while i < es.len()
        invariant
            i <= es@.len(),
            ev == lines(es@),
            lv == listings(ls@),
            ov == text::contents(open@),
            n == path::parts(dir@).len(),
            lines(out@) == lines(old(out)@) + with_contents(
                lv,
                ov,
                hidden,
                dir@,
                depth,
                ev.take(i as int),
            ),
        decreases es@.len() - i,
    {
        let mut e = copy_entry(&es[i]);
        let ghost l = e@;
        let now_open = e.is_dir && path::count_parts(e.path.as_slice()) > n && has_path(
            open,
            e.path.as_slice(),
        );
        e.expanded = now_open;
        let p = text::bytes_copy(e.path.as_slice());
        let ghost before = lines(out@);
        let ghost eo = e@;
        let ghost ob = out@;
        out.push(e);
        proof {
            assert(lines(out@) =~= lines(ob).push(eo));
            assert(ev.take(i + 1).drop_last() =~= ev.take(i as int));
            assert(ev.take(i + 1).last() == l);
            assert(eo =~= (Line { expanded: now_open, ..l }));
        }
        let ghost w = with_contents(lv, ov, hidden, dir@, depth, ev.take(i as int));
        assert(lines(old(out)@) + w.push(eo) =~= (lines(old(out)@) + w).push(eo));
        if now_open {
            proof {
                lemma_longest(ov, l.path);
            }
            let d: u16 = if depth < u16::MAX {
                depth + 1
            } else {
                depth
            };
            build(ls, open, hidden, p.as_slice(), d, out);
            proof {
                let more = below(lv, ov, hidden, l.path, deeper(depth));
                assert(lines(old(out)@) + w.push(eo) + more =~= lines(old(out)@) + (w.push(eo)
                    + more));
            }
        }
        i += 1;
    }
    assert(ev.take(i as int) =~= ev);
}

// ---------------------------------------------------------------------------
// The tree
// ---------------------------------------------------------------------------

/// The explorer: the entries below `root` that are shown, which of them is
/// selected and which is the first on the screen.
pub struct Tree {
    pub root: Vec<u8>,
    pub entries: Vec<Entry>,
    pub sel: usize,
    pub off: usize,
    pub show_hidden: bool,
}

/// The contents of the explorer.
#[verifier::ext_equal]
pub struct Explorer {
    pub root: Seq<u8>,
    pub entries: Seq<Line>,
    pub sel: int,
    pub off: int,
    pub show_hidden: bool,
}

impl View for Tree {
    type V = Explorer;

    open spec fn view(&self) -> Explorer {
        Explorer {
            root: self.root@,
            entries: lines(self.entries@),
            sel: self.sel as int,
            off: self.off as int,
            show_hidden: self.show_hidden,
        }
    }
}

/// Paths of the expanded directories.
pub open spec fn open_paths(es: Seq<Line>) -> Seq<Seq<u8>>
    decreases es.len(),
{
    if es.len() == 0 {
        seq![]
    } else if es.last().expanded {
        open_paths(es.drop_last()).push(es.last().path)
    } else {
        open_paths(es.drop_last())
    }
}

/// Index of the first entry with the path `p` at or after `i`, or the number
/// of entries.
pub open spec fn index_of_path(es: Seq<Line>, p: Seq<u8>, i: int) -> int
    decreases es.len() - i,
{
    if i >= es.len() {
        es.len() as int
    } else if path::same_path(es[i].path, p) {
        i
    } else {
        index_of_path(es, p, i + 1)
    }
}

/// Index of the first entry at or after `i` that is not below one of depth
/// `depth`, or the number of entries.
pub open spec fn subtree_end(es: Seq<Line>, depth: u16, i: int) -> int
    decreases es.len() - i,
{
    if i >= es.len() {
        es.len() as int
    } else if es[i].depth <= depth {
        i
    } else {
        subtree_end(es, depth, i + 1)
    }
}

/// Index of the last entry before `i` that is above one of depth `depth`, or
/// -1.
pub open spec fn parent_index(es: Seq<Line>, depth: u16, i: int) -> int
    decreases i,
{
    if i <= 0 {
        -1
    } else if es[i - 1].depth < depth {
        i - 1
    } else {
        parent_index(es, depth, i - 1)
    }
}

impl Explorer {
    /// The selected entry.
    pub open spec fn selected(self) -> Option<Line> {
        if 0 <= self.sel < self.entries.len() {
            Some(self.entries[self.sel])
        } else {
            None
        }
    }

    /// With the first entry of path `p` selected, if there is one.
    pub open spec fn selecting(self, p: Seq<u8>) -> Explorer {
        let i = index_of_path(self.entries, p, 0);
        if i < self.entries.len() {
            Explorer { sel: i, ..self }
        } else {
            self
        }
    }

    /// With its entries read anew. Expanded directories stay expanded and the
    /// selected entry selected, if they are still there.
    pub open spec fn reloaded(self, ls: Seq<Listed>) -> Explorer {
        let fresh = Explorer {
            entries: below(ls, open_paths(self.entries), self.show_hidden, self.root, 0),
            sel: 0,
            ..self
        };
        match self.selected() {
            Some(l) => fresh.selecting(l.path),
            None => fresh,
        }
    }

    /// With another root.
    pub open spec fn rooted(self, root: Seq<u8>, ls: Seq<Listed>) -> Explorer {
        Explorer { root, entries: seq![], ..self }.reloaded(ls)
    }

    /// With the selection moved by `d` entries.
    pub open spec fn moved(self, d: int) -> Explorer {
        let max = if self.entries.len() == 0 {
            0
        } else {
            self.entries.len() - 1
        };
        Explorer { sel: vstd::math::min(util::moved(self.sel, d), max), ..self }
    }

    /// With the selected directory expanded.
    pub open spec fn expanded(self, ls: Seq<Listed>) -> Explorer {
        match self.selected() {
            Some(l) => if l.is_dir && !l.expanded {
                let children = listing(
                    items_in(ls, l.path),
                    l.path,
                    deeper(l.depth),
                    self.show_hidden,
                );
                Explorer {
                    entries: self.entries.take(self.sel).push(Line { expanded: true, ..l })
                        + children + self.entries.skip(self.sel + 1),
                    ..self
                }
            } else {
                self
            },
            None => self,
        }
    }

    /// With the selected directory collapsed.
    pub open spec fn collapsed(self) -> Explorer {
        match self.selected() {
            Some(l) => if l.expanded {
                Explorer {
                    entries: self.entries.take(self.sel).push(Line { expanded: false, ..l })
                        + self.entries.skip(subtree_end(self.entries, l.depth, self.sel + 1)),
                    ..self
                }
            } else {
                self
            },
            None => self,
        }
    }

    /// With the selected directory collapsed or expanded.
    pub open spec fn toggled(self, ls: Seq<Listed>) -> Explorer {
        match self.selected() {
            Some(l) => if l.expanded {
                self.collapsed()
            } else {
                self.expanded(ls)
            },
            None => self,
        }
    }

    /// With the selected directory collapsed, or the entry above selected.
    pub open spec fn collapsed_or_parent(self) -> Explorer {
        match self.selected() {
            Some(l) => if l.expanded {
                self.collapsed()
            } else if l.depth > 0 && parent_index(self.entries, l.depth, self.sel) >= 0 {
                Explorer { sel: parent_index(self.entries, l.depth, self.sel), ..self }
            } else {
                self
            },
            None => self,
        }
    }

    /// With the parent directory as its root and the old root selected.
    pub open spec fn gone_up(self, ls: Seq<Listed>) -> Explorer {
        match path::parent_of(self.root) {
            Some(p) => self.rooted(p, ls).selecting(self.root),
            None => self,
        }
    }

    /// With the selected directory as its root.
    pub open spec fn entered(self, ls: Seq<Listed>) -> Explorer {
        match self.selected() {
            Some(l) => if l.is_dir {
                self.rooted(l.path, ls)
            } else {
                self
            },
            None => self,
        }
    }

    /// With hidden files shown or not, the other way round.
    pub open spec fn hidden_toggled(self, ls: Seq<Listed>) -> Explorer {
        Explorer { show_hidden: !self.show_hidden, ..self }.reloaded(ls)
    }

    /// The first entry on the screen, moved as little as it takes to show the
    /// selected one among `height`, and no further down than needed.
    pub open spec fn scrolled(self, height: int) -> Explorer {
        let a = if self.sel < self.off {
            self.sel
        } else if height > 0 && self.sel >= self.off + height {
            self.sel + 1 - height
        } else {
            self.off
        };
        let h = if height < 1 {
            1
        } else {
            height
        };
        let last = if self.entries.len() < h {
            0
        } else {
            self.entries.len() - h
        };
        let b = vstd::math::min(a, last);
        Explorer {
            off: if self.sel < b {
                self.sel
            } else {
                b
            },
            ..self
        }
    }
}

/// What the explorer can be asked to do that takes reading directories.
#[derive(Clone, Copy, Debug, PartialEq, Eq, Structural)]
pub enum TreeOp {
    Reload,
    Expand,
    GoUp,
    EnterDir,
    ToggleHidden,
}

impl Explorer {
    /// What an operation makes of the explorer.
    pub open spec fn after(self, op: TreeOp, ls: Seq<Listed>) -> Explorer {
        match op {
            TreeOp::Reload => self.reloaded(ls),
            TreeOp::Expand => self.expanded(ls),
            TreeOp::GoUp => self.gone_up(ls),
            TreeOp::EnterDir => self.entered(ls),
            TreeOp::ToggleHidden => self.hidden_toggled(ls),
        }
    }

    /// The directories that an operation looks at.
    pub open spec fn looks_at(self, op: TreeOp) -> Seq<Seq<u8>> {
        match op {
            TreeOp::Reload | TreeOp::ToggleHidden => seq![self.root] + open_paths(self.entries),
            TreeOp::Expand | TreeOp::EnterDir => match self.selected() {
                Some(l) => if l.is_dir {
                    seq![l.path]
                } else {
                    seq![]
                },
                None => seq![],
            },
            TreeOp::GoUp => match path::parent_of(self.root) {
                Some(p) => seq![p],
                None => seq![],
            },
        }
    }
}

impl Tree {
    /// The explorer of a root directory.
    pub fn new(root: Vec<u8>, ls: &Vec<Listing>) -> (r: Tree)
        ensures
            r@ == (Explorer {
                root: root@,
                entries: below(listings(ls@), seq![], false, root@, 0),
                sel: 0,
                off: 0,
                show_hidden: false,
            }),
    {
        let mut t = Tree { root, entries: Vec::new(), sel: 0, off: 0, show_hidden: false };
        assert(lines(t.entries@) =~= seq![]);
        assert(t@.entries =~= seq![]);
        t.reload(ls);
        t
    }

    /// Takes over what was read, keeping expanded directories and the
    /// selection.
    pub fn reload(&mut self, ls: &Vec<Listing>)
        ensures
            final(self)@ == old(self)@.reloaded(listings(ls@)),
    {
        let open = self.open_dirs();
        let selected = match self.selected() {
            Some(e) => Some(text::bytes_copy(e.path.as_slice())),
            None => None,
        };
        let mut out: Vec<Entry> = Vec::new();
        assert(lines(out@) =~= seq![]);
        build(ls, &open, self.show_hidden, self.root.as_slice(), 0, &mut out);
        proof {
            let b = below(
                listings(ls@),
                text::contents(open@),
                self.show_hidden,
                self.root@,
                0,
            );
            assert(seq![] + b =~= b);
        }
        self.entries = out;
        self.sel = 0;
        if let Some(p) = selected {
            self.select_path(p.as_slice());
        }
    }

    /// Paths of the expanded directories.
    fn open_dirs(&self) -> (r: Vec<Vec<u8>>)
        ensures
            text::contents(r@) == open_paths(self@.entries),
    {
        let ghost ev = lines(self.entries@);
        let mut r: Vec<Vec<u8>> = Vec::new();
        let mut i: usize = 0;
        assert(ev.take(0) =~= seq![]);
        assert(text::contents(r@) =~= seq![]);
        while i < self.entries.len()
            invariant
                i <= self.entries@.len(),
                ev == lines(self.entries@),
                text::contents(r@) == open_paths(ev.take(i as int)),
            decreases self.entries@.len() - i,
        {
            let e = &self.entries[i];
            assert(ev.take(i + 1).drop_last() =~= ev.take(i as int));
            assert(ev.take(i + 1).last() == e@);
            if e.expanded {
                let p = text::bytes_copy(e.path.as_slice());
                let ghost before = r@;
                r.push(p);
                assert(text::contents(r@) =~= text::contents(before).push(e@.path));
            }
            i += 1;
        }
        assert(ev.take(i as int) =~= ev);
        r
    }

    /// The selected entry.
    pub fn selected(&self) -> (r: Option<&Entry>)
        ensures
            match r {
                Some(e) => self@.selected() == Some(e@) && e@ == self.entries@[self.sel as int]@
                    && self.sel < self.entries@.len(),
                None => self@.selected() is None,
            },
    {
        if self.sel < self.entries.len() {
            Some(&self.entries[self.sel])
        } else {
            None
        }
    }

    /// Selects the first entry of path `p`, if there is one.
    pub fn select_path(&mut self, p: &[u8])
        ensures
            final(self)@ == old(self)@.selecting(p@),
    {
        let ghost ev = lines(self.entries@);
        let mut i: usize = 0;
        while i < self.entries.len()
            invariant
                *self == *old(self),
                i <= self.entries@.len(),
                ev == lines(self.entries@),
                index_of_path(ev, p@, 0) == index_of_path(ev, p@, i as int),
            decreases self.entries@.len() - i,
        {
            assert(ev[i as int] == self.entries@[i as int]@);
            if path::same(self.entries[i].path.as_slice(), p) {
                self.sel = i;
                return;
            }
            i += 1;
        }
    }

    /// Moves the selection by `d` entries.
    pub fn move_by(&mut self, d: isize)
        ensures
            final(self)@ == old(self)@.moved(d as int),
    {
        let max = self.entries.len().saturating_sub(1);
        let to = util::add_signed(self.sel, d);
        self.sel = if to < max {
            to
        } else {
            max
        };
    }

    /// Expands the selected directory.
    pub fn expand(&mut self, ls: &Vec<Listing>)
        ensures
            final(self)@ == old(self)@.expanded(listings(ls@)),
    {
        let i = self.sel;
        if i >= self.entries.len() {
            return;
        }
        let ghost ev = lines(self.entries@);
        let mut e = copy_entry(&self.entries[i]);
        assert(ev[i as int] == e@);
        if !e.is_dir || e.expanded {
            return;
        }
        let d: u16 = if e.depth < u16::MAX {
            e.depth + 1
        } else {
            e.depth
        };
        let mut children = list_dir(ls, e.path.as_slice(), d, self.show_hidden);
        let ghost cv = lines(children@);
        e.expanded = true;
        let ghost l = e@;
        let mut rest = self.entries.split_off(i);
        let ghost head = self.entries@;
        let ghost tail = rest@;
        let mut tail_part = rest.split_off(1);
        self.entries.push(e);
        self.entries.append(&mut children);
        self.entries.append(&mut tail_part);
        assert(lines(self.entries@) =~= ev.take(i as int).push(l) + cv + ev.skip(i + 1));
    }

    /// Collapses the selected directory.
    pub fn collapse(&mut self)
        ensures
            final(self)@ == old(self)@.collapsed(),
    {
        let i = self.sel;
        if i >= self.entries.len() {
            return;
        }
        let ghost ev = lines(self.entries@);
        let mut e = copy_entry(&self.entries[i]);
        assert(ev[i as int] == e@);
        if !e.expanded {
            return;
        }
        let depth = e.depth;
        let mut end: usize = i + 1;
        while end < self.entries.len() && self.entries[end].depth > depth
            invariant
                *self == *old(self),
                ev == lines(self.entries@),
                i < end <= self.entries@.len(),
                subtree_end(ev, depth, i + 1) == subtree_end(ev, depth, end as int),
            decreases self.entries@.len() - end,
        {
            assert(ev[end as int] == self.entries@[end as int]@);
            end += 1;
        }
        assert(end < ev.len() ==> ev[end as int] == self.entries@[end as int]@);
        e.expanded = false;
        let ghost l = e@;
        let mut tail = self.entries.split_off(end);
        self.entries.truncate(i);
        self.entries.push(e);
        self.entries.append(&mut tail);
        assert(lines(self.entries@) =~= ev.take(i as int).push(l) + ev.skip(end as int));
    }

    /// Collapses or expands the selected directory.
    pub fn toggle(&mut self, ls: &Vec<Listing>)
        ensures
            final(self)@ == old(self)@.toggled(listings(ls@)),
    {
        let expanded = match self.selected() {
            Some(e) => e.expanded,
            None => return,
        };
        if expanded {
            self.collapse();
        } else {
            self.expand(ls);
        }
    }

    /// Collapses the selected directory, or jumps to the parent entry.
    pub fn collapse_or_parent(&mut self)
        ensures
            final(self)@ == old(self)@.collapsed_or_parent(),
    {
        let (expanded, depth) = match self.selected() {
            Some(e) => (e.expanded, e.depth),
            None => return,
        };
        if expanded {
            self.collapse();
        } else if depth > 0 {
            let ghost ev = lines(self.entries@);
            let mut p: usize = self.sel;
            while p > 0
                invariant
                    *self == *old(self),
                    ev == lines(self.entries@),
                    p <= self.sel < self.entries@.len(),
                    parent_index(ev, depth, self.sel as int) == parent_index(
                        ev,
                        depth,
                        p as int,
                    ),
                    self@.selected() matches Some(l) && !l.expanded && l.depth == depth,
                    depth > 0,
                decreases p,
            {
                assert(ev[p - 1] == self.entries@[p - 1]@);
                if self.entries[p - 1].depth < depth {
                    self.sel = p - 1;
                    return;
                }
                p -= 1;
            }
        }
    }

    /// Makes the parent directory the new root.
    pub fn go_up(&mut self, ls: &Vec<Listing>)
        ensures
            final(self)@ == old(self)@.gone_up(listings(ls@)),
    {
        let parent = match path::parent(self.root.as_slice()) {
            Some(p) => p,
            None => return,
        };
        let was = text::bytes_copy(self.root.as_slice());
        self.root = parent;
        self.entries = Vec::new();
        assert(lines(self.entries@) =~= seq![]);
        self.reload(ls);
        self.select_path(was.as_slice());
    }

    /// Makes the selected directory the new root.
    pub fn enter_dir(&mut self, ls: &Vec<Listing>)
        ensures
            final(self)@ == old(self)@.entered(listings(ls@)),
    {
        let dir = match self.selected() {
            Some(e) => if e.is_dir {
                text::bytes_copy(e.path.as_slice())
            } else {
                return;
            },
            None => return,
        };
        self.root = dir;
        self.entries = Vec::new();
        assert(lines(self.entries@) =~= seq![]);
        self.reload(ls);
    }

    /// Shows hidden files, or hides them again.
    pub fn toggle_hidden(&mut self, ls: &Vec<Listing>)
        ensures
            final(self)@ == old(self)@.hidden_toggled(listings(ls@)),
    {
        self.show_hidden = !self.show_hidden;
        self.reload(ls);
    }

    /// Scrolls so that the selected entry is among the `height` on the screen.
    pub fn scroll_into_view(&mut self, height: usize)
        ensures
            final(self)@ == old(self)@.scrolled(height as int),
    {
        if self.sel < self.off {
            self.off = self.sel;
        } else if height > 0 && self.sel - self.off >= height {
            self.off = self.sel - (height - 1);
        }
        let h: usize = if height < 1 {
            1
        } else {
            height
        };
        let last = self.entries.len().saturating_sub(h);
        if self.off > last {
            self.off = last;
        }
        if self.sel < self.off {
            self.off = self.sel;
        }
    }

    /// The directories to read before an operation.
    pub fn dirs_for(&self, op: TreeOp) -> (r: Vec<Vec<u8>>)
        ensures
            text::contents(r@) == self@.looks_at(op),
    {
        let mut r: Vec<Vec<u8>> = Vec::new();
        match op {
            TreeOp::Reload | TreeOp::ToggleHidden => {
                r.push(text::bytes_copy(self.root.as_slice()));
                let mut open = self.open_dirs();
                let ghost ov = text::contents(open@);
                r.append(&mut open);
                assert(text::contents(r@) =~= seq![self.root@] + ov);
            },
            TreeOp::Expand | TreeOp::EnterDir => {
                if let Some(e) = self.selected() {
                    if e.is_dir {
                        r.push(text::bytes_copy(e.path.as_slice()));
                    }
                }
                assert(text::contents(r@) =~= self@.looks_at(op));
            },
            TreeOp::GoUp => {
                if let Some(p) = path::parent(self.root.as_slice()) {
                    r.push(p);
                }
                assert(text::contents(r@) =~= self@.looks_at(op));
            },
        }
        r
    }

    /// Performs an operation with the directories that were read for it.
    pub fn apply(&mut self, op: TreeOp, ls: &Vec<Listing>)
        ensures
            final(self)@ == old(self)@.after(op, listings(ls@)),
    {
        match op {
            TreeOp::Reload => self.reload(ls),
            TreeOp::Expand => self.expand(ls),
            TreeOp::GoUp => self.go_up(ls),
            TreeOp::EnterDir => self.enter_dir(ls),
            TreeOp::ToggleHidden => self.toggle_hidden(ls),
        }
    }
}

// ---------------------------------------------------------------------------
// Tabular files
// ---------------------------------------------------------------------------

/// An ASCII letter in lower case; any other character as it is.
pub open spec fn lower_char(c: char) -> int {
    if 0x41 <= c as int <= 0x5a {
        c as int + 0x20
    } else {
        c as int
    }
}

/// Whether a name ends in `.` and the three letters, in capitals or not.
pub open spec fn ends_in(name: Seq<char>, a: char, b: char, c: char) -> bool {
    let n = name.len() as int;
    &&& n >= 4
    &&& name[n - 4] == '.'
    &&& lower_char(name[n - 3]) == a as int
    &&& lower_char(name[n - 2]) == b as int
    &&& lower_char(name[n - 1]) == c as int
}

/// Whether a name is that of a table.
pub open spec fn tabular(name: Seq<char>) -> bool {
    ||| ends_in(name, 'c', 's', 'v')
    ||| ends_in(name, 't', 's', 'v')
    ||| ends_in(name, 't', 'a', 'b')
    ||| ends_in(name, 'p', 's', 'v')
}

fn lower(c: char) -> (r: u32)
    ensures
        r == lower_char(c),
{
    proof {
        text::lemma_code_point(c);
    }
    let cp = c as u32;
    if 0x41 <= cp && cp <= 0x5a {
        cp + 0x20
    } else {
        cp
    }
}

/// Whether a file name is that of a table: `.csv`, `.tsv`, `.tab` or `.psv`.
pub fn is_tabular(name: &str) -> (r: bool)
    ensures
        r == tabular(name@),
{
    let cs = text::chars_of(name);
    let n = cs.len();
    if n < 4 || cs[n - 4] != '.' {
        return false;
    }
    let (a, b, c) = (lower(cs[n - 3]), lower(cs[n - 2]), lower(cs[n - 1]));
    (a == 0x63 && b == 0x73 && c == 0x76) || (a == 0x74 && b == 0x73 && c == 0x76) || (a == 0x74
        && b == 0x61 && c == 0x62) || (a == 0x70 && b == 0x73 && c == 0x76)
}

// ---------------------------------------------------------------------------
// What always holds of the explorer
// ---------------------------------------------------------------------------

/// Whether entry `i + 1` may follow entry `i`: it is deeper only when `i` is
/// expanded, and then by one level.
pub open spec fn linked(es: Seq<Line>, i: int) -> bool {
    es[i + 1].depth <= es[i].depth || (es[i].expanded && es[i + 1].depth == deeper(es[i].depth))
}

/// Whether entries form a tree.
pub open spec fn shaped(es: Seq<Line>) -> bool {
    &&& forall|i: int| 0 <= i < es.len() - 1 ==> #[trigger] linked(es, i)
    &&& forall|i: int| 0 <= i < es.len() && (#[trigger] es[i]).expanded ==> es[i].is_dir
}

impl Explorer {
    /// The entries form a tree and one of them is selected, if there are any.
    pub open spec fn wf(self) -> bool {
        &&& shaped(self.entries)
        &&& 0 <= self.sel
        &&& self.entries.len() == 0 ==> self.sel == 0
        &&& self.entries.len() > 0 ==> self.sel < self.entries.len()
    }
}

/// Two trees one after the other.
proof fn lemma_shaped_concat(a: Seq<Line>, b: Seq<Line>)
    requires
        shaped(a),
        shaped(b),
        a.len() > 0 && b.len() > 0 ==> b[0].depth <= a.last().depth || (a.last().expanded
            && b[0].depth == deeper(a.last().depth)),
    ensures
        shaped(a + b),
{
    let c = a + b;
    assert forall|i: int| 0 <= i < c.len() - 1 implies #[trigger] linked(c, i) by {
        if i < a.len() - 1 {
            assert(linked(a, i));
        } else if i >= a.len() {
            assert(linked(b, i - a.len()));
        }
    }
    assert forall|i: int| 0 <= i < c.len() && (#[trigger] c[i]).expanded implies c[i].is_dir by {
        if i < a.len() {
            assert(c[i] == a[i]);
        } else {
            assert(c[i] == b[i - a.len()]);
        }
    }
}

proof fn lemma_unsorted(its: Seq<Item>, dir: Seq<u8>, depth: u16, hidden: bool)
    ensures
        forall|k: int|
            #![trigger unsorted(its, dir, depth, hidden)[k]]
            0 <= k < unsorted(its, dir, depth, hidden).len() ==> unsorted(
                its,
                dir,
                depth,
                hidden,
            )[k].depth == depth && !unsorted(its, dir, depth, hidden)[k].expanded,
    decreases its.len(),
{
    if its.len() > 0 {
        lemma_unsorted(its.drop_last(), dir, depth, hidden);
        let before = unsorted(its.drop_last(), dir, depth, hidden);
        let all = unsorted(its, dir, depth, hidden);
        assert forall|k: int| #![trigger all[k]] 0 <= k < all.len() implies all[k].depth == depth
            && !all[k].expanded by {
            if k < before.len() {
                assert(all[k] == before[k]);
            }
        }
    }
}

/// The entries of one directory are all at one depth, and closed.
proof fn lemma_listing(its: Seq<Item>, dir: Seq<u8>, depth: u16, hidden: bool)
    ensures
        ({
            let es = listing(its, dir, depth, hidden);
            &&& forall|k: int|
                0 <= k < es.len() ==> (#[trigger] es[k]).depth == depth && !es[k].expanded
            &&& shaped(es)
        }),
{
    lemma_unsorted(its, dir, depth, hidden);
    let ls = unsorted(its, dir, depth, hidden);
    let ks = sort_keys(ls);
    order::stable_order_sorts(ks, ls.len() as int);
    let o = order::stable_order(ks, ls.len() as int);
    let es = listing(its, dir, depth, hidden);
    assert forall|k: int| 0 <= k < es.len() implies (#[trigger] es[k]).depth == depth
        && !es[k].expanded by {
        assert(0 <= o[k] < ls.len());
        assert(es[k] == ls[o[k]]);
    }
    assert forall|i: int| 0 <= i < es.len() - 1 implies #[trigger] linked(es, i) by {
        assert(es[i].depth == depth && es[i + 1].depth == depth);
    }
}

proof fn lemma_with_contents(
    ls: Seq<Listed>,
    open: Seq<Seq<u8>>,
    hidden: bool,
    dir: Seq<u8>,
    depth: u16,
    es: Seq<Line>,
)
    requires
        forall|k: int| 0 <= k < es.len() ==> (#[trigger] es[k]).depth == depth,
    ensures
        ({
            let r = with_contents(ls, open, hidden, dir, depth, es);
            &&& shaped(r)
            &&& r.len() > 0 ==> r[0].depth == depth
            &&& forall|k: int| 0 <= k < r.len() ==> (#[trigger] r[k]).depth >= depth
        }),
    decreases gap(open, dir), 0int, es.len(),
{
    if es.len() > 0 {
        let t = es.drop_last();
        assert(forall|k: int| 0 <= k < t.len() ==> (#[trigger] t[k]) == es[k]);
        lemma_with_contents(ls, open, hidden, dir, depth, t);
        let before = with_contents(ls, open, hidden, dir, depth, t);
        let l = es.last();
        assert(l == es[es.len() - 1]);
        let r = with_contents(ls, open, hidden, dir, depth, es);
        let o = is_open(l, dir, open);
        let one = seq![Line { expanded: o, ..l }];
        lemma_shaped_concat(before, one);
        assert(before.push(Line { expanded: o, ..l }) =~= before + one);
        if o {
            lemma_longest(open, l.path);
            lemma_below(ls, open, hidden, l.path, deeper(depth));
            let more = below(ls, open, hidden, l.path, deeper(depth));
            lemma_shaped_concat(before + one, more);
            assert forall|k: int| 0 <= k < r.len() implies (#[trigger] r[k]).depth >= depth by {
                if k >= before.len() + 1 {
                    assert(r[k] == more[k - before.len() - 1]);
                } else if k < before.len() {
                    assert(r[k] == before[k]);
                }
            }
            if before.len() > 0 {
                assert(r[0] == before[0]);
            }
        } else {
            assert forall|k: int| 0 <= k < r.len() implies (#[trigger] r[k]).depth >= depth by {
                if k < before.len() {
                    assert(r[k] == before[k]);
                }
            }
        }
    }
}

proof fn lemma_below(
    ls: Seq<Listed>,
    open: Seq<Seq<u8>>,
    hidden: bool,
    dir: Seq<u8>,
    depth: u16,
)
    ensures
        ({
            let r = below(ls, open, hidden, dir, depth);
            &&& shaped(r)
            &&& r.len() > 0 ==> r[0].depth == depth
            &&& forall|k: int| 0 <= k < r.len() ==> (#[trigger] r[k]).depth >= depth
        }),
    decreases gap(open, dir), 1int, 0nat,
{
    lemma_listing(items_in(ls, dir), dir, depth, hidden);
    lemma_with_contents(
        ls,
        open,
        hidden,
        dir,
        depth,
        listing(items_in(ls, dir), dir, depth, hidden),
    );
}

proof fn lemma_index_of_path(es: Seq<Line>, p: Seq<u8>, i: int)
    requires
        0 <= i <= es.len(),
    ensures
        i <= index_of_path(es, p, i) <= es.len(),
        index_of_path(es, p, i) < es.len() ==> path::same_path(
            es[index_of_path(es, p, i)].path,
            p,
        ),
        forall|k: int|
            i <= k < index_of_path(es, p, i) ==> !path::same_path((#[trigger] es[k]).path, p),
    decreases es.len() - i,
{
    if i < es.len() && !path::same_path(es[i].path, p) {
        lemma_index_of_path(es, p, i + 1);
    }
}

proof fn lemma_subtree_end(es: Seq<Line>, depth: u16, i: int)
    requires
        0 <= i <= es.len(),
    ensures
        i <= subtree_end(es, depth, i) <= es.len(),
        subtree_end(es, depth, i) < es.len() ==> es[subtree_end(es, depth, i)].depth <= depth,
    decreases es.len() - i,
{
    if i < es.len() && es[i].depth > depth {
        lemma_subtree_end(es, depth, i + 1);
    }
}

proof fn lemma_parent_index(es: Seq<Line>, depth: u16, i: int)
    requires
        0 <= i,
    ensures
        -1 <= parent_index(es, depth, i) < i || i == 0,
        parent_index(es, depth, i) >= 0 ==> es[parent_index(es, depth, i)].depth < depth,
    decreases i,
{
    if i > 0 && es[i - 1].depth >= depth {
        lemma_parent_index(es, depth, i - 1);
    }
}

/// Part of a tree.
proof fn lemma_shaped_part(es: Seq<Line>, a: int, b: int)
    requires
        shaped(es),
        0 <= a <= b <= es.len(),
    ensures
        shaped(es.subrange(a, b)),
{
    let t = es.subrange(a, b);
    assert forall|i: int| 0 <= i < t.len() - 1 implies #[trigger] linked(t, i) by {
        assert(linked(es, a + i));
    }
    assert forall|i: int| 0 <= i < t.len() && (#[trigger] t[i]).expanded implies t[i].is_dir by {
        assert(t[i] == es[a + i]);
    }
}

/// The entries up to the selected one, with that one expanded or not.
proof fn lemma_shaped_head(t: Explorer, expanded: bool)
    requires
        t.wf(),
        t.selected() matches Some(l) && l.is_dir,
    ensures
        shaped(t.entries.take(t.sel).push(Line { expanded, ..t.entries[t.sel] })),
{
    let head = t.entries.take(t.sel);
    let one = seq![Line { expanded, ..t.entries[t.sel] }];
    lemma_shaped_part(t.entries, 0, t.sel);
    assert(t.entries.subrange(0, t.sel) =~= head);
    if t.sel > 0 {
        assert(linked(t.entries, t.sel - 1));
    }
    lemma_shaped_concat(head, one);
    assert(head + one =~= head.push(Line { expanded, ..t.entries[t.sel] }));
}

proof fn lemma_reloaded(t: Explorer, ls: Seq<Listed>)
    ensures
        t.reloaded(ls).wf(),
{
    let open = open_paths(t.entries);
    lemma_below(ls, open, t.show_hidden, t.root, 0);
    let es = below(ls, open, t.show_hidden, t.root, 0);
    if let Some(l) = t.selected() {
        lemma_index_of_path(es, l.path, 0);
    }
}

proof fn lemma_selecting(t: Explorer, p: Seq<u8>)
    requires
        t.wf(),
    ensures
        t.selecting(p).wf(),
{
    lemma_index_of_path(t.entries, p, 0);
}

/// A new explorer is in order.
pub proof fn new_explorer_is_in_order(root: Seq<u8>, ls: Seq<Listed>)
    ensures
        (Explorer {
            root,
            entries: below(ls, seq![], false, root, 0),
            sel: 0,
            off: 0,
            show_hidden: false,
        }).wf(),
{
    lemma_below(ls, seq![], false, root, 0);
}

/// Moving, selecting, collapsing and scrolling keep the explorer in order: its
/// entries form a tree and one of them is selected, if there are any.
pub proof fn moving_keeps_the_explorer_in_order(t: Explorer, d: int, p: Seq<u8>, height: int)
    requires
        t.wf(),
    ensures
        t.selecting(p).wf(),
        t.moved(d).wf(),
        t.collapsed().wf(),
        t.collapsed_or_parent().wf(),
        t.scrolled(height).wf(),
{
    lemma_selecting(t, p);
    if let Some(l) = t.selected() {
        assert(l == t.entries[t.sel]);
        if l.expanded {
            let end = subtree_end(t.entries, l.depth, t.sel + 1);
            lemma_subtree_end(t.entries, l.depth, t.sel + 1);
            lemma_shaped_head(t, false);
            let head = t.entries.take(t.sel).push(Line { expanded: false, ..l });
            let tail = t.entries.skip(end);
            lemma_shaped_part(t.entries, end, t.entries.len() as int);
            assert(t.entries.subrange(end, t.entries.len() as int) =~= tail);
            lemma_shaped_concat(head, tail);
        }
        lemma_parent_index(t.entries, l.depth, t.sel);
    }
}

/// Every operation keeps the explorer in order, whatever was read.
pub proof fn operations_keep_the_explorer_in_order(t: Explorer, op: TreeOp, ls: Seq<Listed>)
    requires
        t.wf(),
    ensures
        t.after(op, ls).wf(),
{
    moving_keeps_the_explorer_in_order(t, 0, seq![], 0);
    lemma_reloaded(t, ls);
    lemma_reloaded(Explorer { show_hidden: !t.show_hidden, ..t }, ls);
    if let Some(p) = path::parent_of(t.root) {
        lemma_reloaded(Explorer { root: p, entries: seq![], ..t }, ls);
        lemma_selecting(t.rooted(p, ls), t.root);
    }
    if let Some(l) = t.selected() {
        lemma_reloaded(Explorer { root: l.path, entries: seq![], ..t }, ls);
        if l.is_dir && !l.expanded {
            let children = listing(items_in(ls, l.path), l.path, deeper(l.depth), t.show_hidden);
            lemma_listing(items_in(ls, l.path), l.path, deeper(l.depth), t.show_hidden);
            lemma_shaped_head(t, true);
            let head = t.entries.take(t.sel).push(Line { expanded: true, ..l });
            let tail = t.entries.skip(t.sel + 1);
            lemma_shaped_concat(head, children);
            lemma_shaped_part(t.entries, t.sel + 1, t.entries.len() as int);
            assert(t.entries.subrange(t.sel + 1, t.entries.len() as int) =~= tail);
            if tail.len() > 0 {
                assert(linked(t.entries, t.sel));
            }
            if children.len() > 0 {
                assert(children.last() == children[children.len() - 1]);
                assert((head + children).last() == children.last());
            } else {
                assert((head + children) =~= head);
            }
            lemma_shaped_concat(head + children, tail);
        }
    }
}

/// Collapsing a directory undoes expanding it, whatever was in it.
pub proof fn collapsing_undoes_expanding(t: Explorer, ls: Seq<Listed>)
    requires
        t.wf(),
        t.selected() matches Some(l) && l.is_dir && !l.expanded && l.depth < u16::MAX,
    ensures
        t.expanded(ls).collapsed() == t,
{
    let l = t.entries[t.sel];
    let i = t.sel;
    let children = listing(items_in(ls, l.path), l.path, deeper(l.depth), t.show_hidden);
    lemma_listing(items_in(ls, l.path), l.path, deeper(l.depth), t.show_hidden);
    let u = t.expanded(ls);
    let tail = t.entries.skip(i + 1);
    assert(u.entries[i] == (Line { expanded: true, ..l }));
    if tail.len() > 0 {
        assert(linked(t.entries, i));
        assert(u.entries[i + 1 + children.len()] == tail[0]);
    }
    lemma_skip_children(u.entries, l.depth, i + 1, children.len() as int, children);
    assert(u.collapsed().entries =~= t.entries);
}

proof fn lemma_skip_children(es: Seq<Line>, depth: u16, i: int, n: int, children: Seq<Line>)
    requires
        0 <= i,
        0 <= n <= children.len(),
        i + n <= es.len(),
        depth < u16::MAX,
        forall|k: int|
            0 <= k < n ==> #[trigger] es[i + k] == children[children.len() - n + k],
        forall|k: int| 0 <= k < children.len() ==> (#[trigger] children[k]).depth == deeper(depth),
        i + n < es.len() ==> es[i + n].depth <= depth,
    ensures
        subtree_end(es, depth, i) == i + n,
    decreases n,
{
    if n > 0 {
        assert(es[i + 0] == children[children.len() - n]);
        assert forall|k: int| 0 <= k < n - 1 implies #[trigger] es[(i + 1) + k]
            == children[children.len() - (n - 1) + k] by {
            assert(es[i + (k + 1)] == children[children.len() - n + (k + 1)]);
        }
        lemma_skip_children(es, depth, i + 1, n - 1, children);
    }
}

/// After scrolling, the selected entry is on the screen.
pub proof fn scrolling_shows_the_selection(t: Explorer, height: int)
    requires
        t.wf(),
        t.entries.len() > 0,
        t.off >= 0,
        height > 0,
    ensures
        t.scrolled(height).off <= t.sel < t.scrolled(height).off + height,
        0 <= t.scrolled(height).off,
{
}

/// Whether two readings agree on some directories.
pub open spec fn agree(a: Seq<Listed>, b: Seq<Listed>, dirs: Seq<Seq<u8>>) -> bool {
    forall|k: int|
        0 <= k < dirs.len() ==> items_in(a, #[trigger] dirs[k]) == items_in(b, dirs[k])
}

/// The same directory has the same items.
proof fn lemma_items_in(ls: Seq<Listed>, p: Seq<u8>, q: Seq<u8>)
    requires
        path::same_path(p, q),
    ensures
        items_in(ls, p) == items_in(ls, q),
    decreases ls.len(),
{
    if ls.len() > 0 {
        lemma_items_in(ls.drop_first(), p, q);
    }
}

proof fn lemma_same_contents(
    a: Seq<Listed>,
    b: Seq<Listed>,
    open: Seq<Seq<u8>>,
    hidden: bool,
    dir: Seq<u8>,
    depth: u16,
    es: Seq<Line>,
)
    requires
        agree(a, b, open),
    ensures
        with_contents(a, open, hidden, dir, depth, es) == with_contents(
            b,
            open,
            hidden,
            dir,
            depth,
            es,
        ),
    decreases gap(open, dir), 0int, es.len(),
{
    if es.len() > 0 {
        lemma_same_contents(a, b, open, hidden, dir, depth, es.drop_last());
        let l = es.last();
        if is_open(l, dir, open) {
            lemma_longest(open, l.path);
            let k = choose|k: int|
                0 <= k < open.len() && path::same_path(#[trigger] open[k], l.path);
            assert(items_in(a, open[k]) == items_in(b, open[k]));
            lemma_items_in(a, open[k], l.path);
            lemma_items_in(b, open[k], l.path);
            lemma_same_below(a, b, open, hidden, l.path, deeper(depth));
        }
    }
}

proof fn lemma_same_below(
    a: Seq<Listed>,
    b: Seq<Listed>,
    open: Seq<Seq<u8>>,
    hidden: bool,
    dir: Seq<u8>,
    depth: u16,
)
    requires
        agree(a, b, open),
        items_in(a, dir) == items_in(b, dir),
    ensures
        below(a, open, hidden, dir, depth) == below(b, open, hidden, dir, depth),
    decreases gap(open, dir), 1int, 0nat,
{
    lemma_same_contents(
        a,
        b,
        open,
        hidden,
        dir,
        depth,
        listing(items_in(a, dir), dir, depth, hidden),
    );
}

/// An operation depends only on the directories it looks at: no other needs to
/// be read for it.
pub proof fn operation_depends_on_its_directories(
    t: Explorer,
    op: TreeOp,
    a: Seq<Listed>,
    b: Seq<Listed>,
)
    requires
        agree(a, b, t.looks_at(op)),
    ensures
        t.after(op, a) == t.after(op, b),
{
    let dirs = t.looks_at(op);
    match op {
        TreeOp::Reload | TreeOp::ToggleHidden => {
            let open = open_paths(t.entries);
            let hidden = if op == TreeOp::Reload {
                t.show_hidden
            } else {
                !t.show_hidden
            };
            assert(dirs[0] == t.root);
            assert forall|k: int| 0 <= k < open.len() implies items_in(a, #[trigger] open[k])
                == items_in(b, open[k]) by {
                assert(dirs[k + 1] == open[k]);
            }
            lemma_same_below(a, b, open, hidden, t.root, 0);
        },
        TreeOp::Expand => {
            if let Some(l) = t.selected() {
                if l.is_dir {
                    assert(dirs[0] == l.path);
                }
            }
        },
        TreeOp::EnterDir => {
            if let Some(l) = t.selected() {
                if l.is_dir {
                    assert(dirs[0] == l.path);
                    assert(open_paths(seq![]) =~= seq![]);
                    lemma_same_below(a, b, seq![], t.show_hidden, l.path, 0);
                }
            }
        },
        TreeOp::GoUp => {
            if let Some(p) = path::parent_of(t.root) {
                assert(dirs[0] == p);
                assert(open_paths(seq![]) =~= seq![]);
                lemma_same_below(a, b, seq![], t.show_hidden, p, 0);
            }
        },
    }
}

/// The entries of a directory are in order: directories first, then by name
/// regardless of case.
pub proof fn listing_is_in_order(
    its: Seq<Item>,
    dir: Seq<u8>,
    depth: u16,
    hidden: bool,
    a: int,
    b: int,
)
    requires
        0 <= a < b < listing(its, dir, depth, hidden).len(),
    ensures
        ({
            let ks = sort_keys(listing(its, dir, depth, hidden));
            order::key_le(ks[a], ks[b])
        }),
{
    let ls = unsorted(its, dir, depth, hidden);
    let ks = sort_keys(ls);
    let o = order::stable_order(ks, ls.len() as int);
    order::stable_order_sorts(ks, ls.len() as int);
    assert(0 <= o[a] < ls.len() && 0 <= o[b] < ls.len());
    assert(order::key_le(ks[o[a]], ks[o[b]]));
}

/// Whether an item is shown.
pub open spec fn is_shown(it: Item, hidden: bool) -> bool {
    hidden || !hidden_name(text::utf8_lossy(it.file_name))
}

proof fn lemma_unsorted_has(its: Seq<Item>, dir: Seq<u8>, depth: u16, hidden: bool, k: int) -> (j:
    int)
    requires
        0 <= k < its.len(),
        is_shown(its[k], hidden),
    ensures
        0 <= j < unsorted(its, dir, depth, hidden).len(),
        unsorted(its, dir, depth, hidden)[j] == line_of(its[k], dir, depth),
    decreases its.len(),
{
    let before = unsorted(its.drop_last(), dir, depth, hidden);
    if k == its.len() - 1 {
        before.len() as int
    } else {
        lemma_unsorted_has(its.drop_last(), dir, depth, hidden, k)
    }
}

/// Every item of a directory that is shown has its entry.
pub proof fn listing_is_complete(
    its: Seq<Item>,
    dir: Seq<u8>,
    depth: u16,
    hidden: bool,
    k: int,
)
    requires
        0 <= k < its.len(),
        is_shown(its[k], hidden),
    ensures
        listing(its, dir, depth, hidden).contains(line_of(its[k], dir, depth)),
{
    let ls = unsorted(its, dir, depth, hidden);
    let j = lemma_unsorted_has(its, dir, depth, hidden, k);
    let ks = sort_keys(ls);
    let n = ls.len() as int;
    let o = order::stable_order(ks, n);
    order::stable_order_sorts(ks, n);
    order::stable_order_is_complete(ks, n, j);
    let i = o.index_of(j);
    assert(listing(its, dir, depth, hidden)[i] == ls[j]);
}

/// With no directory open, a directory's entries are shown as they are.
proof fn lemma_nothing_open(
    ls: Seq<Listed>,
    hidden: bool,
    dir: Seq<u8>,
    depth: u16,
    es: Seq<Line>,
)
    requires
        forall|k: int| 0 <= k < es.len() ==> !(#[trigger] es[k]).expanded,
    ensures
        with_contents(ls, seq![], hidden, dir, depth, es) == es,
    decreases es.len(),
{
    if es.len() > 0 {
        let t = es.drop_last();
        assert(forall|k: int| 0 <= k < t.len() ==> (#[trigger] t[k]) == es[k]);
        lemma_nothing_open(ls, hidden, dir, depth, t);
        let l = es.last();
        assert(!es[es.len() - 1].expanded);
        assert(!includes(seq![], l.path));
        assert((Line { expanded: false, ..l }) =~= l);
        assert(t.push(l) =~= es);
    }
}

/// Going up selects the directory that one came from, when it is listed in its
/// parent.
pub proof fn going_up_selects_the_old_root(t: Explorer, ls: Seq<Listed>, k: int)
    requires
        path::name_of(t.root) is Some,
        path::parent_of(t.root) matches Some(p) && 0 <= k < items_in(ls, p).len() && is_shown(
            items_in(ls, p)[k],
            t.show_hidden,
        ) && Some(items_in(ls, p)[k].file_name) == path::name_of(t.root),
    ensures
        t.gone_up(ls).selected() matches Some(l) && path::same_path(l.path, t.root),
        Some(t.gone_up(ls).root) == path::parent_of(t.root),
{
    let p = path::parent_of(t.root)->0;
    let its = items_in(ls, p);
    let es = listing(its, p, 0, t.show_hidden);
    lemma_listing(its, p, 0, t.show_hidden);
    lemma_nothing_open(ls, t.show_hidden, p, 0, es);
    listing_is_complete(its, p, 0, t.show_hidden, k);
    path::join_inverts_parent(t.root);
    let u = t.rooted(p, ls);
    assert(open_paths(seq![]) =~= seq![]);
    assert(u.entries == es);
    let i = es.index_of(line_of(its[k], p, 0));
    lemma_index_of_path(es, t.root, 0);
    assert(path::same_path(es[i].path, t.root));
}

} // verus!
