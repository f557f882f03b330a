//! Application state and event handling. What has to be read or started
//! outside is handed back as an action.

use crate::doc::Doc;
use crate::index::Batch;
use crate::screen::Rect;
use crate::source::Mmap;
use crate::state::{Focus, Poll, PromptKind};
use crate::term::{Event, Key};
use crate::tree::{Listing, Tree, TreeOp};
use crate::{base64, csv, doc, index, path, screen, state, text, tree, util};
use std::sync::Arc;
use vstd::prelude::*;

verus! {

/// A record shown in full.
pub struct RecordView {
    /// The row that the fields belong to.
    pub row: usize,
    pub scroll: usize,
    /// Whether it still has to scroll to the current column.
    pub jump: bool,
    /// Titles and texts.
    pub fields: Vec<(String, String)>,
}

/// Titles and texts of fields.
pub open spec fn pairs(v: Seq<(String, String)>) -> Seq<(Seq<char>, Seq<char>)> {
    v.map_values(|p: (String, String)| (p.0@, p.1@))
}

impl View for RecordView {
    type V = state::Record;

    open spec fn view(&self) -> state::Record {
        state::Record {
            row: self.row as int,
            scroll: self.scroll as int,
            jump: self.jump,
            fields: pairs(self.fields@),
        }
    }
}

/// What lies over the panels.
pub enum Overlay {
    Closed,
    Help(usize),
    Record(RecordView),
}

impl View for Overlay {
    type V = state::Cover;

    open spec fn view(&self) -> state::Cover {
        match *self {
            Overlay::Closed => state::Cover::Closed,
            Overlay::Help(n) => state::Cover::Help(n as int),
            Overlay::Record(r) => state::Cover::Record(r@),
        }
    }
}

/// A search that was started, and what it found.
pub struct SearchJob {
    pub found: Option<(usize, bool)>,
}

/// What the surroundings have to do.
pub enum Action {
    Nothing,
    /// Read the directories that an operation of the explorer looks at, then
    /// hand them over.
    Tree(TreeOp),
    /// Give up the running search, open a file and hand it over.
    Open(Vec<u8>),
    /// Give up the running search and look for a text.
    Search(String, usize, bool),
    /// Give up the running search.
    Cancel,
}

impl View for Action {
    type V = state::Act;

    open spec fn view(&self) -> state::Act {
        match *self {
            Action::Nothing => state::Act::Nothing,
            Action::Tree(op) => state::Act::Tree(op),
            Action::Open(p) => state::Act::Open(p@),
            Action::Search(n, from, forward) => state::Act::Search(n@, from as int, forward),
            Action::Cancel => state::Act::Cancel,
        }
    }
}

/// The whole program.
pub struct App {
    pub quit: bool,
    pub focus: Focus,
    pub show_tree: bool,
    pub tree: Tree,
    pub doc: Option<Doc>,
    pub prompt: Option<(PromptKind, String)>,
    pub overlay: Overlay,
    pub msg: Option<(String, bool)>,
    pub search: Option<SearchJob>,
    pub needle: Option<String>,
    /// Raw bytes to send to the terminal after the next frame.
    pub output: Vec<u8>,
    // Layout of the last frame, used for paging and mouse hit-testing.
    pub tree_rect: Rect,
    pub table_rect: Rect,
    pub rows_y: u16,
    pub page: usize,
    pub tree_page: usize,
    pub col_hits: Vec<(u16, u16, usize)>,
    pub relayout: bool,
    /// The home directory.
    pub home: Option<String>,
}

/// The contents of the open document.
pub open spec fn table_of(d: Option<Doc>) -> Option<doc::Table> {
    match d {
        Some(d) => Some(d@),
        None => None,
    }
}

impl View for App {
    type V = state::State;

    open spec fn view(&self) -> state::State {
        state::State {
            quit: self.quit,
            focus: self.focus,
            show_tree: self.show_tree,
            tree: self.tree@,
            doc: table_of(self.doc),
            prompt: match self.prompt {
                Some((k, s)) => Some((k, s@)),
                None => None,
            },
            overlay: self.overlay@,
            msg: match self.msg {
                Some((s, e)) => Some((s@, e)),
                None => None,
            },
            search: match self.search {
                Some(j) => Some(j.found),
                None => None,
            },
            needle: util::text_of(self.needle),
            output: self.output@,
            tree_rect: self.tree_rect,
            table_rect: self.table_rect,
            rows_y: self.rows_y,
            page: self.page as int,
            tree_page: self.tree_page as int,
            col_hits: self.col_hits@,
            relayout: self.relayout,
            home: util::text_of(self.home),
        }
    }
}

impl App {
    pub open spec fn wf(&self) -> bool {
        &&& self.tree@.wf()
        &&& self.doc matches Some(d) ==> d.wf()
        &&& self.search is Some ==> self.doc is Some
        &&& self.search matches Some(j) ==> j.found matches Some(f) ==> f.0 < self.doc->0@.data.len()
        &&& self.page <= u16::MAX
        &&& self.tree_page <= u16::MAX
        &&& self.tree_rect.x < u16::MAX
        &&& self.tree_rect.y < u16::MAX
    }

    /// The program at its start, with a file asked for or not. `ls` holds what
    /// is in the root directory.
    pub fn new(root: Vec<u8>, file: Option<Vec<u8>>, home: Option<String>, ls: &Vec<Listing>) -> (r:
        (App, Action))
        ensures
            r.0.wf(),
            (r.0@, r.1@) == state::started_with(
                root@,
                match file {
                    Some(f) => Some(f@),
                    None => None,
                },
                util::text_of(home),
                tree::listings(ls@),
            ),
    {
        let none = Rect::default();
        let t = Tree::new(root, ls);
        proof {
            tree::new_explorer_is_in_order(root@, tree::listings(ls@));
        }
        let mut app = App {
            quit: false,
            focus: Focus::Tree,
            show_tree: true,
            tree: t,
            doc: None,
            prompt: None,
            overlay: Overlay::Closed,
            msg: None,
            search: None,
            needle: None,
            output: Vec::new(),
            tree_rect: none,
            table_rect: none,
            rows_y: 0,
            page: 20,
            tree_page: 20,
            col_hits: Vec::new(),
            relayout: false,
            home,
        };
        assert(app@ =~= state::started(root@, util::text_of(home), tree::listings(ls@)));
        let action = match &file {
            Some(f) => {
                proof {
                    tree::moving_keeps_the_explorer_in_order(app.tree@, 0, f@, 0);
                }
                app.tree.select_path(f.as_slice());
                app.open_file(f.as_slice())
            },
            None => Action::Nothing,
        };
        (app, action)
    }

    /// True while background work is running (the screen then refreshes
    /// faster).
    pub fn busy(&self) -> (r: bool)
        ensures
            r == self@.busy(),
    {
        if self.search.is_some() {
            return true;
        }
        match &self.doc {
            Some(d) => !d.index.done(),
            None => false,
        }
    }

    /// Hands out the raw bytes to send to the terminal.
    pub fn take_output(&mut self) -> (r: Vec<u8>)
        requires
            old(self).wf(),
        ensures
            final(self).wf(),
            r@ == old(self)@.output,
            final(self)@ == (state::State { output: seq![], ..old(self)@ }),
    {
        let mut out: Vec<u8> = Vec::new();
        std::mem::swap(&mut out, &mut self.output);
        assert(self@ =~= (state::State { output: seq![], ..old(self)@ }));
        out
    }

    fn info(&mut self, s: String)
        requires
            old(self).wf(),
        ensures
            final(self).wf(),
            final(self)@ == old(self)@.info(s@),
    {
        self.msg = Some((s, false));
    }

    fn error(&mut self, s: String)
        requires
            old(self).wf(),
        ensures
            final(self).wf(),
            final(self)@ == old(self)@.error(s@),
    {
        self.msg = Some((s, true));
    }

    /// Asks for a file, unless it is the open one.
    pub fn open_file(&mut self, path: &[u8]) -> (r: Action)
        requires
            old(self).wf(),
        ensures
            final(self).wf(),
            (final(self)@, r@) == old(self)@.open_file(path@),
    {
        let same = match &self.doc {
            Some(d) => path::same(d.path.as_slice(), path),
            None => false,
        };
        if same {
            self.focus = Focus::Table;
            return Action::Nothing;
        }
        self.search = None;
        Action::Open(text::bytes_copy(path))
    }

    /// Takes over a file that was opened.
    pub fn opened(&mut self, path: Vec<u8>, map: Arc<Mmap>)
        requires
            old(self).wf(),
        ensures
            final(self).wf(),
            final(self).doc matches Some(d) && d.map == map && d.index.fresh() && csv::sniffs(
                map@,
                path@,
                d.delim,
            ),
            final(self)@ == old(self)@.opened(doc::opened(path@, map@, final(self).doc->0.delim)),
    {
        self.search = None;
        self.doc = Some(Doc::open(path, map));
        self.focus = Focus::Table;
        self.overlay = Overlay::Closed;
    }

    /// Says that a file could not be opened, and why.
    pub fn open_failed(&mut self, path: &[u8], why: &str)
        requires
            old(self).wf(),
        ensures
            final(self).wf(),
            final(self)@ == old(self)@.open_failed(path@, why@),
            vstd::utf8::valid_utf8(path@) ==> final(self)@ == old(self)@.error(
                "Cannot open "@ + vstd::utf8::decode_utf8(path@) + ": "@ + why@,
            ),
    {
        let name = text::from_utf8_lossy(path);
        let mut s = text::to_string("Cannot open ");
        s.append(name.as_str());
        s.append(": ");
        s.append(why);
        self.error(s);
    }

    /// The directories to read before an operation of the explorer.
    pub fn dirs_for(&self, op: TreeOp) -> (r: Vec<Vec<u8>>)
        ensures
            text::contents(r@) == self@.tree.looks_at(op),
    {
        self.tree.dirs_for(op)
    }

    /// Takes over the directories that were read for an operation.
    pub fn listed(&mut self, op: TreeOp, ls: &Vec<Listing>)
        requires
            old(self).wf(),
        ensures
            final(self).wf(),
            final(self)@ == old(self)@.listed(op, tree::listings(ls@)),
    {
        proof {
            tree::operations_keep_the_explorer_in_order(self.tree@, op, tree::listings(ls@));
        }
        self.tree.apply(op, ls);
    }

    /// Takes up news of the index of the open document.
    pub fn publish(&mut self, batch: Batch)
        requires
            old(self).wf(),
            old(self).doc matches Some(d) ==> index::right_about(
                d.index.checkpoints@ + batch.local@,
                batch.rows as int,
                batch.scanned as int,
                batch.done,
                d@.data,
            ),
        ensures
            final(self).wf(),
            old(self).doc is None ==> final(self)@ == old(self)@,
            old(self)@.doc matches Some(d) ==> final(self)@ == old(self)@.with_doc(
                doc::Table {
                    found: batch.rows as int,
                    scanned: batch.scanned as int,
                    done: batch.done,
                    ..d
                },
            ),
    {
        if let Some(mut d) = self.doc.take() {
            d.publish(batch);
            self.doc = Some(d);
        }
    }

    // -----------------------------------------------------------------------
    // Search
    // -----------------------------------------------------------------------

    fn start_search(&mut self, forward: bool) -> (r: Action)
        requires
            old(self).wf(),
        ensures
            final(self).wf(),
            (final(self)@, r@) == old(self)@.search_again(forward),
    {
        let needle = match &self.needle {
            Some(n) => text::to_string(n.as_str()),
            None => {
                self.error(text::to_string("No previous search"));
                return Action::Nothing;
            },
        };
        self.search = None;
        let from = match &self.doc {
            Some(d) => search_from(d, forward),
            None => return Action::Cancel,
        };
        self.search = Some(SearchJob { found: None });
        Action::Search(needle, from, forward)
    }

    /// Takes up news of the running search. Called once per loop iteration.
    pub fn tick(&mut self, news: Poll)
        requires
            old(self).wf(),
            news matches Poll::Done(Some(f)) ==> old(self).doc matches Some(d) ==> f.0
                < d@.data.len(),
        ensures
            final(self).wf(),
            final(self)@ == old(self)@.tick(news),
    {
        let found = match &self.search {
            Some(j) => j.found,
            None => return,
        };
        let (off, wrapped) = match found {
            Some(f) => f,
            None => match news {
                Poll::Empty => return,
                Poll::Disconnected => {
                    self.search = None;
                    return;
                },
                Poll::Done(None) => {
                    self.search = None;
                    let mut s = text::to_string("Pattern not found: ");
                    if let Some(n) = &self.needle {
                        s.append(n.as_str());
                    }
                    assert(s@ =~= "Pattern not found: "@ + match self@.needle {
                        Some(n) => n,
                        None => seq![],
                    });
                    self.error(s);
                    return;
                },
                Poll::Done(Some(f)) => f,
            },
        };
        let mut d = match self.doc.take() {
            Some(d) => d,
            None => return,
        };
        if !d.index.done() && off >= d.index.scanned() {
            // Match found beyond what the indexer has reached: wait for it.
            self.doc = Some(d);
            self.search = Some(SearchJob { found: Some((off, wrapped)) });
            return;
        }
        self.search = None;
        let mut fields: Vec<(usize, usize)> = Vec::new();
        let (row, col) = d.locate(off, &mut fields);
        let n: usize = fields.len();
        assert(col < n);
        d.ensure_cols(col + 1);
        d.row = row;
        d.col = col;
        d.clamp();
        self.doc = Some(d);
        if wrapped {
            self.info(text::to_string("Search wrapped around"));
        }
    }
}

/// Where a search starts.
fn search_from(d: &Doc, forward: bool) -> (r: usize)
    requires
        d.wf(),
    ensures
        r == state::search_start(d@, forward),
{
    let mut fields: Vec<(usize, usize)> = Vec::new();
    if !d.read_row(d.row, &mut fields) {
        return 0;
    }
    assert(csv::ranges(fields@).len() == fields@.len());
    if d.col < fields.len() {
        let (a, b) = fields[d.col];
        assert(csv::ranges(fields@)[d.col as int] == (a as int, b as int));
        if forward {
            b
        } else {
            a
        }
    } else {
        0
    }
}

/// How many milliseconds to wait for input before the next frame: while work
/// goes on the screen is refreshed often, so that progress is visible.
pub fn wait_ms(busy: bool) -> (r: i32)
    ensures
        r == if busy {
            50i32
        } else {
            1000i32
        },
{
    if busy {
        50
    } else {
        1000
    }
}

/// Whether memory is to be released, so many seconds after the last time.
pub fn release_due(secs: u64) -> (r: bool)
    ensures
        r == (secs >= 10),
{
    secs >= 10
}

/// The characters of `s` without carriage returns and line feeds at its end.
pub fn without_line_end(s: &str) -> (r: String)
    ensures
        r@ == state::without_line_end(s@),
{
    let cs = text::chars_of(s);
    let mut n: usize = cs.len();
    assert(cs@.take(n as int) =~= cs@);
    while n > 0 && (cs[n - 1] == '\r' || cs[n - 1] == '\n')
        invariant
            n <= cs@.len(),
            state::without_line_end(cs@) == state::without_line_end(cs@.take(n as int)),
        decreases n,
    {
        assert(cs@.take(n as int).drop_last() =~= cs@.take(n - 1));
        n -= 1;
    }
    assert(cs@.subrange(0, n as int) =~= cs@.take(n as int));
    text::string_of(&cs, 0, n)
}

/// The ASCII digits of a text.
fn digits_of(s: &str) -> (r: Vec<u8>)
    ensures
        r@ == state::digits_of(s@),
{
    let cs = text::chars_of(s);
    let mut r: Vec<u8> = Vec::new();
    let mut i: usize = 0;
    assert(s@.take(0) =~= seq![]);
    while i < cs.len()
        invariant
            cs@ == s@,
            i <= cs@.len(),
            r@ == state::digits_of(s@.take(i as int)),
        decreases cs@.len() - i,
    {
        let c = cs[i];
        assert(s@.take(i + 1).drop_last() =~= s@.take(i as int));
        proof {
            text::lemma_code_point(c);
        }
        let cp = c as u32;
        if 0x30 <= cp && cp <= 0x39 {
            r.push(cp as u8);
        }
        i += 1;
    }
    assert(s@.take(i as int) =~= s@);
    r
}

impl App {
    // -----------------------------------------------------------------------
    // Clipboard (OSC 52: works over SSH and needs no external tool)
    // -----------------------------------------------------------------------

    fn copy(&mut self, s: &str, what: &str)
        requires
            old(self).wf(),
        ensures
            final(self).wf(),
            final(self)@ == old(self)@.copied(s@, what@),
    {
        let b64 = base64::base64(s.as_bytes());
        let ghost before = self.output@;
        self.output.push(0x1b);
        self.output.push(0x5d);
        self.output.push(0x35);
        self.output.push(0x32);
        self.output.push(0x3b);
        self.output.push(0x63);
        self.output.push(0x3b);
        self.output.extend_from_slice(b64.as_str().as_bytes());
        self.output.push(0x07);
        assert(self.output@ =~= before + state::clipboard(vstd::utf8::encode_utf8(s@)));
        let n: usize = text::chars_of(s).len();
        let mut m = text::to_string("Copied ");
        m.append(what);
        m.append(" to clipboard (");
        m.append(text::to_decimal(n as u64).as_str());
        m.append(" chars)");
        self.info(m);
    }

    fn copy_cell(&mut self)
        requires
            old(self).wf(),
        ensures
            final(self).wf(),
            final(self)@ == old(self)@.copy_cell(),
    {
        let d = match &self.doc {
            Some(d) => d,
            None => return,
        };
        let mut fields: Vec<(usize, usize)> = Vec::new();
        if !d.read_row(d.row, &mut fields) {
            return;
        }
        let mut s = String::new();
        assert(csv::ranges(fields@).len() == fields@.len());
        if d.col < fields.len() {
            let (a, b) = fields[d.col];
            assert(csv::ranges(fields@)[d.col as int] == (a as int, b as int));
            csv::decode_field(&d.data()[a..b], 0x100_0000, true, &mut s);
        } else {
            assert(s@ =~= seq![]);
        }
        self.copy(s.as_str(), "cell");
    }

    fn copy_row(&mut self)
        requires
            old(self).wf(),
        ensures
            final(self).wf(),
            final(self)@ == old(self)@.copy_row(),
    {
        let d = match &self.doc {
            Some(d) => d,
            None => return,
        };
        let start = match d.record_start(d.row) {
            Some(s) => s,
            None => return,
        };
        let data = d.data();
        let end = csv::next_record(data, start);
        let all = text::from_utf8_lossy(&data[start..end]);
        let s = without_line_end(all.as_str());
        self.copy(s.as_str(), "row");
    }

    // -----------------------------------------------------------------------
    // Input
    // -----------------------------------------------------------------------

    /// Takes up an event. What is left to do outside is handed back.
    pub fn handle(&mut self, ev: Event) -> (r: Action)
        requires
            old(self).wf(),
        ensures
            final(self).wf(),
            (final(self)@, r@) == old(self)@.handle(ev),
    {
        match ev {
            Event::Key(k) => self.on_key(k),
            Event::Click(x, y) => self.on_click(x, y),
            Event::Scroll(x, y, d) => {
                self.on_scroll(x, y, d as isize * 3);
                Action::Nothing
            },
        }
    }

    fn on_key(&mut self, k: Key) -> (r: Action)
        requires
            old(self).wf(),
        ensures
            final(self).wf(),
            (final(self)@, r@) == old(self)@.on_key(k),
    {
        self.msg = None;
        if self.prompt.is_some() {
            return self.prompt_key(k);
        }
        match &self.overlay {
            Overlay::Closed => self.panel_key(k),
            Overlay::Help(n) => {
                let scroll = *n;
                self.help_key(scroll, k);
                Action::Nothing
            },
            Overlay::Record(_) => {
                self.record_key(k);
                Action::Nothing
            },
        }
    }

    fn help_key(&mut self, scroll: usize, k: Key)
        requires
            old(self).wf(),
            old(self).overlay == Overlay::Help(scroll),
        ensures
            final(self).wf(),
            final(self)@ == old(self)@.help_key(scroll as int, k),
    {
        match k {
            Key::Char('j') | Key::Down => {
                self.overlay = Overlay::Help(util::add_signed(scroll, 1));
            },
            Key::Char('k') | Key::Up => {
                self.overlay = Overlay::Help(util::add_signed(scroll, -1));
            },
            Key::Ctrl('c') => {
                self.quit = true;
            },
            _ => {
                self.overlay = Overlay::Closed;
            },
        }
    }

    fn panel_key(&mut self, k: Key) -> (r: Action)
        requires
            old(self).wf(),
        ensures
            final(self).wf(),
            (final(self)@, r@) == old(self)@.panel_key(k),
    {
        match k {
            Key::Char('q') | Key::Ctrl('c') => {
                self.quit = true;
            },
            Key::Char('?') => {
                self.overlay = Overlay::Help(0);
            },
            Key::Tab | Key::BackTab => {
                let other = match self.focus {
                    Focus::Tree => Focus::Table,
                    Focus::Table => Focus::Tree,
                };
                self.set_focus(other);
            },
            Key::Char('1') => self.set_focus(Focus::Tree),
            Key::Char('2') => self.set_focus(Focus::Table),
            Key::Char('e') => {
                self.show_tree = !self.show_tree;
                if !self.show_tree && self.doc.is_some() {
                    self.focus = Focus::Table;
                }
            },
            _ => {
                return match self.focus {
                    Focus::Tree => self.tree_key(k),
                    Focus::Table => self.table_key(k),
                };
            },
        }
        Action::Nothing
    }

    fn set_focus(&mut self, f: Focus)
        requires
            old(self).wf(),
        ensures
            final(self).wf(),
            final(self)@ == old(self)@.set_focus(f),
    {
        match f {
            Focus::Tree => {
                self.show_tree = true;
                self.focus = Focus::Tree;
            },
            Focus::Table => {
                if self.doc.is_some() {
                    self.focus = Focus::Table;
                } else {
                    self.info(text::to_string("No file open: pick one in the explorer"));
                }
            },
        }
    }

    fn prompt_key(&mut self, k: Key) -> (r: Action)
        requires
            old(self).wf(),
        ensures
            final(self).wf(),
            (final(self)@, r@) == old(self)@.prompt_key(k),
    {
        let (kind, mut input) = match self.prompt.take() {
            Some(p) => p,
            None => return Action::Nothing,
        };
        match k {
            Key::Esc | Key::Ctrl('c') => {},
            Key::Backspace => {
                if !input.as_str().is_empty() {
                    input.pop();
                    self.prompt = Some((kind, input));
                }
            },
            Key::Ctrl('u') => {
                input.clear();
                self.prompt = Some((kind, input));
            },
            Key::Char(c) => {
                input.push(c);
                self.prompt = Some((kind, input));
            },
            Key::Enter => {
                match kind {
                    PromptKind::Search => {
                        if !input.as_str().is_empty() {
                            self.needle = Some(input);
                            return self.start_search(true);
                        }
                    },
                    PromptKind::Goto => self.goto(input.as_str()),
                }
            },
            _ => {
                self.prompt = Some((kind, input));
            },
        }
        Action::Nothing
    }

    fn goto(&mut self, input: &str)
        requires
            old(self).wf(),
        ensures
            final(self).wf(),
            final(self)@ == old(self)@.goto(input@),
    {
        let mut d = match self.doc.take() {
            Some(d) => d,
            None => return,
        };
        let digits = digits_of(input);
        let number = text::parse_digits(digits.as_slice(), usize::MAX as u64);
        let n: usize = match number {
            Some(n) => n as usize,
            None => 0,
        };
        if n > 0 {
            let total = d.rows();
            let done = d.index.done();
            d.row = n - 1;
            d.clamp();
            self.doc = Some(d);
            if n > total && !done {
                let mut m = text::to_string("Only ");
                m.append(util::fmt_num(total).as_str());
                m.append(" rows indexed so far");
                self.info(m);
            }
        } else {
            self.doc = Some(d);
            let mut m = text::to_string("Invalid row number: ");
            m.append(input);
            self.error(m);
        }
    }

    fn move_tree(&mut self, d: isize)
        requires
            old(self).wf(),
        ensures
            final(self).wf(),
            (final(self)@, state::Act::Nothing) == old(self)@.tree_moved(d as int),
    {
        proof {
            tree::moving_keeps_the_explorer_in_order(self.tree@, d as int, seq![], 0);
        }
        self.tree.move_by(d);
    }

    fn collapse_tree(&mut self)
        requires
            old(self).wf(),
        ensures
            final(self).wf(),
            final(self)@ == (state::State {
                tree: old(self)@.tree.collapsed_or_parent(),
                ..old(self)@
            }),
    {
        proof {
            tree::moving_keeps_the_explorer_in_order(self.tree@, 0, seq![], 0);
        }
        self.tree.collapse_or_parent();
    }

    fn tree_key(&mut self, k: Key) -> (r: Action)
        requires
            old(self).wf(),
        ensures
            final(self).wf(),
            (final(self)@, r@) == old(self)@.tree_key(k),
    {
        let page: isize = if self.tree_page < 1 {
            1
        } else {
            self.tree_page as isize
        };
        match k {
            Key::Char('j') | Key::Down => self.move_tree(1),
            Key::Char('k') | Key::Up => self.move_tree(-1),
            Key::PageDown | Key::Ctrl('f') => self.move_tree(page),
            Key::PageUp | Key::Ctrl('b') => self.move_tree(-page),
            Key::Ctrl('d') => self.move_tree(page / 2),
            Key::Ctrl('u') => self.move_tree(-(page / 2)),
            Key::Char('g') | Key::Home => {
                self.tree.sel = 0;
            },
            Key::Char('G') | Key::End => self.move_tree(isize::MAX),
            Key::Char('h') | Key::Left => self.collapse_tree(),
            Key::Backspace | Key::Char('-') => {
                return Action::Tree(TreeOp::GoUp);
            },
            Key::Char('.') => {
                return Action::Tree(TreeOp::ToggleHidden);
            },
            Key::Char('R') => {
                return Action::Tree(TreeOp::Reload);
            },
            Key::Char('c') => {
                return Action::Tree(TreeOp::EnterDir);
            },
            Key::Char('l') | Key::Right => {
                return self.activate_tree(true);
            },
            Key::Enter | Key::Char(' ') => {
                return self.activate_tree(false);
            },
            _ => {},
        }
        Action::Nothing
    }

    fn activate_tree(&mut self, expand_only: bool) -> (r: Action)
        requires
            old(self).wf(),
        ensures
            final(self).wf(),
            (final(self)@, r@) == old(self)@.activate_tree(expand_only),
    {
        let (is_dir, expanded, path) = match self.tree.selected() {
            Some(e) => (e.is_dir, e.expanded, text::bytes_copy(e.path.as_slice())),
            None => return Action::Nothing,
        };
        if !is_dir {
            return self.open_file(path.as_slice());
        }
        if !expanded {
            return Action::Tree(TreeOp::Expand);
        }
        if !expand_only {
            proof {
                tree::moving_keeps_the_explorer_in_order(self.tree@, 0, seq![], 0);
            }
            self.tree.collapse();
        }
        Action::Nothing
    }

    fn move_row(&mut self, d: isize)
        requires
            old(self).wf(),
        ensures
            final(self).wf(),
            final(self)@ == match old(self)@.doc {
                Some(t) => old(self)@.with_doc(t.moved_row(d as int)),
                None => old(self)@,
            },
    {
        if let Some(mut t) = self.doc.take() {
            t.move_row(d);
            self.doc = Some(t);
        }
    }

    fn move_col(&mut self, d: isize)
        requires
            old(self).wf(),
        ensures
            final(self).wf(),
            final(self)@ == match old(self)@.doc {
                Some(t) => old(self)@.with_doc(t.moved_col(d as int)),
                None => old(self)@,
            },
    {
        if let Some(mut t) = self.doc.take() {
            t.move_col(d);
            self.doc = Some(t);
        }
    }
}

impl App {
    fn table_key(&mut self, k: Key) -> (r: Action)
        requires
            old(self).wf(),
        ensures
            final(self).wf(),
            (final(self)@, r@) == old(self)@.table_key(k),
    {
        let page: isize = if self.page < 1 {
            1
        } else {
            self.page as isize
        };
        if self.doc.is_none() {
            self.focus = Focus::Tree;
            return Action::Nothing;
        }
        match k {
            Key::Down => self.move_row(1),
            Key::Up => self.move_row(-1),
            Key::Left => self.move_col(-1),
            Key::Right => self.move_col(1),
            Key::PageDown | Key::Ctrl('f') => self.move_row(page),
            Key::PageUp | Key::Ctrl('b') => self.move_row(-page),
            Key::Ctrl('d') => self.move_row(page / 2),
            Key::Ctrl('u') => self.move_row(-(page / 2)),
            Key::Home => self.first_row(),
            Key::End => self.move_row(isize::MAX),
            Key::Esc => {
                self.needle = None;
                self.search = None;
                return Action::Cancel;
            },
            Key::Enter => {
                self.overlay = Overlay::Record(
                    RecordView { row: usize::MAX, scroll: 0, jump: true, fields: Vec::new() },
                );
                assert(self.overlay@->Record_0.fields =~= seq![]);
            },
            Key::Char(c) => {
                return self.table_letter(c);
            },
            _ => {},
        }
        Action::Nothing
    }

    fn table_letter(&mut self, c: char) -> (r: Action)
        requires
            old(self).wf(),
            old(self).doc is Some,
        ensures
            final(self).wf(),
            (final(self)@, r@) == old(self)@.table_letter(old(self).doc->0@, c),
    {
        match c {
            'j' => self.move_row(1),
            'k' => self.move_row(-1),
            'h' => self.move_col(-1),
            'l' => self.move_col(1),
            'g' => self.first_row(),
            'G' => self.move_row(isize::MAX),
            '0' | '^' => self.first_col(),
            '$' => self.move_col(isize::MAX),
            'w' => self.move_col(5),
            'b' => self.move_col(-5),
            'T' | 'D' | '+' | '>' | '<' | '=' => self.change_layout(c),
            '/' => {
                self.prompt = Some((PromptKind::Search, String::new()));
            },
            ':' => {
                self.prompt = Some((PromptKind::Goto, String::new()));
            },
            'n' => {
                return self.start_search(true);
            },
            'N' => {
                return self.start_search(false);
            },
            'y' => self.copy_cell(),
            'Y' => self.copy_row(),
            _ => {},
        }
        Action::Nothing
    }

    fn first_row(&mut self)
        requires
            old(self).wf(),
            old(self).doc is Some,
        ensures
            final(self).wf(),
            final(self)@ == old(self)@.with_doc(doc::Table { row: 0, ..old(self).doc->0@ }),
    {
        if let Some(mut d) = self.doc.take() {
            d.row = 0;
            self.doc = Some(d);
        }
    }

    fn first_col(&mut self)
        requires
            old(self).wf(),
            old(self).doc is Some,
        ensures
            final(self).wf(),
            final(self)@ == old(self)@.with_doc(doc::Table { col: 0, ..old(self).doc->0@ }),
    {
        if let Some(mut d) = self.doc.take() {
            d.col = 0;
            self.doc = Some(d);
        }
    }

    /// The keys that change how the columns are laid out.
    fn change_layout(&mut self, c: char)
        requires
            old(self).wf(),
            old(self).doc is Some,
            c == 'T' || c == 'D' || c == '+' || c == '>' || c == '<' || c == '=',
        ensures
            final(self).wf(),
            (final(self)@, state::Act::Nothing) == old(self)@.table_letter(old(self).doc->0@, c),
    {
        if let Some(mut d) = self.doc.take() {
            let delim = d.delim;
            match c {
                'T' => d.toggle_header(),
                'D' => d.cycle_delimiter(),
                '+' | '>' => d.resize_col(2),
                '<' => d.resize_col(-2),
                _ => {
                    // A column that is no longer there is left alone.
                    if d.col < d.ncols() {
                        d.autofit(d.row_off, self.page);
                    }
                },
            }
            let now = d.delim;
            self.doc = Some(d);
            if c == 'D' {
                let mut m = text::to_string("Delimiter: ");
                m.append(util::delim_name(now));
                self.info(m);
            }
        }
    }

    fn scroll_record(&mut self, d: isize)
        requires
            old(self).wf(),
            old(self).overlay is Record,
        ensures
            final(self).wf(),
            final(self)@ == old(self)@.record_scrolled(old(self).overlay->Record_0@, d as int),
    {
        if let Overlay::Record(rv) = &mut self.overlay {
            rv.scroll = util::add_signed(rv.scroll, d);
        }
    }

    fn scroll_record_to(&mut self, n: usize)
        requires
            old(self).wf(),
            old(self).overlay is Record,
        ensures
            final(self).wf(),
            final(self)@ == (state::State {
                overlay: state::Cover::Record(
                    state::Record { scroll: n as int, ..old(self).overlay->Record_0@ },
                ),
                ..old(self)@
            }),
    {
        if let Overlay::Record(rv) = &mut self.overlay {
            rv.scroll = n;
        }
    }

    fn record_key(&mut self, k: Key)
        requires
            old(self).wf(),
            old(self).overlay is Record,
        ensures
            final(self).wf(),
            final(self)@ == old(self)@.record_key(old(self).overlay->Record_0@, k),
    {
        if self.doc.is_none() {
            self.overlay = Overlay::Closed;
            return;
        }
        match k {
            Key::Esc | Key::Enter | Key::Char('q') => {
                self.overlay = Overlay::Closed;
            },
            Key::Ctrl('c') => {
                self.quit = true;
            },
            Key::Char('j') | Key::Down => self.scroll_record(1),
            Key::Char('k') | Key::Up => self.scroll_record(-1),
            Key::PageDown | Key::Ctrl('d') | Key::Ctrl('f') => self.scroll_record(10),
            Key::PageUp | Key::Ctrl('u') | Key::Ctrl('b') => self.scroll_record(-10),
            Key::Char('g') | Key::Home => self.scroll_record_to(0),
            Key::Char('G') | Key::End => self.scroll_record_to(usize::MAX),
            Key::Char('h') | Key::Left => self.move_row(-1),
            Key::Char('l') | Key::Right => self.move_row(1),
            Key::Char('y') => self.copy_cell(),
            Key::Char('Y') => self.copy_row(),
            _ => {},
        }
    }

    // -----------------------------------------------------------------------
    // Mouse
    // -----------------------------------------------------------------------

    fn on_click(&mut self, x: u16, y: u16) -> (r: Action)
        requires
            old(self).wf(),
        ensures
            final(self).wf(),
            (final(self)@, r@) == old(self)@.on_click(x as int, y as int),
    {
        let closed = match &self.overlay {
            Overlay::Closed => true,
            _ => false,
        };
        if !closed {
            self.overlay = Overlay::Closed;
            return Action::Nothing;
        }
        let ti = self.tree_rect.inner();
        if self.show_tree && ti.contains(x, y) {
            self.focus = Focus::Tree;
            let below: usize = (y - ti.y) as usize;
            let n = self.tree.entries.len();
            if below < n && self.tree.off < n - below {
                self.tree.sel = self.tree.off + below;
                return self.activate_tree(false);
            }
        } else if self.table_rect.contains(x, y) {
            if let Some(mut d) = self.doc.take() {
                self.focus = Focus::Table;
                if y >= self.rows_y {
                    let below: usize = (y - self.rows_y) as usize;
                    let n = d.rows();
                    if below < n && d.row_off < n - below {
                        d.row = d.row_off + below;
                    }
                }
                if let Some(c) = self.column_at(x) {
                    d.col = c;
                }
                self.doc = Some(d);
            }
        }
        Action::Nothing
    }

    /// The table column shown at column `x` of the screen.
    fn column_at(&self, x: u16) -> (r: Option<usize>)
        ensures
            r == state::hit(self@.col_hits, x as int, 0),
    {
        let mut k: usize = 0;
        while k < self.col_hits.len()
            invariant
                k <= self.col_hits@.len(),
                state::hit(self@.col_hits, x as int, 0) == state::hit(
                    self@.col_hits,
                    x as int,
                    k as int,
                ),
            decreases self.col_hits@.len() - k,
        {
            let (a, b, c) = self.col_hits[k];
            if x >= a && x < b {
                return Some(c);
            }
            k += 1;
        }
        None
    }

    fn on_scroll(&mut self, x: u16, y: u16, d: isize)
        requires
            old(self).wf(),
        ensures
            final(self).wf(),
            final(self)@ == old(self)@.on_scroll(x as int, y as int, d as int),
    {
        match &self.overlay {
            Overlay::Help(n) => {
                let scroll = *n;
                self.overlay = Overlay::Help(util::add_signed(scroll, d));
            },
            Overlay::Record(_) => self.scroll_record(d),
            Overlay::Closed => {
                if self.show_tree && self.tree_rect.contains(x, y) {
                    self.move_tree(d);
                } else {
                    self.move_row(d);
                }
            },
        }
    }
}

} // verus!
