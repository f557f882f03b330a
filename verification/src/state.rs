//! What the program does: its state and what becomes of it with every key,
//! click and piece of news.

use crate::doc::Table;
use crate::screen::Rect;
use crate::term::{Event, Key};
use crate::tree::{Explorer, Listed, TreeOp};
use crate::{base64, csv, doc, numeric, path, search, text, tree, util};
use vstd::prelude::*;

verus! {

/// The panel that takes the keys.
#[derive(Clone, Copy, Debug, PartialEq, Eq, Structural)]
pub enum Focus {
    Tree,
    Table,
}

/// What is being asked for.
#[derive(Clone, Copy, Debug, PartialEq, Eq, Structural)]
pub enum PromptKind {
    Search,
    Goto,
}

/// What lies over the panels.
pub enum Cover {
    Closed,
    Help(int),
    Record(Record),
}

/// A record shown in full: which row, how far it is scrolled, whether it still
/// has to scroll to the current column, and its titles and texts.
#[verifier::ext_equal]
pub struct Record {
    pub row: int,
    pub scroll: int,
    pub jump: bool,
    pub fields: Seq<(Seq<char>, Seq<char>)>,
}

/// What the surroundings have to do.
pub enum Act {
    Nothing,
    /// Read the directories that an operation of the explorer looks at.
    Tree(TreeOp),
    /// Give up the running search and open a file.
    Open(Seq<u8>),
    /// Give up the running search and look for a text, from a byte on.
    Search(Seq<char>, int, bool),
    /// Give up the running search.
    Cancel,
}

/// News of the running search.
#[derive(Clone, Copy, Debug)]
pub enum Poll {
    /// It is still running.
    Empty,
    /// It ended without a result.
    Disconnected,
    /// It found a match, wrapped around or not, or none.
    Done(Option<(usize, bool)>),
}

/// The state of the program.
#[verifier::ext_equal]
pub struct State {
    pub quit: bool,
    pub focus: Focus,
    pub show_tree: bool,
    pub tree: Explorer,
    pub doc: Option<Table>,
    pub prompt: Option<(PromptKind, Seq<char>)>,
    pub overlay: Cover,
    pub msg: Option<(Seq<char>, bool)>,
    /// The running search, and what it found.
    pub search: Option<Option<(usize, bool)>>,
    pub needle: Option<Seq<char>>,
    /// Raw bytes to send to the terminal after the next frame.
    pub output: Seq<u8>,
    pub tree_rect: Rect,
    pub table_rect: Rect,
    pub rows_y: u16,
    pub page: int,
    pub tree_page: int,
    pub col_hits: Seq<(u16, u16, usize)>,
    pub relayout: bool,
    pub home: Option<Seq<char>>,
}

// ---------------------------------------------------------------------------
// Messages and files
// ---------------------------------------------------------------------------

impl State {
    pub open spec fn info(self, s: Seq<char>) -> State {
        State { msg: Some((s, false)), ..self }
    }

    pub open spec fn error(self, s: Seq<char>) -> State {
        State { msg: Some((s, true)), ..self }
    }

    /// Asks for a file, unless it is the open one.
    pub open spec fn open_file(self, path: Seq<u8>) -> (State, Act) {
        if self.doc matches Some(d) && path::same_path(d.path, path) {
            (State { focus: Focus::Table, ..self }, Act::Nothing)
        } else {
            (State { search: None, ..self }, Act::Open(path))
        }
    }

    /// A file was opened.
    pub open spec fn opened(self, d: Table) -> State {
        State {
            doc: Some(d),
            focus: Focus::Table,
            overlay: Cover::Closed,
            search: None,
            ..self
        }
    }

    /// A file could not be opened.
    pub open spec fn open_failed(self, path: Seq<u8>, why: Seq<char>) -> State {
        self.error("Cannot open "@ + text::utf8_lossy(path) + ": "@ + why)
    }

    /// Directories were read for an operation of the explorer.
    pub open spec fn listed(self, op: TreeOp, ls: Seq<Listed>) -> State {
        State { tree: self.tree.after(op, ls), ..self }
    }
}

// ---------------------------------------------------------------------------
// Search
// ---------------------------------------------------------------------------

/// Where a search starts: behind the current cell, or before it when going
/// backwards, so that it always lands on a different cell.
pub open spec fn search_start(d: Table, forward: bool) -> int {
    match d.row_fields(d.row) {
        Some(f) => if d.col < f.len() {
            if forward {
                f[d.col].1
            } else {
                f[d.col].0
            }
        } else {
            0
        },
        None => 0,
    }
}

impl State {
    /// Looks for the last searched text again.
    pub open spec fn search_again(self, forward: bool) -> (State, Act) {
        match self.needle {
            None => (self.error("No previous search"@), Act::Nothing),
            Some(n) => match self.doc {
                None => (State { search: None, ..self }, Act::Cancel),
                Some(d) => (
                    State { search: Some(None), ..self },
                    Act::Search(n, search_start(d, forward), forward),
                ),
            },
        }
    }

    /// Goes to the match at byte `off`, once it is indexed.
    pub open spec fn goto_match(self, off: usize, wrapped: bool) -> State {
        match self.doc {
            None => State { search: None, ..self },
            Some(d) => if !d.done && off >= d.scanned {
                State { search: Some(Some((off, wrapped))), ..self }
            } else {
                let (row, col) = d.located(off as int);
                let there = Table { row, col, ..d.with_cols(col + 1) }.clamped();
                let s = State { search: None, doc: Some(there), ..self };
                if wrapped {
                    s.info("Search wrapped around"@)
                } else {
                    s
                }
            },
        }
    }

    /// Takes up news of the running search.
    pub open spec fn tick(self, news: Poll) -> State {
        match self.search {
            None => self,
            Some(Some((off, wrapped))) => self.goto_match(off, wrapped),
            Some(None) => match news {
                Poll::Empty => self,
                Poll::Disconnected => State { search: None, ..self },
                Poll::Done(None) => State { search: None, ..self }.error(
                    "Pattern not found: "@ + match self.needle {
                        Some(n) => n,
                        None => seq![],
                    },
                ),
                Poll::Done(Some((off, wrapped))) => self.goto_match(off, wrapped),
            },
        }
    }

    /// Whether work is going on in the background.
    pub open spec fn busy(self) -> bool {
        self.search is Some || (self.doc matches Some(d) && !d.done)
    }
}

// ---------------------------------------------------------------------------
// Clipboard
// ---------------------------------------------------------------------------

/// The sequence that puts bytes on the terminal's clipboard (OSC 52).
pub open spec fn clipboard(bytes: Seq<u8>) -> Seq<u8> {
    seq![0x1bu8, 0x5d, 0x35, 0x32, 0x3b, 0x63, 0x3b] + vstd::utf8::encode_utf8(
        base64::base64_from(bytes, 0),
    ) + seq![0x07u8]
}

/// `s` without carriage returns and line feeds at its end.
pub open spec fn without_line_end(s: Seq<char>) -> Seq<char>
    decreases s.len(),
{
    if s.len() > 0 && (s.last() == '\r' || s.last() == '\n') {
        without_line_end(s.drop_last())
    } else {
        s
    }
}

/// The text of the current cell.
pub open spec fn cell_text(d: Table, f: Seq<(int, int)>) -> Seq<char> {
    if d.col < f.len() {
        csv::field_text(d.data.subrange(f[d.col].0, f[d.col].1), 0x100_0000, true)
    } else {
        seq![]
    }
}

/// The text of the record at `start`.
pub open spec fn record_text(d: Table, start: int) -> Seq<char> {
    without_line_end(
        text::utf8_lossy(d.data.subrange(start, csv::record_end(d.data, start))),
    )
}

impl State {
    /// Puts a text on the clipboard and says so.
    pub open spec fn copied(self, s: Seq<char>, what: Seq<char>) -> State {
        State {
            output: self.output + clipboard(vstd::utf8::encode_utf8(s)),
            ..self
        }.info(
            "Copied "@ + what + " to clipboard ("@ + text::decimal(s.len()) + " chars)"@,
        )
    }

    /// Copies the current cell.
    pub open spec fn copy_cell(self) -> State {
        match self.doc {
            Some(d) => match d.row_fields(d.row) {
                Some(f) => self.copied(cell_text(d, f), "cell"@),
                None => self,
            },
            None => self,
        }
    }

    /// Copies the current row.
    pub open spec fn copy_row(self) -> State {
        match self.doc {
            Some(d) => match d.record(d.row) {
                Some(start) => self.copied(record_text(d, start), "row"@),
                None => self,
            },
            None => self,
        }
    }
}

// ---------------------------------------------------------------------------
// Keys
// ---------------------------------------------------------------------------

/// The ASCII digits of a text, as bytes.
pub open spec fn digits_of(s: Seq<char>) -> Seq<u8>
    decreases s.len(),
{
    if s.len() == 0 {
        seq![]
    } else if numeric::is_digit(s.last()) {
        digits_of(s.drop_last()).push(s.last() as u8)
    } else {
        digits_of(s.drop_last())
    }
}

impl State {
    pub open spec fn with_doc(self, d: Table) -> State {
        State { doc: Some(d), ..self }
    }

    pub open spec fn set_focus(self, f: Focus) -> State {
        match f {
            Focus::Tree => State { show_tree: true, focus: Focus::Tree, ..self },
            Focus::Table => if self.doc is Some {
                State { focus: Focus::Table, ..self }
            } else {
                self.info("No file open: pick one in the explorer"@)
            },
        }
    }

    /// Goes to a row given by its number, counted from 1; only the digits of
    /// the input count.
    pub open spec fn goto(self, input: Seq<char>) -> State {
        match self.doc {
            None => self,
            Some(d) => match text::number_of(digits_of(input), usize::MAX as int) {
                Some(n) => if n > 0 {
                    let s = self.with_doc(Table { row: n - 1, ..d }.clamped());
                    if n > d.rows() && !d.done {
                        s.info(
                            "Only "@ + util::grouped(d.rows() as nat) + " rows indexed so far"@,
                        )
                    } else {
                        s
                    }
                } else {
                    self.error("Invalid row number: "@ + input)
                },
                None => self.error("Invalid row number: "@ + input),
            },
        }
    }

    /// A key at the prompt.
    pub open spec fn prompt_key(self, k: Key) -> (State, Act) {
        match self.prompt {
            None => (self, Act::Nothing),
            Some((kind, input)) => {
                let closed = State { prompt: None, ..self };
                match k {
                    Key::Esc => (closed, Act::Nothing),
                    Key::Ctrl(c) => if c == 'c' {
                        (closed, Act::Nothing)
                    } else if c == 'u' {
                        (State { prompt: Some((kind, seq![])), ..self }, Act::Nothing)
                    } else {
                        (self, Act::Nothing)
                    },
                    Key::Backspace => if input.len() == 0 {
                        (closed, Act::Nothing)
                    } else {
                        (State { prompt: Some((kind, input.drop_last())), ..self }, Act::Nothing)
                    },
                    Key::Char(c) => (
                        State { prompt: Some((kind, input.push(c))), ..self },
                        Act::Nothing,
                    ),
                    Key::Enter => match kind {
                        PromptKind::Search => if input.len() > 0 {
                            State { needle: Some(input), ..closed }.search_again(true)
                        } else {
                            (closed, Act::Nothing)
                        },
                        PromptKind::Goto => (closed.goto(input), Act::Nothing),
                    },
                    _ => (self, Act::Nothing),
                }
            },
        }
    }

    /// Opens the selected file or directory. A directory that is expanded is
    /// collapsed unless `expand_only`.
    pub open spec fn activate_tree(self, expand_only: bool) -> (State, Act) {
        match self.tree.selected() {
            None => (self, Act::Nothing),
            Some(l) => if !l.is_dir {
                self.open_file(l.path)
            } else if !l.expanded {
                (self, Act::Tree(TreeOp::Expand))
            } else if expand_only {
                (self, Act::Nothing)
            } else {
                (State { tree: self.tree.collapsed(), ..self }, Act::Nothing)
            },
        }
    }

    /// The selection of the explorer moved by `d`.
    pub open spec fn tree_moved(self, d: int) -> (State, Act) {
        (State { tree: self.tree.moved(d), ..self }, Act::Nothing)
    }

    /// A key in the explorer.
    pub open spec fn tree_key(self, k: Key) -> (State, Act) {
        let page = vstd::math::max(self.tree_page, 1);
        match k {
            Key::Down => self.tree_moved(1),
            Key::Up => self.tree_moved(-1),
            Key::PageDown => self.tree_moved(page),
            Key::PageUp => self.tree_moved(-page),
            Key::Ctrl(c) => if c == 'f' {
                self.tree_moved(page)
            } else if c == 'b' {
                self.tree_moved(-page)
            } else if c == 'd' {
                self.tree_moved(page / 2)
            } else if c == 'u' {
                self.tree_moved(-(page / 2))
            } else {
                (self, Act::Nothing)
            },
            Key::Home => (State { tree: Explorer { sel: 0, ..self.tree }, ..self }, Act::Nothing),
            Key::End => self.tree_moved(isize::MAX as int),
            Key::Left => (State { tree: self.tree.collapsed_or_parent(), ..self }, Act::Nothing),
            Key::Right => self.activate_tree(true),
            Key::Enter => self.activate_tree(false),
            Key::Backspace => (self, Act::Tree(TreeOp::GoUp)),
            Key::Char(c) => if c == 'j' {
                self.tree_moved(1)
            } else if c == 'k' {
                self.tree_moved(-1)
            } else if c == 'g' {
                (State { tree: Explorer { sel: 0, ..self.tree }, ..self }, Act::Nothing)
            } else if c == 'G' {
                self.tree_moved(isize::MAX as int)
            } else if c == 'h' {
                (State { tree: self.tree.collapsed_or_parent(), ..self }, Act::Nothing)
            } else if c == '-' {
                (self, Act::Tree(TreeOp::GoUp))
            } else if c == '.' {
                (self, Act::Tree(TreeOp::ToggleHidden))
            } else if c == 'R' {
                (self, Act::Tree(TreeOp::Reload))
            } else if c == 'c' {
                (self, Act::Tree(TreeOp::EnterDir))
            } else if c == 'l' {
                self.activate_tree(true)
            } else if c == ' ' {
                self.activate_tree(false)
            } else {
                (self, Act::Nothing)
            },
            _ => (self, Act::Nothing),
        }
    }

    /// The document's state after a letter key that changes nothing else.
    pub open spec fn table_letter(self, d: Table, c: char) -> (State, Act) {
        if c == 'j' {
            (self.with_doc(d.moved_row(1)), Act::Nothing)
        } else if c == 'k' {
            (self.with_doc(d.moved_row(-1)), Act::Nothing)
        } else if c == 'h' {
            (self.with_doc(d.moved_col(-1)), Act::Nothing)
        } else if c == 'l' {
            (self.with_doc(d.moved_col(1)), Act::Nothing)
        } else if c == 'g' {
            (self.with_doc(Table { row: 0, ..d }), Act::Nothing)
        } else if c == 'G' {
            (self.with_doc(d.moved_row(isize::MAX as int)), Act::Nothing)
        } else if c == '0' || c == '^' {
            (self.with_doc(Table { col: 0, ..d }), Act::Nothing)
        } else if c == '$' {
            (self.with_doc(d.moved_col(isize::MAX as int)), Act::Nothing)
        } else if c == 'w' {
            (self.with_doc(d.moved_col(5)), Act::Nothing)
        } else if c == 'b' {
            (self.with_doc(d.moved_col(-5)), Act::Nothing)
        } else if c == 'T' {
            (self.with_doc(d.header_toggled()), Act::Nothing)
        } else if c == 'D' {
            (
                self.with_doc(d.delim_cycled()).info(
                    "Delimiter: "@ + util::delim_text(doc::next_delim(d.delim))@,
                ),
                Act::Nothing,
            )
        } else if c == '+' || c == '>' {
            (self.with_doc(d.col_resized(2)), Act::Nothing)
        } else if c == '<' {
            (self.with_doc(d.col_resized(-2)), Act::Nothing)
        } else if c == '=' {
            (
                if d.col < d.ncols() {
                    self.with_doc(d.fitted(d.row_off, self.page))
                } else {
                    self
                },
                Act::Nothing,
            )
        } else if c == '/' {
            (State { prompt: Some((PromptKind::Search, seq![])), ..self }, Act::Nothing)
        } else if c == ':' {
            (State { prompt: Some((PromptKind::Goto, seq![])), ..self }, Act::Nothing)
        } else if c == 'n' {
            self.search_again(true)
        } else if c == 'N' {
            self.search_again(false)
        } else if c == 'y' {
            (self.copy_cell(), Act::Nothing)
        } else if c == 'Y' {
            (self.copy_row(), Act::Nothing)
        } else {
            (self, Act::Nothing)
        }
    }

    /// A key in the table.
    pub open spec fn table_key(self, k: Key) -> (State, Act) {
        let page = vstd::math::max(self.page, 1);
        match self.doc {
            None => (State { focus: Focus::Tree, ..self }, Act::Nothing),
            Some(d) => match k {
                Key::Down => (self.with_doc(d.moved_row(1)), Act::Nothing),
                Key::Up => (self.with_doc(d.moved_row(-1)), Act::Nothing),
                Key::Left => (self.with_doc(d.moved_col(-1)), Act::Nothing),
                Key::Right => (self.with_doc(d.moved_col(1)), Act::Nothing),
                Key::PageDown => (self.with_doc(d.moved_row(page)), Act::Nothing),
                Key::PageUp => (self.with_doc(d.moved_row(-page)), Act::Nothing),
                Key::Ctrl(c) => if c == 'f' {
                    (self.with_doc(d.moved_row(page)), Act::Nothing)
                } else if c == 'b' {
                    (self.with_doc(d.moved_row(-page)), Act::Nothing)
                } else if c == 'd' {
                    (self.with_doc(d.moved_row(page / 2)), Act::Nothing)
                } else if c == 'u' {
                    (self.with_doc(d.moved_row(-(page / 2))), Act::Nothing)
                } else {
                    (self, Act::Nothing)
                },
                Key::Home => (self.with_doc(Table { row: 0, ..d }), Act::Nothing),
                Key::End => (self.with_doc(d.moved_row(isize::MAX as int)), Act::Nothing),
                Key::Esc => (State { needle: None, search: None, ..self }, Act::Cancel),
                Key::Enter => (
                    State {
                        overlay: Cover::Record(
                            Record {
                                row: usize::MAX as int,
                                scroll: 0,
                                jump: true,
                                fields: seq![],
                            },
                        ),
                        ..self
                    },
                    Act::Nothing,
                ),
                Key::Char(c) => self.table_letter(d, c),
                _ => (self, Act::Nothing),
            },
        }
    }

    /// A record scrolled by `d` lines.
    pub open spec fn record_scrolled(self, r: Record, d: int) -> State {
        State {
            overlay: Cover::Record(Record { scroll: util::moved(r.scroll, d), ..r }),
            ..self
        }
    }

    /// A key over the record.
    pub open spec fn record_key(self, r: Record, k: Key) -> State {
        match self.doc {
            None => State { overlay: Cover::Closed, ..self },
            Some(d) => match k {
                Key::Esc | Key::Enter => State { overlay: Cover::Closed, ..self },
                Key::Down => self.record_scrolled(r, 1),
                Key::Up => self.record_scrolled(r, -1),
                Key::PageDown => self.record_scrolled(r, 10),
                Key::PageUp => self.record_scrolled(r, -10),
                Key::Ctrl(c) => if c == 'c' {
                    State { quit: true, ..self }
                } else if c == 'd' || c == 'f' {
                    self.record_scrolled(r, 10)
                } else if c == 'u' || c == 'b' {
                    self.record_scrolled(r, -10)
                } else {
                    self
                },
                Key::Home => State { overlay: Cover::Record(Record { scroll: 0, ..r }), ..self },
                Key::End => State {
                    overlay: Cover::Record(Record { scroll: usize::MAX as int, ..r }),
                    ..self
                },
                Key::Left => self.with_doc(d.moved_row(-1)),
                Key::Right => self.with_doc(d.moved_row(1)),
                Key::Char(c) => if c == 'q' {
                    State { overlay: Cover::Closed, ..self }
                } else if c == 'j' {
                    self.record_scrolled(r, 1)
                } else if c == 'k' {
                    self.record_scrolled(r, -1)
                } else if c == 'g' {
                    State { overlay: Cover::Record(Record { scroll: 0, ..r }), ..self }
                } else if c == 'G' {
                    State {
                        overlay: Cover::Record(Record { scroll: usize::MAX as int, ..r }),
                        ..self
                    }
                } else if c == 'h' {
                    self.with_doc(d.moved_row(-1))
                } else if c == 'l' {
                    self.with_doc(d.moved_row(1))
                } else if c == 'y' {
                    self.copy_cell()
                } else if c == 'Y' {
                    self.copy_row()
                } else {
                    self
                },
                _ => self,
            },
        }
    }

    /// A key over the help.
    pub open spec fn help_key(self, scroll: int, k: Key) -> State {
        if k == Key::Down || k == Key::Char('j') {
            State { overlay: Cover::Help(util::moved(scroll, 1)), ..self }
        } else if k == Key::Up || k == Key::Char('k') {
            State { overlay: Cover::Help(util::moved(scroll, -1)), ..self }
        } else if k == Key::Ctrl('c') {
            State { quit: true, ..self }
        } else {
            State { overlay: Cover::Closed, ..self }
        }
    }

    /// A key over the panels.
    pub open spec fn panel_key(self, k: Key) -> (State, Act) {
        if k == Key::Char('q') || k == Key::Ctrl('c') {
            (State { quit: true, ..self }, Act::Nothing)
        } else if k == Key::Char('?') {
            (State { overlay: Cover::Help(0), ..self }, Act::Nothing)
        } else if k == Key::Tab || k == Key::BackTab {
            (
                self.set_focus(
                    match self.focus {
                        Focus::Tree => Focus::Table,
                        Focus::Table => Focus::Tree,
                    },
                ),
                Act::Nothing,
            )
        } else if k == Key::Char('1') {
            (self.set_focus(Focus::Tree), Act::Nothing)
        } else if k == Key::Char('2') {
            (self.set_focus(Focus::Table), Act::Nothing)
        } else if k == Key::Char('e') {
            (
                State {
                    show_tree: !self.show_tree,
                    focus: if self.show_tree && self.doc is Some {
                        Focus::Table
                    } else {
                        self.focus
                    },
                    ..self
                },
                Act::Nothing,
            )
        } else {
            match self.focus {
                Focus::Tree => self.tree_key(k),
                Focus::Table => self.table_key(k),
            }
        }
    }

    /// What a key does. It also takes away the last message.
    pub open spec fn on_key(self, k: Key) -> (State, Act) {
        let s = State { msg: None, ..self };
        if s.prompt is Some {
            s.prompt_key(k)
        } else {
            match s.overlay {
                Cover::Closed => s.panel_key(k),
                Cover::Help(n) => (s.help_key(n, k), Act::Nothing),
                Cover::Record(r) => (s.record_key(r, k), Act::Nothing),
            }
        }
    }
}

// ---------------------------------------------------------------------------
// Mouse
// ---------------------------------------------------------------------------

/// The first of some column slots that holds column `x` of the screen.
pub open spec fn hit(hits: Seq<(u16, u16, usize)>, x: int, k: int) -> Option<usize>
    decreases hits.len() - k,
{
    if k >= hits.len() {
        None
    } else if hits[k].0 <= x < hits[k].1 {
        Some(hits[k].2)
    } else {
        hit(hits, x, k + 1)
    }
}

impl State {
    /// A click in the explorer.
    pub open spec fn click_tree(self, y: int) -> (State, Act) {
        let s = State { focus: Focus::Tree, ..self };
        let i = self.tree.off + y - self.tree_rect.inside().y;
        if i < self.tree.entries.len() {
            State { tree: Explorer { sel: i, ..self.tree }, ..s }.activate_tree(false)
        } else {
            (s, Act::Nothing)
        }
    }

    /// A click in the table.
    pub open spec fn click_table(self, d: Table, x: int, y: int) -> State {
        let row = d.row_off + y - self.rows_y;
        let a = if y >= self.rows_y && row < d.rows() {
            Table { row, ..d }
        } else {
            d
        };
        let b = match hit(self.col_hits, x, 0) {
            Some(c) => Table { col: c as int, ..a },
            None => a,
        };
        State { focus: Focus::Table, doc: Some(b), ..self }
    }

    /// What a click does.
    pub open spec fn on_click(self, x: int, y: int) -> (State, Act) {
        if !(self.overlay is Closed) {
            (State { overlay: Cover::Closed, ..self }, Act::Nothing)
        } else if self.show_tree && self.tree_rect.inside().has(x, y) {
            self.click_tree(y)
        } else if self.table_rect.has(x, y) {
            match self.doc {
                Some(d) => (self.click_table(d, x, y), Act::Nothing),
                None => (self, Act::Nothing),
            }
        } else {
            (self, Act::Nothing)
        }
    }

    /// What turning the wheel does.
    pub open spec fn on_scroll(self, x: int, y: int, d: int) -> State {
        match self.overlay {
            Cover::Help(n) => State { overlay: Cover::Help(util::moved(n, d)), ..self },
            Cover::Record(r) => self.record_scrolled(r, d),
            Cover::Closed => if self.show_tree && self.tree_rect.has(x, y) {
                State { tree: self.tree.moved(d), ..self }
            } else {
                match self.doc {
                    Some(t) => self.with_doc(t.moved_row(d)),
                    None => self,
                }
            },
        }
    }

    /// What an event does.
    pub open spec fn handle(self, ev: Event) -> (State, Act) {
        match ev {
            Event::Key(k) => self.on_key(k),
            Event::Click(x, y) => self.on_click(x as int, y as int),
            Event::Scroll(x, y, d) => (self.on_scroll(x as int, y as int, d * 3), Act::Nothing),
        }
    }
}

/// The state that the program starts in.
pub open spec fn started(root: Seq<u8>, home: Option<Seq<char>>, ls: Seq<Listed>) -> State {
    let none = Rect { x: 0, y: 0, w: 0, h: 0 };
    State {
        quit: false,
        focus: Focus::Tree,
        show_tree: true,
        tree: Explorer {
            root,
            entries: tree::below(ls, seq![], false, root, 0),
            sel: 0,
            off: 0,
            show_hidden: false,
        },
        doc: None,
        prompt: None,
        overlay: Cover::Closed,
        msg: None,
        search: None,
        needle: None,
        output: seq![],
        tree_rect: none,
        table_rect: none,
        rows_y: 0,
        page: 20,
        tree_page: 20,
        col_hits: seq![],
        relayout: false,
        home,
    }
}

/// The state after a file is asked for on the command line.
pub open spec fn started_with(
    root: Seq<u8>,
    file: Option<Seq<u8>>,
    home: Option<Seq<char>>,
    ls: Seq<Listed>,
) -> (State, Act) {
    let s = started(root, home, ls);
    match file {
        Some(f) => State { tree: s.tree.selecting(f), ..s }.open_file(f),
        None => (s, Act::Nothing),
    }
}

// ---------------------------------------------------------------------------
// What holds of searching and typing
// ---------------------------------------------------------------------------

/// Looking for the next match always leads to another cell, unless the search
/// wraps around: a match found without wrapping does not lie in the current
/// cell.
pub proof fn next_match_is_in_another_cell(
    d: Table,
    needle: Seq<u8>,
    ci: bool,
    forward: bool,
    off: usize,
    row: int,
    col: int,
)
    requires
        d.row_fields(d.row) matches Some(f) && 0 <= d.col < f.len(),
        search::is_answer(
            d.data,
            needle,
            ci,
            search_start(d, forward),
            forward,
            Some((off, false)),
        ),
        d.row_fields(row) matches Some(f) && 0 <= col < f.len() && f[col].0 <= off < f[col].1,
    ensures
        (row, col) != (d.row, d.col),
{
}

/// What `keys` make of the state, one after the other.
pub open spec fn typing(s: State, keys: Seq<char>) -> State
    decreases keys.len(),
{
    if keys.len() == 0 {
        s
    } else {
        typing(s, keys.drop_last()).on_key(Key::Char(keys.last())).0
    }
}

/// The prompt takes text as it is typed: behind what was there, character by
/// character, and nothing else changes but the message.
pub proof fn prompt_takes_typed_text(
    s: State,
    kind: PromptKind,
    input: Seq<char>,
    keys: Seq<char>,
)
    requires
        s.prompt == Some((kind, input)),
        s.msg is None,
    ensures
        typing(s, keys) == (State { prompt: Some((kind, input + keys)), ..s }),
    decreases keys.len(),
{
    if keys.len() > 0 {
        prompt_takes_typed_text(s, kind, input, keys.drop_last());
        assert((input + keys.drop_last()).push(keys.last()) =~= input + keys);
    } else {
        assert(input + keys =~= input);
    }
}

/// A search typed at the prompt is for the text that was typed, from the
/// current cell on.
pub proof fn typed_search_is_started(s: State, d: Table, keys: Seq<char>)
    requires
        s.prompt == Some((PromptKind::Search, Seq::<char>::empty())),
        s.msg is None,
        s.doc == Some(d),
        keys.len() > 0,
    ensures
        typing(s, keys).on_key(Key::Enter).1 == Act::Search(keys, search_start(d, true), true),
        typing(s, keys).on_key(Key::Enter).0.needle == Some(keys),
{
    prompt_takes_typed_text(s, PromptKind::Search, seq![], keys);
    assert(Seq::<char>::empty() + keys =~= keys);
}

} // verus!
