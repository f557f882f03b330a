//! Word wrapping.

use crate::screen::{char_width, str_width};
use crate::{screen, text};
use vstd::prelude::*;

verus! {

/// Finished lines and the line being filled.
#[verifier::ext_equal]
pub struct Wrap {
    pub lines: Seq<Seq<char>>,
    pub line: Seq<char>,
}

impl Wrap {
    /// Ends the current line.
    pub open spec fn feed(self) -> Wrap {
        Wrap { lines: self.lines.push(self.line), line: seq![] }
    }

    /// Adds one character, on a new line when it does not fit.
    pub open spec fn add_char(self, c: char, width: int) -> Wrap {
        let w = if screen::text_width(self.line) + screen::width_of(c) > width {
            self.feed()
        } else {
            self
        };
        Wrap { lines: w.lines, line: w.line.push(c) }
    }

    /// Adds characters one by one.
    pub open spec fn add_chars(self, word: Seq<char>, width: int) -> Wrap
        decreases word.len(),
    {
        if word.len() == 0 {
            self
        } else {
            self.add_chars(word.drop_last(), width).add_char(word.last(), width)
        }
    }

    /// Adds a word, on a new line when it does not fit on this one. A word
    /// wider than a line is broken.
    pub open spec fn add_word(self, word: Seq<char>, width: int) -> Wrap {
        let lw = screen::text_width(self.line);
        let ww = screen::text_width(word);
        let w = if lw + ww > width && lw > 0 {
            self.feed()
        } else {
            self
        };
        if ww > width {
            w.add_chars(word, width)
        } else {
            Wrap { lines: w.lines, line: w.line + word }
        }
    }
}

/// Index behind the word that begins at `i`; the space after it belongs to it.
pub open spec fn word_end(p: Seq<char>, i: int) -> int
    decreases p.len() - i,
{
    if i >= p.len() {
        p.len() as int
    } else if p[i] == ' ' {
        i + 1
    } else {
        word_end(p, i + 1)
    }
}

/// Index of the line break at or after `i`, or the length.
pub open spec fn para_end(s: Seq<char>, i: int) -> int
    decreases s.len() - i,
{
    if i >= s.len() {
        s.len() as int
    } else if s[i] == '\n' {
        i
    } else {
        para_end(s, i + 1)
    }
}

pub proof fn lemma_word_end(p: Seq<char>, i: int)
    requires
        0 <= i < p.len(),
    ensures
        i < word_end(p, i) <= p.len(),
    decreases p.len() - i,
{
    if p[i] != ' ' {
        if i + 1 < p.len() {
            lemma_word_end(p, i + 1);
        } else {
            assert(word_end(p, i + 1) == p.len());
        }
    }
}

pub proof fn lemma_para_end(s: Seq<char>, i: int)
    requires
        0 <= i <= s.len(),
    ensures
        i <= para_end(s, i) <= s.len(),
        forall|k: int| i <= k < para_end(s, i) ==> s[k] != '\n',
        para_end(s, i) < s.len() ==> s[para_end(s, i)] == '\n',
    decreases s.len() - i,
{
    if i < s.len() && s[i] != '\n' {
        lemma_para_end(s, i + 1);
    }
}

/// Adds the words of a paragraph from `i` on.
pub open spec fn wrap_words(w: Wrap, p: Seq<char>, i: int, width: int) -> Wrap
    decreases p.len() - i,
    when 0 <= i <= p.len()
{
    if i >= p.len() {
        w
    } else {
        proof {
            lemma_word_end(p, i);
        }
        let e = word_end(p, i);
        wrap_words(w.add_word(p.subrange(i, e), width), p, e, width)
    }
}

/// The lines after one more paragraph.
pub open spec fn wrap_para(lines: Seq<Seq<char>>, p: Seq<char>, width: int) -> Seq<Seq<char>> {
    wrap_words(Wrap { lines, line: seq![] }, p, 0, width).feed().lines
}

/// The lines after the paragraphs of `s` from `i` on, cut behind `max_lines`
/// lines.
pub open spec fn wrap_from(
    lines: Seq<Seq<char>>,
    s: Seq<char>,
    i: int,
    width: int,
    max_lines: int,
) -> Seq<Seq<char>>
    decreases s.len() - i,
    when 0 <= i <= s.len()
{
    proof {
        lemma_para_end(s, i);
    }
    let e = para_end(s, i);
    let more = wrap_para(lines, s.subrange(i, e), width);
    if more.len() >= max_lines {
        more.take(max_lines).push(seq!['…'])
    } else if e >= s.len() {
        more
    } else {
        wrap_from(more, s, e + 1, width, max_lines)
    }
}

/// Adds a word to the last line.
fn wrap_word(lines: &mut Vec<String>, line: &mut String, word: &str, width: usize)
    ensures
        (Wrap { lines: text::texts(final(lines)@), line: final(line)@ }) == (Wrap {
            lines: text::texts(old(lines)@),
            line: old(line)@,
        }).add_word(word@, width as int),
{
    let lw = str_width(line.as_str());
    let ww = str_width(word);
    let ghost w0 = Wrap { lines: text::texts(lines@), line: line@ };
    if lw as u128 + ww as u128 > width as u128 && lw > 0 {
        feed_line(lines, line);
    }
    let ghost w1 = Wrap { lines: text::texts(lines@), line: line@ };
    if ww > width {
        let chars = text::chars_of(word);
        let mut k: usize = 0;
        assert(word@.take(0) =~= Seq::<char>::empty());
        while k < chars.len()
            invariant
                chars@ == word@,
                k <= chars@.len(),
                (Wrap { lines: text::texts(lines@), line: line@ }) == w1.add_chars(
                    word@.take(k as int),
                    width as int,
                ),
            decreases chars@.len() - k,
        {
            let c = chars[k];
            assert(word@.take(k + 1).drop_last() =~= word@.take(k as int));
            let used = str_width(line.as_str());
            if used as u128 + char_width(c) as u128 > width as u128 {
                feed_line(lines, line);
            }
            line.push(c);
            k += 1;
        }
        assert(word@.take(k as int) =~= word@);
    } else {
        line.append(word);
    }
}

/// Ends the current line.
fn feed_line(lines: &mut Vec<String>, line: &mut String)
    ensures
        text::texts(final(lines)@) == text::texts(old(lines)@).push(old(line)@),
        final(line)@ == Seq::<char>::empty(),
{
    let done = text::to_string(line.as_str());
    lines.push(done);
    line.clear();
    assert(text::texts(lines@) =~= text::texts(old(lines)@).push(old(line)@));
}

/// Word-wraps `s` to `width` columns, honoring embedded newlines.
pub fn wrap(s: &str, width: usize, max_lines: usize) -> (r: Vec<String>)
    ensures
        text::texts(r@) == wrap_from(seq![], s@, 0, width as int, max_lines as int),
{
    let chars = text::chars_of(s);
    let mut lines: Vec<String> = Vec::new();
    let mut i: usize = 0;
    assert(text::texts(lines@) =~= seq![]);
    loop
        invariant
            chars@ == s@,
            i <= chars@.len(),
            wrap_from(seq![], s@, 0, width as int, max_lines as int) == wrap_from(
                text::texts(lines@),
                s@,
                i as int,
                width as int,
                max_lines as int,
            ),
        decreases chars@.len() - i,
    {
        let e = next_break(&chars, i);
        let ghost p = s@.subrange(i as int, e as int);
        let ghost before = text::texts(lines@);
        let mut line = String::new();
        let mut k: usize = i;
        while k < e
            invariant
                chars@ == s@,
                i <= k <= e <= chars@.len(),
                p == s@.subrange(i as int, e as int),
                wrap_words(Wrap { lines: before, line: seq![] }, p, 0, width as int) == wrap_words(
                    Wrap { lines: text::texts(lines@), line: line@ },
                    p,
                    k - i,
                    width as int,
                ),
            decreases e - k,
        {
            proof {
                lemma_word_end(p, k - i);
            }
            let f = next_word(&chars, i, k, e);
            let word = text::string_of(&chars, k, f);
            assert(p.subrange(k - i, f - i) =~= s@.subrange(k as int, f as int));
            wrap_word(&mut lines, &mut line, word.as_str(), width);
            k = f;
        }
        feed_line(&mut lines, &mut line);
        if lines.len() >= max_lines {
            lines.truncate(max_lines);
            let mut dots = String::new();
            dots.push('…');
            let ghost kept = lines@;
            lines.push(dots);
            proof {
                assert(dots@ =~= seq!['…']);
                let more = wrap_para(before, p, width as int);
                assert(text::texts(kept) =~= more.take(max_lines as int));
                assert(text::texts(lines@) =~= more.take(max_lines as int).push(seq!['…']));
            }
            return lines;
        }
        if e >= chars.len() {
            return lines;
        }
        i = e + 1;
    }
}

fn next_break(chars: &Vec<char>, i: usize) -> (e: usize)
    requires
        i <= chars@.len(),
    ensures
        e == para_end(chars@, i as int),
        i <= e <= chars@.len(),
{
    let mut e: usize = i;
    while e < chars.len() && chars[e] != '\n'
        invariant
            i <= e <= chars@.len(),
            para_end(chars@, i as int) == para_end(chars@, e as int),
        decreases chars@.len() - e,
    {
        e += 1;
    }
    e
}

/// End of the word at `k` in the paragraph `chars[i..e]`.
fn next_word(chars: &Vec<char>, i: usize, k: usize, e: usize) -> (f: usize)
    requires
        i <= k < e <= chars@.len(),
    ensures
        f - i == word_end(chars@.subrange(i as int, e as int), k - i),
        k < f <= e,
{
    let ghost p = chars@.subrange(i as int, e as int);
    proof {
        lemma_word_end(p, k - i);
    }
    let mut f: usize = k;
    while f < e
        invariant
            i <= k <= f <= e <= chars@.len(),
            p == chars@.subrange(i as int, e as int),
            word_end(p, k - i) == word_end(p, f - i),
            k - i < word_end(p, k - i) <= e - i,
        decreases e - f,
    {
        if chars[f] == ' ' {
            return f + 1;
        }
        f += 1;
    }
    f
}

proof fn lemma_add_chars_fits(w: Wrap, word: Seq<char>, width: int)
    requires
        2 <= width,
        lines_fit(w.lines, width),
        screen::text_width(w.line) <= width,
    ensures
        lines_fit(w.add_chars(word, width).lines, width),
        screen::text_width(w.add_chars(word, width).line) <= width,
    decreases word.len(),
{
    if word.len() > 0 {
        lemma_add_chars_fits(w, word.drop_last(), width);
        let v = w.add_chars(word.drop_last(), width);
        let c = word.last();
        screen::lemma_width_range(c);
        let u = if screen::text_width(v.line) + screen::width_of(c) > width {
            v.feed()
        } else {
            v
        };
        assert(u.line.push(c).drop_last() =~= u.line);
        assert(screen::text_width(u.line.push(c)) == screen::text_width(u.line)
            + screen::width_of(c));
        assert(screen::text_width(v.feed().line) == 0);
        assert(lines_fit(u.lines, width));
    }
}

/// Whether no line is wider than `width`.
pub open spec fn lines_fit(lines: Seq<Seq<char>>, width: int) -> bool {
    forall|k: int| 0 <= k < lines.len() ==> screen::text_width(#[trigger] lines[k]) <= width
}

proof fn lemma_wrap_words_fits(w: Wrap, p: Seq<char>, i: int, width: int)
    requires
        2 <= width,
        0 <= i <= p.len(),
        lines_fit(w.lines, width),
        screen::text_width(w.line) <= width,
    ensures
        lines_fit(wrap_words(w, p, i, width).lines, width),
        screen::text_width(wrap_words(w, p, i, width).line) <= width,
    decreases p.len() - i,
{
    if i < p.len() {
        lemma_word_end(p, i);
        let e = word_end(p, i);
        let word = p.subrange(i, e);
        let lw = screen::text_width(w.line);
        let ww = screen::text_width(word);
        let v = if lw + ww > width && lw > 0 {
            w.feed()
        } else {
            w
        };
        screen::lemma_width_le_bytes(w.line);
        if ww > width {
            lemma_add_chars_fits(v, word, width);
        } else {
            screen::lemma_width_concat(v.line, word);
        }
        lemma_wrap_words_fits(w.add_word(word, width), p, e, width);
    }
}

proof fn lemma_wrap_from_fits(
    lines: Seq<Seq<char>>,
    s: Seq<char>,
    i: int,
    width: int,
    max_lines: int,
)
    requires
        2 <= width,
        0 <= max_lines,
        0 <= i <= s.len(),
        lines_fit(lines, width),
    ensures
        lines_fit(wrap_from(lines, s, i, width, max_lines), width),
    decreases s.len() - i,
{
    lemma_para_end(s, i);
    let e = para_end(s, i);
    let p = s.subrange(i, e);
    lemma_wrap_words_fits(Wrap { lines, line: seq![] }, p, 0, width);
    let more = wrap_para(lines, p, width);
    assert(lines_fit(more, width));
    if more.len() >= max_lines {
        reveal_with_fuel(screen::text_width, 2);
        assert(seq!['…'].drop_last() =~= Seq::<char>::empty());
        screen::lemma_width_range('…');
        assert(lines_fit(more.take(max_lines).push(seq!['…']), width));
    } else if e < s.len() {
        lemma_wrap_from_fits(more, s, e + 1, width, max_lines);
    }
}

/// No wrapped line is wider than was asked, where there is room for every
/// character.
pub proof fn wrapped_lines_fit(s: Seq<char>, width: int, max_lines: int)
    requires
        2 <= width,
        0 <= max_lines,
    ensures
        lines_fit(wrap_from(seq![], s, 0, width, max_lines), width),
{
    lemma_wrap_from_fits(seq![], s, 0, width, max_lines);
}

/// Lines put together again.
pub open spec fn unwrapped(lines: Seq<Seq<char>>) -> Seq<char>
    decreases lines.len(),
{
    if lines.len() == 0 {
        seq![]
    } else {
        unwrapped(lines.drop_last()) + lines.last()
    }
}

/// A text without its line breaks.
pub open spec fn without_breaks(s: Seq<char>) -> Seq<char>
    decreases s.len(),
{
    if s.len() == 0 {
        seq![]
    } else if s.last() == '\n' {
        without_breaks(s.drop_last())
    } else {
        without_breaks(s.drop_last()).push(s.last())
    }
}

proof fn lemma_feed_keeps(w: Wrap)
    ensures
        unwrapped(w.feed().lines) == unwrapped(w.lines) + w.line,
        unwrapped(w.feed().lines) + w.feed().line == unwrapped(w.lines) + w.line,
{
    assert(w.feed().lines.drop_last() =~= w.lines);
    assert(unwrapped(w.feed().lines) + w.feed().line =~= unwrapped(w.lines) + w.line);
}

proof fn lemma_add_chars_keeps(w: Wrap, word: Seq<char>, width: int)
    ensures
        ({
            let v = w.add_chars(word, width);
            unwrapped(v.lines) + v.line == unwrapped(w.lines) + w.line + word
        }),
    decreases word.len(),
{
    if word.len() > 0 {
        let u = w.add_chars(word.drop_last(), width);
        lemma_add_chars_keeps(w, word.drop_last(), width);
        lemma_feed_keeps(u);
        let v = w.add_chars(word, width);
        assert(unwrapped(v.lines) + v.line =~= (unwrapped(u.lines) + u.line).push(word.last()));
        assert(unwrapped(w.lines) + w.line + word =~= (unwrapped(w.lines) + w.line
            + word.drop_last()).push(word.last()));
    } else {
        assert(unwrapped(w.lines) + w.line + word =~= unwrapped(w.lines) + w.line);
    }
}

proof fn lemma_wrap_words_keeps(w: Wrap, p: Seq<char>, i: int, width: int)
    requires
        0 <= i <= p.len(),
    ensures
        ({
            let v = wrap_words(w, p, i, width);
            unwrapped(v.lines) + v.line == unwrapped(w.lines) + w.line + p.skip(i)
        }),
    decreases p.len() - i,
{
    if i < p.len() {
        lemma_word_end(p, i);
        let e = word_end(p, i);
        let word = p.subrange(i, e);
        lemma_feed_keeps(w);
        let lw = screen::text_width(w.line);
        let ww = screen::text_width(word);
        let v = if lw + ww > width && lw > 0 {
            w.feed()
        } else {
            w
        };
        let u = w.add_word(word, width);
        if ww > width {
            lemma_add_chars_keeps(v, word, width);
        } else {
            assert(unwrapped(v.lines) + (v.line + word) =~= unwrapped(v.lines) + v.line + word);
        }
        lemma_wrap_words_keeps(u, p, e, width);
        assert(unwrapped(w.lines) + w.line + p.skip(i) =~= unwrapped(w.lines) + w.line + word
            + p.skip(e));
    } else {
        assert(unwrapped(w.lines) + w.line + p.skip(i) =~= unwrapped(w.lines) + w.line);
    }
}

proof fn lemma_without_breaks_concat(a: Seq<char>, b: Seq<char>)
    ensures
        without_breaks(a + b) == without_breaks(a) + without_breaks(b),
    decreases b.len(),
{
    if b.len() > 0 {
        assert((a + b).drop_last() =~= a + b.drop_last());
        lemma_without_breaks_concat(a, b.drop_last());
        assert(without_breaks(a + b) =~= without_breaks(a) + without_breaks(b));
    } else {
        assert(a + b =~= a);
        assert(without_breaks(a) + without_breaks(b) =~= without_breaks(a));
    }
}

proof fn lemma_no_breaks(s: Seq<char>)
    requires
        forall|k: int| 0 <= k < s.len() ==> s[k] != '\n',
    ensures
        without_breaks(s) == s,
    decreases s.len(),
{
    if s.len() > 0 {
        lemma_no_breaks(s.drop_last());
        assert(s.drop_last().push(s.last()) =~= s);
    }
}

proof fn lemma_wrap_from_keeps(
    lines: Seq<Seq<char>>,
    s: Seq<char>,
    i: int,
    width: int,
    max_lines: int,
)
    requires
        0 <= i <= s.len(),
        0 <= max_lines,
        wrap_from(lines, s, i, width, max_lines).len() < max_lines,
    ensures
        unwrapped(wrap_from(lines, s, i, width, max_lines)) == unwrapped(lines) + without_breaks(
            s.skip(i),
        ),
    decreases s.len() - i,
{
    lemma_para_end(s, i);
    let e = para_end(s, i);
    let p = s.subrange(i, e);
    let w = Wrap { lines, line: seq![] };
    lemma_wrap_words_keeps(w, p, 0, width);
    lemma_feed_keeps(wrap_words(w, p, 0, width));
    let more = wrap_para(lines, p, width);
    assert(unwrapped(lines) + w.line + p.skip(0) =~= unwrapped(lines) + p);
    lemma_no_breaks(p);
    if more.len() < max_lines {
        if e >= s.len() {
            assert(p =~= s.skip(i));
        } else {
            lemma_wrap_from_keeps(more, s, e + 1, width, max_lines);
            let nl = seq!['\n'];
            assert(s.skip(i) =~= p + nl + s.skip(e + 1));
            lemma_without_breaks_concat(p + nl, s.skip(e + 1));
            lemma_without_breaks_concat(p, nl);
            reveal_with_fuel(without_breaks, 2);
            assert(without_breaks(nl) =~= seq![]);
            assert(unwrapped(lines) + without_breaks(s.skip(i)) =~= unwrapped(lines) + p
                + without_breaks(s.skip(e + 1)));
        }
    }
}

/// Wrapping loses nothing but the line breaks, unless the text is cut.
pub proof fn wrapping_keeps_the_text(s: Seq<char>, width: int, max_lines: int)
    requires
        0 <= max_lines,
        wrap_from(seq![], s, 0, width, max_lines).len() < max_lines,
    ensures
        unwrapped(wrap_from(seq![], s, 0, width, max_lines)) == without_breaks(s),
{
    lemma_wrap_from_keeps(seq![], s, 0, width, max_lines);
    assert(s.skip(0) =~= s);
    assert(unwrapped(seq![]) + without_breaks(s) =~= without_breaks(s));
}

} // verus!
