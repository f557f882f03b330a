//! What writing and reading of texts and numbers promises: grouped digits,
//! sizes, shortened and wrapped texts, what looks like a number.

use crate::wrap::Wrap;
use crate::{numeric, screen, text, util, wrap};
use vstd::prelude::*;

verus! {

// ---------------------------------------------------------------------------
// Numbers
// ---------------------------------------------------------------------------

/// A number is written without leading zeros.
pub proof fn decimal_has_no_leading_zero(n: nat)
    ensures
        text::decimal(n).len() > 0,
        n > 0 ==> text::decimal(n)[0] != '0',
        n == 0 ==> text::decimal(n) == seq!['0'],
    decreases n,
{
    if n >= 10 {
        decimal_has_no_leading_zero(n / 10);
        assert(text::decimal(n)[0] == text::decimal(n / 10)[0]);
    } else if n > 0 {
        assert(text::decimal(n)[0] as int == 0x30 + n);
    }
}

/// Digits in groups of three: counted from the end, every fourth character is a
/// comma and no other, and the first character is none.
pub proof fn digits_are_grouped_by_three(n: nat)
    ensures
        ({
            let g = util::grouped(n);
            &&& g.len() > 0
            &&& g[0] != ','
            &&& forall|i: int|
                0 <= i < g.len() ==> (#[trigger] g[g.len() - 1 - i] == ',') == (i % 4 == 3)
            &&& util::without_commas(g) == text::decimal(n)
        }),
{
    util::grouping_keeps_the_digits(n);
    text::lemma_decimal_digits(n);
    decimal_has_no_leading_zero(n);
    lemma_grouped(text::decimal(n), 0);
}

/// Digits before `rest` others: the commas stand where they belong.
proof fn lemma_grouped(s: Seq<char>, rest: int)
    requires
        s.len() > 0,
        0 <= rest,
        forall|k: int| 0 <= k < s.len() ==> 0x30 <= #[trigger] s[k] as int <= 0x39,
    ensures
        ({
            let g = util::grouped_before(s, rest);
            let after = rest + rest / 3;
            &&& g.len() > 0
            &&& g[0] != ','
            &&& forall|i: int|
                0 <= i < g.len() ==> (#[trigger] g[g.len() - 1 - i] == ',') == ((i + after) % 4
                    == 3)
        }),
    decreases s.len(),
{
    let g = util::grouped_before(s, rest);
    let after = rest + rest / 3;
    let c = s.last();
    assert(0x30 <= s[s.len() - 1] as int <= 0x39);
    assert(c != ',');
    assert(after % 4 != 3) by {
        assert(after == rest + rest / 3);
        assert(rest == 3 * (rest / 3) + rest % 3);
        assert(after == 4 * (rest / 3) + rest % 3);
    }
    if s.len() == 1 {
        assert(util::grouped_before(s.drop_last(), rest + 1).len() == 0);
        assert(g =~= seq![c]);
        assert forall|i: int| 0 <= i < g.len() implies (#[trigger] g[g.len() - 1 - i] == ',') == ((
        i + after) % 4 == 3) by {}
    } else {
        let t = s.drop_last();
        assert forall|k: int| 0 <= k < t.len() implies 0x30 <= #[trigger] t[k] as int <= 0x39 by {
            assert(t[k] == s[k]);
        }
        lemma_grouped(t, rest + 1);
        let h = util::grouped_before(t, rest + 1);
        let then = (rest + 1) + (rest + 1) / 3;
        if (rest + 1) % 3 == 0 {
            assert(g == h.push(',').push(c));
            assert(then == after + 2);
            assert((after + 1) % 4 == 3) by {
                assert(rest == 3 * (rest / 3) + rest % 3);
                assert(rest % 3 == 2);
            }
            assert forall|i: int| 0 <= i < g.len() implies (#[trigger] g[g.len() - 1 - i] == ',')
                == ((i + after) % 4 == 3) by {
                if i >= 2 {
                    assert(g[g.len() - 1 - i] == h[h.len() - 1 - (i - 2)]);
                }
            }
        } else {
            assert(g == h.push(c));
            assert(then == after + 1);
            assert forall|i: int| 0 <= i < g.len() implies (#[trigger] g[g.len() - 1 - i] == ',')
                == ((i + after) % 4 == 3) by {
                if i >= 1 {
                    assert(g[g.len() - 1 - i] == h[h.len() - 1 - (i - 1)]);
                }
            }
        }
        assert(g[0] == h[0]);
    }
}

/// Padding puts spaces before a text until it is as long as asked, and leaves
/// one that is long enough alone.
pub proof fn padding_aligns_to_the_right(s: Seq<char>, w: int, k: int)
    ensures
        ({
            let p = util::padded(s, w);
            &&& s.len() >= w ==> p == s
            &&& s.len() < w ==> p.len() == w && p.skip(w - s.len()) == s
            &&& s.len() < w && 0 <= k < w - s.len() ==> p[k] == ' '
        }),
    decreases w - s.len(),
{
    if s.len() < w {
        let t = seq![' '] + s;
        padding_aligns_to_the_right(t, w, k);
        let p = util::padded(s, w);
        assert(p.skip(w - t.len()) == t);
        assert(p.skip(w - s.len()) =~= s) by {
            assert forall|i: int| 0 <= i < s.len() implies p.skip(w - s.len())[i] == s[i] by {
                assert(p.skip(w - t.len())[i + 1] == t[i + 1]);
            }
        }
        if k == w - t.len() {
            assert(p.skip(w - t.len())[0] == t[0]);
        }
    }
}

/// The nearest number to a quotient.
proof fn lemma_nearest(a: nat, b: nat)
    requires
        0 < b,
    ensures
        ({
            let q = util::nearest(a, b);
            2 * a <= 2 * (q * b) + b && 2 * (q * b) <= 2 * a + b
        }),
{
    vstd::arithmetic::div_mod::lemma_fundamental_div_mod(a as int, b as int);
    vstd::arithmetic::div_mod::lemma_mod_bound(a as int, b as int);
    let q = a / b;
    vstd::arithmetic::mul::lemma_mul_is_commutative(q as int, b as int);
    assert((q + 1) * b == q * b + b) by (nonlinear_arith);
}

/// Sizes below 1024 are written in bytes. Larger ones are written in the
/// largest of the units of 1024, its square, its third and its fourth power
/// that they reach: with one decimal below ten units, and rounded to the
/// nearest in either case.
pub proof fn sizes_are_rounded_to_their_unit(n: nat)
    requires
        n < 0x20_0000_0000_0000,
    ensures
        n < 1024 ==> util::size_text(n) == text::decimal(n).push('B'),
        1024 <= n < 1048576 ==> rounded(n, 1024, 'K'),
        1048576 <= n < 1073741824 ==> rounded(n, 1048576, 'M'),
        1073741824 <= n < 1099511627776 ==> rounded(n, 1073741824, 'G'),
        1099511627776 <= n ==> rounded(n, 1099511627776, 'T'),
{
    util::lemma_double(n);
    lemma_rounded(n, 1024);
    lemma_rounded(n, 1048576);
    lemma_rounded(n, 1073741824);
    lemma_rounded(n, 1099511627776);
    if 1024 <= n < 1048576 {
        lemma_size(n, 1);
    } else if 1048576 <= n < 1073741824 {
        lemma_size(n, 2);
    } else if 1073741824 <= n < 1099511627776 {
        lemma_size(n, 3);
    } else if 1099511627776 <= n {
        lemma_size(n, 4);
    }
}

/// Whether the text of size `n` is a number of units, the nearest one, with one
/// decimal when it is below ten.
pub open spec fn rounded(n: nat, unit: nat, letter: char) -> bool {
    if n < 10 * unit {
        exists|t: nat|
            #![trigger tenths(t, letter)]
            util::size_text(n) == tenths(t, letter) && 20 * n <= 2 * (t * unit) + unit && 2 * (t
                * unit) <= 20 * n + unit
    } else {
        exists|q: nat|
            #![trigger whole(q, letter)]
            util::size_text(n) == whole(q, letter) && 2 * n <= 2 * (q * unit) + unit && 2 * (q
                * unit) <= 2 * n + unit
    }
}

/// `t` tenths of a unit, with the decimal point.
pub open spec fn tenths(t: nat, letter: char) -> Seq<char> {
    (text::decimal(t / 10).push('.') + text::decimal(t % 10)).push(letter)
}

/// `q` units.
pub open spec fn whole(q: nat, letter: char) -> Seq<char> {
    text::decimal(q).push(letter)
}

proof fn lemma_rounded(n: nat, unit: nat)
    requires
        0 < unit,
    ensures
        ({
            let t = util::nearest(n * 10, unit);
            let q = util::nearest(n, unit);
            &&& 20 * n <= 2 * (t * unit) + unit && 2 * (t * unit) <= 20 * n + unit
            &&& 2 * n <= 2 * (q * unit) + unit && 2 * (q * unit) <= 2 * n + unit
        }),
{
    lemma_nearest(n * 10, unit);
    lemma_nearest(n, unit);
}

proof fn lemma_size(n: nat, u: int)
    requires
        1 <= u <= 4,
        util::double(n) == n,
        util::unit_of(n) == u,
    ensures
        rounded(n, util::unit_size(u), util::unit(u)),
{
    let unit = util::unit_size(u);
    lemma_rounded(n, unit);
    if n < 10 * unit {
        let t = util::nearest(n * 10, unit);
        assert(util::size_text(n) == tenths(t, util::unit(u)));
    } else {
        let q = util::nearest(n, unit);
        assert(util::size_text(n) == whole(q, util::unit(u)));
    }
}

/// The share of a file that has been dealt with is told in percent, to within
/// one percent.
pub proof fn percentages_are_close(done: nat, size: nat)
    requires
        0 < size < 0x20_0000_0000_0000,
        100 * done < 0x20_0000_0000_0000,
    ensures
        ({
            let p = util::percent_of(done, size);
            p * size <= 100 * done + size && 100 * done <= p * size + size
        }),
{
    util::lemma_double(done);
    util::lemma_double(done * 100);
    util::lemma_double(size);
    let (a, b) = (100 * done, size);
    let two = util::pow2(util::doublings(a, b));
    lemma_pow2(util::doublings(a, b));
    let x = util::nearest(a * two, b);
    let p = util::nearest(x, two);
    lemma_nearest(a * two, b);
    lemma_nearest(x, two);
    assert(p * size <= a + b && a <= p * size + b) by (nonlinear_arith)
        requires
            2 * (a * two) <= 2 * (x * b) + b,
            2 * (x * b) <= 2 * (a * two) + b,
            2 * x <= 2 * (p * two) + two,
            2 * (p * two) <= 2 * x + two,
            1 <= two,
            0 < b,
            b == size,
    {
        assert(2 * (p * two) * b <= (2 * x + two) * b);
        assert(2 * x * b <= (2 * (p * two) + two) * b);
        assert(b <= two * b);
        assert(2 * ((p * b) * two) <= 2 * (a * two) + 2 * (two * b));
        assert(2 * (a * two) <= 2 * ((p * b) * two) + 2 * (two * b));
        assert((p * b) * two <= (a + b) * two);
        assert(a * two <= (p * b + b) * two);
    }
}

proof fn lemma_pow2(k: nat)
    ensures
        1 <= util::pow2(k),
    decreases k,
{
    if k > 0 {
        lemma_pow2((k - 1) as nat);
    }
}

// ---------------------------------------------------------------------------
// Shortened texts
// ---------------------------------------------------------------------------

/// A text that is too wide keeps as much of its end as fits behind an ellipsis;
/// one that fits is left alone.
pub proof fn ends_are_kept(s: Seq<char>, max: int)
    requires
        2 <= max,
    ensures
        screen::text_width(s) <= max ==> util::tail_of(s, max) == s,
        screen::text_width(s) > max ==> exists|k: int|
            0 < k <= s.len() && util::tail_of(s, max) == seq!['…'] + #[trigger] s.skip(k)
                && screen::text_width(s.skip(k)) <= max - 1 && screen::text_width(s.skip(k - 1))
                > max - 1,
{
    if screen::text_width(s) > max {
        let k = lemma_fitting_end(s, max - 1);
        if k == 0 {
            assert(s.skip(0) =~= s);
        }
        assert(util::tail_of(s, max) == seq!['…'] + s.skip(k));
    }
}

proof fn lemma_fitting_end(s: Seq<char>, room: int) -> (k: int)
    requires
        0 <= room,
    ensures
        0 <= k <= s.len(),
        util::fitting_end(s, room) == s.skip(k),
        screen::text_width(s.skip(k)) <= room,
        k > 0 ==> screen::text_width(s.skip(k - 1)) > room,
    decreases s.len(),
{
    if s.len() == 0 || screen::text_width(s) <= room {
        assert(s.skip(0) =~= s);
        0
    } else {
        let t = s.drop_first();
        let j = lemma_fitting_end(t, room);
        assert(t.skip(j) =~= s.skip(j + 1));
        if j > 0 {
            assert(t.skip(j - 1) =~= s.skip(j));
        } else {
            assert(s.skip(0) =~= s);
        }
        j + 1
    }
}

/// A path below the home directory is shown from a tilde on.
pub proof fn home_is_shown_as_a_tilde(home: Seq<char>, rest: Seq<char>)
    requires
        home.len() > 0,
    ensures
        util::under_home(home + rest, Some(home)) == seq!['~'] + rest,
        util::under_home(home + rest, None) == home + rest,
        !home.is_prefix_of(rest) ==> util::under_home(rest, Some(home)) == rest,
{
    let p = home + rest;
    assert(home.is_prefix_of(p));
    assert(p.skip(home.len() as int) =~= rest);
}

/// Trimming takes away white space at the ends, all of it and nothing else.
pub proof fn trimming_takes_white_space_away(s: Seq<char>) -> (r: (int, int))
    ensures
        0 <= r.0 <= r.1 <= s.len(),
        text::trim(s) == s.subrange(r.0, r.1),
        forall|k: int| 0 <= k < r.0 || r.1 <= k < s.len() ==> text::is_space(#[trigger] s[k]),
        r.0 < r.1 ==> !text::is_space(s[r.0]) && !text::is_space(s[r.1 - 1]),
{
    let a = lemma_trim_start(s);
    let t = s.skip(a);
    let b = lemma_trim_end(t);
    assert(t.take(b) =~= s.subrange(a, a + b));
    assert forall|k: int| 0 <= k < a || a + b <= k < s.len() implies text::is_space(
        #[trigger] s[k],
    ) by {
        if k >= a {
            assert(t[k - a] == s[k]);
        }
    }
    if b > 0 {
        assert(t[0] == s[a]);
        assert(t[b - 1] == s[a + b - 1]);
    }
    (a, a + b)
}

proof fn lemma_trim_start(s: Seq<char>) -> (a: int)
    ensures
        0 <= a <= s.len(),
        text::trim_start(s) == s.skip(a),
        forall|k: int| 0 <= k < a ==> text::is_space(#[trigger] s[k]),
        a < s.len() ==> !text::is_space(s[a]),
    decreases s.len(),
{
    if s.len() > 0 && text::is_space(s[0]) {
        let t = s.drop_first();
        let b = lemma_trim_start(t);
        assert(t.skip(b) =~= s.skip(b + 1));
        assert forall|k: int| 0 <= k < b + 1 implies text::is_space(#[trigger] s[k]) by {
            if k > 0 {
                assert(t[k - 1] == s[k]);
            }
        }
        b + 1
    } else {
        assert(s.skip(0) =~= s);
        0
    }
}

proof fn lemma_trim_end(s: Seq<char>) -> (b: int)
    ensures
        0 <= b <= s.len(),
        text::trim_end(s) == s.take(b),
        forall|k: int| b <= k < s.len() ==> text::is_space(#[trigger] s[k]),
        b > 0 ==> !text::is_space(s[b - 1]),
    decreases s.len(),
{
    if s.len() > 0 && text::is_space(s.last()) {
        let t = s.drop_last();
        let b = lemma_trim_end(t);
        assert(t.take(b) =~= s.take(b));
        assert forall|k: int| b <= k < s.len() implies text::is_space(#[trigger] s[k]) by {
            if k < t.len() {
                assert(t[k] == s[k]);
            }
        }
        b
    } else {
        assert(s.take(s.len() as int) =~= s);
        s.len() as int
    }
}

/// White space is what is blank on paper: the ASCII space and control characters
/// that move on, and the spaces and separators of Unicode; nothing else is.
pub proof fn white_space_is_blank(c: char)
    ensures
        text::is_space(c) == {
            // Tab, line feed, vertical tab, form feed, carriage return, space.
            ||| c == '\t' || c == '\n' || c == '\r' || c == ' '
            ||| c as int == 11 || c as int == 12
            // Next line, and spaces that do not break.
            ||| c as int == 0x85 || c as int == 0xa0 || c as int == 0x202f
            // Spaces of all widths.
            ||| 0x2000 <= c as int <= 0x200a
            ||| c as int == 0x1680 || c as int == 0x205f || c as int == 0x3000
            // Line and paragraph separators.
            ||| c as int == 0x2028 || c as int == 0x2029
        },
{
    text::lemma_code_point(c);
}

// ---------------------------------------------------------------------------
// Wrapped texts
// ---------------------------------------------------------------------------

/// Whether lines break between words: each but the last ends in a space, and
/// the first word of the next would not have fitted on it.
pub open spec fn breaks_between_words(ls: Seq<Seq<char>>, a: int, width: int) -> bool {
    forall|i: int| a <= i < ls.len() - 1 ==> #[trigger] broken_well(ls, i, width)
}

pub open spec fn broken_well(ls: Seq<Seq<char>>, i: int, width: int) -> bool {
    &&& ls[i].len() > 0
    &&& ls[i].last() == ' '
    &&& ls[i + 1].len() > 0
    &&& screen::text_width(ls[i]) + screen::text_width(
        ls[i + 1].take(wrap::word_end(ls[i + 1], 0)),
    ) > width
}

/// Whether every word of a paragraph fits on a line.
pub open spec fn words_fit(p: Seq<char>, width: int) -> bool {
    forall|i: int|
        0 <= i < p.len() ==> screen::text_width(
            #[trigger] p.subrange(i, wrap::word_end(p, i)),
        ) <= width
}

/// A word ends behind the first space, or with the text.
pub proof fn words_end_behind_spaces(p: Seq<char>, i: int)
    requires
        0 <= i < p.len(),
    ensures
        ({
            let e = wrap::word_end(p, i);
            &&& i < e <= p.len()
            &&& forall|k: int| i <= k < e - 1 ==> #[trigger] p[k] != ' '
            &&& e < p.len() ==> p[e - 1] == ' '
        }),
    decreases p.len() - i,
{
    wrap::lemma_word_end(p, i);
    if p[i] != ' ' && i + 1 < p.len() {
        words_end_behind_spaces(p, i + 1);
    }
}

/// The state of wrapping between two words: finished lines are broken well, and
/// the line being filled begins with a word that did not fit before.
spec fn well(w: Wrap, a: int, width: int) -> bool {
    &&& 0 <= a <= w.lines.len()
    &&& forall|i: int| a <= i < w.lines.len() - 1 ==> #[trigger] broken_well(w.lines, i, width)
    &&& forall|i: int| a <= i < w.lines.len() ==> (#[trigger] w.lines[i]).len() > 0
        && w.lines[i].last() == ' '
    &&& w.lines.len() > a ==> w.line.len() > 0 && screen::text_width(w.lines.last())
        + screen::text_width(w.line.take(wrap::word_end(w.line, 0))) > width
}

/// The first word of a line stays when more is added behind its space.
proof fn lemma_first_word(a: Seq<char>, b: Seq<char>, i: int)
    requires
        0 <= i < a.len(),
        a.last() == ' ',
    ensures
        wrap::word_end(a + b, i) == wrap::word_end(a, i),
    decreases a.len() - i,
{
    assert((a + b)[i] == a[i]);
    if a[i] != ' ' {
        lemma_first_word(a, b, i + 1);
    }
}

/// A word has no word end inside.
proof fn lemma_one_word(p: Seq<char>, i: int, k: int)
    requires
        0 <= i <= k < wrap::word_end(p, i),
        i < p.len(),
    ensures
        ({
            let word = p.subrange(i, wrap::word_end(p, i));
            wrap::word_end(word, k - i) == word.len()
        }),
    decreases wrap::word_end(p, i) - k,
{
    words_end_behind_spaces(p, i);
    let e = wrap::word_end(p, i);
    let word = p.subrange(i, e);
    assert(word[k - i] == p[k]);
    if k < e - 1 {
        assert(p[k] != ' ');
        lemma_one_word(p, i, k + 1);
    } else if word[k - i] != ' ' {
        assert(wrap::word_end(word, k - i + 1) == word.len());
    }
}

proof fn lemma_wrap_words(w: Wrap, p: Seq<char>, i: int, a: int, width: int)
    requires
        0 <= i <= p.len(),
        words_fit(p, width),
        well(w, a, width),
        w.line.len() > 0 && i < p.len() ==> w.line.last() == ' ',
        w.line.len() > 0 && i < p.len() ==> screen::text_width(w.line) > 0,
        0 <= width,
    ensures
        well(wrap::wrap_words(w, p, i, width), a, width),
    decreases p.len() - i,
{
    if i < p.len() {
        words_end_behind_spaces(p, i);
        let e = wrap::word_end(p, i);
        let word = p.subrange(i, e);
        assert(screen::text_width(word) <= width);
        let v = w.add_word(word, width);
        let lw = screen::text_width(w.line);
        let ww = screen::text_width(word);
        lemma_one_word(p, i, i);
        assert(word.take(word.len() as int) =~= word);
        if e < p.len() {
            assert(word.last() == p[e - 1]);
            lemma_space_width(word);
        }
        if lw + ww > width && lw > 0 {
            assert(w.line.len() > 0);
            assert(v.lines == w.lines.push(w.line));
            assert(v.line =~= word);
            assert forall|j: int| a <= j < v.lines.len() - 1 implies #[trigger] broken_well(
                v.lines,
                j,
                width,
            ) by {
                if j < w.lines.len() - 1 {
                    assert(broken_well(w.lines, j, width));
                }
            }
            assert forall|j: int| a <= j < v.lines.len() implies (#[trigger] v.lines[j]).len() > 0
                && v.lines[j].last() == ' ' by {
                if j < w.lines.len() {
                    assert(v.lines[j] == w.lines[j]);
                }
            }
        } else {
            assert(v.lines == w.lines);
            assert(v.line == w.line + word);
            if w.line.len() == 0 {
                assert(v.line =~= word);
            } else {
                lemma_first_word(w.line, word, 0);
                assert(v.line.take(wrap::word_end(w.line, 0)) =~= w.line.take(
                    wrap::word_end(w.line, 0),
                )) by {
                    words_end_behind_spaces(w.line, 0);
                }
                if e < p.len() {
                    assert(v.line.last() == word.last());
                    screen::lemma_width_concat(w.line, word);
                }
            }
        }
        lemma_wrap_words(v, p, e, a, width);
    }
}

/// A text that ends in a space takes a column.
proof fn lemma_space_width(s: Seq<char>)
    requires
        s.len() > 0,
        s.last() == ' ',
    ensures
        screen::text_width(s) > 0,
{
    screen::lemma_width_le_bytes(s.drop_last());
    screen::lemma_width_range(' ');
}

/// A paragraph whose words all fit on a line is wrapped between words only, and
/// only where the next word does not fit any more.
pub proof fn paragraphs_break_between_words(p: Seq<char>, width: int)
    requires
        words_fit(p, width),
        0 <= width,
    ensures
        breaks_between_words(wrap::wrap_para(seq![], p, width), 0, width),
{
    let w = Wrap { lines: seq![], line: seq![] };
    lemma_wrap_words(w, p, 0, 0, width);
    let v = wrap::wrap_words(w, p, 0, width);
    let ls = wrap::wrap_para(seq![], p, width);
    assert(ls == v.lines.push(v.line));
    assert forall|i: int| 0 <= i < ls.len() - 1 implies #[trigger] broken_well(ls, i, width) by {
        if i < v.lines.len() - 1 {
            assert(broken_well(v.lines, i, width));
        } else {
            assert(ls[i] == v.lines[i]);
        }
    }
}

/// Whether all lines but the last are full: the first character of the next one
/// does not fit any more.
pub open spec fn filled(ls: Seq<Seq<char>>, width: int) -> bool {
    forall|i: int| 0 <= i < ls.len() - 1 ==> #[trigger] filled_at(ls, i, width)
}

pub open spec fn filled_at(ls: Seq<Seq<char>>, i: int, width: int) -> bool {
    ls[i + 1].len() > 0 && screen::text_width(ls[i]) + screen::width_of(ls[i + 1][0]) > width
}

proof fn lemma_add_chars_fill(word: Seq<char>, width: int)
    ensures
        ({
            let w = (Wrap { lines: seq![], line: seq![] }).add_chars(word, width);
            &&& filled(w.lines.push(w.line), width)
            &&& word.len() > 0 ==> w.line.len() > 0
        }),
    decreases word.len(),
{
    if word.len() > 0 {
        lemma_add_chars_fill(word.drop_last(), width);
        let e = Wrap { lines: seq![], line: seq![] };
        let v = e.add_chars(word.drop_last(), width);
        let w = e.add_chars(word, width);
        let (a, b) = (v.lines.push(v.line), w.lines.push(w.line));
        assert forall|i: int| 0 <= i < b.len() - 1 implies #[trigger] filled_at(b, i, width) by {
            if i < a.len() - 1 {
                assert(filled_at(a, i, width));
            }
        }
    }
}

/// A word that is wider than a line is broken, and fills all lines but the last.
pub proof fn long_words_fill_their_lines(p: Seq<char>, width: int)
    requires
        !p.contains(' '),
        screen::text_width(p) > width,
    ensures
        filled(wrap::wrap_para(seq![], p, width), width),
{
    if p.len() > 0 {
        lemma_no_space(p, 0);
        let w = Wrap { lines: seq![], line: seq![] };
        assert(p.subrange(0, p.len() as int) =~= p);
        let v = w.add_chars(p, width);
        assert(w.add_word(p, width) == v);
        assert(wrap::wrap_words(v, p, p.len() as int, width) == v);
        lemma_add_chars_fill(p, width);
    }
}

proof fn lemma_no_space(p: Seq<char>, i: int)
    requires
        0 <= i <= p.len(),
        !p.contains(' '),
    ensures
        wrap::word_end(p, i) == p.len(),
    decreases p.len() - i,
{
    if i < p.len() {
        assert(p.contains(p[i]));
        lemma_no_space(p, i + 1);
    }
}

/// What was finished before does not matter to a paragraph.
proof fn lemma_wrap_behind(w: Wrap, u: Wrap, p: Seq<char>, i: int, width: int, ls: Seq<Seq<char>>)
    requires
        0 <= i <= p.len(),
        w.line == u.line,
        w.lines == ls + u.lines,
    ensures
        ({
            let a = wrap::wrap_words(w, p, i, width);
            let b = wrap::wrap_words(u, p, i, width);
            a.line == b.line && a.lines == ls + b.lines
        }),
    decreases p.len() - i,
{
    if i < p.len() {
        wrap::lemma_word_end(p, i);
        let e = wrap::word_end(p, i);
        let word = p.subrange(i, e);
        let lw = screen::text_width(w.line);
        let ww = screen::text_width(word);
        assert(ls + u.lines.push(u.line) =~= (ls + u.lines).push(u.line));
        let (w1, u1) = if lw + ww > width && lw > 0 {
            (w.feed(), u.feed())
        } else {
            (w, u)
        };
        if ww > width {
            lemma_chars_behind(w1, u1, word, width, ls);
        }
        lemma_wrap_behind(w.add_word(word, width), u.add_word(word, width), p, e, width, ls);
    }
}

proof fn lemma_chars_behind(w: Wrap, u: Wrap, word: Seq<char>, width: int, ls: Seq<Seq<char>>)
    requires
        w.line == u.line,
        w.lines == ls + u.lines,
    ensures
        ({
            let a = w.add_chars(word, width);
            let b = u.add_chars(word, width);
            a.line == b.line && a.lines == ls + b.lines
        }),
    decreases word.len(),
{
    if word.len() > 0 {
        lemma_chars_behind(w, u, word.drop_last(), width, ls);
        let b = u.add_chars(word.drop_last(), width);
        assert(ls + b.lines.push(b.line) =~= (ls + b.lines).push(b.line));
    }
}

/// Line breaks of the text are kept: each part between them is wrapped by
/// itself, one behind the other.
pub proof fn line_breaks_are_kept(p: Seq<char>, rest: Seq<char>, width: int, max_lines: int)
    requires
        !p.contains('\n'),
        0 <= max_lines,
        wrap::wrap_para(seq![], p, width).len() < max_lines,
        wrap::wrap_from(seq![], p.push('\n') + rest, 0, width, max_lines).len() < max_lines,
    ensures
        wrap::wrap_from(seq![], p.push('\n') + rest, 0, width, max_lines) == wrap::wrap_para(
            seq![],
            p,
            width,
        ) + wrap::wrap_from(seq![], rest, 0, width, max_lines),
        wrap::wrap_from(seq![], p, 0, width, max_lines) == wrap::wrap_para(seq![], p, width),
{
    let s = p.push('\n') + rest;
    let n = p.len() as int;
    lemma_para(s, 0, n);
    assert(s.subrange(0, n) =~= p);
    lemma_para(p, 0, n);
    assert(p.subrange(0, n) =~= p);
    let more = wrap::wrap_para(seq![], p, width);
    assert(s.skip(n + 1) =~= rest.skip(0));
    lemma_from_behind(more, s, n + 1, rest, 0, width, max_lines, seq![]);
    assert(more + seq![] =~= more);
}

proof fn lemma_para(s: Seq<char>, i: int, e: int)
    requires
        0 <= i <= e <= s.len(),
        forall|k: int| i <= k < e ==> s[k] != '\n',
        e < s.len() ==> s[e] == '\n',
    ensures
        wrap::para_end(s, i) == e,
    decreases e - i,
{
    if i < e {
        lemma_para(s, i + 1, e);
    }
}

proof fn lemma_from_behind(
    lines: Seq<Seq<char>>,
    s: Seq<char>,
    i: int,
    t: Seq<char>,
    j: int,
    width: int,
    max_lines: int,
    done: Seq<Seq<char>>,
)
    requires
        0 <= i <= s.len(),
        0 <= j <= t.len(),
        s.skip(i) == t.skip(j),
        0 <= max_lines,
        wrap::wrap_from(lines + done, s, i, width, max_lines).len() < max_lines,
    ensures
        wrap::wrap_from(lines + done, s, i, width, max_lines) == lines + wrap::wrap_from(
            done,
            t,
            j,
            width,
            max_lines,
        ),
    decreases s.len() - i,
{
    wrap::lemma_para_end(s, i);
    wrap::lemma_para_end(t, j);
    let e = wrap::para_end(s, i);
    let n = e - i;
    let rest = s.skip(i);
    assert(rest.len() == s.len() - i);
    assert(t.skip(j).len() == t.len() - j);
    assert forall|k: int| 0 <= k < rest.len() implies #[trigger] s[i + k] == t[j + k] by {
        assert(rest[k] == s[i + k]);
        assert(t.skip(j)[k] == t[j + k]);
    }
    assert forall|k: int| j <= k < j + n implies t[k] != '\n' by {
        assert(s[i + (k - j)] == t[j + (k - j)]);
    }
    if e < s.len() {
        assert(s[i + n] == t[j + n]);
    }
    lemma_para(t, j, j + n);
    let p = s.subrange(i, e);
    assert(p =~= t.subrange(j, j + n)) by {
        assert forall|k: int| 0 <= k < n implies p[k] == t.subrange(j, j + n)[k] by {
            assert(s[i + k] == t[j + k]);
        }
    }
    let a = Wrap { lines: lines + done, line: seq![] };
    let b = Wrap { lines: done, line: seq![] };
    lemma_wrap_behind(a, b, p, 0, width, lines);
    let x = wrap::wrap_words(a, p, 0, width);
    let y = wrap::wrap_words(b, p, 0, width);
    let more = wrap::wrap_para(done, p, width);
    assert(wrap::wrap_para(lines + done, p, width) =~= lines + more) by {
        assert(x.lines.push(x.line) =~= lines + y.lines.push(y.line));
    }
    assert((lines + more).len() >= max_lines ==> (lines + more).take(max_lines).push(
        seq!['…'],
    ).len() == max_lines + 1);
    if e < s.len() {
        assert(s.skip(e + 1) =~= t.skip(j + n + 1)) by {
            assert forall|k: int| 0 <= k < s.len() - e - 1 implies #[trigger] s.skip(
                e + 1,
            )[k] == t.skip(
                j + n + 1,
            )[k] by {
                assert(s[i + (k + n + 1)] == t[j + (k + n + 1)]);
            }
        }
        lemma_from_behind(lines, s, e + 1, t, j + n + 1, width, max_lines, more);
    }
}

/// A text that takes as many lines as are asked for, or more, is cut behind
/// them, with an ellipsis in a line of its own.
pub proof fn long_texts_are_cut(s: Seq<char>, width: int, max_lines: int)
    requires
        0 <= max_lines,
    ensures
        ({
            let ls = wrap::wrap_from(seq![], s, 0, width, max_lines);
            ls.len() >= max_lines ==> ls.len() == max_lines + 1 && ls.last() == seq!['…']
        }),
{
    lemma_cut(seq![], s, 0, width, max_lines);
}

proof fn lemma_cut(lines: Seq<Seq<char>>, s: Seq<char>, i: int, width: int, max_lines: int)
    requires
        0 <= i <= s.len(),
        0 <= max_lines,
    ensures
        ({
            let ls = wrap::wrap_from(lines, s, i, width, max_lines);
            ls.len() >= max_lines ==> ls.len() == max_lines + 1 && ls.last() == seq!['…']
        }),
    decreases s.len() - i,
{
    wrap::lemma_para_end(s, i);
    let e = wrap::para_end(s, i);
    let more = wrap::wrap_para(lines, s.subrange(i, e), width);
    if more.len() < max_lines && e < s.len() {
        lemma_cut(more, s, e + 1, width, max_lines);
    }
}

// ---------------------------------------------------------------------------
// What looks like a number
// ---------------------------------------------------------------------------

/// Whether a text is made of digits and has some.
pub open spec fn digits(s: Seq<char>) -> bool {
    s.len() > 0 && forall|k: int| 0 <= k < s.len() ==> 0x30 <= #[trigger] s[k] as int <= 0x39
}

proof fn lemma_digits(s: Seq<char>)
    ensures
        (forall|k: int| 0 <= k < s.len() ==> 0x30 <= #[trigger] s[k] as int <= 0x39)
            ==> numeric::all_digits(s),
{
    if forall|k: int| 0 <= k < s.len() ==> 0x30 <= #[trigger] s[k] as int <= 0x39 {
        assert forall|k: int| 0 <= k < s.len() implies numeric::is_digit(#[trigger] s[k]) by {
            assert(0x30 <= s[k] as int <= 0x39);
            text::lemma_code_point(s[k]);
        }
    }
}

/// A text without white space at its ends is not changed by trimming.
proof fn lemma_trim_nothing(s: Seq<char>)
    requires
        s.len() > 0,
        !text::is_space(s[0]),
        !text::is_space(s.last()),
    ensures
        text::trim(s) == s,
{
}

/// Whole numbers, numbers with a decimal point or a decimal comma, and numbers
/// with an exponent look like numbers, with or without a sign.
pub proof fn numbers_look_like_numbers(a: Seq<char>, b: Seq<char>, sign: char, e: char)
    requires
        digits(a),
        digits(b),
        sign == '+' || sign == '-',
        e == 'e' || e == 'E',
    ensures
        numeric::numeric(a),
        numeric::numeric(seq![sign] + a),
        numeric::numeric(a + seq!['.'] + b),
        numeric::numeric(a + seq![','] + b),
        numeric::numeric(seq![sign] + (a + seq!['.'] + b)),
        numeric::numeric(seq![sign] + (a + seq![','] + b)),
        numeric::numeric(seq!['.'] + b),
        numeric::numeric(a.push('.')),
        numeric::numeric(a + seq![e] + b),
        numeric::numeric(a + seq![e, sign] + b),
{
    lemma_digits(a);
    lemma_digits(b);
    lemma_plain_number(a);
    lemma_signed(a, sign);
    let point = a + seq!['.'] + b;
    assert(numeric::is_mantissa(point)) by {
        reveal(numeric::is_mantissa);
        assert(point[a.len() as int] == '.');
        assert(point.take(a.len() as int) =~= a);
        assert(point.skip(a.len() as int + 1) =~= b);
    }
    lemma_mantissa(point);
    lemma_plain_number(point);
    lemma_signed(point, sign);
    let comma = a + seq![','] + b;
    lemma_comma(a, b);
    lemma_plain_comma(comma, point, sign);
    let front = seq!['.'] + b;
    assert(numeric::is_mantissa(front)) by {
        reveal(numeric::is_mantissa);
        assert(front[0] == '.');
        assert(front.take(0) =~= seq![]);
        assert(front.skip(1) =~= b);
    }
    lemma_mantissa(front);
    lemma_plain_number(front);
    let back = a.push('.');
    assert(numeric::is_mantissa(back)) by {
        reveal(numeric::is_mantissa);
        assert(back[a.len() as int] == '.');
        assert(back.take(a.len() as int) =~= a);
        assert(back.skip(a.len() as int + 1) =~= seq![]);
    }
    lemma_mantissa(back);
    lemma_plain_number(back);
    lemma_exponent(a, b, seq![e]);
    lemma_exponent(a, b, seq![e, sign]);
}

proof fn lemma_mantissa(s: Seq<char>)
    requires
        numeric::is_mantissa(s),
    ensures
        numeric::is_number(s),
{
    reveal(numeric::is_number);
}

/// A number without a sign, which begins with a digit or a point and does not
/// end in white space.
proof fn lemma_plain_number(s: Seq<char>)
    requires
        s.len() > 0,
        numeric::is_number(s) || digits(s),
        numeric::is_digit(s[0]) || s[0] == '.',
        numeric::is_digit(s.last()) || s.last() == '.',
    ensures
        numeric::numeric(s),
{
    text::lemma_code_point(s[0]);
    text::lemma_code_point(s.last());
    if digits(s) {
        lemma_digits(s);
        assert(numeric::is_mantissa(s)) by {
            reveal(numeric::is_mantissa);
        }
        lemma_mantissa(s);
    }
    lemma_trim_nothing(s);
    assert(numeric::unsigned(s) == s);
}

proof fn lemma_signed(s: Seq<char>, sign: char)
    requires
        s.len() > 0,
        sign == '+' || sign == '-',
        numeric::is_number(s) || digits(s),
        numeric::is_digit(s.last()) || s.last() == '.',
    ensures
        numeric::numeric(seq![sign] + s),
{
    let t = seq![sign] + s;
    text::lemma_code_point(sign);
    text::lemma_code_point(s.last());
    assert(t.last() == s.last());
    if digits(s) {
        lemma_digits(s);
        assert(numeric::is_mantissa(s)) by {
            reveal(numeric::is_mantissa);
        }
        lemma_mantissa(s);
    }
    lemma_trim_nothing(t);
    assert(numeric::unsigned(t) =~= s);
}

proof fn lemma_comma(a: Seq<char>, b: Seq<char>)
    requires
        digits(a),
        digits(b),
    ensures
        numeric::with_points(a + seq![','] + b) == a + seq!['.'] + b,
{
    let c = a + seq![','] + b;
    let p = a + seq!['.'] + b;
    let w = numeric::with_points(c);
    assert forall|k: int| 0 <= k < c.len() implies w[k] == p[k] by {
        if k < a.len() {
            assert(0x30 <= a[k] as int <= 0x39);
        } else if k > a.len() {
            assert(0x30 <= b[k - a.len() - 1] as int <= 0x39);
            assert(c[k] == b[k - a.len() - 1]);
        }
    }
    assert(w =~= p);
}

proof fn lemma_plain_comma(c: Seq<char>, p: Seq<char>, sign: char)
    requires
        c.len() > 0,
        numeric::with_points(c) == p,
        numeric::is_number(p),
        numeric::is_digit(c[0]),
        numeric::is_digit(c.last()),
        sign == '+' || sign == '-',
    ensures
        numeric::numeric(c),
        numeric::numeric(seq![sign] + c),
{
    text::lemma_code_point(c[0]);
    text::lemma_code_point(c.last());
    text::lemma_code_point(sign);
    lemma_trim_nothing(c);
    assert(p[0] == c[0]);
    assert(numeric::unsigned(p) == p);
    let t = seq![sign] + c;
    assert(t.last() == c.last());
    lemma_trim_nothing(t);
    assert(numeric::with_points(t) =~= seq![sign] + p);
    assert(numeric::unsigned(seq![sign] + p) =~= p);
}

proof fn lemma_exponent(a: Seq<char>, b: Seq<char>, mid: Seq<char>)
    requires
        digits(a),
        digits(b),
        1 <= mid.len() <= 2,
        mid[0] == 'e' || mid[0] == 'E',
        mid.len() == 2 ==> mid[1] == '+' || mid[1] == '-',
    ensures
        numeric::numeric(a + mid + b),
{
    let s = a + mid + b;
    let n = a.len() as int;
    lemma_digits(a);
    lemma_digits(b);
    assert(s.take(n) =~= a);
    assert(numeric::is_mantissa(a)) by {
        reveal(numeric::is_mantissa);
    }
    let x = s.skip(n);
    assert(x =~= mid + b);
    assert(0x30 <= b[0] as int <= 0x39);
    assert(numeric::unsigned(x.skip(1)) =~= b);
    assert(numeric::is_exponent(x));
    assert(numeric::is_number(s)) by {
        reveal(numeric::is_number);
        assert(numeric::is_mantissa(s.take(n)));
    }
    assert(s[0] == a[0]);
    assert(s.last() == b.last());
    assert(numeric::is_digit(a[0]));
    assert(numeric::is_digit(b[b.len() - 1]));
    lemma_plain_number(s);
}

/// Whether a character can stand in a number.
pub open spec fn in_numbers(c: char) -> bool {
    0x30 <= c as int <= 0x39 || c == '+' || c == '-' || c == '.' || c == ',' || c == 'e' || c
        == 'E'
}

/// Whether a character is a decimal point or a comma.
pub open spec fn separates(c: char) -> bool {
    c == '.' || c == ','
}

/// A number has at most one decimal point or comma.
pub proof fn numbers_have_one_separator(s: Seq<char>, i: int, j: int)
    requires
        numeric::numeric(s),
        0 <= i < j < text::trim(s).len(),
    ensures
        !(separates(text::trim(s)[i]) && separates(text::trim(s)[j])),
{
    let t = text::trim(s);
    if numeric::is_float(t) {
        lemma_one_point(t, i, j);
        lemma_no_comma(t, i);
        lemma_no_comma(t, j);
    } else {
        let p = numeric::with_points(t);
        lemma_one_point(p, i, j);
        assert(separates(t[i]) ==> p[i] == '.');
        assert(separates(t[j]) ==> p[j] == '.');
    }
}

proof fn lemma_no_comma(t: Seq<char>, i: int)
    requires
        numeric::is_float(t),
        0 <= i < t.len(),
    ensures
        t[i] != ',',
{
    let u = numeric::unsigned(t);
    text::lemma_code_point(t[i]);
    if numeric::is_number(u) {
        let k = if u.len() == t.len() {
            i
        } else {
            i - 1
        };
        if k >= 0 {
            assert(u[k] == t[i]);
            lemma_number_points(u, k, k);
        }
    } else {
        if u.len() == t.len() {
            assert(u[i] == t[i]);
        } else if i > 0 {
            assert(u[i - 1] == t[i]);
        }
    }
}

proof fn lemma_one_point(t: Seq<char>, i: int, j: int)
    requires
        numeric::is_float(t),
        0 <= i < j < t.len(),
    ensures
        !(t[i] == '.' && t[j] == '.'),
{
    let u = numeric::unsigned(t);
    text::lemma_code_point(t[i]);
    text::lemma_code_point(t[j]);
    let o: int = if u.len() == t.len() {
        0
    } else {
        1
    };
    assert(j - o >= 0 ==> u[j - o] == t[j]);
    if i >= o {
        assert(u[i - o] == t[i]);
        if numeric::is_number(u) {
            lemma_number_points(u, i - o, j - o);
        }
    }
}

/// A number without a sign has no comma and at most one point.
proof fn lemma_number_points(u: Seq<char>, i: int, j: int)
    requires
        numeric::is_number(u),
        0 <= i <= j < u.len(),
    ensures
        u[i] != ',',
        u[j] != ',',
        i < j ==> !(u[i] == '.' && u[j] == '.'),
{
    reveal(numeric::is_number);
    text::lemma_code_point(u[i]);
    text::lemma_code_point(u[j]);
    if numeric::is_mantissa(u) {
        lemma_mantissa_points(u, i, j);
    } else {
        let m = choose|k: int|
            0 <= k < u.len() && #[trigger] numeric::is_mantissa(u.take(k)) && numeric::is_exponent(
                u.skip(k),
            );
        let x = u.skip(m);
        lemma_exponent_chars(x);
        if i < m {
            assert(u.take(m)[i] == u[i]);
        } else {
            assert(x[i - m] == u[i]);
        }
        if j < m {
            assert(u.take(m)[j] == u[j]);
            lemma_mantissa_points(u.take(m), i, j);
        } else {
            assert(x[j - m] == u[j]);
            if i < m {
                lemma_mantissa_points(u.take(m), i, i);
            }
        }
    }
}

proof fn lemma_exponent_chars(x: Seq<char>)
    requires
        numeric::is_exponent(x),
    ensures
        forall|k: int| 0 <= k < x.len() ==> !separates(#[trigger] x[k]),
{
    let y = x.skip(1);
    let z = numeric::unsigned(y);
    assert forall|k: int| 0 <= k < x.len() implies !separates(#[trigger] x[k]) by {
        text::lemma_code_point(x[k]);
        if k > 0 {
            assert(y[k - 1] == x[k]);
            if z.len() == y.len() {
                assert(numeric::is_digit(z[k - 1]));
            } else if k > 1 {
                assert(z[k - 2] == x[k]);
                assert(numeric::is_digit(z[k - 2]));
            }
        }
    }
}

proof fn lemma_mantissa_points(s: Seq<char>, i: int, j: int)
    requires
        numeric::is_mantissa(s),
        0 <= i <= j < s.len(),
    ensures
        s[i] != ',',
        s[j] != ',',
        i < j ==> !(s[i] == '.' && s[j] == '.'),
{
    reveal(numeric::is_mantissa);
    text::lemma_code_point(s[i]);
    text::lemma_code_point(s[j]);
    if s.len() > 0 && numeric::all_digits(s) {
        assert(numeric::is_digit(s[i]) && numeric::is_digit(s[j]));
    } else {
        let d = choose|d: int|
            0 <= d < s.len() && #[trigger] s[d] == '.' && numeric::all_digits(s.take(d))
                && numeric::all_digits(s.skip(d + 1));
        if i < d {
            assert(numeric::is_digit(s.take(d)[i]));
        } else if i > d {
            assert(numeric::is_digit(s.skip(d + 1)[i - d - 1]));
        }
        if j < d {
            assert(numeric::is_digit(s.take(d)[j]));
        } else if j > d {
            assert(numeric::is_digit(s.skip(d + 1)[j - d - 1]));
        }
    }
}

/// What looks like a number begins with a digit, a sign or a point, has a digit
/// and holds nothing but digits, signs, points, commas and an `e`, unless it is
/// a signed infinity or a signed nan.
pub proof fn other_texts_do_not_look_like_numbers(s: Seq<char>)
    requires
        numeric::numeric(s),
    ensures
        ({
            let t = text::trim(s);
            &&& t.len() > 0
            &&& 0x30 <= t[0] as int <= 0x39 || t[0] == '+' || t[0] == '-' || t[0] == '.'
            &&& (forall|k: int| 0 <= k < t.len() ==> in_numbers(#[trigger] t[k])) || t.len() == 4
                || t.len() == 9
        }),
{
    let t = text::trim(s);
    text::lemma_code_point(t[0]);
    if numeric::is_float(t) {
        lemma_float(t);
    } else {
        let p = numeric::with_points(t);
        lemma_float(p);
        if forall|k: int| 0 <= k < p.len() ==> in_numbers(#[trigger] p[k]) {
            assert forall|k: int| 0 <= k < t.len() implies in_numbers(#[trigger] t[k]) by {
                assert(in_numbers(p[k]));
            }
        }
    }
}

proof fn lemma_float(t: Seq<char>)
    requires
        t.len() > 0,
        numeric::is_float(t),
        numeric::is_digit(t[0]) || t[0] == '-' || t[0] == '+' || t[0] == '.',
    ensures
        (forall|k: int| 0 <= k < t.len() ==> in_numbers(#[trigger] t[k])) || t.len() == 4
            || t.len() == 9,
{
    let u = numeric::unsigned(t);
    text::lemma_code_point(t[0]);
    if numeric::is_number(u) {
        lemma_number_chars(u);
        assert forall|k: int| 0 <= k < t.len() implies in_numbers(#[trigger] t[k]) by {
            if u.len() == t.len() {
                assert(t[k] == u[k]);
            } else if k > 0 {
                assert(t[k] == u[k - 1]);
            }
        }
    } else if u.len() == t.len() {
        assert(u[0] == t[0]);
    }
}

proof fn lemma_number_chars(s: Seq<char>)
    requires
        numeric::is_number(s),
    ensures
        forall|k: int| 0 <= k < s.len() ==> in_numbers(#[trigger] s[k]),
{
    reveal(numeric::is_number);
    if numeric::is_mantissa(s) {
        lemma_mantissa_chars(s);
    } else {
        let m = choose|k: int|
            0 <= k < s.len() && #[trigger] numeric::is_mantissa(s.take(k)) && numeric::is_exponent(
                s.skip(k),
            );
        lemma_mantissa_chars(s.take(m));
        let x = s.skip(m);
        let y = x.skip(1);
        let z = numeric::unsigned(y);
        assert forall|k: int| 0 <= k < s.len() implies in_numbers(#[trigger] s[k]) by {
            text::lemma_code_point(s[k]);
            if k < m {
                assert(s.take(m)[k] == s[k]);
            } else if k == m {
                assert(x[0] == s[k]);
            } else {
                assert(y[k - m - 1] == s[k]);
                if z.len() == y.len() {
                    assert(numeric::is_digit(z[k - m - 1]));
                } else if k > m + 1 {
                    assert(z[k - m - 2] == s[k]);
                    assert(numeric::is_digit(z[k - m - 2]));
                }
            }
        }
    }
}

proof fn lemma_mantissa_chars(s: Seq<char>)
    requires
        numeric::is_mantissa(s),
    ensures
        forall|k: int| 0 <= k < s.len() ==> in_numbers(#[trigger] s[k]),
{
    reveal(numeric::is_mantissa);
    assert forall|k: int| 0 <= k < s.len() implies in_numbers(#[trigger] s[k]) by {
        text::lemma_code_point(s[k]);
        if s.len() > 0 && numeric::all_digits(s) {
            assert(numeric::is_digit(s[k]));
        } else {
            let d = choose|d: int|
                0 <= d < s.len() && #[trigger] s[d] == '.' && numeric::all_digits(s.take(d))
                    && numeric::all_digits(s.skip(d + 1));
            if k < d {
                assert(numeric::is_digit(s.take(d)[k]));
            } else if k > d {
                assert(numeric::is_digit(s.skip(d + 1)[k - d - 1]));
            }
        }
    }
}

} // verus!
