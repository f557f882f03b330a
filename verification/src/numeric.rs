//! Texts that look like numbers.

use crate::text;
use vstd::prelude::*;

verus! {

pub open spec fn is_digit(c: char) -> bool {
    0x30 <= c as u32 <= 0x39
}

pub open spec fn all_digits(s: Seq<char>) -> bool {
    forall|k: int| 0 <= k < s.len() ==> is_digit(#[trigger] s[k])
}

/// Digits with at most one point among them, and at least one digit.
#[verifier::opaque]
pub open spec fn is_mantissa(s: Seq<char>) -> bool {
    ||| s.len() > 0 && all_digits(s)
    ||| s.len() > 1 && exists|k: int|
        0 <= k < s.len() && #[trigger] s[k] == '.' && all_digits(s.take(k)) && all_digits(
            s.skip(k + 1),
        )
}

/// A text without its leading sign, if it has one.
pub open spec fn unsigned(s: Seq<char>) -> Seq<char> {
    if s.len() > 0 && (s[0] == '+' || s[0] == '-') {
        s.skip(1)
    } else {
        s
    }
}

/// `e`, an optional sign and digits.
pub open spec fn is_exponent(s: Seq<char>) -> bool {
    &&& s.len() > 0 && (s[0] == 'e' || s[0] == 'E')
    &&& unsigned(s.skip(1)).len() > 0 && all_digits(unsigned(s.skip(1)))
}

/// A mantissa with or without an exponent.
#[verifier::opaque]
pub open spec fn is_number(s: Seq<char>) -> bool {
    ||| is_mantissa(s)
    ||| exists|k: int|
        0 <= k < s.len() && #[trigger] is_mantissa(s.take(k)) && is_exponent(s.skip(k))
}

/// Whether `s` is the word `w` (in small letters), in capitals or not.
pub open spec fn is_word(s: Seq<char>, w: Seq<char>) -> bool {
    s.len() == w.len() && forall|k: int|
        0 <= k < s.len() ==> #[trigger] s[k] == w[k] || s[k] as u32 + 0x20 == w[k] as u32
}

/// Whether a text is a floating-point number in decimal notation.
pub open spec fn is_float(s: Seq<char>) -> bool {
    let t = unsigned(s);
    ||| is_number(t)
    ||| is_word(t, seq!['i', 'n', 'f'])
    ||| is_word(t, seq!['i', 'n', 'f', 'i', 'n', 'i', 't', 'y'])
    ||| is_word(t, seq!['n', 'a', 'n'])
}

/// `s` with every comma turned into a point.
pub open spec fn with_points(s: Seq<char>) -> Seq<char> {
    s.map_values(
        |c: char|
            if c == ',' {
                '.'
            } else {
                c
            },
    )
}

/// Whether a text looks like a number: it starts like one and is one, with a
/// point or a comma before the decimals.
pub open spec fn numeric(s: Seq<char>) -> bool {
    let t = text::trim(s);
    &&& t.len() > 0
    &&& is_digit(t[0]) || t[0] == '-' || t[0] == '+' || t[0] == '.'
    &&& is_float(t) || is_float(with_points(t))
}

fn digit_char(c: char) -> (r: bool)
    ensures
        r == is_digit(c),
{
    0x30 <= c as u32 && c as u32 <= 0x39
}

/// Index of the first character at or after `i` that is no digit.
fn digits_end(v: &Vec<char>, i: usize) -> (r: usize)
    requires
        i <= v@.len(),
    ensures
        i <= r <= v@.len(),
        forall|k: int| i <= k < r ==> is_digit(#[trigger] v@[k]),
        r < v@.len() ==> !is_digit(v@[r as int]),
{
    let mut j: usize = i;
    while j < v.len() && digit_char(v[j])
        invariant
            i <= j <= v@.len(),
            forall|k: int| i <= k < j ==> is_digit(#[trigger] v@[k]),
        decreases v@.len() - j,
    {
        j += 1;
    }
    j
}

/// Reading digits, a point and digits from the start of `t` goes to the end of
/// its mantissa, where that is followed by something else.
proof fn lemma_mantissa_end(t: Seq<char>, i: int, m: int, k: int)
    requires
        0 <= i <= m <= t.len(),
        forall|j: int| 0 <= j < i ==> is_digit(#[trigger] t[j]),
        i < t.len() ==> !is_digit(t[i]),
        i < t.len() && t[i] == '.' ==> i < m && (forall|j: int|
            i < j < m ==> is_digit(#[trigger] t[j])) && (m < t.len() ==> !is_digit(t[m])),
        i == t.len() || t[i] != '.' ==> m == i,
        0 <= k <= t.len(),
        is_mantissa(t.take(k)),
        k < t.len() ==> !is_digit(t[k]) && t[k] != '.',
    ensures
        k == m,
        i < t.len() && t[i] == '.' ==> m > 1,
        i == t.len() || t[i] != '.' ==> m > 0,
{
    reveal(is_mantissa);
    let s = t.take(k);
    if s.len() > 0 && all_digits(s) {
        if i < k {
            assert(is_digit(s[i]));
        }
    } else {
        let d = choose|d: int|
            0 <= d < s.len() && #[trigger] s[d] == '.' && all_digits(s.take(d)) && all_digits(
                s.skip(d + 1),
            );
        assert(t[d] == '.');
        if i < d {
            assert(is_digit(s.take(d)[i]));
        }
        assert(i == d);
        if m < k {
            assert(is_digit(s.skip(d + 1)[m - d - 1]));
        }
    }
}

/// A text is a number when the mantissa read from its start holds a digit and
/// nothing but an exponent follows it.
proof fn lemma_number(t: Seq<char>, i: int, m: int, dot: bool)
    requires
        0 <= i <= m <= t.len(),
        forall|j: int| 0 <= j < i ==> is_digit(#[trigger] t[j]),
        i < t.len() ==> !is_digit(t[i]),
        dot == (i < t.len() && t[i] == '.'),
        dot ==> i < m && (forall|j: int| i < j < m ==> is_digit(#[trigger] t[j])) && (m < t.len()
            ==> !is_digit(t[m])),
        !dot ==> m == i,
    ensures
        is_number(t) == ((if dot {
            m > 1
        } else {
            m > 0
        }) && (m == t.len() || is_exponent(t.skip(m)))),
{
    reveal(is_number);
    let some = if dot {
        m > 1
    } else {
        m > 0
    };
    assert(t.take(t.len() as int) =~= t);
    if is_mantissa(t) {
        lemma_mantissa_end(t, i, m, t.len() as int);
    }
    assert forall|k: int|
        0 <= k < t.len() && #[trigger] is_mantissa(t.take(k)) && is_exponent(
            t.skip(k),
        ) implies k == m && some by {
        assert(t.skip(k)[0] == t[k]);
        lemma_mantissa_end(t, i, m, k);
    }
    if some {
        let s = t.take(m);
        assert(is_mantissa(s)) by {
            reveal(is_mantissa);
            if dot {
                assert(s[i] == '.');
                assert(all_digits(s.take(i)));
                assert(all_digits(s.skip(i + 1)));
            } else {
                assert(all_digits(s));
            }
        }
        if m < t.len() && is_exponent(t.skip(m)) {
            assert(is_mantissa(t.take(m)) && is_exponent(t.skip(m)));
        }
    }
}

/// Whether `v[a..]` is a number.
fn number_at(v: &Vec<char>, a: usize) -> (r: bool)
    requires
        a <= v@.len(),
    ensures
        r == is_number(v@.skip(a as int)),
{
    let ghost t = v@.skip(a as int);
    let i = digits_end(v, a);
    let dot = i < v.len() && v[i] == '.';
    let m = if dot {
        digits_end(v, i + 1)
    } else {
        i
    };
    let some = if dot {
        m - a > 1
    } else {
        m > a
    };
    proof {
        lemma_number(t, i - a, m - a, dot);
    }
    if !some {
        return false;
    }
    if m == v.len() {
        return true;
    }
    if v[m] != 'e' && v[m] != 'E' {
        assert(t.skip(m - a)[0] == v@[m as int]);
        assert(!is_exponent(t.skip(m - a)));
        return false;
    }
    let signed = m + 1 < v.len() && (v[m + 1] == '+' || v[m + 1] == '-');
    let p: usize = if signed {
        m + 2
    } else {
        m + 1
    };
    let q = digits_end(v, p);
    let r = q == v.len() && q > p;
    proof {
        let e = t.skip(m - a);
        let u = unsigned(e.skip(1));
        assert(e[0] == v@[m as int]);
        assert(u =~= v@.skip(p as int));
        if q < v@.len() {
            assert(u[q - p] == v@[q as int]);
        }
        assert(r == is_exponent(e));
    }
    r
}

/// Whether `v[a..]` is the word `w`, in capitals or not.
fn word_at(v: &Vec<char>, a: usize, w: &Vec<char>) -> (r: bool)
    requires
        a <= v@.len(),
    ensures
        r == is_word(v@.skip(a as int), w@),
{
    let ghost t = v@.skip(a as int);
    if v.len() - a != w.len() {
        return false;
    }
    let n: usize = v.len();
    let mut k: usize = 0;
    while k < w.len()
        invariant
            a <= v@.len() == n,
            k <= w@.len() == v@.len() - a,
            t == v@.skip(a as int),
            forall|j: int|
                0 <= j < k ==> #[trigger] t[j] == w@[j] || t[j] as u32 + 0x20 == w@[j] as u32,
        decreases w@.len() - k,
    {
        let c = v[a + k];
        assert(t[k as int] == c);
        let d = w[k];
        if c != d && ((d as u32) < 0x20 || c as u32 != d as u32 - 0x20) {
            return false;
        }
        k += 1;
    }
    true
}

fn float_chars(v: &Vec<char>) -> (r: bool)
    ensures
        r == is_float(v@),
{
    let a: usize = if v.len() > 0 && (v[0] == '+' || v[0] == '-') {
        1
    } else {
        0
    };
    assert(unsigned(v@) =~= v@.skip(a as int));
    let inf = vec!['i', 'n', 'f'];
    let infinity = vec!['i', 'n', 'f', 'i', 'n', 'i', 't', 'y'];
    let nan = vec!['n', 'a', 'n'];
    assert(inf@ =~= seq!['i', 'n', 'f']);
    assert(infinity@ =~= seq!['i', 'n', 'f', 'i', 'n', 'i', 't', 'y']);
    assert(nan@ =~= seq!['n', 'a', 'n']);
    number_at(v, a) || word_at(v, a, &inf) || word_at(v, a, &infinity) || word_at(v, a, &nan)
}

/// Whether a text looks like a number.
pub fn looks_numeric(s: &str) -> (r: bool)
    ensures
        r == numeric(s@),
{
    let t = text::trimmed_chars(s);
    if t.len() == 0 {
        return false;
    }
    if !(digit_char(t[0]) || t[0] == '-' || t[0] == '+' || t[0] == '.') {
        return false;
    }
    if float_chars(&t) {
        return true;
    }
    let mut u: Vec<char> = Vec::new();
    let mut i: usize = 0;
    let ghost want = with_points(t@);
    while i < t.len()
        invariant
            i <= t@.len(),
            want == with_points(t@),
            u@ == want.take(i as int),
        decreases t@.len() - i,
    {
        u.push(
            if t[i] == ',' {
                '.'
            } else {
                t[i]
            },
        );
        i += 1;
        assert(want.take(i as int) =~= want.take(i - 1).push(want[i - 1]));
    }
    assert(want.take(i as int) =~= want);
    float_chars(&u)
}

} // verus!
