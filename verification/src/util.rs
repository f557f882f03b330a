//! Small utilities: numbers and sizes as text, fitting text.

use crate::screen::{char_width, str_width};
use crate::{screen, search, text};
use vstd::prelude::*;

verus! {

// ---------------------------------------------------------------------------
// Numbers
// ---------------------------------------------------------------------------

/// Digits with a comma before every one that begins a group of three, counted
/// from the end, where `rest` more digits follow.
pub open spec fn grouped_before(s: Seq<char>, rest: int) -> Seq<char>
    decreases s.len(),
{
    if s.len() == 0 {
        seq![]
    } else if s.len() > 1 && (rest + 1) % 3 == 0 {
        grouped_before(s.drop_last(), rest + 1).push(',').push(s.last())
    } else {
        grouped_before(s.drop_last(), rest + 1).push(s.last())
    }
}

/// The decimal notation of `n` with its digits in groups of three.
pub open spec fn grouped(n: nat) -> Seq<char> {
    grouped_before(text::decimal(n), 0)
}

/// Digits without the commas between them.
pub open spec fn without_commas(s: Seq<char>) -> Seq<char>
    decreases s.len(),
{
    if s.len() == 0 {
        seq![]
    } else if s.last() == ',' {
        without_commas(s.drop_last())
    } else {
        without_commas(s.drop_last()).push(s.last())
    }
}

proof fn lemma_without_commas(s: Seq<char>, rest: int)
    requires
        !s.contains(','),
    ensures
        without_commas(grouped_before(s, rest)) == s,
    decreases s.len(),
{
    if s.len() > 0 {
        let t = s.drop_last();
        let c = s.last();
        assert(s.contains(c));
        assert(!t.contains(',')) by {
            if t.contains(',') {
                assert(s[t.index_of(',')] == ',');
            }
        }
        lemma_without_commas(t, rest + 1);
        let g = grouped_before(t, rest + 1);
        assert(g.push(',').drop_last() =~= g);
        assert(g.push(',').push(c).drop_last() =~= g.push(','));
        assert(g.push(c).drop_last() =~= g);
        assert(without_commas(g.push(',')) == without_commas(g));
        assert(without_commas(g.push(',').push(c)) == t.push(c));
        assert(without_commas(g.push(c)) == t.push(c));
        assert(t.push(c) =~= s);
    } else {
        assert(s =~= seq![]);
    }
}

/// Grouping digits changes nothing but for the commas.
pub proof fn grouping_keeps_the_digits(n: nat)
    ensures
        without_commas(grouped(n)) == text::decimal(n),
{
    text::lemma_decimal_digits(n);
    lemma_without_commas(text::decimal(n), 0);
}

proof fn lemma_grouped_len(s: Seq<char>, rest: int)
    ensures
        s.len() <= grouped_before(s, rest).len() <= 2 * s.len(),
    decreases s.len(),
{
    if s.len() > 0 {
        lemma_grouped_len(s.drop_last(), rest + 1);
    }
}

/// The notation of a machine number is short.
pub proof fn lemma_grouped_short(n: nat)
    requires
        n <= u64::MAX,
    ensures
        1 <= grouped(n).len() <= 40,
{
    reveal_with_fuel(text::pow10, 21);
    assert(text::pow10(20) == 100_000_000_000_000_000_000);
    text::lemma_decimal_len(n, 20);
    lemma_grouped_len(text::decimal(n), 0);
}

/// 1234567 -> "1,234,567"
pub fn fmt_num(n: usize) -> (r: String)
    ensures
        r@ == grouped(n as nat),
{
    let s = text::to_decimal(n as u64);
    let chars = text::chars_of(s.as_str());
    let len: usize = chars.len();
    let mut out = String::new();
    let mut i: usize = 0;
    assert(s@.take(0) =~= Seq::<char>::empty());
    while i < len
        invariant
            i <= len,
            len == s@.len(),
            chars@ == s@,
            out@ == grouped_before(s@.take(i as int), len - i),
        decreases len - i,
    {
        if i > 0 && (len - i) % 3 == 0 {
            out.push(',');
        }
        out.push(chars[i]);
        i += 1;
        assert(s@.take(i as int).drop_last() =~= s@.take(i - 1));
    }
    assert(s@.take(i as int) =~= s@);
    out
}

/// Length of the decimal notation with its digits in groups of three.
pub fn fmt_len(n: usize) -> (r: usize)
    ensures
        r == grouped(n as nat).len(),
{
    text::chars_of(fmt_num(n).as_str()).len()
}

/// `n + d`, kept within the range of numbers.
pub open spec fn moved(n: int, d: int) -> int {
    if n + d < 0 {
        0
    } else if n + d > usize::MAX {
        usize::MAX as int
    } else {
        n + d
    }
}

/// Adds a signed number, stopping at the ends of the range.
pub fn add_signed(n: usize, d: isize) -> (r: usize)
    ensures
        r == moved(n as int, d as int),
{
    if d >= 0 {
        n.saturating_add(d as usize)
    } else {
        n.saturating_sub((-(d + 1)) as usize).saturating_sub(1)
    }
}

/// The nearest integer to `a / b`, the even one when two are equally near.
pub open spec fn nearest(a: nat, b: nat) -> nat {
    let q = a / b;
    let r = a % b;
    if 2 * r < b {
        q
    } else if 2 * r > b {
        q + 1
    } else {
        q + q % 2
    }
}

fn round(a: u128, b: u128) -> (r: u128)
    requires
        0 < b,
        a < 0x8000_0000_0000_0000_0000_0000_0000_0000,
        b < 0x4000_0000_0000_0000_0000_0000_0000_0000,
    ensures
        r == nearest(a as nat, b as nat),
        r <= a + 1,
{
    let q = a / b;
    let m = a % b;
    proof {
        vstd::arithmetic::div_mod::lemma_div_is_ordered_by_denominator(a as int, 1, b as int);
        vstd::arithmetic::div_mod::lemma_mod_bound(a as int, b as int);
    }
    if 2 * m < b {
        q
    } else if 2 * m > b {
        q + 1
    } else {
        q + q % 2
    }
}

/// Numbers from here on are not all representable in 53 bits.
pub const MANTISSA: u128 = 0x20_0000_0000_0000;

/// The power of two that the last of the first 53 binary digits of `n` counts.
pub open spec fn last_place(n: nat) -> nat
    decreases n,
{
    if n < MANTISSA {
        1
    } else {
        2 * last_place(n / 2)
    }
}

/// The nearest number to `n` with 53 significant binary digits, which is what
/// double-precision arithmetic makes of it.
pub open spec fn double(n: nat) -> nat {
    nearest(n, last_place(n)) * last_place(n)
}

proof fn lemma_last_place(n: nat)
    ensures
        1 <= last_place(n),
        last_place(n) * MANTISSA <= 2 * n || last_place(n) == 1,
    decreases n,
{
    if n >= MANTISSA {
        lemma_last_place(n / 2);
    }
}

pub proof fn lemma_double(n: nat)
    ensures
        n < MANTISSA ==> double(n) == n,
        double(n) <= 2 * n,
{
    lemma_last_place(n);
    let p = last_place(n);
    if n < MANTISSA {
        assert(n / 1 == n && n % 1 == 0);
    } else {
        let q = n / p;
        vstd::arithmetic::div_mod::lemma_fundamental_div_mod(n as int, p as int);
        vstd::arithmetic::div_mod::lemma_mod_bound(n as int, p as int);
        assert(q * p <= n) by {
            vstd::arithmetic::mul::lemma_mul_is_commutative(q as int, p as int);
        }
        assert(nearest(n, p) <= q + 1);
        assert(nearest(n, p) * p <= (q + 1) * p) by (nonlinear_arith)
            requires
                nearest(n, p) <= q + 1,
                1 <= p,
        ;
        assert((q + 1) * p == q * p + p) by (nonlinear_arith);
    }
}

fn to_double(n: u128) -> (r: u128)
    requires
        n < 0x100_0000_0000_0000_0000_0000,
    ensures
        r == double(n as nat),
        r <= 2 * n,
{
    let mut p: u128 = 1;
    let mut m: u128 = n;
    while m >= MANTISSA
        invariant
            n < 0x100_0000_0000_0000_0000_0000,
            1 <= p,
            p * m <= n,
            last_place(n as nat) == p * last_place(m as nat),
        decreases m,
    {
        assert((2 * p) * (m / 2) <= p * m) by (nonlinear_arith)
            requires
                1 <= p,
                0 <= m,
        ;
        assert(p * (2 * last_place((m / 2) as nat)) == (2 * p) * last_place((m / 2) as nat))
            by (nonlinear_arith);
        assert(p <= n) by (nonlinear_arith)
            requires
                p * m <= n,
                1 <= m,
                1 <= p,
        ;
        p = 2 * p;
        m = m / 2;
    }
    proof {
        lemma_last_place(n as nat);
        lemma_double(n as nat);
        assert(p * last_place(m as nat) == p) by (nonlinear_arith)
            requires
                last_place(m as nat) == 1,
        ;
    }
    if n == 0 {
        return 0;
    }
    assert(p <= 2 * n);
    let q = round(n, p);
    q * p
}

/// Letters of the units of size.
pub open spec fn unit(u: int) -> char {
    if u == 0 {
        'B'
    } else if u == 1 {
        'K'
    } else if u == 2 {
        'M'
    } else if u == 3 {
        'G'
    } else {
        'T'
    }
}

/// Number of bytes in a unit.
pub open spec fn unit_size(u: int) -> nat {
    if u == 0 {
        1
    } else if u == 1 {
        0x400
    } else if u == 2 {
        0x10_0000
    } else if u == 3 {
        0x4000_0000
    } else {
        0x100_0000_0000
    }
}

/// The largest unit that `v` bytes fill, counted up to 4.
pub open spec fn unit_of(v: nat) -> int {
    if v < unit_size(1) {
        0
    } else if v < unit_size(2) {
        1
    } else if v < unit_size(3) {
        2
    } else if v < unit_size(4) {
        3
    } else {
        4
    }
}

/// A size in the largest unit that it fills, with one decimal below 10.
pub open spec fn size_text(n: nat) -> Seq<char> {
    let v = double(n);
    let u = unit_of(v);
    if u == 0 {
        text::decimal(n).push('B')
    } else if v < 10 * unit_size(u) {
        let t = nearest(v * 10, unit_size(u));
        (text::decimal(t / 10).push('.') + text::decimal(t % 10)).push(unit(u))
    } else {
        text::decimal(nearest(v, unit_size(u))).push(unit(u))
    }
}

/// 1536 -> "1.5K"
pub fn human_size(n: u64) -> (r: String)
    ensures
        r@ == size_text(n as nat),
{
    let v = to_double(n as u128);
    proof {
        lemma_double(n as nat);
    }
    let (size, letter): (u128, char) = if v < 0x400 {
        (1, 'B')
    } else if v < 0x10_0000 {
        (0x400, 'K')
    } else if v < 0x4000_0000 {
        (0x10_0000, 'M')
    } else if v < 0x100_0000_0000 {
        (0x4000_0000, 'G')
    } else {
        (0x100_0000_0000, 'T')
    };
    assert(size == unit_size(unit_of(v as nat)) && letter == unit(unit_of(v as nat)));
    if v < 0x400 {
        let mut s = text::to_decimal(n);
        s.push('B');
        return s;
    }
    if v < 10 * size {
        let t = round(v * 10, size);
        proof {
            lemma_nearest_small((v * 10) as nat, size as nat, 100);
        }
        let mut s = text::to_decimal((t / 10) as u64);
        s.push('.');
        s.append(text::to_decimal((t % 10) as u64).as_str());
        s.push(letter);
        return s;
    }
    let t = round(v, size);
    proof {
        assert(v < 0x4_0000_0000_0000_0000);
        assert(0x1_0000_0000_0000_0000 * size >= v);
        lemma_nearest_small(v as nat, size as nat, 0x1_0000_0000_0000);
    }
    let mut s = text::to_decimal(t as u64);
    s.push(letter);
    s
}

/// What rounds is not far from what it rounds to.
proof fn lemma_nearest_small(a: nat, b: nat, c: nat)
    requires
        0 < b,
        a <= c * b,
    ensures
        nearest(a, b) <= c + 1,
{
    assert(a / b <= c) by {
        vstd::arithmetic::div_mod::lemma_div_is_ordered(a as int, (c * b) as int, b as int);
        vstd::arithmetic::div_mod::lemma_div_multiples_vanish(c as int, b as int);
        vstd::arithmetic::mul::lemma_mul_is_commutative(c as int, b as int);
    }
}

/// The number of times that `a` has to be doubled to make `a / b` reach 53
/// binary digits.
pub open spec fn doublings(a: nat, b: nat) -> nat
    decreases MANTISSA * b - a,
{
    if a == 0 || 2 * a >= MANTISSA * b {
        0
    } else {
        1 + doublings(2 * a, b)
    }
}

/// Two to the power of `k`.
pub open spec fn pow2(k: nat) -> nat
    decreases k,
{
    if k == 0 {
        1
    } else {
        2 * pow2((k - 1) as nat)
    }
}

/// How much of `size` bytes has been dealt with, in whole percent, as
/// double-precision arithmetic gives it: the product and the quotient are
/// rounded to 53 binary digits, then the result to an integer.
pub open spec fn percent_of(scanned: nat, size: nat) -> nat {
    let a = double(double(scanned) * 100);
    let b = double(if size == 0 {
        1
    } else {
        size
    });
    let k = doublings(a, b);
    nearest(nearest(a * pow2(k), b), pow2(k))
}

proof fn lemma_double_at_least(n: nat)
    ensures
        n <= 2 * double(n),
{
    lemma_last_place(n);
    let p = last_place(n);
    if n < MANTISSA {
        lemma_double(n);
    } else {
        let q = n / p;
        vstd::arithmetic::div_mod::lemma_fundamental_div_mod(n as int, p as int);
        vstd::arithmetic::div_mod::lemma_mod_bound(n as int, p as int);
        vstd::arithmetic::mul::lemma_mul_is_commutative(q as int, p as int);
        assert(nearest(n, p) * p >= q * p) by (nonlinear_arith)
            requires
                nearest(n, p) >= q,
                p >= 1,
        ;
    }
}

/// How much has been dealt with, in whole percent.
pub fn percent(scanned: usize, size: usize) -> (r: u64)
    requires
        scanned <= size,
    ensures
        r == percent_of(scanned as nat, size as nat),
{
    let a = to_double(to_double(scanned as u128) * 100);
    let one: u128 = if size == 0 {
        1
    } else {
        size as u128
    };
    let b = to_double(one);
    proof {
        lemma_double_at_least(one as nat);
    }
    let mut m: u128 = a;
    let mut p: u128 = 1;
    let ghost mut k: nat = 0;
    assert(a * 1 == a);
    while m > 0 && 2 * m < MANTISSA * b
        invariant
            0 < b <= 0x2_0000_0000_0000_0000,
            a <= 0x400_0000_0000_0000_0000_0000,
            m <= MANTISSA * b,
            1 <= p,
            p == pow2(k),
            m == a * p,
            a > 0 ==> p <= m,
            a == 0 ==> p == 1,
            doublings(a as nat, b as nat) == k + doublings(m as nat, b as nat),
        decreases MANTISSA * b - m,
    {
        proof {
            k = k + 1;
            assert(a * (2 * p) == 2 * (a * p)) by (nonlinear_arith);
        }
        m = 2 * m;
        p = 2 * p;
    }
    assert(doublings(m as nat, b as nat) == 0);
    let q = round(m, b);
    proof {
        lemma_nearest_small(m as nat, b as nat, MANTISSA as nat);
    }
    let r = round(q, p);
    r as u64
}

/// Name of a delimiter.
pub open spec fn delim_text(d: u8) -> &'static str {
    if d == 0x2c {
        "comma"
    } else if d == 0x3b {
        "semicolon"
    } else if d == 0x09 {
        "tab"
    } else if d == 0x7c {
        "pipe"
    } else {
        "?"
    }
}

/// Name of a delimiter.
pub fn delim_name(d: u8) -> (r: &'static str)
    ensures
        r == delim_text(d),
{
    match d {
        0x2c => "comma",
        0x3b => "semicolon",
        0x09 => "tab",
        0x7c => "pipe",
        _ => "?",
    }
}

// ---------------------------------------------------------------------------
// Text
// ---------------------------------------------------------------------------

/// `s` with spaces before it, up to `w` characters in all.
pub open spec fn padded(s: Seq<char>, w: int) -> Seq<char>
    decreases w - s.len(),
{
    if s.len() >= w {
        s
    } else {
        padded(seq![' '] + s, w)
    }
}

proof fn lemma_padded(s: Seq<char>, w: int)
    ensures
        s.len() <= w ==> padded(s, w) == Seq::new((w - s.len()) as nat, |i: int| ' ') + s,
    decreases w - s.len(),
{
    if s.len() < w {
        lemma_padded(seq![' '] + s, w);
        assert(Seq::new((w - s.len() - 1) as nat, |i: int| ' ') + (seq![' '] + s) =~= Seq::new(
            (w - s.len()) as nat,
            |i: int| ' ',
        ) + s);
    } else {
        assert(Seq::new(0, |i: int| ' ') + s =~= s);
    }
}

/// Aligns `s` to the right in `w` characters.
pub fn pad_left(s: &str, w: usize) -> (r: String)
    ensures
        r@ == padded(s@, w as int),
{
    let chars = text::chars_of(s);
    let len: usize = chars.len();
    let mut r = String::new();
    let mut i: usize = len;
    while i < w
        invariant
            len == s@.len(),
            len <= i,
            i <= w || i == len,
            r@ == Seq::new((i - len) as nat, |j: int| ' '),
        decreases w - i,
    {
        r.push(' ');
        i += 1;
        assert(r@ =~= Seq::new((i - len) as nat, |j: int| ' '));
    }
    r.append(s);
    proof {
        lemma_padded(s@, w as int);
        if len >= w {
            assert(r@ =~= s@);
        }
    }
    r
}

/// Whether `hay` holds `needle`, with ASCII letters in capitals or not when
/// `ci`.
pub fn contains(hay: &str, needle: &str, ci: bool) -> (r: bool)
    requires
        needle@.len() > 0,
    ensures
        r == !search::no_match(
            vstd::utf8::encode_utf8(hay@),
            vstd::utf8::encode_utf8(needle@),
            ci,
        ),
{
    proof {
        text::lemma_encode_nonempty(needle@);
    }
    search::find_in(hay.as_bytes(), needle.as_bytes(), ci).is_some()
}

/// A path shown relative to the home directory, if it lies there.
pub open spec fn under_home(p: Seq<char>, home: Option<Seq<char>>) -> Seq<char> {
    match home {
        Some(h) => if h.len() > 0 && h.is_prefix_of(p) {
            seq!['~'] + p.skip(h.len() as int)
        } else {
            p
        },
        None => p,
    }
}

/// The text of an optional string.
pub open spec fn text_of(s: Option<String>) -> Option<Seq<char>> {
    match s {
        Some(s) => Some(s@),
        None => None,
    }
}

/// Shows a path relative to the home directory, if it lies there.
pub fn home_relative(p: &str, home: &Option<String>) -> (r: String)
    ensures
        r@ == under_home(p@, text_of(*home)),
{
    let h = match home {
        Some(h) => h,
        None => return text::to_string(p),
    };
    let hc = text::chars_of(h.as_str());
    let pc = text::chars_of(p);
    if hc.len() == 0 || hc.len() > pc.len() {
        return text::to_string(p);
    }
    let mut i: usize = 0;
    while i < hc.len()
        invariant
            i <= hc@.len() <= pc@.len(),
            hc@ == h@,
            pc@ == p@,
            *home == Some(*h),
            forall|k: int| 0 <= k < i ==> hc@[k] == pc@[k],
        decreases hc@.len() - i,
    {
        if hc[i] != pc[i] {
            assert(h@[i as int] != p@[i as int]);
            assert(!h@.is_prefix_of(p@));
            return text::to_string(p);
        }
        i += 1;
    }
    assert(h@.is_prefix_of(p@));
    let mut r = String::new();
    r.push('~');
    r.append(text::string_of(&pc, hc.len(), pc.len()).as_str());
    assert(r@ =~= seq!['~'] + p@.skip(h@.len() as int));
    r
}

/// The last part of a text, as far as it fits into `room` columns.
pub open spec fn fitting_end(s: Seq<char>, room: int) -> Seq<char>
    decreases s.len(),
{
    if s.len() == 0 || screen::text_width(s) <= room {
        s
    } else {
        fitting_end(s.drop_first(), room)
    }
}

/// A text that keeps its end, behind an ellipsis, when it is too wide.
pub open spec fn tail_of(s: Seq<char>, max: int) -> Seq<char> {
    if screen::text_width(s) <= max || max < 2 {
        s
    } else {
        seq!['…'] + fitting_end(s, max - 1)
    }
}

proof fn lemma_fitting_end(s: Seq<char>, room: int, k: int)
    requires
        0 <= k <= s.len(),
        0 <= room,
        screen::text_width(s.skip(k)) <= room,
        k > 0 ==> screen::text_width(s.skip(k - 1)) > room,
    ensures
        fitting_end(s, room) == s.skip(k),
    decreases s.len(),
{
    if k == 0 {
        assert(s.skip(0) =~= s);
    } else {
        assert(s.take(k - 1) + s.skip(k - 1) =~= s);
        screen::lemma_width_concat(s.take(k - 1), s.skip(k - 1));
        screen::lemma_width_le_bytes(s.take(k - 1));
        let t = s.drop_first();
        assert(t.skip(k - 1) =~= s.skip(k));
        if k > 1 {
            assert(t.skip(k - 2) =~= s.skip(k - 1));
        }
        lemma_fitting_end(t, room, k - 1);
    }
}

/// Keeps the end of `s` when it is wider than `max` ("…/dir/sub").
pub fn tail_fit(s: &str, max: usize) -> (r: String)
    ensures
        r@ == tail_of(s@, max as int),
{
    if str_width(s) <= max || max < 2 {
        return text::to_string(s);
    }
    let chars = text::chars_of(s);
    let mut w: usize = 0;
    let mut start: usize = chars.len();
    assert(s@.skip(s@.len() as int) =~= Seq::<char>::empty());
    while start > 0
        invariant_except_break
            start <= chars@.len(),
        invariant
            chars@ == s@,
            2 <= max < screen::text_width(s@),
            start <= chars@.len(),
            w == screen::text_width(s@.skip(start as int)),
            w <= max - 1,
        ensures
            start == 0 || screen::text_width(s@.skip(start - 1)) > max - 1,
        decreases start,
    {
        let cw = char_width(chars[start - 1]);
        proof {
            let c = s@[start - 1];
            assert(s@.skip(start - 1) =~= seq![c] + s@.skip(start as int));
            screen::lemma_width_concat(seq![c], s@.skip(start as int));
            reveal_with_fuel(screen::text_width, 2);
            assert(seq![c].drop_last() =~= Seq::<char>::empty());
        }
        if cw > max - 1 - w {
            break;
        }
        w += cw;
        start -= 1;
    }
    proof {
        lemma_fitting_end(s@, max - 1, start as int);
        assert(start > 0) by {
            assert(s@.skip(0) =~= s@);
        }
    }
    let mut r = String::new();
    r.push('…');
    r.append(text::string_of(&chars, start, chars.len()).as_str());
    assert(r@ =~= seq!['…'] + s@.skip(start as int));
    r
}

/// What is kept of a text that is too wide is as wide as was asked, at most.
pub proof fn tail_fits(s: Seq<char>, max: int)
    requires
        2 <= max,
    ensures
        screen::text_width(tail_of(s, max)) <= max,
{
    if screen::text_width(s) > max {
        lemma_fitting_end_width(s, max - 1);
        screen::lemma_width_concat(seq!['…'], fitting_end(s, max - 1));
        reveal_with_fuel(screen::text_width, 2);
        assert(seq!['…'].drop_last() =~= Seq::<char>::empty());
        reveal(screen::width_of);
    }
}

proof fn lemma_fitting_end_width(s: Seq<char>, room: int)
    requires
        0 <= room,
    ensures
        screen::text_width(fitting_end(s, room)) <= room,
    decreases s.len(),
{
    if s.len() > 0 && screen::text_width(s) > room {
        lemma_fitting_end_width(s.drop_first(), room);
    }
}

} // verus!
