//! Small text tools shared by the other modules: characters of a string,
//! trimming, byte comparison and decimal numbers.

use vstd::prelude::*;

verus! {

/// `String::push`: appends one character.
pub assume_specification[ String::push ](s: &mut String, c: char)
    ensures
        final(s)@ == old(s)@.push(c),
;

/// `String::clear`: leaves the empty string.
pub assume_specification[ String::clear ](s: &mut String)
    ensures
        final(s)@ == Seq::<char>::empty(),
;

/// `String::pop`: removes the last character and hands it out, or returns
/// `None` when the string is empty.
pub assume_specification[ String::pop ](s: &mut String) -> (r: Option<char>)
    ensures
        old(s)@.len() == 0 ==> r is None && final(s)@ == old(s)@,
        old(s)@.len() > 0 ==> r == Some(old(s)@.last()) && final(s)@ == old(s)@.drop_last(),
;

/// The text that bytes decode to when every ill-formed part is shown as the
/// replacement character: what `String::from_utf8_lossy` returns.
pub uninterp spec fn utf8_lossy(bytes: Seq<u8>) -> Seq<char>;

/// `String::from_utf8_lossy`: the lossy decoding, which is the plain decoding
/// of the bytes when they are well-formed UTF-8. Where exactly replacement
/// characters stand in the other case is left to the name.
#[verifier::external_body]
pub(crate) fn from_utf8_lossy(bytes: &[u8]) -> (s: String)
    ensures
        s@ == utf8_lossy(bytes@),
        vstd::utf8::valid_utf8(bytes@) ==> s@ == vstd::utf8::decode_utf8(bytes@),
{
    String::from_utf8_lossy(bytes).into_owned()
}

/// `std::str::from_utf8`: the decoded text when all the bytes are well-formed
/// UTF-8, `None` otherwise.
#[verifier::external_body]
pub(crate) fn from_utf8(bytes: &[u8]) -> (s: Option<String>)
    ensures
        s is Some <==> vstd::utf8::valid_utf8(bytes@),
        s matches Some(t) ==> t@ == vstd::utf8::decode_utf8(bytes@),
{
    match std::str::from_utf8(bytes) {
        Ok(s) => Some(s.to_string()),
        Err(_) => None,
    }
}

/// A character is its code point.
pub proof fn lemma_code_point(c: char)
    ensures
        c as u32 == c as int,
{
}

/// What a text is in lower case: what `str::to_lowercase` returns.
pub uninterp spec fn lowercase(s: Seq<char>) -> Seq<char>;

/// `str::to_lowercase`: the text in lower case, by the rules of Unicode. Of an
/// ASCII text the letters `A` to `Z` change and nothing else; the rest is left
/// to the name.
#[verifier::external_body]
pub(crate) fn to_lowercase(s: &str) -> (r: String)
    ensures
        r@ == lowercase(s@),
        (forall|k: int| 0 <= k < s@.len() ==> (#[trigger] s@[k] as int) < 0x80) ==> r@.len()
            == s@.len() && forall|k: int|
            0 <= k < s@.len() ==> #[trigger] r@[k] as int == if 0x41 <= s@[k] as int <= 0x5a {
                s@[k] as int + 0x20
            } else {
                s@[k] as int
            },
{
    s.to_lowercase()
}

/// The characters of a string, in order.
pub fn chars_of(s: &str) -> (v: Vec<char>)
    ensures
        v@ == s@,
{
    let mut v: Vec<char> = Vec::new();
    for c in it: s.chars()
        invariant
            v@ == it.seq().take(it.index()),
            it.seq() == s@,
    {
        v.push(c);
    }
    v
}

/// The string made of the characters `v[a..b]`.
pub fn string_of(v: &Vec<char>, a: usize, b: usize) -> (s: String)
    requires
        a <= b <= v.len(),
    ensures
        s@ == v@.subrange(a as int, b as int),
{
    let mut s = String::new();
    let mut i: usize = a;
    while i < b
        invariant
            a <= i <= b <= v.len(),
            s@ == v@.subrange(a as int, i as int),
        decreases b - i,
    {
        s.push(v[i]);
        i += 1;
        assert(v@.subrange(a as int, i as int) =~= v@.subrange(a as int, i - 1).push(v@[i - 1]));
    }
    s
}

/// UTF-8 encodes one character after the other.
pub proof fn lemma_encode_concat(a: Seq<char>, b: Seq<char>)
    ensures
        vstd::utf8::encode_utf8(a + b) == vstd::utf8::encode_utf8(a) + vstd::utf8::encode_utf8(b),
    decreases a.len(),
{
    if a.len() == 0 {
        assert(a + b =~= b);
    } else {
        assert((a + b).drop_first() =~= a.drop_first() + b);
        lemma_encode_concat(a.drop_first(), b);
    }
    assert(vstd::utf8::encode_utf8(a + b) =~= vstd::utf8::encode_utf8(a) + vstd::utf8::encode_utf8(
        b,
    ));
}

/// Appending a character appends its encoding.
pub proof fn lemma_encode_push(s: Seq<char>, c: char)
    ensures
        vstd::utf8::encode_utf8(s.push(c)) == vstd::utf8::encode_utf8(s)
            + vstd::utf8::encode_scalar(c as u32),
{
    lemma_encode_concat(s, seq![c]);
    assert(s + seq![c] =~= s.push(c));
    assert(seq![c].drop_first() =~= Seq::<char>::empty());
    assert(vstd::utf8::encode_utf8(seq![c]) =~= vstd::utf8::encode_scalar(c as u32)) by {
        reveal_with_fuel(vstd::utf8::encode_utf8, 2);
    }
}

/// A text with characters has bytes.
pub proof fn lemma_encode_nonempty(s: Seq<char>)
    requires
        s.len() > 0,
    ensures
        vstd::utf8::encode_utf8(s).len() > 0,
{
}

/// A copy of a string.
pub fn to_string(s: &str) -> (r: String)
    ensures
        r@ == s@,
{
    let mut r = String::new();
    r.append(s);
    assert(r@ =~= s@);
    r
}

/// The contents of byte strings.
pub open spec fn contents(v: Seq<Vec<u8>>) -> Seq<Seq<u8>> {
    v.map_values(|p: Vec<u8>| p@)
}

/// The texts of strings.
pub open spec fn texts(v: Seq<String>) -> Seq<Seq<char>> {
    v.map_values(|s: String| s@)
}

/// Whether two byte strings are equal.
pub fn bytes_eq(a: &[u8], b: &[u8]) -> (r: bool)
    ensures
        r == (a@ == b@),
{
    if a.len() != b.len() {
        return false;
    }
    let mut i: usize = 0;
    while i < a.len()
        invariant
            i <= a.len(),
            a.len() == b.len(),
            forall|j: int| 0 <= j < i ==> a@[j] == b@[j],
        decreases a.len() - i,
    {
        if a[i] != b[i] {
            return false;
        }
        i += 1;
    }
    assert(a@ =~= b@);
    true
}

/// A copy of a byte string.
pub fn bytes_copy(a: &[u8]) -> (v: Vec<u8>)
    ensures
        v@ == a@,
{
    let mut v: Vec<u8> = Vec::new();
    v.extend_from_slice(a);
    assert(v@ =~= a@);
    v
}

// ---------------------------------------------------------------------------
// Trimming
// ---------------------------------------------------------------------------

/// The characters with the Unicode `White_Space` property.
pub open spec fn is_space(c: char) -> bool {
    let cp = c as u32;
    ||| 0x09 <= cp <= 0x0d
    ||| cp == 0x20
    ||| cp == 0x85
    ||| cp == 0xa0
    ||| cp == 0x1680
    ||| 0x2000 <= cp <= 0x200a
    ||| cp == 0x2028
    ||| cp == 0x2029
    ||| cp == 0x202f
    ||| cp == 0x205f
    ||| cp == 0x3000
}

/// `s` without its leading white space.
pub open spec fn trim_start(s: Seq<char>) -> Seq<char>
    decreases s.len(),
{
    if s.len() > 0 && is_space(s[0]) {
        trim_start(s.drop_first())
    } else {
        s
    }
}

/// `s` without its trailing white space.
pub open spec fn trim_end(s: Seq<char>) -> Seq<char>
    decreases s.len(),
{
    if s.len() > 0 && is_space(s.last()) {
        trim_end(s.drop_last())
    } else {
        s
    }
}

/// `s` without white space at either end.
pub open spec fn trim(s: Seq<char>) -> Seq<char> {
    trim_end(trim_start(s))
}

fn space(c: char) -> (r: bool)
    ensures
        r == is_space(c),
{
    matches!(c as u32, 0x09..=0x0d | 0x20 | 0x85 | 0xa0 | 0x1680 | 0x2000..=0x200a | 0x2028 | 0x2029
        | 0x202f | 0x205f | 0x3000)
}

/// The characters of `s` without white space at either end.
pub fn trimmed_chars(s: &str) -> (v: Vec<char>)
    ensures
        v@ == trim(s@),
{
    let all = chars_of(s);
    let mut a: usize = 0;
    proof {
        assert(all@.skip(0) =~= all@);
    }
    while a < all.len() && space(all[a])
        invariant
            a <= all.len(),
            trim_start(all@) == trim_start(all@.skip(a as int)),
        decreases all.len() - a,
    {
        assert(all@.skip(a as int).drop_first() =~= all@.skip(a + 1));
        a += 1;
    }
    let ghost rest = all@.skip(a as int);
    assert(trim_start(all@) == rest);
    let mut b: usize = all.len();
    assert(all@.subrange(a as int, b as int) =~= rest);
    while b > a && space(all[b - 1])
        invariant
            a <= b <= all.len(),
            trim_end(rest) == trim_end(all@.subrange(a as int, b as int)),
        decreases b - a,
    {
        assert(all@.subrange(a as int, b as int).drop_last() =~= all@.subrange(a as int, b - 1));
        b -= 1;
    }
    let mut v: Vec<char> = Vec::new();
    let mut i: usize = a;
    while i < b
        invariant
            a <= i <= b <= all.len(),
            v@ == all@.subrange(a as int, i as int),
        decreases b - i,
    {
        v.push(all[i]);
        i += 1;
        assert(all@.subrange(a as int, i as int) =~= all@.subrange(a as int, i - 1).push(all@[i - 1]));
    }
    v
}

/// `s` without white space at either end.
pub fn trimmed(s: &str) -> (r: String)
    ensures
        r@ == trim(s@),
{
    let v = trimmed_chars(s);
    let r = string_of(&v, 0, v.len());
    assert(v@.subrange(0, v@.len() as int) =~= v@);
    r
}

// ---------------------------------------------------------------------------
// Decimal numbers
// ---------------------------------------------------------------------------

/// The decimal digit of value `d`.
pub open spec fn digit(d: nat) -> char {
    (0x30 + d) as char
}

/// The decimal notation of `n`.
pub open spec fn decimal(n: nat) -> Seq<char>
    decreases n,
{
    if n < 10 {
        seq![digit(n)]
    } else {
        decimal(n / 10).push(digit(n % 10))
    }
}

/// The decimal notation of a number has nothing but digits.
pub proof fn lemma_decimal_digits(n: nat)
    ensures
        forall|k: int|
            0 <= k < decimal(n).len() ==> 0x30 <= #[trigger] decimal(n)[k] as int <= 0x39,
        !decimal(n).contains(','),
    decreases n,
{
    if n >= 10 {
        lemma_decimal_digits(n / 10);
    }
    assert forall|k: int| 0 <= k < decimal(n).len() implies 0x30 <= #[trigger] decimal(n)[k] as int
        <= 0x39 by {
        if n >= 10 && k < decimal(n).len() - 1 {
            assert(decimal(n)[k] == decimal(n / 10)[k]);
        }
    }
    if decimal(n).contains(',') {
        let k = decimal(n).index_of(',');
        assert(decimal(n)[k] as int == 0x2c);
    }
}

/// Reading the decimal notation of a number gives the number back.
pub proof fn decimal_reads_back(n: nat)
    ensures
        value_of(decimal_bytes(n)) == n,
    decreases n,
{
    let b = decimal_bytes(n);
    if n >= 10 {
        decimal_reads_back(n / 10);
        assert(b.drop_last() =~= decimal_bytes(n / 10));
        assert(b.last() == digit(n % 10) as u8);
        assert(digit(n % 10) as u8 == 0x30 + n % 10);
    } else {
        assert(b.drop_last() =~= seq![]);
        assert(value_of(b.drop_last()) == 0);
        assert(b.last() == digit(n) as u8);
        assert(digit(n) as u8 == 0x30 + n);
    }
}

/// Ten to the power of `k`.
pub open spec fn pow10(k: nat) -> nat
    decreases k,
{
    if k == 0 {
        1
    } else {
        10 * pow10((k - 1) as nat)
    }
}

/// A number below ten to the power of `k` has at most `k` digits.
pub proof fn lemma_decimal_len(n: nat, k: nat)
    requires
        1 <= k,
        n < pow10(k),
    ensures
        1 <= decimal(n).len() <= k,
    decreases n,
{
    if n >= 10 {
        if k == 1 {
            assert(pow10(0) == 1);
        } else {
            lemma_decimal_len(n / 10, (k - 1) as nat);
        }
    }
}

/// The decimal notation of `n`.
pub fn to_decimal(n: u64) -> (s: String)
    ensures
        s@ == decimal(n as nat),
    decreases n,
{
    let d: u8 = 0x30 + (n % 10) as u8;
    let c: char = d as char;
    let mut s = if n < 10 {
        String::new()
    } else {
        to_decimal(n / 10)
    };
    s.push(c);
    assert(n < 10 ==> s@ =~= decimal(n as nat));
    s
}

/// The bytes of the decimal notation of `n`.
pub open spec fn decimal_bytes(n: nat) -> Seq<u8> {
    decimal(n).map_values(|c: char| c as u8)
}

/// Appends the decimal notation of `n`.
pub fn push_decimal(out: &mut Vec<u8>, n: u64)
    ensures
        final(out)@ == old(out)@ + decimal_bytes(n as nat),
    decreases n,
{
    let d: u8 = 0x30 + (n % 10) as u8;
    if n >= 10 {
        push_decimal(out, n / 10);
    }
    out.push(d);
    proof {
        assert(digit((n % 10) as nat) as u8 == d);
        assert(decimal_bytes(n as nat) =~= (if n >= 10 {
            decimal_bytes((n / 10) as nat)
        } else {
            Seq::<u8>::empty()
        }).push(d));
    }
    assert(out@ =~= old(out)@ + decimal_bytes(n as nat));
}

/// Whether a byte is a decimal digit.
pub open spec fn is_digit_byte(b: u8) -> bool {
    0x30 <= b <= 0x39
}

/// The number that digits stand for.
pub open spec fn value_of(d: Seq<u8>) -> nat
    decreases d.len(),
{
    if d.len() == 0 {
        0
    } else {
        value_of(d.drop_last()) * 10 + (d.last() - 0x30) as nat
    }
}

/// The number that a text of digits stands for, if it is one up to `max`.
pub open spec fn number_of(d: Seq<u8>, max: int) -> Option<int> {
    if d.len() > 0 && (forall|k: int| 0 <= k < d.len() ==> is_digit_byte(#[trigger] d[k]))
        && value_of(d) <= max {
        Some(value_of(d) as int)
    } else {
        None
    }
}

/// Reads a number up to `max` from digits.
pub fn parse_digits(d: &[u8], max: u64) -> (r: Option<u64>)
    ensures
        r is Some <==> number_of(d@, max as int) is Some,
        r matches Some(n) ==> number_of(d@, max as int) == Some(n as int),
{
    if d.len() == 0 {
        return None;
    }
    let mut v: u64 = 0;
    let mut big = false;
    let mut i: usize = 0;
    assert(d@.take(0) =~= Seq::<u8>::empty());
    while i < d.len()
        invariant
            i <= d@.len(),
            forall|k: int| 0 <= k < i ==> is_digit_byte(#[trigger] d@[k]),
            !big ==> v == value_of(d@.take(i as int)) && v <= max,
            big ==> value_of(d@.take(i as int)) > max,
        decreases d@.len() - i,
    {
        let b = d[i];
        if b < 0x30 || b > 0x39 {
            return None;
        }
        let c: u64 = b as u64 - 0x30;
        i += 1;
        assert(d@.take(i as int).drop_last() =~= d@.take(i - 1));
        if !big {
            if v <= max / 10 && c <= max - v * 10 {
                v = v * 10 + c;
            } else {
                big = true;
            }
        }
    }
    assert(d@.take(i as int) =~= d@);
    if big {
        None
    } else {
        Some(v)
    }
}

} // verus!
