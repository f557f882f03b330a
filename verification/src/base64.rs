//! Base64.

use vstd::prelude::*;

verus! {

/// The base64 digit of value `v`.
pub open spec fn digit64(v: int) -> char {
    if v < 26 {
        (0x41 + v) as char
    } else if v < 52 {
        (0x61 + v - 26) as char
    } else if v < 62 {
        (0x30 + v - 52) as char
    } else if v == 62 {
        '+'
    } else {
        '/'
    }
}

/// Byte `k`, or 0 behind the end.
pub open spec fn byte_or_zero(data: Seq<u8>, k: int) -> int {
    if k < data.len() {
        data[k] as int
    } else {
        0
    }
}

/// The four characters of the three bytes from `k` on.
pub open spec fn quad(data: Seq<u8>, k: int) -> Seq<char> {
    let n = byte_or_zero(data, k) * 0x1_0000 + byte_or_zero(data, k + 1) * 0x100 + byte_or_zero(
        data,
        k + 2,
    );
    seq![
        digit64(n / 0x4_0000),
        digit64(n / 0x1000 % 64),
        if k + 1 < data.len() {
            digit64(n / 64 % 64)
        } else {
            '='
        },
        if k + 2 < data.len() {
            digit64(n % 64)
        } else {
            '='
        },
    ]
}

/// Base64 of the bytes from `k` on.
pub open spec fn base64_from(data: Seq<u8>, k: int) -> Seq<char>
    decreases data.len() + 3 - k,
{
    if k >= data.len() {
        seq![]
    } else {
        quad(data, k) + base64_from(data, k + 3)
    }
}

fn digit64_char(v: u32) -> (r: char)
    requires
        v < 64,
    ensures
        r == digit64(v as int),
{
    let b = v as u8;
    if b < 26 {
        (0x41 + b) as char
    } else if b < 52 {
        (0x61 + (b - 26)) as char
    } else if b < 62 {
        (0x30 + (b - 52)) as char
    } else if b == 62 {
        '+'
    } else {
        '/'
    }
}

/// Encodes bytes in base64.
pub fn base64(data: &[u8]) -> (r: String)
    ensures
        r@ == base64_from(data@, 0),
{
    let mut out = String::new();
    let mut k: usize = 0;
    assert(out@ + base64_from(data@, 0) =~= base64_from(data@, 0));
    while k < data.len()
        invariant
            base64_from(data@, 0) == out@ + base64_from(data@, k as int),
        decreases data@.len() - k,
    {
        let ghost before = out@;
        let left: usize = data.len() - k;
        let b0 = data[k] as u32;
        let b1 = if left > 1 {
            data[k + 1] as u32
        } else {
            0
        };
        let b2 = if left > 2 {
            data[k + 2] as u32
        } else {
            0
        };
        let n: u32 = b0 * 0x1_0000 + b1 * 0x100 + b2;
        out.push(digit64_char(n / 0x4_0000));
        out.push(digit64_char(n / 0x1000 % 64));
        out.push(
            if left > 1 {
                digit64_char(n / 64 % 64)
            } else {
                '='
            },
        );
        out.push(
            if left > 2 {
                digit64_char(n % 64)
            } else {
                '='
            },
        );
        proof {
            assert(out@ =~= before + quad(data@, k as int));
            assert(out@ + base64_from(data@, k + 3) =~= before + base64_from(data@, k as int));
        }
        if left <= 3 {
            assert(base64_from(data@, k + 3) =~= Seq::<char>::empty());
            assert(out@ + Seq::<char>::empty() =~= out@);
            return out;
        }
        k += 3;
    }
    assert(out@ + Seq::<char>::empty() =~= out@);
    out
}

/// The value of a base64 digit; 0 for padding.
pub open spec fn value64(c: char) -> int {
    let cp = c as int;
    if 0x41 <= cp <= 0x5a {
        cp - 0x41
    } else if 0x61 <= cp <= 0x7a {
        cp - 0x61 + 26
    } else if 0x30 <= cp <= 0x39 {
        cp - 0x30 + 52
    } else if c == '+' {
        62
    } else if c == '/' {
        63
    } else {
        0
    }
}

/// The bytes of four base64 characters.
pub open spec fn unquad(q: Seq<char>) -> Seq<u8> {
    let n = value64(q[0]) * 0x4_0000 + value64(q[1]) * 0x1000 + value64(q[2]) * 64 + value64(q[3]);
    let bytes = seq![(n / 0x1_0000) as u8, (n / 0x100 % 0x100) as u8, (n % 0x100) as u8];
    if q[2] == '=' {
        bytes.take(1)
    } else if q[3] == '=' {
        bytes.take(2)
    } else {
        bytes
    }
}

/// The bytes that a base64 text stands for.
pub open spec fn unbase64(s: Seq<char>) -> Seq<u8>
    decreases s.len(),
{
    if s.len() < 4 {
        seq![]
    } else {
        unquad(s.take(4)) + unbase64(s.skip(4))
    }
}

proof fn lemma_digit64(v: int)
    requires
        0 <= v < 64,
    ensures
        value64(digit64(v)) == v,
        digit64(v) != '=',
{
}

/// Twenty-four bits in groups of six.
proof fn lemma_sixes(n: u32)
    by (bit_vector)
    requires
        n < 0x100_0000,
    ensures
        n == (n / 0x4_0000) * 0x4_0000 + (n / 0x1000 % 64) * 0x1000 + (n / 64 % 64) * 64 + n % 64,
        n / 0x4_0000 < 64,
{
}

/// Twenty-four bits in groups of eight.
proof fn lemma_eights(b0: int, b1: int, b2: int)
    requires
        0 <= b0 < 0x100,
        0 <= b1 < 0x100,
        0 <= b2 < 0x100,
    ensures
        ({
            let n = b0 * 0x1_0000 + b1 * 0x100 + b2;
            &&& n < 0x100_0000
            &&& n / 0x1_0000 == b0
            &&& n / 0x100 % 0x100 == b1
            &&& n % 0x100 == b2
            &&& b2 == 0 ==> n % 64 == 0
            &&& b2 == 0 && b1 == 0 ==> n / 64 % 64 == 0
        }),
{
}

proof fn lemma_quad(data: Seq<u8>, k: int)
    requires
        0 <= k < data.len(),
    ensures
        unquad(quad(data, k)) == data.subrange(k, vstd::math::min(k + 3, data.len() as int)),
{
    let (b0, b1, b2) = (
        byte_or_zero(data, k),
        byte_or_zero(data, k + 1),
        byte_or_zero(data, k + 2),
    );
    let n = b0 * 0x1_0000 + b1 * 0x100 + b2;
    let q = quad(data, k);
    lemma_eights(b0, b1, b2);
    lemma_sixes(n as u32);
    lemma_digit64(n / 0x4_0000);
    lemma_digit64(n / 0x1000 % 64);
    lemma_digit64(n / 64 % 64);
    lemma_digit64(n % 64);
    assert(value64(q[2]) == n / 64 % 64);
    assert(value64(q[3]) == n % 64);
    assert(value64(q[0]) * 0x4_0000 + value64(q[1]) * 0x1000 + value64(q[2]) * 64 + value64(q[3])
        == n);
    assert(unquad(q) =~= data.subrange(k, vstd::math::min(k + 3, data.len() as int)));
}

proof fn lemma_unbase64_from(data: Seq<u8>, k: int)
    requires
        0 <= k,
    ensures
        unbase64(base64_from(data, k)) == if k < data.len() {
            data.skip(k)
        } else {
            seq![]
        },
    decreases data.len() + 3 - k,
{
    if k < data.len() {
        let s = base64_from(data, k);
        assert(s.take(4) =~= quad(data, k));
        assert(s.skip(4) =~= base64_from(data, k + 3));
        lemma_quad(data, k);
        lemma_unbase64_from(data, k + 3);
        assert(unbase64(s) =~= data.skip(k));
    }
}

/// Nothing is lost in base64: decoding gives the bytes back.
pub proof fn base64_decodes_back(data: Seq<u8>)
    ensures
        unbase64(base64_from(data, 0)) == data,
{
    lemma_unbase64_from(data, 0);
    assert(data.skip(0) =~= data);
    if data.len() == 0 {
        assert(data =~= Seq::<u8>::empty());
    }
}

} // verus!
