//! Sparse record index.
//!
//! The only structure built over a file is a *sparse* index that holds the
//! byte offset of one record out of every `STRIDE`. Any record is then reached
//! by jumping to the nearest checkpoint and skipping at most `STRIDE - 1`
//! records.

use crate::csv;
use crate::csv::{NL, QUOTE};
use crate::source::Mmap;
use vstd::prelude::*;

verus! {

/// One checkpoint every `STRIDE` records.
pub const STRIDE: usize = 128;

// ---------------------------------------------------------------------------
// Bit masks
// ---------------------------------------------------------------------------

/// Bit `i` of `m`.
pub open spec fn bit(m: u64, i: int) -> bool {
    (m >> (i as u64)) & 1 == 1
}

/// How many of the `n` low bits of `m` are set.
pub open spec fn ones_below(m: u64, n: int) -> int
    decreases n,
{
    if n <= 0 {
        0
    } else {
        ones_below(m, n - 1) + if bit(m, n - 1) {
            1int
        } else {
            0int
        }
    }
}

/// `u64::count_ones`: the number of ones in the binary representation.
pub assume_specification[ u64::count_ones ](m: u64) -> (r: u32)
    ensures
        r == ones_below(m, 64),
;

proof fn lemma_or_bit(m: u64, v: u64, i: u64, j: u64)
    requires
        v <= 1,
        i < 64,
        j < 64,
    ensures
        bit(m | (v << i), j as int) == (bit(m, j as int) || (i == j && v == 1)),
{
    assert(((m | (v << i)) >> j) & 1 == 1 <==> ((m >> j) & 1 == 1 || (i == j && v == 1)))
        by (bit_vector)
        requires
            v <= 1,
            i < 64,
            j < 64,
    ;
}

proof fn lemma_zero_bits(j: int)
    requires
        0 <= j < 64,
    ensures
        !bit(0, j),
{
    let k = j as u64;
    assert((0u64 >> k) & 1 != 1) by (bit_vector);
}

/// Bitmasks of the positions of newlines and quotes in a block.
fn block_masks(b: &[u8]) -> (r: (u64, u64))
    requires
        b@.len() <= 64,
    ensures
        forall|j: int|
            0 <= j < 64 ==> #[trigger] bit(r.0, j) == (j < b@.len() && b@[j] == NL),
        forall|j: int|
            0 <= j < 64 ==> #[trigger] bit(r.1, j) == (j < b@.len() && b@[j] == QUOTE),
{
    let mut mn: u64 = 0;
    let mut mq: u64 = 0;
    let mut i: usize = 0;
    proof {
        assert forall|j: int| 0 <= j < 64 implies !#[trigger] bit(0, j) by {
            lemma_zero_bits(j);
        }
    }
    while i < b.len()
        invariant
            i <= b@.len() <= 64,
            forall|j: int| 0 <= j < 64 ==> #[trigger] bit(mn, j) == (j < i && b@[j] == NL),
            forall|j: int| 0 <= j < 64 ==> #[trigger] bit(mq, j) == (j < i && b@[j] == QUOTE),
        decreases b@.len() - i,
    {
        let c = b[i];
        let n: u64 = if c == NL {
            1
        } else {
            0
        };
        let q: u64 = if c == QUOTE {
            1
        } else {
            0
        };
        let at: u64 = i as u64;
        let ghost (mn0, mq0) = (mn, mq);
        mn = mn | (n << at);
        mq = mq | (q << at);
        proof {
            assert forall|j: int| 0 <= j < 64 implies #[trigger] bit(mn, j) == (j < i + 1 && b@[j]
                == NL) by {
                lemma_or_bit(mn0, n, at, j as u64);
                assert(bit(mn0, j) == (j < i && b@[j] == NL));
            }
            assert forall|j: int| 0 <= j < 64 implies #[trigger] bit(mq, j) == (j < i + 1 && b@[j]
                == QUOTE) by {
                lemma_or_bit(mq0, q, at, j as u64);
                assert(bit(mq0, j) == (j < i && b@[j] == QUOTE));
            }
        }
        i += 1;
    }
    (mn, mq)
}

/// Bit i of the result = XOR of bits 0..=i of x. Turns a mask of quote
/// characters into a mask of "inside quotes" regions.
fn prefix_xor(x: u64) -> (r: u64)
    ensures
        bit(r, 0) == bit(x, 0),
        forall|i: int| 0 < i < 64 ==> #[trigger] bit(r, i) == (bit(r, i - 1) != bit(x, i)),
{
    let x1 = x ^ (x << 1);
    let x2 = x1 ^ (x1 << 2);
    let x3 = x2 ^ (x2 << 4);
    let x4 = x3 ^ (x3 << 8);
    let x5 = x4 ^ (x4 << 16);
    let r = x5 ^ (x5 << 32);
    proof {
        assert(r ^ (r << 1) == x) by (bit_vector)
            requires
                x1 == x ^ (x << 1),
                x2 == x1 ^ (x1 << 2),
                x3 == x2 ^ (x2 << 4),
                x4 == x3 ^ (x3 << 8),
                x5 == x4 ^ (x4 << 16),
                r == x5 ^ (x5 << 32),
        ;
        assert((r >> 0) & 1 == (x >> 0) & 1) by (bit_vector)
            requires
                r ^ (r << 1) == x,
        ;
        assert forall|i: int| 0 < i < 64 implies #[trigger] bit(r, i) == (bit(r, i - 1) != bit(
            x,
            i,
        )) by {
            let k = i as u64;
            let p = (i - 1) as u64;
            assert(((r >> k) & 1 == 1) == (((r >> p) & 1 == 1) != ((x >> k) & 1 == 1)))
                by (bit_vector)
                requires
                    r ^ (r << 1) == x,
                    0 < k < 64,
                    p + 1 == k,
            ;
        }
    }
    r
}

// ---------------------------------------------------------------------------
// Scanning
// ---------------------------------------------------------------------------

/// What a scan knows after some bytes: the checkpoints met, the number of
/// records ended, whether it stands inside quotes, and the offset right after
/// the last record-ending newline.
#[verifier::ext_equal]
pub struct Scan {
    pub local: Seq<u64>,
    pub rows: int,
    pub in_quote: bool,
    pub last_end: int,
}

/// A scan that has seen nothing.
pub open spec fn scan_start() -> Scan {
    Scan { local: Seq::empty(), rows: 0, in_quote: false, last_end: 0 }
}

/// The scan after byte `b` at offset `pos`: a newline ends a record unless it
/// stands inside quotes, and every `STRIDE`-th end is a checkpoint.
pub open spec fn scan_byte(s: Scan, pos: int, b: u8) -> Scan {
    if b == QUOTE {
        Scan { in_quote: !s.in_quote, ..s }
    } else if b == NL && !s.in_quote {
        Scan {
            local: if (s.rows + 1) % (STRIDE as int) == 0 {
                s.local.push((pos + 1) as u64)
            } else {
                s.local
            },
            rows: s.rows + 1,
            in_quote: false,
            last_end: pos + 1,
        }
    } else {
        s
    }
}

/// The scan after the bytes `b`, the first of which stands at offset `pos`.
pub open spec fn scan_bytes(s: Scan, pos: int, b: Seq<u8>) -> Scan
    decreases b.len(),
{
    if b.len() == 0 {
        s
    } else {
        scan_byte(scan_bytes(s, pos, b.drop_last()), pos + b.len() - 1, b.last())
    }
}

proof fn lemma_scan_step(s: Scan, pos: int, b: Seq<u8>, i: int)
    requires
        0 <= i < b.len(),
    ensures
        scan_bytes(s, pos, b.take(i + 1)) == scan_byte(
            scan_bytes(s, pos, b.take(i)),
            pos + i,
            b[i],
        ),
{
    assert(b.take(i + 1).drop_last() =~= b.take(i));
}

proof fn lemma_scan_append(s: Scan, pos: int, a: Seq<u8>, b: Seq<u8>)
    ensures
        scan_bytes(s, pos, a + b) == scan_bytes(scan_bytes(s, pos, a), pos + a.len(), b),
    decreases b.len(),
{
    if b.len() == 0 {
        assert(a + b =~= a);
    } else {
        lemma_scan_append(s, pos, a, b.drop_last());
        assert((a + b).drop_last() =~= a + b.drop_last());
    }
}

/// Rows never shrink and stay behind the offset of the last end.
proof fn lemma_scan_bounds(s: Scan, pos: int, b: Seq<u8>)
    requires
        0 <= s.rows <= s.last_end <= pos,
    ensures
        s.rows <= scan_bytes(s, pos, b).rows <= scan_bytes(s, pos, b).last_end,
        0 <= scan_bytes(s, pos, b).last_end <= pos + b.len(),
    decreases b.len(),
{
    if b.len() > 0 {
        lemma_scan_bounds(s, pos, b.drop_last());
    }
}

pub struct Scanner {
    /// Checkpoints found since the last publish.
    pub local: Vec<u64>,
    pub rows: u64,
    /// Records left before the next checkpoint.
    pub until_cp: u64,
    /// All ones when the previous block ended inside quotes.
    pub in_quote: u64,
    /// Offset right after the last record-ending newline.
    pub last_end: usize,
}

impl View for Scanner {
    type V = Scan;

    open spec fn view(&self) -> Scan {
        Scan {
            local: self.local@,
            rows: self.rows as int,
            in_quote: self.in_quote != 0,
            last_end: self.last_end as int,
        }
    }
}

/// Between two positions without a record end nothing but the quote state changes.
proof fn lemma_scan_gap(s: Scan, pos: int, b: Seq<u8>, i: int, k: int)
    requires
        0 <= i <= k <= b.len(),
        forall|j: int|
            #![trigger b[j]]
            i <= j < k ==> !(b[j] == NL && !scan_bytes(s, pos, b.take(j)).in_quote),
    ensures
        ({
            let x = scan_bytes(s, pos, b.take(i));
            let y = scan_bytes(s, pos, b.take(k));
            &&& y.local == x.local
            &&& y.rows == x.rows
            &&& y.last_end == x.last_end
        }),
    decreases k - i,
{
    if i < k {
        lemma_scan_gap(s, pos, b, i, k - 1);
        lemma_scan_step(s, pos, b, k - 1);
        assert(!(b[k - 1] == NL && !scan_bytes(s, pos, b.take(k - 1)).in_quote));
    }
}

/// The record-end mask of a block agrees with the byte-by-byte scan.
proof fn lemma_masks(s: Scan, pos: int, b: Seq<u8>, nl: u64, qt: u64, pre: u64, prev: u64, i: int)
    requires
        b.len() == 64,
        0 <= i < 64,
        forall|j: int| 0 <= j < 64 ==> #[trigger] bit(nl, j) == (b[j] == NL),
        forall|j: int| 0 <= j < 64 ==> #[trigger] bit(qt, j) == (b[j] == QUOTE),
        bit(pre, 0) == bit(qt, 0),
        forall|j: int| 0 < j < 64 ==> #[trigger] bit(pre, j) == (bit(pre, j - 1) != bit(qt, j)),
        prev == 0 || prev == u64::MAX,
        s.in_quote == (prev != 0),
    ensures
        bit(pre ^ prev, i) == scan_bytes(s, pos, b.take(i + 1)).in_quote,
        bit(nl & !(pre ^ prev), i) == (b[i] == NL && !scan_bytes(s, pos, b.take(i)).in_quote),
    decreases i,
{
    let k = i as u64;
    lemma_scan_step(s, pos, b, i);
    if i == 0 {
        assert(b.take(0) =~= Seq::<u8>::empty());
    } else {
        lemma_masks(s, pos, b, nl, qt, pre, prev, i - 1);
        let p = (i - 1) as u64;
        assert(((pre ^ prev) >> p) & 1 == 1 <==> (((pre >> p) & 1 == 1) != (prev != 0)))
            by (bit_vector)
            requires
                p < 64,
                prev == 0 || prev == u64::MAX,
        ;
    }
    assert(((pre ^ prev) >> k) & 1 == 1 <==> (((pre >> k) & 1 == 1) != (prev != 0))) by (bit_vector)
        requires
            k < 64,
            prev == 0 || prev == u64::MAX,
    ;
    if i > 0 {
        assert(bit(pre, i) == (bit(pre, i - 1) != bit(qt, i)));
    } else {
        assert(bit(pre, 0) == bit(qt, 0));
    }
    let inside = pre ^ prev;
    assert(((nl & !inside) >> k) & 1 == 1 <==> ((nl >> k) & 1 == 1 && (inside >> k) & 1 != 1))
        by (bit_vector)
        requires
            k < 64,
    ;
    assert(bit(nl, i) == (b[i] == NL));
    assert(bit(qt, i) == (b[i] == QUOTE));
}

/// `n` more records come that many places further in their stride, or complete
/// it.
proof fn lemma_stride(rows: int, n: int)
    requires
        0 <= rows,
        0 <= n,
    ensures
        rows % (STRIDE as int) + n < STRIDE ==> (rows + n) % (STRIDE as int) == rows % (
        STRIDE as int) + n,
        rows % (STRIDE as int) + n == STRIDE ==> (rows + n) % (STRIDE as int) == 0,
{
}

impl Scanner {
    /// Between two steps the countdown and the quote mask agree with the rest.
    pub open spec fn wf(&self) -> bool {
        &&& self.until_cp == STRIDE - self.rows % (STRIDE as u64)
        &&& self.in_quote == 0 || self.in_quote == u64::MAX
    }

    pub fn new() -> (s: Scanner)
        ensures
            s.wf(),
            s@ == scan_start(),
    {
        Scanner {
            local: Vec::with_capacity(4096),
            rows: 0,
            until_cp: STRIDE as u64,
            in_quote: 0,
            last_end: 0,
        }
    }

    /// Scans one block of at most 64 bytes at offset `base`, without branching
    /// on individual bytes.
    #[verifier::spinoff_prover]
    fn step(&mut self, base: usize, block: &[u8])
        requires
            old(self).wf(),
            block@.len() <= 64,
            base + block@.len() <= usize::MAX,
            base + block@.len() <= u64::MAX,
            old(self).rows <= old(self).last_end <= base,
        ensures
            final(self).wf(),
            final(self)@ == scan_bytes(old(self)@, base as int, block@),
    {
        let (nl, qt) = block_masks(block);
        let pre = prefix_xor(qt);
        let prev = self.in_quote;
        let inside = pre ^ prev;
        let ends = nl & !inside;
        let ghost s0 = self@;
        let ghost b = block@ + Seq::new((64 - block@.len()) as nat, |i: int| 0u8);
        let ghost at = |i: int| scan_bytes(s0, base as int, b.take(i));
        proof {
            assert forall|j: int| 0 <= j < 64 implies #[trigger] bit(nl, j) == (b[j] == NL) by {}
            assert forall|j: int| 0 <= j < 64 implies #[trigger] bit(qt, j) == (b[j] == QUOTE) by {}
            assert forall|i: int| 0 <= i < 64 implies #[trigger] bit(ends, i) == (b[i] == NL
                && !scan_bytes(s0, base as int, b.take(i)).in_quote) by {
                lemma_masks(s0, base as int, b, nl, qt, pre, prev, i);
            }
            lemma_masks(s0, base as int, b, nl, qt, pre, prev, 63);
            assert(b.take(64) =~= b);
            lemma_pad(s0, base as int, block@, (64 - block@.len()) as nat);
            assert(at(64) == scan_bytes(s0, base as int, block@));
        }
        self.in_quote = if inside >> 63 == 1 {
            u64::MAX
        } else {
            0
        };
        assert((inside >> 63) & 1 == 1 <==> inside >> 63 == 1) by (bit_vector);
        if ends == 0 {
            proof {
                assert forall|j: int| #![trigger b[j]] 0 <= j < 64 implies !(b[j] == NL
                    && !scan_bytes(s0, base as int, b.take(j)).in_quote) by {
                    lemma_zero_bits(j);
                    assert(!bit(ends, j));
                }
                lemma_scan_gap(s0, base as int, b, 0, 64);
                assert(b.take(0) =~= Seq::<u8>::empty());
                assert(self@ =~= at(64));
            }
            return;
        }
        let lz = ends.leading_zeros();
        proof {
            vstd::std_specs::bits::axiom_u64_leading_zeros(ends);
            let top = (63 - lz) as u64;
            assert((ends >> top) & 1 != 0);
            assert((ends >> top) & 1 != 0 ==> (ends >> top) & 1 == 1) by (bit_vector);
            assert(bit(ends, 63 - lz));
            assert forall|i: int| 63 - lz < i < 64 implies !#[trigger] bit(ends, i) by {
                assert((ends >> (i as u64)) & 1 == 0);
            }
            lemma_last_end(s0, base as int, b, ends, 63 - lz as int);
            lemma_ones(s0, base as int, b, ends, 64);
            lemma_scan_bounds(s0, base as int, block@);
        }
        self.last_end = base + (64 - lz as usize);
        let n = ends.count_ones() as u64;
        self.rows += n;
        if n < self.until_cp {
            self.until_cp -= n;
            proof {
                lemma_stride(s0.rows, n as int);
                assert(self.rows % (STRIDE as u64) == s0.rows % (STRIDE as int) + n);
                assert(self.until_cp == STRIDE - self.rows % (STRIDE as u64));
                lemma_no_checkpoint(s0, base as int, b, ends, 64);
                assert(self@ =~= at(64));
            }
            return;
        }
        let mut m: u64 = ends;
        let ghost mut cur: int = 0;
        proof {
            assert(b.take(0) =~= Seq::<u8>::empty());
        }
        while m != 0
            invariant
                0 <= cur <= 64,
                b.len() == 64,
                0 <= s0.rows <= s0.last_end <= base,
                base + block@.len() <= usize::MAX,
                base + block@.len() <= u64::MAX,
                forall|i: int| 0 <= i < 64 ==> #[trigger] bit(ends, i) == (b[i] == NL
                    && !scan_bytes(s0, base as int, b.take(i)).in_quote),
                forall|i: int| 0 <= i < 64 ==> #[trigger] bit(m, i) == (i >= cur && bit(ends, i)),
                forall|i: int| block@.len() <= i < 64 ==> b[i] == 0,
                self.until_cp == STRIDE - scan_bytes(s0, base as int, b.take(cur)).rows % (
                STRIDE as int),
                self.local@ == scan_bytes(s0, base as int, b.take(cur)).local,
                self.rows == scan_bytes(s0, base as int, b.take(64)).rows,
                self.last_end == scan_bytes(s0, base as int, b.take(64)).last_end,
                (self.in_quote != 0) == scan_bytes(s0, base as int, b.take(64)).in_quote,
                self.in_quote == 0 || self.in_quote == u64::MAX,
            decreases 64 - cur,
        {
            let t = m.trailing_zeros();
            let ghost m0 = m;
            proof {
                vstd::std_specs::bits::axiom_u64_trailing_zeros(m);
                assert(bit(m, t as int));
                assert forall|j: int| #![trigger b[j]] cur <= j < t implies !(b[j] == NL
                    && !scan_bytes(s0, base as int, b.take(j)).in_quote) by {
                    assert((m >> (j as u64)) & 1 == 0);
                    assert(!bit(m, j));
                    assert(bit(m, j) == (j >= cur && bit(ends, j)));
                }
                lemma_scan_gap(s0, base as int, b, cur, t as int);
                lemma_scan_step(s0, base as int, b, t as int);
                lemma_scan_bounds(s0, base as int, b.take(t as int));
                lemma_stride(scan_bytes(s0, base as int, b.take(t as int)).rows, 1);
                assert(b[t as int] == NL);
            }
            m = m & (m - 1);
            proof {
                let tt = t as u64;
                assert forall|i: int| 0 <= i < 64 implies #[trigger] bit(m, i) == (i >= t + 1
                    && bit(ends, i)) by {
                    lemma_clear_lowest(m0, tt, i as u64);
                    assert(bit(m0, i) == (i >= cur && bit(ends, i)));
                    if i < t {
                        assert((m0 >> (i as u64)) & 1 == 0);
                    }
                }
                cur = t as int + 1;
            }
            self.until_cp -= 1;
            if self.until_cp == 0 {
                self.local.push((base + t as usize + 1) as u64);
                self.until_cp = STRIDE as u64;
            }
        }
        proof {
            assert forall|j: int| #![trigger b[j]] cur <= j < 64 implies !(b[j] == NL
                && !scan_bytes(s0, base as int, b.take(j)).in_quote) by {
                lemma_zero_bits(j);
                assert(bit(m, j) == (j >= cur && bit(ends, j)));
            }
            lemma_scan_gap(s0, base as int, b, cur, 64);
            assert(self@ =~= at(64));
        }
    }
}

/// Zero bytes change nothing.
proof fn lemma_pad(s: Scan, pos: int, b: Seq<u8>, n: nat)
    ensures
        scan_bytes(s, pos, b + Seq::new(n, |i: int| 0u8)) == scan_bytes(s, pos, b),
    decreases n,
{
    let z = Seq::new(n, |i: int| 0u8);
    if n == 0 {
        assert(b + z =~= b);
    } else {
        lemma_pad(s, pos, b, (n - 1) as nat);
        assert((b + z).drop_last() =~= b + Seq::new((n - 1) as nat, |i: int| 0u8));
    }
}

/// `m & (m - 1)` clears the lowest set bit, `t`, and no other.
proof fn lemma_clear_lowest(m: u64, t: u64, i: u64)
    requires
        t < 64,
        i < 64,
        bit(m, t as int),
        forall|j: u64| 0 <= j < t ==> #[trigger] (m >> j) & 1u64 == 0u64,
        m << (64 - t) as u64 == 0 || t == 0,
        m != 0,
    ensures
        bit(m & (m - 1) as u64, i as int) == (bit(m, i as int) && i != t),
{
    let d = (m - 1) as u64;
    let u = (64 - t) as u64;
    assert(((m & d) >> i) & 1 == 1 <==> ((m >> i) & 1 == 1 && i != t)) by (bit_vector)
        requires
            t < 64,
            i < 64,
            u + t == 64,
            (m >> t) & 1 == 1,
            m << u == 0 || t == 0,
            m != 0,
            d == m - 1,
    ;
}

/// The row count after `k` bytes counts the set bits of the end mask.
proof fn lemma_ones(s: Scan, pos: int, b: Seq<u8>, ends: u64, k: int)
    requires
        b.len() == 64,
        0 <= k <= 64,
        forall|i: int| 0 <= i < 64 ==> #[trigger] bit(ends, i) == (b[i] == NL && !scan_bytes(
            s,
            pos,
            b.take(i),
        ).in_quote),
    ensures
        scan_bytes(s, pos, b.take(k)).rows == s.rows + ones_below(ends, k),
        0 <= ones_below(ends, k) <= k,
    decreases k,
{
    if k == 0 {
        assert(b.take(0) =~= Seq::<u8>::empty());
    } else {
        lemma_ones(s, pos, b, ends, k - 1);
        lemma_scan_step(s, pos, b, k - 1);
        assert(bit(ends, k - 1) == (b[k - 1] == NL && !scan_bytes(s, pos, b.take(k - 1)).in_quote));
    }
}

/// The last set bit of the end mask gives the last record end.
proof fn lemma_last_end(s: Scan, pos: int, b: Seq<u8>, ends: u64, t: int)
    requires
        b.len() == 64,
        0 <= t < 64,
        forall|i: int| 0 <= i < 64 ==> #[trigger] bit(ends, i) == (b[i] == NL && !scan_bytes(
            s,
            pos,
            b.take(i),
        ).in_quote),
        bit(ends, t),
        forall|i: int| t < i < 64 ==> !#[trigger] bit(ends, i),
    ensures
        scan_bytes(s, pos, b.take(64)).last_end == pos + t + 1,
        b[t] == NL,
{
    lemma_scan_step(s, pos, b, t);
    assert forall|j: int| #![trigger b[j]] t + 1 <= j < 64 implies !(b[j] == NL && !scan_bytes(
        s,
        pos,
        b.take(j),
    ).in_quote) by {
        assert(!bit(ends, j));
    }
    lemma_scan_gap(s, pos, b, t + 1, 64);
}

/// No checkpoint is met while the countdown does not run out.
proof fn lemma_no_checkpoint(s: Scan, pos: int, b: Seq<u8>, ends: u64, k: int)
    requires
        b.len() == 64,
        0 <= k <= 64,
        s.rows >= 0,
        forall|i: int| 0 <= i < 64 ==> #[trigger] bit(ends, i) == (b[i] == NL && !scan_bytes(
            s,
            pos,
            b.take(i),
        ).in_quote),
        s.rows % (STRIDE as int) + ones_below(ends, k) < STRIDE,
    ensures
        scan_bytes(s, pos, b.take(k)).local == s.local,
    decreases k,
{
    if k == 0 {
        assert(b.take(0) =~= Seq::<u8>::empty());
    } else {
        lemma_ones(s, pos, b, ends, k - 1);
        lemma_no_checkpoint(s, pos, b, ends, k - 1);
        lemma_scan_step(s, pos, b, k - 1);
        lemma_ones(s, pos, b, ends, k);
        assert(bit(ends, k - 1) == (b[k - 1] == NL && !scan_bytes(s, pos, b.take(k - 1)).in_quote));
        let before = scan_bytes(s, pos, b.take(k - 1));
        lemma_stride(s.rows, ones_below(ends, k));
        if bit(ends, k - 1) {
            assert((before.rows + 1) % (STRIDE as int) == s.rows % (STRIDE as int) + ones_below(
                ends,
                k,
            ));
        }
    }
}

impl Scanner {
    /// Scans `chunk`, which starts at offset `base`.
    pub fn feed(&mut self, base: usize, chunk: &[u8])
        requires
            old(self).wf(),
            base + chunk@.len() <= usize::MAX,
            old(self).rows <= old(self).last_end <= base,
        ensures
            final(self).wf(),
            final(self)@ == scan_bytes(old(self)@, base as int, chunk@),
            final(self).rows <= final(self).last_end <= base + chunk@.len(),
    {
        let ghost s0 = self@;
        let mut off: usize = 0;
        assert(chunk@.take(0) =~= Seq::<u8>::empty());
        while off < chunk.len()
            invariant
                off <= chunk@.len(),
                base + chunk@.len() <= usize::MAX,
                self.wf(),
                0 <= s0.rows <= s0.last_end <= base,
                self@ == scan_bytes(s0, base as int, chunk@.take(off as int)),
                self.rows <= self.last_end <= base + off,
            decreases chunk@.len() - off,
        {
            let left = chunk.len() - off;
            let n = if left < 64 {
                left
            } else {
                64
            };
            let block = &chunk[off..off + n];
            self.step(base + off, block);
            proof {
                lemma_scan_append(s0, base as int, chunk@.take(off as int), block@);
                assert(chunk@.take(off as int) + block@ =~= chunk@.take(off + n));
                lemma_scan_bounds(s0, base as int, chunk@.take(off + n));
            }
            off += n;
        }
        assert(chunk@.take(chunk@.len() as int) =~= chunk@);
    }
}

// ---------------------------------------------------------------------------
// Records by number
// ---------------------------------------------------------------------------

/// Byte offset where record `k` starts (the length past the last record).
pub open spec fn start_of(data: Seq<u8>, k: int) -> int
    decreases k,
{
    if k <= 0 {
        0
    } else {
        csv::record_end(data, start_of(data, k - 1))
    }
}

/// Number of records from the one that starts at `pos` on.
pub open spec fn rows_from(data: Seq<u8>, pos: int) -> int
    decreases data.len() - pos,
{
    if 0 <= pos < data.len() {
        proof {
            csv::record_end_is_first_unquoted_newline(data, pos);
        }
        1 + rows_from(data, csv::record_end(data, pos))
    } else {
        0
    }
}

/// Number of records in `data`.
pub open spec fn row_count(data: Seq<u8>) -> int {
    rows_from(data, 0)
}

/// The scan of the first `n` bytes.
pub open spec fn scan_of(data: Seq<u8>, n: int) -> Scan {
    scan_bytes(scan_start(), 0, data.take(n))
}

/// Every offset that is the start of a record lies in the data, and each
/// record but the empty one past the end is longer than nothing.
pub proof fn lemma_start_step(data: Seq<u8>, k: int)
    requires
        0 <= k,
    ensures
        0 <= start_of(data, k) <= data.len(),
        start_of(data, k) < data.len() ==> start_of(data, k) < start_of(data, k + 1) <= data.len(),
        start_of(data, k) == data.len() ==> start_of(data, k + 1) == data.len(),
    decreases k,
{
    if k > 0 {
        lemma_start_step(data, k - 1);
    }
    if start_of(data, k) < data.len() {
        csv::record_end_is_first_unquoted_newline(data, start_of(data, k));
    }
}

pub proof fn lemma_start_mono(data: Seq<u8>, i: int, j: int)
    requires
        0 <= i <= j,
    ensures
        start_of(data, i) <= start_of(data, j) <= data.len(),
        start_of(data, i) < data.len() ==> start_of(data, j) >= start_of(data, i) + (if j - i
            < data.len() - start_of(data, i) {
            j - i
        } else {
            data.len() - start_of(data, i)
        }),
    decreases j - i,
{
    lemma_start_step(data, j);
    if i < j {
        lemma_start_mono(data, i, j - 1);
        lemma_start_step(data, j - 1);
    }
}

/// What a scan of the first `n` bytes knows, said of records.
proof fn lemma_scan_records(data: Seq<u8>, n: int)
    requires
        0 <= n <= data.len() <= u64::MAX,
    ensures
        ({
            let s = scan_of(data, n);
            &&& s.in_quote == csv::quoted(data, 0, n)
            &&& 0 <= s.rows <= n
            &&& 0 <= s.last_end <= n
            &&& s.last_end == start_of(data, s.rows)
            &&& forall|j: int| 0 <= j < s.rows ==> #[trigger] start_of(data, j) < s.last_end
            &&& csv::record_end(data, s.last_end) == csv::record_end_from(data, n, s.in_quote)
            &&& s.local.len() == s.rows / (STRIDE as int)
            &&& forall|j: int|
                0 <= j < s.local.len() ==> #[trigger] s.local[j] == start_of(data, (j + 1) * STRIDE)
        }),
    decreases n,
{
    if n == 0 {
        assert(data.take(0) =~= Seq::<u8>::empty());
    } else {
        lemma_scan_records(data, n - 1);
        lemma_scan_step(scan_start(), 0, data, n - 1);
        let p = scan_of(data, n - 1);
        let s = scan_of(data, n);
        assert(s == scan_byte(p, n - 1, data[n - 1]));
        if data[n - 1] == NL && !p.in_quote {
            assert(csv::record_end_from(data, n - 1, p.in_quote) == n);
            assert(start_of(data, p.rows + 1) == n);
            assert forall|j: int| 0 <= j < s.rows implies #[trigger] start_of(data, j)
                < s.last_end by {
                if j == p.rows {
                }
            }
            let q = s.rows / (STRIDE as int);
            if s.rows % (STRIDE as int) == 0 {
                assert(q * STRIDE == s.rows) by (nonlinear_arith)
                    requires
                        s.rows % 128 == 0,
                        q == s.rows / 128,
                        STRIDE == 128,
                ;
            }
        }
    }
}

/// Record `k` exists, that is starts before the end, when `k` is below the row
/// count, and only then.
pub proof fn lemma_row_exists(data: Seq<u8>, k: int)
    requires
        0 <= k,
    ensures
        start_of(data, k) < data.len() <==> k < row_count(data),
        k <= row_count(data) ==> rows_from(data, start_of(data, k)) == row_count(data) - k,
        row_count(data) >= 0,
    decreases k,
{
    lemma_rows_nonneg(data, start_of(data, k));
    lemma_start_step(data, k);
    if k > 0 {
        lemma_row_exists(data, k - 1);
        lemma_start_step(data, k - 1);
    }
}

proof fn lemma_rows_nonneg(data: Seq<u8>, pos: int)
    ensures
        rows_from(data, pos) >= 0,
        0 <= pos < data.len() ==> rows_from(data, pos) > 0,
        rows_from(data, pos) <= data.len() - pos || pos > data.len(),
    decreases data.len() - pos,
{
    if 0 <= pos < data.len() {
        csv::record_end_is_first_unquoted_newline(data, pos);
        lemma_rows_nonneg(data, csv::record_end(data, pos));
    }
}

/// A full scan counts the records: one per end, plus the last one when no
/// newline ends it.
proof fn lemma_full_scan(data: Seq<u8>)
    requires
        data.len() <= u64::MAX,
    ensures
        ({
            let s = scan_of(data, data.len() as int);
            row_count(data) == s.rows + if s.last_end < data.len() {
                1int
            } else {
                0int
            }
        }),
{
    let n = data.len() as int;
    let s = scan_of(data, n);
    lemma_scan_records(data, n);
    lemma_row_exists(data, s.rows);
    lemma_row_exists(data, s.rows + 1);
    if s.rows > 0 {
        lemma_row_exists(data, s.rows - 1);
        assert(start_of(data, s.rows - 1) < s.last_end);
    }
}

// ---------------------------------------------------------------------------
// Index
// ---------------------------------------------------------------------------

/// Sparse record index, readable while being built.
pub struct Index {
    /// Byte offset of record `k * STRIDE`.
    pub checkpoints: Vec<u64>,
    pub rows: usize,
    pub scanned: usize,
    pub done: bool,
    pub cancel: bool,
}

/// What an index claims is right about the first `scanned` bytes of `data`.
pub open spec fn right_about(
    checkpoints: Seq<u64>,
    rows: int,
    scanned: int,
    done: bool,
    data: Seq<u8>,
) -> bool {
    let s = scan_of(data, scanned);
    &&& 0 <= scanned <= data.len() <= usize::MAX
    &&& checkpoints.len() == s.rows / (STRIDE as int) + 1
    &&& forall|k: int|
        0 <= k < checkpoints.len() ==> #[trigger] checkpoints[k] == start_of(data, k * STRIDE)
    &&& done ==> scanned == data.len()
    &&& rows == if done {
        row_count(data)
    } else {
        s.rows
    }
}

/// News for an index: the checkpoints found since the last time, the number
/// of rows so far and how far the scan has come.
pub struct Batch {
    pub local: Vec<u64>,
    pub rows: usize,
    pub scanned: usize,
    pub done: bool,
}

/// Size of the streaming buffer used by full-file passes.
pub const STREAM_BUF: usize = 0x4_0000;

/// The first results are published after this many bytes.
pub const FIRST_PUBLISH: usize = 0x10_0000;

/// Later results are published every so many bytes.
pub const PUBLISH_STEP: usize = 0x80_0000;

/// A full pass over a file: the scanner, how far it has come, and when the
/// next results are due.
pub struct Indexer {
    pub scanner: Scanner,
    pub base: usize,
    pub next_publish: usize,
    pub len: usize,
}

impl Indexer {
    pub open spec fn wf(&self) -> bool {
        &&& self.scanner.wf()
        &&& self.base <= self.len
        &&& self.scanner.rows <= self.scanner.last_end <= self.base
    }

    /// A pass over `len` bytes that has not begun.
    pub fn new(len: usize) -> (ix: Indexer)
        ensures
            ix.wf(),
            ix.scanner@ == scan_start(),
            ix.base == 0,
            ix.next_publish == FIRST_PUBLISH,
            ix.len == len,
    {
        Indexer { scanner: Scanner::new(), base: 0, next_publish: FIRST_PUBLISH, len }
    }

    /// Scans the next bytes of the file. Returns whether results are due.
    pub fn feed(&mut self, chunk: &[u8]) -> (due: bool)
        requires
            old(self).wf(),
            old(self).base + chunk@.len() <= old(self).len,
        ensures
            final(self).wf(),
            final(self).len == old(self).len,
            final(self).base == old(self).base + chunk@.len(),
            final(self).scanner@ == scan_bytes(
                old(self).scanner@,
                old(self).base as int,
                chunk@,
            ),
            due == (final(self).base >= old(self).next_publish && final(self).base
                < final(self).len),
            !due ==> final(self).next_publish == old(self).next_publish,
            due ==> final(self).next_publish == vstd::math::min(
                final(self).base + PUBLISH_STEP,
                usize::MAX as int,
            ),
    {
        self.scanner.feed(self.base, chunk);
        self.base += chunk.len();
        if self.base >= self.next_publish && self.base < self.len {
            self.next_publish = self.base.saturating_add(PUBLISH_STEP);
            true
        } else {
            false
        }
    }

    /// Takes the results found since the last time.
    pub fn take(&mut self) -> (b: Batch)
        requires
            old(self).wf(),
        ensures
            final(self).wf(),
            final(self).len == old(self).len,
            final(self).base == old(self).base,
            final(self).next_publish == old(self).next_publish,
            final(self).scanner@ == (Scan { local: Seq::empty(), ..old(self).scanner@ }),
            b.local@ == old(self).scanner.local@,
            b.rows == old(self).scanner.rows,
            b.scanned == old(self).base,
            !b.done,
    {
        let mut local: Vec<u64> = Vec::new();
        std::mem::swap(&mut local, &mut self.scanner.local);
        Batch { local, rows: self.scanner.rows as usize, scanned: self.base, done: false }
    }

    /// Takes the last results: a final record without trailing newline counts
    /// too.
    pub fn finish(&mut self) -> (b: Batch)
        requires
            old(self).wf(),
        ensures
            b.local@ == old(self).scanner.local@,
            b.rows == old(self).scanner.rows + (if old(self).scanner.last_end < old(self).base {
                1int
            } else {
                0int
            }),
            b.scanned == old(self).len,
            b.done,
            final(self).wf(),
            final(self).len == old(self).len,
            final(self).base == old(self).base,
            final(self).next_publish == old(self).next_publish,
            final(self).scanner@ == (Scan { local: Seq::empty(), ..old(self).scanner@ }),
    {
        let mut b = self.take();
        if self.scanner.last_end < self.base {
            b.rows += 1;
        }
        b.scanned = self.len;
        b.done = true;
        b
    }
}

/// Two scans that differ only in the checkpoints they carry find the same new
/// ones.
proof fn lemma_scan_local(s: Scan, pos: int, b: Seq<u8>, keep: Seq<u64>)
    ensures
        scan_bytes(Scan { local: keep + s.local, ..s }, pos, b) == (Scan {
            local: keep + scan_bytes(s, pos, b).local,
            ..scan_bytes(s, pos, b)
        }),
    decreases b.len(),
{
    if b.len() > 0 {
        lemma_scan_local(s, pos, b.drop_last(), keep);
        let x = scan_bytes(s, pos, b.drop_last());
        let e = (pos + b.len()) as u64;
        assert((keep + x.local).push(e) =~= keep + x.local.push(e));
    }
}

impl Index {
    /// An index that knows nothing yet.
    pub open spec fn fresh(&self) -> bool {
        &&& self.checkpoints@ == seq![0u64]
        &&& self.rows == 0
        &&& self.scanned == 0
        &&& !self.done
    }

    /// The index is right about the first `scanned` bytes of `data`: it has a
    /// checkpoint for every `STRIDE`-th record that starts there, and counts
    /// the records that end there, or all of them once it is done.
    pub open spec fn covers(&self, data: Seq<u8>) -> bool {
        right_about(
            self.checkpoints@,
            self.rows as int,
            self.scanned as int,
            self.done,
            data,
        )
    }

    /// The index and the pass `ix` over `data` fit together: what was
    /// published plus what the pass still holds is what the pass has seen.
    pub open spec fn follows(&self, ix: Indexer, data: Seq<u8>) -> bool {
        let s = scan_of(data, ix.base as int);
        &&& self.covers(data)
        &&& !self.done
        &&& ix.wf()
        &&& ix.len == data.len()
        &&& ix.scanner@ == (Scan { local: ix.scanner.local@, ..s })
        &&& self.checkpoints@ + ix.scanner.local@ == seq![0u64] + s.local
    }

    pub fn new() -> (r: Index)
        ensures
            r.fresh(),
            !r.cancel,
    {
        let mut checkpoints: Vec<u64> = Vec::new();
        checkpoints.push(0);
        assert(checkpoints@ =~= seq![0u64]);
        Index { checkpoints, rows: 0, scanned: 0, done: false, cancel: false }
    }

    /// Number of records found so far.
    pub fn rows(&self) -> (r: usize)
        ensures
            r == self.rows,
    {
        self.rows
    }

    /// Number of bytes covered so far.
    pub fn scanned(&self) -> (r: usize)
        ensures
            r == self.scanned,
    {
        self.scanned
    }

    pub fn done(&self) -> (r: bool)
        ensures
            r == self.done,
    {
        self.done
    }

    /// Asks the pass that builds the index to stop.
    pub fn cancel(&mut self)
        ensures
            *final(self) == (Index { cancel: true, ..*old(self) }),
    {
        self.cancel = true;
    }

    /// Takes up the results of a pass.
    pub fn publish(&mut self, batch: Batch)
        ensures
            final(self).checkpoints@ == old(self).checkpoints@ + batch.local@,
            final(self).rows == batch.rows,
            final(self).scanned == batch.scanned,
            final(self).done == batch.done,
            final(self).cancel == old(self).cancel,
    {
        let mut local = batch.local;
        self.checkpoints.append(&mut local);
        self.rows = batch.rows;
        self.scanned = batch.scanned;
        self.done = batch.done;
    }

    /// Scans the whole file. A newline ends a record unless it sits inside a
    /// quoted region (RFC 4180 multi-line fields are supported).
    pub fn build(&mut self, src: &Mmap)
        requires
            old(self).fresh(),
        ensures
            final(self).covers(src@),
            final(self).cancel == old(self).cancel,
            !old(self).cancel || src@.len() <= FIRST_PUBLISH ==> final(self).done,
            old(self).cancel && src@.len() > FIRST_PUBLISH ==> !final(self).done && final(
                self).scanned == FIRST_PUBLISH,
    {
        let len = src.len();
        let mut ix = Indexer::new(len);
        let mut buf: Vec<u8> = vec![0u8; STREAM_BUF];
        proof {
            fresh_index_follows_new_pass(*self, ix, src@);
        }
        while ix.base < len
            invariant
                len == src@.len(),
                len == ix.len,
                buf@.len() == STREAM_BUF,
                self.follows(ix, src@),
                self.cancel == old(self).cancel,
                ix.base % STREAM_BUF == 0 || ix.base == len,
                ix.base < len ==> ix.base < ix.next_publish,
                old(self).cancel ==> ix.next_publish == FIRST_PUBLISH,
                old(self).cancel && ix.base == len ==> len <= FIRST_PUBLISH,
            decreases len - ix.base,
        {
            let n = src.read_at(buf.as_mut_slice(), ix.base);
            let ghost (i0, x0) = (*self, ix);
            let chunk = &buf[0..n];
            assert(chunk@ =~= buf@.take(n as int));
            let due = ix.feed(chunk);
            proof {
                feeding_keeps_the_index_in_step(i0, x0, ix, src@, chunk@);
            }
            if due {
                let ghost x1 = ix;
                let batch = ix.take();
                let ghost b = batch;
                self.publish(batch);
                proof {
                    publishing_keeps_the_index_in_step(i0, x1, ix, b, *self, src@);
                }
                if self.cancel {
                    return;
                }
            }
        }
        let ghost (i0, x0) = (*self, ix);
        let batch = ix.finish();
        let ghost b = batch;
        self.publish(batch);
        proof {
            last_results_complete_the_index(i0, x0, b, *self, src@);
        }
    }

    /// Byte offset where physical record `row` starts.
    pub fn record_start(&self, data: &[u8], row: usize) -> (r: Option<usize>)
        requires
            self.covers(data@),
        ensures
            row >= self.rows ==> r is None,
            row < self.rows ==> r == Some(start_of(data@, row as int) as usize) && start_of(
                data@,
                row as int,
            ) < data@.len(),
    {
        if row >= self.rows() {
            return None;
        }
        let k = row / STRIDE;
        proof {
            self.lemma_rows_have_checkpoints(data@, row as int);
        }
        let mut pos: usize = self.checkpoints[k] as usize;
        let skip = row % STRIDE;
        let mut i: usize = 0;
        while i < skip
            invariant
                i <= skip,
                k * STRIDE + skip == row,
                pos == start_of(data@, k * STRIDE + i),
                pos <= data@.len(),
            decreases skip - i,
        {
            pos = csv::next_record(data, pos);
            i += 1;
        }
        Some(pos)
    }

    proof fn lemma_rows_have_checkpoints(&self, data: Seq<u8>, row: int)
        requires
            self.covers(data),
            0 <= row < self.rows,
        ensures
            0 <= row / (STRIDE as int) < self.checkpoints@.len(),
            start_of(data, row) < data.len(),
            self.rows <= data.len(),
            start_of(data, (row / (STRIDE as int)) * STRIDE) <= data.len(),
    {
        let n = self.scanned as int;
        lemma_scan_records(data, n);
        if self.done {
            lemma_full_scan(data);
            lemma_row_exists(data, row);
            lemma_rows_nonneg(data, 0);
        } else {
            assert(start_of(data, row) < scan_of(data, n).last_end);
        }
        lemma_start_mono(data, 0, (row / (STRIDE as int)) * STRIDE);
    }

    /// Physical record containing byte `off`.
    pub fn record_of_offset(&self, data: &[u8], off: usize) -> (r: usize)
        requires
            self.covers(data@),
            off < data@.len(),
        ensures
            start_of(data@, r as int) <= off < start_of(data@, r + 1),
    {
        let mut lo: usize = 0;
        let mut hi: usize = self.checkpoints.len();
        proof {
            lemma_scan_records(data@, self.scanned as int);
            assert(self.checkpoints@[0] == start_of(data@, 0 * STRIDE));
        }
        // First checkpoint past `off`.
        while lo < hi
            invariant
                lo <= hi <= self.checkpoints@.len(),
                self.covers(data@),
                forall|i: int| 0 <= i < lo ==> self.checkpoints@[i] <= off,
                forall|i: int| hi <= i < self.checkpoints@.len() ==> self.checkpoints@[i] > off,
            decreases hi - lo,
        {
            let mid = lo + (hi - lo) / 2;
            let c = self.checkpoints[mid];
            proof {
                assert forall|i: int, j: int| 0 <= i <= j < self.checkpoints@.len() implies
                    self.checkpoints@[i] <= self.checkpoints@[j] by {
                    assert(i * STRIDE <= j * STRIDE) by (nonlinear_arith)
                        requires
                            i <= j,
                            STRIDE == 128,
                    ;
                    assert(0 <= i * STRIDE) by (nonlinear_arith)
                        requires
                            0 <= i,
                            STRIDE == 128,
                    ;
                    lemma_start_mono(data@, i * STRIDE, j * STRIDE);
                }
            }
            if c <= off as u64 {
                lo = mid + 1;
            } else {
                hi = mid;
            }
        }
        proof {
            if lo == 0 {
                assert(self.checkpoints@[0] > off);
            }
            let k = lo - 1;
            assert(k * STRIDE >= 0) by (nonlinear_arith)
                requires
                    k >= 0,
                    STRIDE == 128,
            ;
            lemma_start_mono(data@, 0, k * STRIDE);
        }
        let k = lo - 1;
        let mut pos: usize = self.checkpoints[k] as usize;
        let mut row: usize = k * STRIDE;
        loop
            invariant
                off < data@.len(),
                pos == start_of(data@, row as int),
                pos <= off,
                row <= pos,
            decreases data@.len() - pos,
        {
            let next = csv::next_record(data, pos);
            assert(next == start_of(data@, row + 1));
            if next > off || next >= data.len() {
                return row;
            }
            pos = next;
            row += 1;
        }
    }
}

/// A fresh index and a pass that has not begun fit together.
pub proof fn fresh_index_follows_new_pass(idx: Index, ix: Indexer, data: Seq<u8>)
    requires
        idx.fresh(),
        ix.wf(),
        ix.scanner@ == scan_start(),
        ix.base == 0,
        ix.len == data.len(),
    ensures
        idx.follows(ix, data),
{
    assert(data.take(0) =~= Seq::<u8>::empty());
    assert(ix.scanner@ =~= (Scan { local: ix.scanner.local@, ..scan_start() }));
    assert(idx.checkpoints@ + ix.scanner.local@ =~= seq![0u64] + scan_start().local);
}

/// Feeding a pass the next bytes of the data keeps it in step with the index.
pub proof fn feeding_keeps_the_index_in_step(
    idx: Index,
    before: Indexer,
    after: Indexer,
    data: Seq<u8>,
    chunk: Seq<u8>,
)
    requires
        idx.follows(before, data),
        before.base + chunk.len() <= data.len(),
        chunk == data.subrange(before.base as int, before.base + chunk.len()),
        after.wf(),
        after.len == before.len,
        after.base == before.base + chunk.len(),
        after.scanner@ == scan_bytes(before.scanner@, before.base as int, chunk),
    ensures
        idx.follows(after, data),
{
    let s = scan_of(data, before.base as int);
    let cps = idx.checkpoints@;
    let held = before.scanner.local@;
    let bare = Scan { local: Seq::empty(), ..s };
    lemma_scan_append(scan_start(), 0, data.take(before.base as int), chunk);
    assert(data.take(before.base as int) + chunk =~= data.take(after.base as int));
    lemma_scan_local(bare, before.base as int, chunk, held);
    lemma_scan_local(bare, before.base as int, chunk, s.local);
    assert(held + bare.local =~= held);
    assert(s.local + bare.local =~= s.local);
    let new = scan_bytes(bare, before.base as int, chunk).local;
    assert(after.scanner.local@ == held + new);
    assert(cps + (held + new) =~= (cps + held) + new);
    assert(seq![0u64] + (s.local + new) =~= (seq![0u64] + s.local) + new);
    assert(after.scanner@ =~= (Scan {
        local: after.scanner.local@,
        ..scan_of(data, after.base as int)
    }));
}

/// Publishing what a pass holds keeps the two in step, and the index then
/// covers all that the pass has seen.
pub proof fn publishing_keeps_the_index_in_step(
    before: Index,
    pass: Indexer,
    pass_after: Indexer,
    batch: Batch,
    after: Index,
    data: Seq<u8>,
)
    requires
        before.follows(pass, data),
        batch.local@ == pass.scanner.local@,
        batch.rows == pass.scanner.rows,
        batch.scanned == pass.base,
        !batch.done,
        pass_after.wf(),
        pass_after.len == pass.len,
        pass_after.base == pass.base,
        pass_after.scanner@ == (Scan { local: Seq::empty(), ..pass.scanner@ }),
        after.checkpoints@ == before.checkpoints@ + batch.local@,
        after.rows == batch.rows,
        after.scanned == batch.scanned,
        after.done == batch.done,
    ensures
        after.follows(pass_after, data),
        after.scanned == pass.base,
{
    let s = scan_of(data, pass.base as int);
    results_are_right_about_the_data(before, pass, batch, data);
    assert(after.checkpoints@ == seq![0u64] + s.local);
    assert(after.checkpoints@ + pass_after.scanner.local@ =~= after.checkpoints@);
    assert(pass_after.scanner@ =~= (Scan { local: pass_after.scanner.local@, ..s }));
}

/// Publishing the last results of a pass over all the data makes the index
/// complete.
pub proof fn last_results_complete_the_index(
    before: Index,
    pass: Indexer,
    batch: Batch,
    after: Index,
    data: Seq<u8>,
)
    requires
        before.follows(pass, data),
        pass.base == data.len(),
        batch.local@ == pass.scanner.local@,
        batch.rows == pass.scanner.rows + (if pass.scanner.last_end < pass.base {
            1int
        } else {
            0int
        }),
        batch.scanned == pass.len,
        batch.done,
        after.checkpoints@ == before.checkpoints@ + batch.local@,
        after.rows == batch.rows,
        after.scanned == batch.scanned,
        after.done == batch.done,
    ensures
        after.covers(data),
        after.done,
{
    results_are_right_about_the_data(before, pass, batch, data);
}

/// The results of a pass are right about the data: taking them up makes an
/// index that was in step with the pass cover what the pass has seen, and all
/// of the data when they are the last ones.
pub proof fn results_are_right_about_the_data(
    before: Index,
    pass: Indexer,
    batch: Batch,
    data: Seq<u8>,
)
    requires
        before.follows(pass, data),
        batch.local@ == pass.scanner.local@,
        !batch.done ==> batch.rows == pass.scanner.rows && batch.scanned == pass.base,
        batch.done ==> pass.base == data.len() && batch.scanned == pass.len && batch.rows
            == pass.scanner.rows + (if pass.scanner.last_end < pass.base {
            1int
        } else {
            0int
        }),
    ensures
        right_about(
            before.checkpoints@ + batch.local@,
            batch.rows as int,
            batch.scanned as int,
            batch.done,
            data,
        ),
{
    let n = pass.base as int;
    lemma_scan_records(data, n);
    if batch.done {
        lemma_full_scan(data);
    }
    let s = scan_of(data, n);
    let cps = before.checkpoints@ + batch.local@;
    assert(cps == seq![0u64] + s.local);
    assert forall|k: int| 0 <= k < cps.len() implies #[trigger] cps[k] == start_of(
        data,
        k * STRIDE,
    ) by {
        if k > 0 {
            assert(cps[k] == s.local[k - 1]);
        }
    }
}

/// Looking up the record that contains the first byte of record `row` gives
/// `row` back.
pub proof fn offset_lookup_inverts_record_start(data: Seq<u8>, row: int, found: int)
    requires
        0 <= row < row_count(data),
        0 <= found,
        start_of(data, found) <= start_of(data, row) < start_of(data, found + 1),
    ensures
        found == row,
{
    lemma_row_exists(data, row);
    if found < row {
        lemma_start_mono(data, found + 1, row);
    } else if row < found {
        lemma_start_step(data, row);
        lemma_start_mono(data, row + 1, found);
    }
}

/// A fresh index covers nothing of any data.
pub proof fn lemma_fresh_covers(idx: Index, data: Seq<u8>)
    requires
        idx.fresh(),
        data.len() <= usize::MAX,
    ensures
        idx.covers(data),
{
    assert(data.take(0) =~= Seq::<u8>::empty());
    assert(idx.checkpoints@[0] == start_of(data, 0 * STRIDE));
}

/// There are no more records than bytes.
pub proof fn lemma_covered_rows(idx: Index, data: Seq<u8>)
    requires
        idx.covers(data),
    ensures
        idx.rows <= data.len(),
{
    if idx.rows > 0 {
        idx.lemma_rows_have_checkpoints(data, 0);
    }
}

/// A record that was found starts inside the data.
pub proof fn lemma_covered_row(idx: Index, data: Seq<u8>, row: int)
    requires
        idx.covers(data),
        0 <= row < idx.rows,
    ensures
        0 <= start_of(data, row) < data.len(),
{
    idx.lemma_rows_have_checkpoints(data, row);
    lemma_start_step(data, row);
}

} // verus!
