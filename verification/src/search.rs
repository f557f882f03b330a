//! Byte search over a file, window by window, wrapping around its ends.

use crate::csv::find2;
use crate::index::STREAM_BUF;
use crate::source::Mmap;
use std::sync::atomic::AtomicBool;
use vstd::prelude::*;

verus! {

/// A window holds the matches that start in its first `CHUNK` bytes.
pub const CHUNK: usize = STREAM_BUF;

// ---------------------------------------------------------------------------
// Matching
// ---------------------------------------------------------------------------

/// `b` with an ASCII uppercase letter made lowercase.
pub open spec fn lower(b: u8) -> u8 {
    if 0x41 <= b <= 0x5a {
        (b + 0x20) as u8
    } else {
        b
    }
}

/// Whether two bytes are equal, up to ASCII case when `ci` is set.
pub open spec fn same(a: u8, b: u8, ci: bool) -> bool {
    if ci {
        lower(a) == lower(b)
    } else {
        a == b
    }
}

/// Whether `n` occurs in `data` at offset `p`.
pub open spec fn matches_at(data: Seq<u8>, n: Seq<u8>, ci: bool, p: int) -> bool {
    &&& 0 <= p
    &&& p + n.len() <= data.len()
    &&& forall|k: int| 0 <= k < n.len() ==> #[trigger] same(data[p + k], n[k], ci)
}

/// `p` is the first occurrence of `n` in `data`.
pub open spec fn first_match(data: Seq<u8>, n: Seq<u8>, ci: bool, p: int) -> bool {
    &&& matches_at(data, n, ci, p)
    &&& forall|q: int| q < p ==> !#[trigger] matches_at(data, n, ci, q)
}

/// `p` is the last occurrence of `n` in `data`.
pub open spec fn last_match(data: Seq<u8>, n: Seq<u8>, ci: bool, p: int) -> bool {
    &&& matches_at(data, n, ci, p)
    &&& forall|q: int| q > p ==> !#[trigger] matches_at(data, n, ci, q)
}

/// `n` occurs nowhere in `data`.
pub open spec fn no_match(data: Seq<u8>, n: Seq<u8>, ci: bool) -> bool {
    forall|q: int| !#[trigger] matches_at(data, n, ci, q)
}

pub fn lower_byte(b: u8) -> (r: u8)
    ensures
        r == lower(b),
{
    if 0x41 <= b && b <= 0x5a {
        b + 0x20
    } else {
        b
    }
}

fn upper_byte(b: u8) -> (r: u8)
    ensures
        forall|c: u8| lower(c) == lower(b) <==> (c == lower(b) || c == r),
{
    if 0x61 <= b && b <= 0x7a {
        b - 0x20
    } else {
        b
    }
}

/// Whether `n` stands at the start of `hay[at..]`.
fn matches_here(hay: &[u8], at: usize, n: &[u8], ci: bool) -> (r: bool)
    requires
        at + n@.len() <= hay@.len(),
    ensures
        r == matches_at(hay@, n@, ci, at as int),
{
    let end: usize = hay.len();
    let mut k: usize = 0;
    while k < n.len()
        invariant
            k <= n@.len(),
            at + n@.len() <= hay@.len() == end,
            forall|i: int| 0 <= i < k ==> #[trigger] same(hay@[at + i], n@[i], ci),
        decreases n@.len() - k,
    {
        let a = hay[at + k];
        let b = n[k];
        let eq = if ci {
            lower_byte(a) == lower_byte(b)
        } else {
            a == b
        };
        if !eq {
            assert(!same(hay@[at + k], n@[k as int], ci));
            return false;
        }
        k += 1;
    }
    true
}

/// First occurrence of `n` in `hay`.
pub fn find_in(hay: &[u8], n: &[u8], ci: bool) -> (r: Option<usize>)
    requires
        n@.len() > 0,
    ensures
        match r {
            Some(p) => first_match(hay@, n@, ci, p as int),
            None => no_match(hay@, n@, ci),
        },
{
    if hay.len() < n.len() {
        return None;
    }
    let f = n[0];
    let (a, b) = if ci {
        (lower_byte(f), upper_byte(f))
    } else {
        (f, f)
    };
    let last = hay.len() - n.len();
    let mut i: usize = 0;
    while i <= last
        invariant
            n@.len() > 0,
            last + n@.len() == hay@.len(),
            hay@.len() <= usize::MAX,
            i <= last + 1,
            forall|c: u8| #[trigger] same(c, n@[0], ci) ==> c == a || c == b,
            forall|q: int| q < i ==> !#[trigger] matches_at(hay@, n@, ci, q),
        decreases last + 1 - i,
    {
        let part = &hay[i..last + 1];
        match find2(part, a, b) {
            None => {
                proof {
                    assert forall|q: int| !#[trigger] matches_at(hay@, n@, ci, q) by {
                        if i <= q <= last {
                            assert(part@[q - i] == hay@[q]);
                            assert(!same(hay@[q + 0], n@[0], ci));
                        }
                    }
                }
                return None;
            },
            Some(d) => {
                let j = i + d;
                proof {
                    assert forall|q: int| q < j implies !#[trigger] matches_at(hay@, n@, ci, q) by {
                        if i <= q {
                            assert(part@[q - i] == hay@[q]);
                            assert(!same(hay@[q + 0], n@[0], ci));
                        }
                    }
                }
                if matches_here(hay, j, n, ci) {
                    return Some(j);
                }
                i = j + 1;
            },
        }
    }
    None
}

/// Last occurrence of `n` in `hay`.
pub fn rfind_in(hay: &[u8], n: &[u8], ci: bool) -> (r: Option<usize>)
    requires
        n@.len() > 0,
    ensures
        match r {
            Some(p) => last_match(hay@, n@, ci, p as int),
            None => no_match(hay@, n@, ci),
        },
{
    let end: usize = hay.len();
    let mut found: Option<usize> = None;
    let mut i: usize = 0;
    loop
        invariant
            n@.len() > 0,
            i <= hay@.len() == end,
            match found {
                Some(p) => matches_at(hay@, n@, ci, p as int) && forall|q: int|
                    p < q < i ==> !#[trigger] matches_at(hay@, n@, ci, q),
                None => forall|q: int| q < i ==> !#[trigger] matches_at(hay@, n@, ci, q),
            },
            found matches Some(p) ==> p < i,
        decreases hay@.len() - i,
    {
        let part = &hay[i..end];
        proof {
            assert forall|q: int| i <= q implies #[trigger] matches_at(hay@, n@, ci, q)
                == matches_at(part@, n@, ci, q - i) by {
                lemma_shift(hay@, i as int, hay@.len() as int, n@, ci, q - i);
            }
        }
        match find_in(part, n, ci) {
            None => {
                proof {
                    assert forall|q: int| i <= q implies !#[trigger] matches_at(hay@, n@, ci, q) by {
                        assert(!matches_at(part@, n@, ci, q - i));
                    }
                }
                return found;
            },
            Some(p) => {
                proof {
                    assert(matches_at(hay@, n@, ci, i + p));
                    assert(matches_at(part@, n@, ci, p as int));
                }
                found = Some(i + p);
                i = i + p + 1;
            },
        }
    }
}

/// An occurrence inside a window is one of the whole data.
proof fn lemma_shift(data: Seq<u8>, a: int, b: int, n: Seq<u8>, ci: bool, p: int)
    requires
        0 <= a <= b <= data.len(),
        0 <= p,
    ensures
        matches_at(data.subrange(a, b), n, ci, p) == (matches_at(data, n, ci, a + p) && a + p
            + n.len() <= b),
{
    let w = data.subrange(a, b);
    if p + n.len() <= b - a {
        if matches_at(w, n, ci, p) {
            assert forall|k: int| 0 <= k < n.len() implies #[trigger] same(
                data[a + p + k],
                n[k],
                ci,
            ) by {
                assert(w[p + k] == data[a + p + k]);
                assert(same(w[p + k], n[k], ci));
            }
        }
        if matches_at(data, n, ci, a + p) {
            assert forall|k: int| 0 <= k < n.len() implies #[trigger] same(w[p + k], n[k], ci) by {
                assert(w[p + k] == data[a + p + k]);
                assert(same(data[(a + p) + k], n[k], ci));
            }
        }
    }
}

// ---------------------------------------------------------------------------
// Searching
// ---------------------------------------------------------------------------

/// What a search for `n` from byte `from` answers: the first occurrence at or
/// after `from` (the last one before `from` when going backwards), else the
/// first (last) one on the other side, marked as wrapped, else nothing.
pub open spec fn is_answer(
    data: Seq<u8>,
    n: Seq<u8>,
    ci: bool,
    from: int,
    forward: bool,
    r: Option<(usize, bool)>,
) -> bool {
    match r {
        None => no_match(data, n, ci),
        Some((p, wrapped)) => {
            &&& matches_at(data, n, ci, p as int)
            &&& (p >= from) == (forward != wrapped)
            &&& forall|q: int| #[trigger]
                matches_at(data, n, ci, q) ==> {
                    &&& wrapped ==> (q >= from) == (p >= from)
                    &&& (q >= from) == (p >= from) ==> if forward {
                        p <= q
                    } else {
                        q <= p
                    }
                }
        },
    }
}

/// A search has one answer.
pub proof fn answer_is_unique(
    data: Seq<u8>,
    n: Seq<u8>,
    ci: bool,
    from: int,
    forward: bool,
    r: Option<(usize, bool)>,
    t: Option<(usize, bool)>,
)
    requires
        is_answer(data, n, ci, from, forward, r),
        is_answer(data, n, ci, from, forward, t),
    ensures
        r == t,
{
    if let Some((p, w)) = r {
        assert(matches_at(data, n, ci, p as int));
        if let Some((q, v)) = t {
            assert(matches_at(data, n, ci, q as int));
        }
    } else if let Some((q, v)) = t {
        assert(matches_at(data, n, ci, q as int));
    }
}

/// Whether a needle is looked for regardless of case: it is unless it has an
/// ASCII uppercase letter.
pub open spec fn ignores_case(n: Seq<u8>) -> bool {
    forall|k: int| 0 <= k < n.len() ==> !(0x41 <= #[trigger] n[k] <= 0x5a)
}

/// Whether no byte of `n` is an ASCII uppercase letter.
pub fn ignore_case(n: &[u8]) -> (r: bool)
    ensures
        r == ignores_case(n@),
{
    let mut k: usize = 0;
    while k < n.len()
        invariant
            k <= n@.len(),
            forall|i: int| 0 <= i < k ==> !(0x41 <= #[trigger] n@[i] <= 0x5a),
        decreases n@.len() - k,
    {
        if 0x41 <= n[k] && n[k] <= 0x5a {
            return false;
        }
        k += 1;
    }
    true
}

/// A search in progress. It asks for one window of the file after another and
/// is told what the window holds, so the file can be streamed through one
/// reusable buffer.
pub struct Searcher {
    pub n: Vec<u8>,
    pub ci: bool,
    pub forward: bool,
    /// Where the search began.
    pub from: usize,
    /// Length of the file.
    pub len: usize,
    /// Whether the search has passed the end (or the start) of the file.
    pub wrapped: bool,
    /// Start of the part of this pass not yet searched (its end when going
    /// backwards).
    pub at: usize,
}

impl Searcher {
    pub open spec fn wf(&self) -> bool {
        &&& 0 < self.n@.len() <= self.len
        &&& self.from <= self.len
        &&& self.pass().0 <= self.at <= self.pass().1
    }

    /// The part of the file that the current pass goes over: the one from
    /// `from` on, or the one with the occurrences that start before `from`.
    pub open spec fn pass(&self) -> (int, int) {
        if self.forward != self.wrapped {
            (self.from as int, self.len as int)
        } else {
            (0, vstd::math::min(self.from + self.n@.len() - 1, self.len as int))
        }
    }

    /// Whether the current pass has nothing left.
    pub open spec fn exhausted(&self) -> bool {
        if self.forward {
            self.at >= self.pass().1
        } else {
            self.at <= self.pass().0
        }
    }

    /// Start of the next window.
    pub open spec fn lo(&self) -> int {
        if self.forward {
            self.at as int
        } else {
            vstd::math::max(self.at - CHUNK, self.pass().0)
        }
    }

    /// End of the next window: far enough for an occurrence that starts in the
    /// last byte of the part it covers.
    pub open spec fn hi(&self) -> int {
        if self.forward {
            vstd::math::min(self.at + CHUNK + self.n@.len() - 1, self.pass().1)
        } else {
            vstd::math::min(self.at + self.n@.len() - 1, self.pass().1)
        }
    }

    /// Whether occurrences at `p` have been ruled out so far.
    pub open spec fn ruled_out(&self, p: int) -> bool {
        let behind = if self.forward {
            p < self.at
        } else {
            p >= self.at
        };
        if (p >= self.from) == (self.forward != self.wrapped) {
            behind
        } else {
            self.wrapped
        }
    }

    /// All that was ruled out holds no occurrence.
    pub open spec fn sound(&self, data: Seq<u8>) -> bool {
        &&& data.len() == self.len
        &&& forall|p: int| #[trigger]
            matches_at(data, self.n@, self.ci, p) ==> !self.ruled_out(p)
    }

    fn bounds(&self) -> (r: (usize, usize))
        requires
            0 < self.n@.len() <= self.len,
            self.from <= self.len,
        ensures
            (r.0 as int, r.1 as int) == self.pass(),
    {
        if self.forward != self.wrapped {
            (self.from, self.len)
        } else {
            let tail = self.n.len() - 1;
            let end = if tail < self.len - self.from {
                self.from + tail
            } else {
                self.len
            };
            (0, end)
        }
    }

    /// Goes over to the second pass when the first one is exhausted.
    fn wrap(&mut self)
        requires
            old(self).wf(),
        ensures
            final(self).wf(),
            final(self).n@ == old(self).n@,
            final(self).ci == old(self).ci,
            final(self).forward == old(self).forward,
            final(self).from == old(self).from,
            final(self).len == old(self).len,
            !old(self).wrapped && old(self).exhausted() ==> final(self).wrapped && final(self).at
                == if final(self).forward {
                final(self).pass().0
            } else {
                final(self).pass().1
            },
            old(self).wrapped || !old(self).exhausted() ==> final(self).wrapped == old(self).wrapped
                && final(self).at == old(self).at,
    {
        let (start, end) = self.bounds();
        if !self.wrapped && (if self.forward {
            self.at >= end
        } else {
            self.at <= start
        }) {
            self.wrapped = true;
            let (start, end) = self.bounds();
            self.at = if self.forward {
                start
            } else {
                end
            };
        }
    }

    /// A search for `needle` in a file of `len` bytes. Smart case: regardless
    /// of ASCII case unless the needle has an uppercase letter. `None` when
    /// the needle is empty or longer than the file.
    pub fn new(needle: &str, len: usize, from: usize, forward: bool) -> (r: Option<Searcher>)
        ensures
            r is None <==> vstd::utf8::encode_utf8(needle@).len() == 0
                || vstd::utf8::encode_utf8(needle@).len() > len,
            r matches Some(s) ==> {
                &&& s.wf()
                &&& s.n@ == vstd::utf8::encode_utf8(needle@)
                &&& s.ci == ignores_case(vstd::utf8::encode_utf8(needle@))
                &&& s.forward == forward
                &&& s.from == vstd::math::min(from as int, len as int)
                &&& s.len == len
                &&& s.exhausted() ==> s.wrapped
                &&& forall|data: Seq<u8>| data.len() == len ==> #[trigger] s.sound(data)
            },
    {
        let n = needle.as_bytes();
        if n.len() == 0 || n.len() > len {
            return None;
        }
        let ci = ignore_case(n);
        let from = if from < len {
            from
        } else {
            len
        };
        let mut s = Searcher {
            n: crate::text::bytes_copy(n),
            ci,
            forward,
            from,
            len,
            wrapped: false,
            at: from,
        };
        if !forward {
            let (_, end) = s.bounds();
            s.at = end;
        }
        let ghost s0 = s;
        assert forall|data: Seq<u8>| data.len() == len implies #[trigger] s.sound(data) by {}
        s.wrap();
        assert forall|data: Seq<u8>| data.len() == len implies #[trigger] s.sound(data) by {
            lemma_wrap_sound(s0, s, data);
        }
        Some(s)
    }

    /// The window to look at next; `None` when the search is over.
    pub fn window(&self) -> (r: Option<(usize, usize)>)
        requires
            self.wf(),
        ensures
            r is None <==> self.exhausted(),
            r matches Some((a, b)) ==> a == self.lo() && b == self.hi() && a <= b <= self.len,
    {
        let (start, end) = self.bounds();
        let tail = self.n.len() - 1;
        if self.forward {
            if self.at >= end {
                return None;
            }
            let room = end - self.at;
            let want = CHUNK.saturating_add(tail);
            let b = if want < room {
                self.at + want
            } else {
                end
            };
            Some((self.at, b))
        } else {
            if self.at <= start {
                return None;
            }
            let back = self.at.saturating_sub(CHUNK);
            let a = if back < start {
                start
            } else {
                back
            };
            let b = if tail >= end - self.at {
                end
            } else {
                self.at + tail
            };
            Some((a, b))
        }
    }

    /// Looks at `hay`, the contents of the window asked for: an occurrence in
    /// it is the answer, otherwise the search goes on behind it.
    pub fn check(&mut self, hay: &[u8]) -> (r: Option<(usize, bool)>)
        requires
            old(self).wf(),
            !old(self).exhausted(),
            hay@.len() <= old(self).hi() - old(self).lo(),
        ensures
            final(self).wf(),
            final(self).n@ == old(self).n@,
            final(self).ci == old(self).ci,
            final(self).forward == old(self).forward,
            final(self).from == old(self).from,
            final(self).len == old(self).len,
            match r {
                Some((p, w)) => {
                    &&& w == old(self).wrapped
                    &&& *final(self) == *old(self)
                    &&& p >= old(self).lo()
                    &&& if old(self).forward {
                        first_match(
                            hay@,
                            old(self).n@,
                            old(self).ci,
                            p - old(self).lo(),
                        )
                    } else {
                        last_match(
                            hay@,
                            old(self).n@,
                            old(self).ci,
                            p - old(self).lo(),
                        )
                    }
                },
                None => {
                    &&& no_match(hay@, old(self).n@, old(self).ci)
                    &&& final(self).exhausted() ==> final(self).wrapped
                    &&& final(self).left() < old(self).left()
                },
            },
            forall|data: Seq<u8>| #[trigger]
                old(self).sound(data) && hay@ == data.subrange(
                    old(self).lo(),
                    old(self).hi(),
                ) ==> match r {
                    Some(_) => is_answer(
                        data,
                        old(self).n@,
                        old(self).ci,
                        old(self).from as int,
                        old(self).forward,
                        r,
                    ),
                    None => final(self).sound(data),
                },
    {
        let (a, b) = match self.window() {
            Some(w) => w,
            None => (0, 0),
        };
        let ghost s0 = *self;
        if self.forward {
            if let Some(p) = find_in(hay, self.n.as_slice(), self.ci) {
                proof {
                    assert forall|data: Seq<u8>| #[trigger] s0.sound(data) && hay@ == data.subrange(
                        a as int,
                        b as int,
                    ) implies is_answer(
                        data,
                        s0.n@,
                        s0.ci,
                        s0.from as int,
                        true,
                        Some(((a + p) as usize, s0.wrapped)),
                    ) by {
                        lemma_found_forward(s0, data, a as int, b as int, p as int);
                    }
                }
                return Some((a + p, self.wrapped));
            }
            let (_, end) = self.bounds();
            self.at = if CHUNK < end - self.at {
                self.at + CHUNK
            } else {
                end
            };
        } else {
            if let Some(p) = rfind_in(hay, self.n.as_slice(), self.ci) {
                proof {
                    assert forall|data: Seq<u8>| #[trigger] s0.sound(data) && hay@ == data.subrange(
                        a as int,
                        b as int,
                    ) implies is_answer(
                        data,
                        s0.n@,
                        s0.ci,
                        s0.from as int,
                        false,
                        Some(((a + p) as usize, s0.wrapped)),
                    ) by {
                        lemma_found_backward(s0, data, a as int, b as int, p as int);
                    }
                }
                return Some((a + p, self.wrapped));
            }
            self.at = a;
        }
        let ghost s1 = *self;
        proof {
            assert forall|data: Seq<u8>| #[trigger] s0.sound(data) && hay@ == data.subrange(
                a as int,
                b as int,
            ) implies s1.sound(data) by {
                lemma_not_found(s0, s1, data, a as int, b as int);
            }
        }
        self.wrap();
        proof {
            assert forall|data: Seq<u8>| #[trigger] s0.sound(data) && hay@ == data.subrange(
                a as int,
                b as int,
            ) implies self.sound(data) by {
                assert(s1.sound(data));
                lemma_wrap_sound(s1, *self, data);
            }
        }
        None
    }

    /// How much the search still has to look at.
    pub open spec fn left(&self) -> int {
        (if self.forward {
            self.pass().1 - self.at
        } else {
            self.at - self.pass().0
        }) + if self.wrapped {
            0
        } else {
            self.len + 1
        }
    }
}

/// Going over to the second pass rules out nothing that can still match.
proof fn lemma_wrap_sound(s: Searcher, t: Searcher, data: Seq<u8>)
    requires
        s.wf(),
        s.sound(data),
        t.n@ == s.n@,
        t.ci == s.ci,
        t.forward == s.forward,
        t.from == s.from,
        t.len == s.len,
        !s.wrapped && s.exhausted() ==> t.wrapped && t.at == if t.forward {
            t.pass().0
        } else {
            t.pass().1
        },
        s.wrapped || !s.exhausted() ==> t.wrapped == s.wrapped && t.at == s.at,
    ensures
        t.sound(data),
{
    assert forall|p: int| #[trigger] matches_at(data, t.n@, t.ci, p) implies !t.ruled_out(p) by {
        assert(!s.ruled_out(p));
    }
}

proof fn lemma_found_forward(s: Searcher, data: Seq<u8>, a: int, b: int, p: int)
    requires
        s.wf(),
        s.forward,
        s.sound(data),
        !s.exhausted(),
        a == s.lo(),
        b == s.hi(),
        0 <= a <= b <= data.len(),
        first_match(data.subrange(a, b), s.n@, s.ci, p),
        0 <= a + p <= usize::MAX,
    ensures
        is_answer(
            data,
            s.n@,
            s.ci,
            s.from as int,
            true,
            Some(((a + p) as usize, s.wrapped)),
        ),
{
    lemma_shift(data, a, b, s.n@, s.ci, p);
    assert forall|q: int| #[trigger] matches_at(data, s.n@, s.ci, q) implies {
        &&& s.wrapped ==> (q >= s.from) == (a + p >= s.from)
        &&& (q >= s.from) == (a + p >= s.from) ==> a + p <= q
    } by {
        assert(!s.ruled_out(q));
        if a <= q < a + p {
            lemma_shift(data, a, b, s.n@, s.ci, q - a);
            assert(!matches_at(data.subrange(a, b), s.n@, s.ci, q - a));
        }
    }
}

proof fn lemma_found_backward(s: Searcher, data: Seq<u8>, a: int, b: int, p: int)
    requires
        s.wf(),
        !s.forward,
        s.sound(data),
        !s.exhausted(),
        a == s.lo(),
        b == s.hi(),
        0 <= a <= b <= data.len(),
        last_match(data.subrange(a, b), s.n@, s.ci, p),
        0 <= a + p <= usize::MAX,
    ensures
        is_answer(
            data,
            s.n@,
            s.ci,
            s.from as int,
            false,
            Some(((a + p) as usize, s.wrapped)),
        ),
{
    lemma_shift(data, a, b, s.n@, s.ci, p);
    assert forall|q: int| #[trigger] matches_at(data, s.n@, s.ci, q) implies {
        &&& s.wrapped ==> (q >= s.from) == (a + p >= s.from)
        &&& (q >= s.from) == (a + p >= s.from) ==> q <= a + p
    } by {
        assert(!s.ruled_out(q));
        if a + p < q {
            lemma_shift(data, a, b, s.n@, s.ci, q - a);
            assert(!matches_at(data.subrange(a, b), s.n@, s.ci, q - a));
        }
    }
}

proof fn lemma_not_found(s: Searcher, t: Searcher, data: Seq<u8>, a: int, b: int)
    requires
        s.wf(),
        s.sound(data),
        !s.exhausted(),
        a == s.lo(),
        b == s.hi(),
        0 <= a <= b <= data.len(),
        no_match(data.subrange(a, b), s.n@, s.ci),
        t == (Searcher { at: t.at, ..s }),
        s.forward ==> t.at == vstd::math::min(s.at + CHUNK, s.pass().1),
        !s.forward ==> t.at == a,
    ensures
        t.sound(data),
{
    assert forall|q: int| #[trigger] matches_at(data, t.n@, t.ci, q) implies !t.ruled_out(q) by {
        assert(!s.ruled_out(q));
        if a <= q {
            lemma_shift(data, a, b, s.n@, s.ci, q - a);
            assert(!matches_at(data.subrange(a, b), s.n@, s.ci, q - a));
        }
    }
}

/// Whether `v` is an outcome of reading `flag`. This is learnt by reading it and
/// in no other way. Both values can be outcomes of one flag, for another thread
/// may set it at any time.
pub open spec fn reads_as(flag: &AtomicBool, v: bool) -> bool {
    call_ensures(AtomicBool::load, (flag, std::sync::atomic::Ordering::Relaxed), v)
}

/// Whether there is a flag and it is set: what a read of it gives just now.
fn is_set(flag: Option<&AtomicBool>) -> (r: bool)
    ensures
        match flag {
            Some(f) => reads_as(f, r),
            None => !r,
        },
{
    match flag {
        Some(f) => f.load(std::sync::atomic::Ordering::Relaxed),
        None => false,
    }
}

/// Searches until there is an answer or, when a cancel flag is given and read
/// as set before a window, stops early. Returns the answer and whether the
/// search was stopped.
pub fn search_until(
    src: &Mmap,
    needle: &str,
    from: usize,
    forward: bool,
    cancel: Option<&AtomicBool>,
) -> (r: (Option<(usize, bool)>, bool))
    ensures
        r.1 ==> r.0 is None && (cancel matches Some(f) && reads_as(f, true)),
        r.0 is Some ==> (cancel matches Some(f) ==> reads_as(f, false)),
        vstd::utf8::encode_utf8(needle@).len() == 0 ==> r.0 is None,
        !r.1 && vstd::utf8::encode_utf8(needle@).len() > 0 ==> is_answer(
            src@,
            vstd::utf8::encode_utf8(needle@),
            ignores_case(vstd::utf8::encode_utf8(needle@)),
            vstd::math::min(from as int, src@.len() as int),
            forward,
            r.0,
        ),
{
    let data = src.bytes();
    let mut s = match Searcher::new(needle, data.len(), from, forward) {
        Some(s) => s,
        None => return (None, false),
    };
    assert(s.sound(data@));
    loop
        invariant
            data@ == src@,
            s.wf(),
            s.sound(data@),
            s.n@ == vstd::utf8::encode_utf8(needle@),
            s.ci == ignores_case(vstd::utf8::encode_utf8(needle@)),
            s.forward == forward,
            s.from == vstd::math::min(from as int, src@.len() as int),
            s.exhausted() ==> s.wrapped,
            vstd::utf8::encode_utf8(needle@).len() > 0,
        decreases s.left(),
    {
        let (a, b) = match s.window() {
            Some(w) => w,
            None => {
                proof {
                    assert forall|q: int| !#[trigger] matches_at(data@, s.n@, s.ci, q) by {
                        if matches_at(data@, s.n@, s.ci, q) {
                            assert(!s.ruled_out(q));
                        }
                    }
                }
                return (None, false);
            },
        };
        if is_set(cancel) {
            return (None, true);
        }
        let hay = &data[a..b];
        let r = s.check(hay);
        if r.is_some() {
            return (r, false);
        }
    }
}

/// Searches `needle` from byte `from`, wrapping around the file. Smart case:
/// case-insensitive (ASCII) unless the needle has an uppercase letter. Returns
/// `(offset, wrapped)`. Where `cancel` is read as set, the search ends without
/// an answer; a match is only handed out where it was read as not set.
pub fn search(
    src: &Mmap,
    needle: &str,
    from: usize,
    forward: bool,
    cancel: &AtomicBool,
) -> (r: Option<(usize, bool)>)
    ensures
        vstd::utf8::encode_utf8(needle@).len() == 0 ==> r is None,
        vstd::utf8::encode_utf8(needle@).len() > 0 ==> is_answer(
            src@,
            vstd::utf8::encode_utf8(needle@),
            ignores_case(vstd::utf8::encode_utf8(needle@)),
            vstd::math::min(from as int, src@.len() as int),
            forward,
            r,
        ) || (r is None && reads_as(cancel, true)),
        r is Some ==> reads_as(cancel, false),
{
    let (r, _) = search_until(src, needle, from, forward, Some(cancel));
    r
}

} // verus!
