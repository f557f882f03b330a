//! Paths as byte strings, taken apart at `/`.

use crate::text;
use vstd::prelude::*;

verus! {

pub const SLASH: u8 = 0x2f;

pub const DOT: u8 = 0x2e;

/// Index of the last byte equal to `b`, or -1.
pub open spec fn last_index(s: Seq<u8>, b: u8) -> int
    decreases s.len(),
{
    if s.len() == 0 {
        -1
    } else if s.last() == b {
        s.len() - 1
    } else {
        last_index(s.drop_last(), b)
    }
}

pub proof fn lemma_last_index(s: Seq<u8>, b: u8)
    ensures
        -1 <= last_index(s, b) < s.len(),
        last_index(s, b) >= 0 ==> s[last_index(s, b)] == b,
    decreases s.len(),
{
    if s.len() > 0 && s.last() != b {
        lemma_last_index(s.drop_last(), b);
    }
}

/// A path without trailing separators and trailing `.` components.
pub open spec fn stripped(p: Seq<u8>) -> Seq<u8>
    decreases p.len(),
{
    if p.len() > 0 && p.last() == SLASH {
        stripped(p.drop_last())
    } else if p.len() > 1 && p.last() == DOT && p[p.len() - 2] == SLASH {
        stripped(p.drop_last())
    } else {
        p
    }
}

/// Number of bytes up to the last component.
pub open spec fn dir_len(p: Seq<u8>) -> int {
    last_index(stripped(p), SLASH) + 1
}

/// The last component; empty for a root and for the empty path.
pub open spec fn last_part(p: Seq<u8>) -> Seq<u8> {
    stripped(p).skip(dir_len(p))
}

/// The name of the file or directory that a path leads to, if it ends in one.
pub open spec fn name_of(p: Seq<u8>) -> Option<Seq<u8>> {
    let c = last_part(p);
    if c.len() == 0 || c == seq![DOT] || c == seq![DOT, DOT] {
        None
    } else {
        Some(c)
    }
}

/// What follows the last dot of a file name, unless that dot begins the name.
pub open spec fn extension_of(name: Seq<u8>) -> Option<Seq<u8>> {
    let k = last_index(name, DOT);
    if k <= 0 {
        None
    } else {
        Some(name.skip(k + 1))
    }
}

/// A directory part without its trailing separators, but for a root.
pub open spec fn dir_of(q: Seq<u8>) -> Seq<u8> {
    if q.len() > 0 && q[0] == SLASH && stripped(q).len() == 0 {
        seq![SLASH]
    } else {
        stripped(q)
    }
}

/// The path without its last component; none for a root and for the empty
/// path.
pub open spec fn parent_of(p: Seq<u8>) -> Option<Seq<u8>> {
    if last_part(p).len() == 0 {
        None
    } else {
        Some(dir_of(stripped(p).take(dir_len(p))))
    }
}

/// The path of `name` inside `dir`.
pub open spec fn joined(dir: Seq<u8>, name: Seq<u8>) -> Seq<u8> {
    if dir.len() == 0 || dir.last() == SLASH {
        dir + name
    } else {
        dir.push(SLASH) + name
    }
}

/// Whether a path starts at the root.
pub open spec fn is_rooted(p: Seq<u8>) -> bool {
    p.len() > 0 && p[0] == SLASH
}

/// The components of a path below its root: what stands between its
/// separators. Empty parts do not count, nor do `.` parts, but for one that a
/// path begins with.
pub open spec fn parts(p: Seq<u8>) -> Seq<Seq<u8>>
    decreases p.len(),
{
    let k = last_index(p, SLASH);
    let c = p.skip(k + 1);
    if k < 0 {
        if c.len() == 0 {
            seq![]
        } else {
            seq![c]
        }
    } else {
        proof {
            lemma_last_index(p, SLASH);
        }
        if c.len() == 0 || c == seq![DOT] {
            parts(p.take(k))
        } else {
            parts(p.take(k)).push(c)
        }
    }
}

/// Whether two paths are the same, component by component: `a//b/` and
/// `a/./b` are.
pub open spec fn same_path(p: Seq<u8>, q: Seq<u8>) -> bool {
    is_rooted(p) == is_rooted(q) && parts(p) == parts(q)
}

/// Length of `p[..n]` without trailing separators and `.` components.
fn stripped_len(p: &[u8], n: usize) -> (r: usize)
    requires
        n <= p@.len(),
    ensures
        r <= n,
        p@.take(r as int) == stripped(p@.take(n as int)),
{
    let mut k: usize = n;
    while k > 0 && (p[k - 1] == SLASH || (k > 1 && p[k - 1] == DOT && p[k - 2] == SLASH))
        invariant
            k <= n <= p@.len(),
            stripped(p@.take(n as int)) == stripped(p@.take(k as int)),
        decreases k,
    {
        assert(p@.take(k as int).drop_last() =~= p@.take(k - 1));
        k -= 1;
    }
    k
}

/// Index of the last byte of `p[..n]` equal to `b`.
fn rfind(p: &[u8], n: usize, b: u8) -> (r: Option<usize>)
    requires
        n <= p@.len(),
    ensures
        match r {
            Some(k) => k == last_index(p@.take(n as int), b) && k < n,
            None => last_index(p@.take(n as int), b) == -1,
        },
{
    let mut k: usize = n;
    while k > 0
        invariant
            k <= n <= p@.len(),
            last_index(p@.take(n as int), b) == last_index(p@.take(k as int), b),
        decreases k,
    {
        assert(p@.take(k as int).drop_last() =~= p@.take(k - 1));
        if p[k - 1] == b {
            return Some(k - 1);
        }
        k -= 1;
    }
    None
}

/// Where the last component of a path stands.
fn last_part_at(p: &[u8]) -> (r: (usize, usize))
    ensures
        r.0 <= r.1 <= p@.len(),
        stripped(p@) == p@.take(r.1 as int),
        r.0 == dir_len(p@),
        last_part(p@) == p@.subrange(r.0 as int, r.1 as int),
{
    assert(p@.take(p@.len() as int) =~= p@);
    let e = stripped_len(p, p.len());
    let a = match rfind(p, e, SLASH) {
        Some(k) => k + 1,
        None => 0,
    };
    assert(p@.take(e as int).skip(a as int) =~= p@.subrange(a as int, e as int));
    (a, e)
}

/// The name of the file or directory that a path leads to.
pub fn file_name(p: &[u8]) -> (r: Option<Vec<u8>>)
    ensures
        r is Some <==> name_of(p@) is Some,
        r matches Some(n) ==> name_of(p@) == Some(n@),
{
    let (a, e) = last_part_at(p);
    let n = text::bytes_copy(&p[a..e]);
    if n.len() == 0 || (n.len() == 1 && n[0] == DOT) || (n.len() == 2 && n[0] == DOT && n[1]
        == DOT) {
        assert(n@.len() == 1 ==> n@ =~= seq![DOT]);
        assert(n@.len() == 2 ==> n@ =~= seq![DOT, DOT]);
        return None;
    }
    Some(n)
}

/// The extension of a file name.
pub fn extension(name: &[u8]) -> (r: Option<Vec<u8>>)
    ensures
        r is Some <==> extension_of(name@) is Some,
        r matches Some(n) ==> extension_of(name@) == Some(n@),
{
    assert(name@.take(name@.len() as int) =~= name@);
    match rfind(name, name.len(), DOT) {
        Some(k) => {
            if k == 0 {
                return None;
            }
            let e = &name[k + 1..name.len()];
            assert(e@ =~= name@.skip(k + 1));
            Some(text::bytes_copy(e))
        },
        None => None,
    }
}

/// The path without its last component.
pub fn parent(p: &[u8]) -> (r: Option<Vec<u8>>)
    ensures
        r is Some <==> parent_of(p@) is Some,
        r matches Some(n) ==> parent_of(p@) == Some(n@),
{
    let (a, e) = last_part_at(p);
    if a == e {
        return None;
    }
    let ghost q = p@.take(a as int);
    assert(stripped(p@).take(dir_len(p@)) =~= q);
    let k = stripped_len(p, a);
    if a > 0 && p[0] == SLASH && k == 0 {
        let mut root: Vec<u8> = Vec::new();
        root.push(SLASH);
        assert(root@ =~= seq![SLASH]);
        return Some(root);
    }
    let d = &p[0..k];
    assert(d@ =~= p@.take(k as int));
    Some(text::bytes_copy(d))
}

/// Where the last component of `p[..n]` stands and how much of the path comes
/// before it; `None` when there are no components.
fn last_part_of(p: &[u8], n: usize) -> (r: Option<(usize, usize, usize)>)
    requires
        n <= p@.len(),
    ensures
        match r {
            Some((a, e, k)) => k < n && a <= e <= n && parts(p@.take(n as int)) == parts(
                p@.take(k as int),
            ).push(p@.subrange(a as int, e as int)),
            None => parts(p@.take(n as int)) == Seq::<Seq<u8>>::empty(),
        },
{
    let mut e: usize = n;
    loop
        invariant
            e <= n <= p@.len(),
            parts(p@.take(n as int)) == parts(p@.take(e as int)),
        decreases e,
    {
        let ghost q = p@.take(e as int);
        match rfind(p, e, SLASH) {
            Some(k) => {
                proof {
                    assert(q.take(k as int) =~= p@.take(k as int));
                    assert(q.skip(k + 1) =~= p@.subrange(k + 1, e as int));
                }
                if !(k + 1 == e || (k + 2 == e && p[k + 1] == DOT)) {
                    assert(e == k + 2 ==> q.skip(k + 1)[0] != DOT);
                    return Some((k + 1, e, k));
                }
                assert(k + 2 == e ==> q.skip(k + 1) =~= seq![DOT]);
                e = k;
            },
            None => {
                assert(q.skip(0) =~= q);
                if e == 0 {
                    return None;
                }
                assert(p@.take(0) =~= seq![]);
                assert(p@.subrange(0, e as int) =~= q);
                assert(parts(p@.take(0)).push(q) =~= seq![q]);
                return Some((0, e, 0));
            },
        }
    }
}

/// Whether two paths are the same, component by component.
pub fn same(p: &[u8], q: &[u8]) -> (r: bool)
    ensures
        r == same_path(p@, q@),
{
    if (p.len() > 0 && p[0] == SLASH) != (q.len() > 0 && q[0] == SLASH) {
        return false;
    }
    let mut i: usize = p.len();
    let mut j: usize = q.len();
    assert(p@.take(i as int) =~= p@);
    assert(q@.take(j as int) =~= q@);
    loop
        invariant
            i <= p@.len(),
            j <= q@.len(),
            is_rooted(p@) == is_rooted(q@),
            (parts(p@) == parts(q@)) == (parts(p@.take(i as int)) == parts(q@.take(j as int))),
        decreases i,
    {
        let ghost (ps, qs) = (parts(p@.take(i as int)), parts(q@.take(j as int)));
        match (last_part_of(p, i), last_part_of(q, j)) {
            (Some((a, e, k)), Some((b, f, m))) => {
                let (c, d) = (&p[a..e], &q[b..f]);
                if !text::bytes_eq(c, d) {
                    assert(ps.last() != qs.last());
                    return false;
                }
                proof {
                    let (pt, qt) = (parts(p@.take(k as int)), parts(q@.take(m as int)));
                    assert(ps.drop_last() =~= pt);
                    assert(qs.drop_last() =~= qt);
                }
                i = k;
                j = m;
            },
            (None, None) => return true,
            (Some(_), None) => {
                assert(ps.len() > 0);
                return false;
            },
            (None, Some(_)) => {
                assert(qs.len() > 0);
                return false;
            },
        }
    }
}

/// Number of components of a path below its root.
pub fn count_parts(p: &[u8]) -> (r: usize)
    ensures
        r == parts(p@).len(),
{
    let mut n: usize = 0;
    let mut i: usize = p.len();
    assert(p@.take(i as int) =~= p@);
    loop
        invariant
            i <= p@.len(),
            n + i <= p@.len() <= usize::MAX,
            parts(p@).len() == n + parts(p@.take(i as int)).len(),
        decreases i,
    {
        match last_part_of(p, i) {
            Some((_, _, k)) => {
                n += 1;
                i = k;
            },
            None => return n,
        }
    }
}

/// The path of `name` inside `dir`.
pub fn join(dir: &[u8], name: &[u8]) -> (r: Vec<u8>)
    ensures
        r@ == joined(dir@, name@),
{
    let mut r = text::bytes_copy(dir);
    if dir.len() > 0 && dir[dir.len() - 1] != SLASH {
        r.push(SLASH);
    }
    r.extend_from_slice(name);
    assert(r@ =~= joined(dir@, name@));
    r
}

/// An entry's directory is the one it was listed in: the parent of the path of
/// `name` inside `dir` is `dir`.
pub proof fn parent_inverts_join(dir: Seq<u8>, name: Seq<u8>)
    requires
        name.len() > 0,
        !name.contains(SLASH),
        name != seq![DOT],
        dir == dir_of(dir),
    ensures
        parent_of(joined(dir, name)) == Some(dir),
        name != seq![DOT, DOT] ==> name_of(joined(dir, name)) == Some(name),
{
    let p = joined(dir, name);
    let n = p.len() - name.len();
    assert(p.skip(n) =~= name);
    assert(p.last() == name.last());
    assert(name.contains(name.last()));
    assert(p.last() != SLASH);
    if p.last() == DOT && p.len() > 1 && p[p.len() - 2] == SLASH {
        if name.len() > 1 {
            assert(name[name.len() - 2] == SLASH);
            assert(name.contains(SLASH));
        }
        assert(name =~= seq![DOT]);
    }
    assert(stripped(p) == p);
    lemma_last_slash(p, n, name.len() as int);
    assert(last_part(p) =~= name);
    let q = p.take(n);
    if dir.len() == 0 {
        assert(q =~= dir);
    } else if dir.last() == SLASH {
        assert(q =~= dir);
    } else {
        assert(q =~= dir.push(SLASH));
        assert(q.drop_last() =~= dir);
        assert(stripped(q) == stripped(dir));
    }
}

/// The last separator of `p` stands before its last `k` bytes, which hold none.
proof fn lemma_last_slash(p: Seq<u8>, n: int, k: int)
    requires
        0 <= n,
        0 <= k,
        p.len() == n + k,
        n == 0 || p[n - 1] == SLASH,
        forall|i: int| n <= i < p.len() ==> p[i] != SLASH,
    ensures
        last_index(p, SLASH) == n - 1,
    decreases k,
{
    if k > 0 {
        lemma_last_slash(p.drop_last(), n, k - 1);
    }
}

/// A directory's entry has the components of the directory and its own name.
pub proof fn joining_adds_a_part(dir: Seq<u8>, name: Seq<u8>)
    requires
        name.len() > 0,
        !name.contains(SLASH),
        name != seq![DOT],
    ensures
        parts(joined(dir, name)) == parts(dir).push(name),
        is_rooted(joined(dir, name)) == is_rooted(dir),
{
    let p = joined(dir, name);
    let n = p.len() - name.len();
    assert(p.skip(n) =~= name);
    assert forall|i: int| n <= i < p.len() implies p[i] != SLASH by {
        assert(p[i] == name[i - n]);
        assert(name.contains(name[i - n]));
    }
    lemma_last_slash(p, n, name.len() as int);
    if dir.len() == 0 {
        assert(parts(dir).push(name) =~= seq![name]);
        assert(p[0] == name[0]);
    } else {
        assert(p[0] == dir[0]);
        if dir.last() == SLASH {
            assert(p.take(n - 1) =~= dir.take(dir.len() - 1));
            assert(dir.skip(dir.len() as int).len() == 0);
        } else {
            assert(p.take(n - 1) =~= dir);
        }
    }
}

/// Trailing separators and `.` components make no other path.
pub proof fn stripping_keeps_the_path(p: Seq<u8>)
    ensures
        parts(stripped(p)) == parts(p),
        stripped(p).len() > 0 ==> same_path(stripped(p), p),
    decreases p.len(),
{
    if p.len() > 0 && p.last() == SLASH {
        let n = p.len() - 1;
        stripping_keeps_the_path(p.drop_last());
        assert(p.skip(n + 1).len() == 0);
        assert(p.take(n) =~= p.drop_last());
    } else if p.len() > 1 && p.last() == DOT && p[p.len() - 2] == SLASH {
        let q = p.drop_last();
        let n = p.len() - 2;
        stripping_keeps_the_path(q);
        lemma_last_slash(p, n + 1, 1);
        assert(p.skip(n + 1) =~= seq![DOT]);
        assert(q.skip(n + 1).len() == 0);
        assert(p.take(n) =~= q.take(n));
    }
}

/// A path is that of its name inside its parent.
pub proof fn join_inverts_parent(p: Seq<u8>)
    requires
        name_of(p) is Some,
    ensures
        parent_of(p) matches Some(d) && same_path(joined(d, name_of(p)->0), p),
{
    let s = stripped(p);
    let k = last_index(s, SLASH);
    let name = name_of(p)->0;
    stripping_keeps_the_path(p);
    lemma_last_index(s, SLASH);
    lemma_after_last_slash(s);
    assert(!name.contains(SLASH)) by {
        if name.contains(SLASH) {
            let i = choose|i: int| 0 <= i < name.len() && name[i] == SLASH;
            assert(s[k + 1 + i] == SLASH);
        }
    }
    let q = s.take(k + 1);
    let d = dir_of(q);
    assert(parent_of(p) == Some(d));
    joining_adds_a_part(d, name);
    stripping_keeps_the_path(q);
    if k < 0 {
        assert(q =~= seq![]);
        assert(s.skip(0) =~= name);
        assert(parts(d).push(name) =~= seq![name]);
        assert(s[0] == name[0]);
        assert(name.contains(name[0]));
    } else {
        assert(q.skip(k + 1).len() == 0);
        assert(q.take(k) =~= s.take(k));
        lemma_last_slash(q, k + 1, 0);
        assert(parts(q) == parts(s.take(k)));
        assert(parts(s) == parts(s.take(k)).push(name));
        assert(q[0] == s[0]);
        if is_rooted(q) && stripped(q).len() == 0 {
            assert(seq![SLASH].take(0) =~= seq![]);
            assert(stripped(q) =~= seq![]);
            assert(seq![SLASH].skip(1).len() == 0);
            lemma_last_slash(seq![SLASH], 1, 0);
            assert(parts(seq![SLASH]) == parts(Seq::<u8>::empty()));
        }
    }
}

proof fn lemma_after_last_slash(s: Seq<u8>)
    ensures
        forall|i: int| last_index(s, SLASH) < i < s.len() ==> #[trigger] s[i] != SLASH,
    decreases s.len(),
{
    if s.len() > 0 && s.last() != SLASH {
        let t = s.drop_last();
        lemma_after_last_slash(t);
        lemma_last_index(s, SLASH);
        assert forall|i: int| last_index(s, SLASH) < i < s.len() implies #[trigger] s[i]
            != SLASH by {
            if i < t.len() {
                assert(t[i] == s[i]);
            }
        }
    }
}

} // verus!
