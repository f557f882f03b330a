//! The order of directory listings: directories first, then by name.

use crate::text;
use vstd::prelude::*;

verus! {

/// What an entry is sorted by.
pub struct SortKey {
    pub is_dir: bool,
    pub name: Vec<char>,
}

/// The contents of a sort key.
pub struct Key {
    pub is_dir: bool,
    pub name: Seq<char>,
}

impl View for SortKey {
    type V = Key;

    open spec fn view(&self) -> Key {
        Key { is_dir: self.is_dir, name: self.name@ }
    }
}

/// The contents of sort keys.
pub open spec fn keys(v: Seq<SortKey>) -> Seq<Key> {
    v.map_values(|k: SortKey| k@)
}

/// Whether `a` stands before `b` in the dictionary, or is equal to it.
pub open spec fn name_le(a: Seq<char>, b: Seq<char>) -> bool
    decreases a.len(),
{
    if a.len() == 0 {
        true
    } else if b.len() == 0 {
        false
    } else if a[0] != b[0] {
        (a[0] as int) < (b[0] as int)
    } else {
        name_le(a.drop_first(), b.drop_first())
    }
}

/// Whether `a` may stand before `b`: directories come first, then names in
/// order.
pub open spec fn key_le(a: Key, b: Key) -> bool {
    if a.is_dir != b.is_dir {
        a.is_dir
    } else {
        name_le(a.name, b.name)
    }
}

/// `order` with `i` put behind everything that may stand before it.
pub open spec fn insert_last(order: Seq<int>, ks: Seq<Key>, i: int) -> Seq<int>
    decreases order.len(),
{
    if order.len() == 0 || key_le(ks[order.last()], ks[i]) {
        order.push(i)
    } else {
        insert_last(order.drop_last(), ks, i).push(order.last())
    }
}

/// The indices of `ks` in the order of the keys, equal ones in the order in
/// which they stand.
pub open spec fn stable_order(ks: Seq<Key>, n: int) -> Seq<int>
    decreases n,
{
    if n <= 0 {
        seq![]
    } else {
        insert_last(stable_order(ks, n - 1), ks, n - 1)
    }
}

/// Names are in order one way or the other.
pub proof fn name_order_is_total(a: Seq<char>, b: Seq<char>)
    ensures
        name_le(a, b) || name_le(b, a),
        name_le(a, b) && name_le(b, a) ==> a == b,
        name_le(a, a),
    decreases a.len(),
{
    if a.len() > 0 {
        name_order_is_total(a.drop_first(), if b.len() > 0 {
            b.drop_first()
        } else {
            b
        });
        if b.len() > 0 && name_le(a, b) && name_le(b, a) {
            assert(a =~= seq![a[0]] + a.drop_first());
            assert(b =~= seq![b[0]] + b.drop_first());
        }
    } else if b.len() == 0 {
        assert(a =~= b);
    }
}

/// The order of names is transitive.
pub proof fn name_order_is_transitive(a: Seq<char>, b: Seq<char>, c: Seq<char>)
    requires
        name_le(a, b),
        name_le(b, c),
    ensures
        name_le(a, c),
    decreases a.len(),
{
    if a.len() > 0 && a[0] == b[0] && b[0] == c[0] {
        name_order_is_transitive(a.drop_first(), b.drop_first(), c.drop_first());
    }
}

/// The order of keys is total and transitive.
pub proof fn key_order_is_total(a: Key, b: Key, c: Key)
    ensures
        key_le(a, b) || key_le(b, a),
        key_le(a, b) && key_le(b, c) ==> key_le(a, c),
{
    name_order_is_total(a.name, b.name);
    if a.is_dir == b.is_dir && b.is_dir == c.is_dir && key_le(a, b) && key_le(b, c) {
        name_order_is_transitive(a.name, b.name, c.name);
    }
}

/// Whether indices stand in the order of their keys.
pub open spec fn ordered(order: Seq<int>, ks: Seq<Key>) -> bool {
    forall|a: int, b: int|
        0 <= a < b < order.len() ==> key_le(ks[#[trigger] order[a]], ks[#[trigger] order[b]])
}

/// Whether `order` holds each of the indices below `n` once.
pub open spec fn permutes(order: Seq<int>, n: int) -> bool {
    &&& order.len() == n
    &&& forall|a: int| 0 <= a < order.len() ==> 0 <= #[trigger] order[a] < n
    &&& forall|a: int, b: int|
        0 <= a < b < order.len() ==> #[trigger] order[a] != #[trigger] order[b]
}

/// Where `insert_last` puts an index.
proof fn lemma_insert_last(order: Seq<int>, ks: Seq<Key>, i: int, p: int)
    requires
        0 <= p <= order.len(),
        p > 0 ==> key_le(ks[order[p - 1]], ks[i]),
        forall|a: int| p <= a < order.len() ==> !key_le(ks[#[trigger] order[a]], ks[i]),
    ensures
        insert_last(order, ks, i) == order.insert(p, i),
    decreases order.len(),
{
    if p == order.len() {
        assert(order.insert(p, i) =~= order.push(i));
    } else {
        assert(!key_le(ks[order[order.len() - 1]], ks[i]));
        lemma_insert_last(order.drop_last(), ks, i, p);
        assert(order.insert(p, i) =~= order.drop_last().insert(p, i).push(order.last()));
    }
}

/// Where in the order an index belongs.
spec fn insert_position(order: Seq<int>, ks: Seq<Key>, i: int) -> int
    decreases order.len(),
{
    if order.len() == 0 || key_le(ks[order.last()], ks[i]) {
        order.len() as int
    } else {
        insert_position(order.drop_last(), ks, i)
    }
}

proof fn lemma_insert_position(order: Seq<int>, ks: Seq<Key>, i: int)
    ensures
        ({
            let p = insert_position(order, ks, i);
            &&& 0 <= p <= order.len()
            &&& p > 0 ==> key_le(ks[order[p - 1]], ks[i])
            &&& forall|a: int| p <= a < order.len() ==> !key_le(ks[#[trigger] order[a]], ks[i])
        }),
    decreases order.len(),
{
    if order.len() > 0 && !key_le(ks[order.last()], ks[i]) {
        let t = order.drop_last();
        lemma_insert_position(t, ks, i);
        let p = insert_position(order, ks, i);
        assert forall|a: int| p <= a < order.len() implies !key_le(
            ks[#[trigger] order[a]],
            ks[i],
        ) by {
            if a < t.len() {
                assert(t[a] == order[a]);
            }
        }
        if p > 0 {
            assert(t[p - 1] == order[p - 1]);
        }
    }
}

/// A listing is in order and complete: the stable order holds every index once
/// and its keys ascend.
pub proof fn stable_order_sorts(ks: Seq<Key>, n: int)
    requires
        0 <= n <= ks.len(),
    ensures
        permutes(stable_order(ks, n), n),
        ordered(stable_order(ks, n), ks),
    decreases n,
{
    if n > 0 {
        stable_order_sorts(ks, n - 1);
        let o = stable_order(ks, n - 1);
        let i = n - 1;
        let p = insert_position(o, ks, i);
        lemma_insert_position(o, ks, i);
        lemma_insert_last(o, ks, i, p);
        let r = o.insert(p, i);
        assert forall|a: int, b: int| 0 <= a < b < r.len() implies key_le(
            ks[#[trigger] r[a]],
            ks[#[trigger] r[b]],
        ) && r[a] != r[b] by {
            let a1 = if a < p {
                a
            } else {
                a - 1
            };
            let b1 = if b < p {
                b
            } else {
                b - 1
            };
            if a != p {
                assert(r[a] == o[a1]);
            }
            if b != p {
                assert(r[b] == o[b1]);
            }
            if b == p {
                if a1 < p - 1 {
                    assert(key_le(ks[o[a1]], ks[o[p - 1]]));
                }
                key_order_is_total(ks[o[a1]], ks[o[p - 1]], ks[i]);
            } else if a == p {
                key_order_is_total(ks[i], ks[o[b1]], ks[i]);
            }
        }
        assert forall|a: int| 0 <= a < r.len() implies 0 <= #[trigger] r[a] < n by {
            if a < p {
                assert(r[a] == o[a]);
            } else if a > p {
                assert(r[a] == o[a - 1]);
            }
        }
    }
}

/// Equal keys stay in the order in which they stand.
pub proof fn stable_order_is_stable(ks: Seq<Key>, n: int)
    requires
        0 <= n <= ks.len(),
    ensures
        forall|a: int, b: int|
            #![trigger stable_order(ks, n)[a], stable_order(ks, n)[b]]
            0 <= a < b < n && key_le(
                ks[stable_order(ks, n)[b]],
                ks[stable_order(ks, n)[a]],
            ) ==> stable_order(ks, n)[a] < stable_order(ks, n)[b],
    decreases n,
{
    stable_order_sorts(ks, n);
    if n > 0 {
        stable_order_is_stable(ks, n - 1);
        stable_order_sorts(ks, n - 1);
        let o = stable_order(ks, n - 1);
        let i = n - 1;
        let p = insert_position(o, ks, i);
        lemma_insert_position(o, ks, i);
        lemma_insert_last(o, ks, i, p);
        let r = o.insert(p, i);
        assert forall|a: int, b: int|
            #![trigger r[a], r[b]]
            0 <= a < b < n && key_le(ks[r[b]], ks[r[a]]) implies r[a] < r[b] by {
            let a1 = if a < p {
                a
            } else {
                a - 1
            };
            let b1 = if b < p {
                b
            } else {
                b - 1
            };
            if a != p {
                assert(r[a] == o[a1]);
            }
            if b != p {
                assert(r[b] == o[b1]);
            }
        }
    }
}

proof fn lemma_insert_contains(order: Seq<int>, ks: Seq<Key>, i: int, x: int)
    requires
        order.contains(x) || x == i,
    ensures
        insert_last(order, ks, i).contains(x),
    decreases order.len(),
{
    let r = insert_last(order, ks, i);
    if order.len() == 0 || key_le(ks[order.last()], ks[i]) {
        if x == i {
            assert(r[order.len() as int] == x);
        } else {
            assert(r[order.index_of(x)] == x);
        }
    } else {
        let t = order.drop_last();
        let u = insert_last(t, ks, i);
        if x == order.last() && x != i {
            assert(r[u.len() as int] == x);
        } else {
            if x != i {
                assert(t[order.index_of(x)] == x);
            }
            lemma_insert_contains(t, ks, i, x);
            assert(r[u.index_of(x)] == x);
        }
    }
}

/// No index is left out of the order.
pub proof fn stable_order_is_complete(ks: Seq<Key>, n: int, i: int)
    requires
        0 <= i < n,
    ensures
        stable_order(ks, n).contains(i),
    decreases n,
{
    if i < n - 1 {
        stable_order_is_complete(ks, n - 1, i);
    }
    lemma_insert_contains(stable_order(ks, n - 1), ks, n - 1, i);
}

fn name_before(a: &Vec<char>, b: &Vec<char>) -> (r: bool)
    ensures
        r == name_le(a@, b@),
{
    let mut i: usize = 0;
    assert(a@.skip(0) =~= a@);
    assert(b@.skip(0) =~= b@);
    while i < a.len() && i < b.len()
        invariant
            i <= a@.len(),
            i <= b@.len(),
            name_le(a@, b@) == name_le(a@.skip(i as int), b@.skip(i as int)),
        decreases a@.len() - i,
    {
        let (x, y) = (a[i], b[i]);
        proof {
            text::lemma_code_point(x);
            text::lemma_code_point(y);
        }
        if x != y {
            return (x as u32) < (y as u32);
        }
        assert(a@.skip(i as int).drop_first() =~= a@.skip(i + 1));
        assert(b@.skip(i as int).drop_first() =~= b@.skip(i + 1));
        i += 1;
    }
    i == a.len()
}

fn key_before(a: &SortKey, b: &SortKey) -> (r: bool)
    ensures
        r == key_le(a@, b@),
{
    if a.is_dir != b.is_dir {
        a.is_dir
    } else {
        name_before(&a.name, &b.name)
    }
}

/// Indices as integers.
pub open spec fn indices(v: Seq<usize>) -> Seq<int> {
    v.map_values(|i: usize| i as int)
}

/// The indices of `ks` in the order of the keys: directories first, then by
/// name, equal keys in the order in which they stand.
pub fn sort_order(ks: &Vec<SortKey>) -> (r: Vec<usize>)
    ensures
        indices(r@) == stable_order(keys(ks@), ks@.len() as int),
        permutes(indices(r@), ks@.len() as int),
{
    let ghost kv = keys(ks@);
    let mut order: Vec<usize> = Vec::new();
    let mut i: usize = 0;
    assert(indices(order@) =~= seq![]);
    while i < ks.len()
        invariant
            i <= ks@.len(),
            kv == keys(ks@),
            indices(order@) == stable_order(kv, i as int),
        decreases ks@.len() - i,
    {
        proof {
            stable_order_sorts(kv, i as int);
        }
        let ghost o = indices(order@);
        let mut lo: usize = 0;
        let mut hi: usize = order.len();
        while lo < hi
            invariant
                i < ks@.len(),
                kv == keys(ks@),
                o == indices(order@),
                permutes(o, i as int),
                ordered(o, kv),
                lo <= hi <= order@.len(),
                lo > 0 ==> key_le(kv[o[lo - 1]], kv[i as int]),
                forall|a: int| hi <= a < o.len() ==> !key_le(kv[#[trigger] o[a]], kv[i as int]),
            decreases hi - lo,
        {
            let mid = lo + (hi - lo) / 2;
            let k = order[mid];
            assert(o[mid as int] == k);
            if key_before(&ks[k], &ks[i]) {
                lo = mid + 1;
            } else {
                proof {
                    assert forall|a: int| mid <= a < o.len() implies !key_le(
                        kv[#[trigger] o[a]],
                        kv[i as int],
                    ) by {
                        if a > mid {
                            assert(key_le(kv[o[mid as int]], kv[o[a]]));
                        }
                        key_order_is_total(kv[o[mid as int]], kv[o[a]], kv[i as int]);
                    }
                }
                hi = mid;
            }
        }
        proof {
            lemma_insert_last(o, kv, i as int, lo as int);
        }
        order.insert(lo, i);
        assert(indices(order@) =~= o.insert(lo as int, i as int));
        i += 1;
    }
    proof {
        stable_order_sorts(kv, i as int);
    }
    order
}

} // verus!
