//! What reading a table promises: where records and fields are, what is seen of
//! a field, which delimiter is guessed.

use crate::csv::{CR, NL, QUOTE};
use crate::path::DOT;
use crate::{csv, index, path, screen};
use vstd::prelude::*;

verus! {

// ---------------------------------------------------------------------------
// Records
// ---------------------------------------------------------------------------

/// Quotes are counted from any point outside quotes.
proof fn lemma_quoted_from(data: Seq<u8>, a: int, b: int, i: int)
    requires
        a <= b <= i,
        !csv::quoted(data, a, b),
    ensures
        csv::quoted(data, a, i) == csv::quoted(data, b, i),
    decreases i - b,
{
    if b < i {
        lemma_quoted_from(data, a, b, i - 1);
    }
}

/// Records start at the beginning and right behind newlines that stand outside
/// quotes, counted from the beginning of the data.
pub proof fn records_start_behind_unquoted_newlines(data: Seq<u8>, k: int)
    requires
        0 <= k,
    ensures
        index::start_of(data, 0) == 0,
        0 < k && index::start_of(data, k) < data.len() ==> {
            let s = index::start_of(data, k);
            s > 0 && data[s - 1] == NL && !csv::quoted(data, 0, s - 1)
        },
        index::start_of(data, k) < data.len() ==> !csv::quoted(
            data,
            0,
            index::start_of(data, k),
        ),
    decreases k,
{
    if k > 0 {
        records_start_behind_unquoted_newlines(data, k - 1);
        let a = index::start_of(data, k - 1);
        let s = index::start_of(data, k);
        index::lemma_start_step(data, k - 1);
        if s < data.len() {
            csv::record_end_is_first_unquoted_newline(data, a);
            lemma_quoted_from(data, 0, a, s - 1);
            assert(csv::quoted(data, 0, s) == (csv::quoted(data, 0, s - 1) != (data[s - 1]
                == QUOTE)));
        }
    }
}

/// Every newline outside quotes ends a record: what follows it is the start of
/// one.
pub proof fn unquoted_newlines_end_records(data: Seq<u8>, i: int) -> (k: int)
    requires
        0 <= i < data.len(),
        data[i] == NL,
        !csv::quoted(data, 0, i),
    ensures
        0 < k,
        index::start_of(data, k) == i + 1,
{
    let k = lemma_record_around(data, i, 0);
    let a = index::start_of(data, k);
    records_start_behind_unquoted_newlines(data, k);
    csv::record_end_is_first_unquoted_newline(data, a);
    lemma_quoted_from(data, 0, a, i);
    let e = csv::record_end(data, a);
    if i < e - 1 {
        assert(!csv::ends_record(data, a, i));
    }
    k + 1
}

/// The record that holds byte `i`, at or behind record `k`.
proof fn lemma_record_around(data: Seq<u8>, i: int, k: int) -> (r: int)
    requires
        0 <= k,
        index::start_of(data, k) <= i < data.len(),
    ensures
        k <= r,
        index::start_of(data, r) <= i < index::start_of(data, r + 1),
    decreases data.len() - index::start_of(data, k),
{
    index::lemma_start_step(data, k);
    if i < index::start_of(data, k + 1) {
        k
    } else {
        lemma_record_around(data, i, k + 1)
    }
}

// ---------------------------------------------------------------------------
// Fields
// ---------------------------------------------------------------------------

/// Whether byte `i` of the record at `pos` separates two fields: it is a
/// delimiter outside quotes.
pub open spec fn separates(data: Seq<u8>, pos: int, delim: u8, i: int) -> bool {
    data[i] == delim && delim != QUOTE && !csv::quoted(data, pos, i)
}

/// How many bytes of `data[a..b]` separate fields of the record at `pos`.
pub open spec fn separators(data: Seq<u8>, pos: int, delim: u8, a: int, b: int) -> int
    decreases b - a,
{
    if a >= b {
        0
    } else {
        separators(data, pos, delim, a + 1, b) + if separates(data, pos, delim, a) {
            1int
        } else {
            0
        }
    }
}

/// Whether one of `f` but the last ends at `i`.
pub open spec fn parted_at(f: Seq<(int, int)>, i: int) -> bool {
    exists|k: int| 0 <= k < f.len() - 1 && (#[trigger] f[k]).1 == i
}

/// Where the last field of the record at `pos`, begun at `start`, ends: before
/// the newline that ends the record, if one does, and before a carriage return
/// in front of that.
pub open spec fn last_end(data: Seq<u8>, pos: int, start: int, end: int, delim: u8) -> int {
    let stop = if delim != NL && end > pos && data[end - 1] == NL && !csv::quoted(
        data,
        pos,
        end - 1,
    ) {
        end - 1
    } else {
        end
    };
    if stop > start && data[stop - 1] == CR {
        stop - 1
    } else {
        stop
    }
}

proof fn lemma_parted(data: Seq<u8>, pos: int, i: int, start: int, delim: u8)
    requires
        0 <= pos <= start <= i <= data.len(),
        delim != NL && i > pos ==> !csv::ends_record(data, pos, i - 1),
    ensures
        ({
            let in_q = csv::quoted(data, pos, i);
            let f = csv::fields_from(data, i, start, in_q, delim);
            let e = if delim == NL {
                data.len() as int
            } else {
                csv::record_end_from(data, i, in_q)
            };
            &&& i <= e <= data.len()
            &&& f.len() == 1 + separators(data, pos, delim, i, e)
            &&& forall|j: int|
                i <= j < e && #[trigger] separates(data, pos, delim, j) ==> parted_at(f, j)
            &&& forall|k: int|
                0 <= k < f.len() - 1 ==> i <= (#[trigger] f[k]).1 < e && separates(
                    data,
                    pos,
                    delim,
                    f[k].1,
                )
            &&& f.last().1 == last_end(data, pos, f.last().0, e, delim)
        }),
    decreases data.len() - i,
{
    let in_q = csv::quoted(data, pos, i);
    let f = csv::fields_from(data, i, start, in_q, delim);
    if i < data.len() {
        assert(csv::quoted(data, pos, i + 1) == (in_q != (data[i] == QUOTE)));
        if data[i] != QUOTE && !in_q && data[i] == delim {
            lemma_parted(data, pos, i + 1, i + 1, delim);
            let g = csv::fields_from(data, i + 1, i + 1, in_q, delim);
            let e = if delim == NL {
                data.len() as int
            } else {
                csv::record_end_from(data, i + 1, in_q)
            };
            lemma_separators(data, pos, delim, i + 1, e);
            assert(f == seq![(start, i)] + g);
            assert(f.last() == g.last());
            assert forall|j: int| i <= j < e && #[trigger] separates(
                data,
                pos,
                delim,
                j,
            ) implies parted_at(f, j) by {
                if j == i {
                    assert(f[0].1 == i);
                } else {
                    assert(parted_at(g, j));
                    let k = choose|k: int| 0 <= k < g.len() - 1 && (#[trigger] g[k]).1 == j;
                    assert(f[k + 1].1 == j);
                }
            }
            assert forall|k: int| 0 <= k < f.len() - 1 implies i <= (#[trigger] f[k]).1 < e
                && separates(data, pos, delim, f[k].1) by {
                if k > 0 {
                    assert(f[k] == g[k - 1]);
                }
            }
        } else if data[i] != QUOTE && !in_q && data[i] == NL {
            assert(separators(data, pos, delim, i + 1, i + 1) == 0);
        } else {
            lemma_parted(data, pos, i + 1, start, delim);
        }
    } else {
        assert(separators(data, pos, delim, i, i) == 0);
    }
}

/// Every delimiter of a record that stands outside quotes ends a field, and
/// nothing else does but the end of the record: the record has one field more
/// than such delimiters. The last field leaves out the end of the line.
pub proof fn unquoted_delimiters_part_fields(data: Seq<u8>, pos: int, delim: u8)
    requires
        0 <= pos <= data.len(),
    ensures
        ({
            let f = csv::record_fields(data, pos, delim);
            let e = csv::split_end(data, pos, delim);
            &&& f.len() == 1 + separators(data, pos, delim, pos, e)
            &&& f[0].0 == pos
            &&& forall|i: int|
                pos <= i < e && #[trigger] separates(data, pos, delim, i) ==> parted_at(f, i)
            &&& forall|k: int|
                0 <= k < f.len() - 1 ==> pos <= (#[trigger] f[k]).1 < e && separates(
                    data,
                    pos,
                    delim,
                    f[k].1,
                )
            &&& forall|k: int| 0 <= k < f.len() - 1 ==> f[k + 1].0 == (#[trigger] f[k]).1 + 1
            &&& f.last().1 == last_end(data, pos, f.last().0, e, delim)
        }),
{
    lemma_parted(data, pos, pos, pos, delim);
    csv::fields_tile_the_record(data, pos, delim);
}

/// With any delimiter but the newline a record ends where it does without: at
/// its first newline outside quotes.
pub proof fn delimiters_do_not_end_records(data: Seq<u8>, pos: int, delim: u8)
    requires
        0 <= pos < data.len(),
    ensures
        ({
            let e = csv::split_end(data, pos, delim);
            &&& pos < e <= data.len()
            &&& delim == NL ==> e == data.len()
            &&& delim != NL && e < data.len() ==> data[e - 1] == NL && !csv::quoted(
                data,
                pos,
                e - 1,
            )
            &&& delim != NL ==> forall|i: int|
                pos <= i < e - 1 && data[i] == NL ==> #[trigger] csv::quoted(data, pos, i)
        }),
{
    csv::record_end_is_first_unquoted_newline(data, pos);
    let e = csv::split_end(data, pos, delim);
    if delim != NL {
        assert forall|i: int| pos <= i < e - 1 && data[i] == NL implies #[trigger] csv::quoted(
            data,
            pos,
            i,
        ) by {
            assert(!csv::ends_record(data, pos, i));
        }
    }
}

// ---------------------------------------------------------------------------
// Decoding
// ---------------------------------------------------------------------------

/// What is seen of an unquoted text without carriage returns: each character
/// as it is, but for control characters, which have a mark each.
pub proof fn characters_are_shown_one_by_one(t: Seq<char>, multiline: bool)
    requires
        !t.contains('\r'),
    ensures
        ({
            let v = csv::visible(t, false, multiline);
            &&& v.len() == t.len()
            &&& forall|k: int|
                0 <= k < t.len() && t[k] as int >= 0x20 && t[k] as int != 0x7f
                    ==> #[trigger] v[k] == t[k]
            &&& forall|k: int|
                0 <= k < t.len() && t[k] == '\n' ==> #[trigger] v[k] == if multiline {
                    '\n'
                } else {
                    '↵'
                }
            &&& forall|k: int| 0 <= k < t.len() && t[k] == '\t' ==> #[trigger] v[k] == '→'
            &&& forall|k: int|
                0 <= k < t.len() && t[k] != '\n' && t[k] != '\t' && ((t[k] as int) < 0x20
                    || t[k] as int == 0x7f) ==> #[trigger] v[k] == '·'
        }),
    decreases t.len(),
{
    if t.len() > 0 {
        let u = t.drop_last();
        assert forall|k: int| 0 <= k < u.len() implies u[k] != '\r' by {
            assert(t.contains(t[k]));
        }
        assert(!u.contains('\r'));
        assert(t.contains(t[t.len() - 1]));
        characters_are_shown_one_by_one(u, multiline);
        crate::text::lemma_code_point(t.last());
        assert(forall|k: int| 0 <= k < u.len() ==> u[k] == t[k]);
    }
}

/// Carriage returns are never seen, and do not matter outside quotes.
pub proof fn carriage_returns_are_dropped(a: Seq<char>, b: Seq<char>, multiline: bool)
    ensures
        csv::visible(a.push('\r') + b, false, multiline) == csv::visible(a + b, false, multiline),
    decreases b.len(),
{
    if b.len() == 0 {
        assert(a.push('\r') + b =~= a.push('\r'));
        assert(a + b =~= a);
        assert(a.push('\r').drop_last() =~= a);
    } else {
        carriage_returns_are_dropped(a, b.drop_last(), multiline);
        assert((a.push('\r') + b).drop_last() =~= a.push('\r') + b.drop_last());
        assert((a + b).drop_last() =~= a + b.drop_last());
    }
}

/// In a quoted field every other quote of a run is seen, and nothing else is
/// left out that would be seen without quotes: a text without quotes is shown
/// as if it were not quoted.
pub proof fn quoting_changes_only_quotes(t: Seq<char>, multiline: bool)
    requires
        !t.contains('"'),
    ensures
        csv::visible(t, true, multiline) == csv::visible(t, false, multiline),
    decreases t.len(),
{
    if t.len() > 0 {
        let u = t.drop_last();
        assert forall|k: int| 0 <= k < u.len() implies u[k] != '"' by {
            assert(t.contains(t[k]));
        }
        assert(!u.contains('"'));
        assert(t.contains(t[t.len() - 1]));
        quoting_changes_only_quotes(u, multiline);
    }
}

/// What is decoded is as much of the text as fits: one character more would be
/// too wide.
pub proof fn decoding_fills_the_width(s: Seq<char>, max_w: int)
    requires
        0 <= max_w,
    ensures
        ({
            let c = csv::clipped(s, max_w);
            &&& c.len() <= s.len()
            &&& c == s.take(c.len() as int)
            &&& csv::columns(c) <= max_w
            &&& c.len() < s.len() ==> csv::columns(s.take(c.len() as int + 1)) > max_w
        }),
    decreases s.len(),
{
    csv::clipped_text_fits(s, max_w);
    if s.len() > 0 && csv::columns(s) > max_w {
        let t = s.drop_last();
        decoding_fills_the_width(t, max_w);
        let c = csv::clipped(s, max_w);
        assert(t.take(c.len() as int) =~= s.take(c.len() as int));
        if c.len() < t.len() {
            assert(t.take(c.len() as int + 1) =~= s.take(c.len() as int + 1));
        } else {
            assert(s.take(c.len() as int + 1) =~= s);
        }
    } else {
        assert(s.take(s.len() as int) =~= s);
    }
}

/// Enough of a field is looked at: all of it behind an opening quote or, of a
/// long one, so many bytes from its beginning that they fill the width, however
/// many bytes their characters have.
pub proof fn enough_of_a_field_is_looked_at(raw: Seq<u8>, max_w: int)
    requires
        0 <= max_w,
    ensures
        ({
            let body = if raw.len() > 0 && raw[0] == 0x22 {
                raw.skip(1)
            } else {
                raw
            };
            let p = csv::field_prefix(raw, max_w);
            &&& p.is_prefix_of(body)
            &&& p.len() < body.len() ==> p.len() > 4 * (max_w + 1)
        }),
{
    let body = csv::field_body(raw);
    assert(body.take(body.len() as int) =~= body);
}

/// A field is said to be cut exactly when not all of it is shown: when some of
/// its visible characters do not fit, or not all of its bytes were looked at.
pub proof fn cut_fields_are_told(raw: Seq<u8>, max_w: int, multiline: bool)
    requires
        0 <= max_w,
    ensures
        csv::field_cut(raw, max_w, multiline) == {
            ||| csv::field_text(raw, max_w, multiline).len() < csv::field_visible(
                raw,
                max_w,
                multiline,
            ).len()
            ||| csv::field_prefix(raw, max_w).len() < csv::field_body(raw).len()
        },
{
    let v = csv::field_visible(raw, max_w, multiline);
    decoding_fills_the_width(v, max_w);
    let c = csv::field_text(raw, max_w, multiline);
    if c.len() == v.len() {
        assert(v.take(c.len() as int) =~= v);
    }
}

/// The columns of a text are those of its characters, line breaks taking none.
pub proof fn columns_add_up(a: Seq<char>, b: Seq<char>, c: char)
    ensures
        csv::columns(a + b) == csv::columns(a) + csv::columns(b),
        csv::columns(Seq::<char>::empty()) == 0,
        c != '\n' ==> csv::columns(seq![c]) == screen::width_of(c),
        csv::columns(seq!['\n']) == 0,
    decreases b.len(),
{
    if b.len() == 0 {
        assert(a + b =~= a);
    } else {
        columns_add_up(a, b.drop_last(), c);
        assert((a + b).drop_last() =~= a + b.drop_last());
    }
    assert(seq![c].drop_last() =~= seq![]);
    assert(seq!['\n'].drop_last() =~= seq![]);
}

// ---------------------------------------------------------------------------
// Guessing the delimiter
// ---------------------------------------------------------------------------

/// The first 64 KiB of a file.
pub open spec fn beginning(data: Seq<u8>) -> Seq<u8> {
    if data.len() > 65536 {
        data.take(65536)
    } else {
        data
    }
}

/// Whether record `k` is among those that the guess rests on: one of the first
/// 30 in the beginning of the file, and not cut off by its end, unless it is
/// the only one.
pub open spec fn looked_at(data: Seq<u8>, k: int) -> bool {
    let s = beginning(data);
    &&& 0 <= k < 30
    &&& index::start_of(s, k) < s.len()
    &&& k == 0 || data.len() <= 65536 || index::start_of(s, k + 1) < s.len()
}

/// Into how many fields a delimiter splits record `k`.
pub open spec fn split_by(data: Seq<u8>, d: u8, k: int) -> int {
    let s = beginning(data);
    csv::record_fields(s, index::start_of(s, k), d).len() as int
}

/// How many of the first `m` records that are looked at a delimiter splits into
/// `n` fields.
pub open spec fn agreeing(data: Seq<u8>, d: u8, n: int, m: int) -> int
    decreases m,
{
    if m <= 0 {
        0
    } else {
        agreeing(data, d, n, m - 1) + if looked_at(data, m - 1) && split_by(data, d, m - 1) == n {
            1int
        } else {
            0
        }
    }
}

/// Whether a byte is a letter, given in lower case, in either case.
pub open spec fn is_letter(b: u8, low: u8) -> bool {
    b == low || b + 0x20 == low
}

/// Whether a file name ends in a dot and three letters, behind something else.
pub open spec fn ends_in(n: Seq<u8>, a: u8, b: u8, c: u8) -> bool {
    let k = n.len() - 4;
    &&& k > 0
    &&& n[k] == DOT
    &&& is_letter(n[k + 1], a)
    &&& is_letter(n[k + 2], b)
    &&& is_letter(n[k + 3], c)
}

/// Whether a path ends in `.tsv` or `.tab`.
pub open spec fn is_tabbed(p: Seq<u8>) -> bool {
    path::name_of(p) matches Some(n) && (ends_in(n, 0x74, 0x73, 0x76) || ends_in(
        n,
        0x74,
        0x61,
        0x62,
    ))
}

/// Whether a path ends in `.psv`.
pub open spec fn is_piped(p: Seq<u8>) -> bool {
    path::name_of(p) matches Some(n) && ends_in(n, 0x70, 0x73, 0x76)
}

proof fn lemma_last_dot(n: Seq<u8>)
    ensures
        ({
            let k = path::last_index(n, DOT);
            &&& -1 <= k < n.len()
            &&& k >= 0 ==> n[k] == DOT
            &&& forall|i: int| k < i < n.len() ==> #[trigger] n[i] != DOT
        }),
    decreases n.len(),
{
    path::lemma_last_index(n, DOT);
    if n.len() > 0 && n.last() != DOT {
        let t = n.drop_last();
        lemma_last_dot(t);
        assert forall|i: int| path::last_index(n, DOT) < i < n.len() implies #[trigger] n[i]
            != DOT by {
            if i < t.len() {
                assert(t[i] == n[i]);
            }
        }
    }
}

proof fn lemma_ends_in(p: Seq<u8>, a: u8, b: u8, c: u8)
    requires
        0x61 <= a <= 0x7a,
        0x61 <= b <= 0x7a,
        0x61 <= c <= 0x7a,
    ensures
        csv::has_extension(p, seq![a, b, c]) == (path::name_of(p) matches Some(n) && ends_in(
            n,
            a,
            b,
            c,
        )),
{
    if let Some(n) = path::name_of(p) {
        lemma_last_dot(n);
        let k = path::last_index(n, DOT);
        if k > 0 {
            let e = n.skip(k + 1);
            let l = e.map_values(|x: u8| crate::search::lower(x));
            if l == seq![a, b, c] {
                assert(l.len() == 3);
                assert(l[0] == a && l[1] == b && l[2] == c);
                assert(e[0] == n[k + 1] && e[1] == n[k + 2] && e[2] == n[k + 3]);
            }
            if ends_in(n, a, b, c) {
                assert(n[n.len() - 3] != DOT && n[n.len() - 2] != DOT && n[n.len() - 1] != DOT);
                assert(k == n.len() - 4);
                assert(e[0] == n[k + 1] && e[1] == n[k + 2] && e[2] == n[k + 3]);
                assert(l =~= seq![a, b, c]);
            }
        }
    }
}

/// A file whose name ends in `.tsv` or `.tab` is tab-separated and one that
/// ends in `.psv` pipe-separated, whatever is in it and however the letters are
/// written.
pub proof fn extension_tells_the_delimiter(data: Seq<u8>, p: Seq<u8>, d: u8)
    requires
        csv::sniffs(data, p, d),
    ensures
        is_tabbed(p) ==> d == 0x09,
        is_piped(p) ==> d == 0x7c,
        d == 0x2c || d == 0x3b || d == 0x09 || d == 0x7c,
{
    lemma_ends_in(p, 0x74, 0x73, 0x76);
    lemma_ends_in(p, 0x74, 0x61, 0x62);
    lemma_ends_in(p, 0x70, 0x73, 0x76);
}

proof fn lemma_looked_at(data: Seq<u8>, k: int)
    requires
        0 < k,
        looked_at(data, k),
    ensures
        looked_at(data, k - 1),
{
    let s = beginning(data);
    index::lemma_start_step(s, k - 1);
    index::lemma_start_step(s, k);
}

/// Whether `x` is the number of fields of a record that is looked at.
spec fn counted(data: Seq<u8>, d: u8, k: int, x: int) -> bool {
    looked_at(data, k) && x == split_by(data, d, k)
}

/// The counts from record `n` on are those of the records that are looked at.
proof fn lemma_counts(data: Seq<u8>, d: u8, n: int)
    requires
        0 <= n,
        d != NL,
        n > 0 ==> looked_at(data, n - 1),
    ensures
        ({
            let s = beginning(data);
            let c = csv::field_counts(s, data.len() > 65536, d, index::start_of(s, n), n);
            &&& forall|j: int| 0 <= j < c.len() ==> counted(data, d, n + j, #[trigger] c[j])
            &&& !looked_at(data, n + c.len())
        }),
    decreases 30 - n,
{
    let s = beginning(data);
    let c = csv::field_counts(s, data.len() > 65536, d, index::start_of(s, n), n);
    index::lemma_start_step(s, n);
    assert(index::start_of(s, n + 1) == csv::record_end(s, index::start_of(s, n)));
    if looked_at(data, n) {
        lemma_counts(data, d, n + 1);
        let t = csv::field_counts(s, data.len() > 65536, d, index::start_of(s, n + 1), n + 1);
        assert(c == seq![split_by(data, d, n)] + t);
        assert forall|j: int| 0 <= j < c.len() implies counted(
            data,
            d,
            n + j,
            #[trigger] c[j],
        ) by {
            if j > 0 {
                assert(c[j] == t[j - 1]);
                assert(counted(data, d, n + 1 + (j - 1), t[j - 1]));
            }
        }
    }
}

proof fn lemma_agreeing(data: Seq<u8>, d: u8, x: int, c: Seq<int>, m: int)
    requires
        0 <= m <= c.len(),
        forall|j: int| 0 <= j < c.len() ==> counted(data, d, j, #[trigger] c[j]),
    ensures
        csv::occurrences(c.take(m), x) == agreeing(data, d, x, m),
    decreases m,
{
    if m > 0 {
        lemma_agreeing(data, d, x, c, m - 1);
        assert(c.take(m).drop_last() =~= c.take(m - 1));
        assert(counted(data, d, m - 1, c[m - 1]));
    }
}

proof fn lemma_no_more(data: Seq<u8>, d: u8, x: int, a: int, m: int)
    requires
        0 <= a <= m,
        !looked_at(data, a),
    ensures
        !looked_at(data, m),
        agreeing(data, d, x, m) == agreeing(data, d, x, a),
    decreases m - a,
{
    if a < m {
        lemma_no_more(data, d, x, a, m - 1);
        if looked_at(data, m) {
            lemma_looked_at(data, m);
        }
    }
}

/// How well a delimiter suits, said of records.
proof fn lemma_score(data: Seq<u8>, j: int)
    requires
        0 <= j < 4,
        data.len() > 0,
    ensures
        ({
            let d = csv::DELIMS[j];
            let n = split_by(data, d, 0);
            csv::delim_score(data, j) == if n < 2 {
                0
            } else {
                agreeing(data, d, n, 30) * 1000 + n
            }
        }),
        split_by(data, csv::DELIMS[j], 0) >= 1,
        agreeing(data, csv::DELIMS[j], split_by(data, csv::DELIMS[j], 0), 30) >= 1,
{
    let d = csv::DELIMS[j];
    let s = beginning(data);
    assert(s == csv::sample_of(data));
    let c = csv::field_counts(s, data.len() > 65536, d, 0, 0);
    lemma_counts(data, d, 0);
    assert(looked_at(data, 0));
    assert(c.len() > 0);
    assert(counted(data, d, 0, c[0]));
    let n = c[0];
    assert forall|i: int| 0 <= i < c.len() implies counted(data, d, i, #[trigger] c[i]) by {
        assert(counted(data, d, 0 + i, c[i]));
    }
    lemma_agreeing(data, d, n, c, c.len() as int);
    assert(c.take(c.len() as int) =~= c);
    if c.len() <= 30 {
        lemma_no_more(data, d, n, c.len() as int, 30);
    } else {
        assert(counted(data, d, 30, c[30]));
    }
    csv::fields_tile_the_record(s, 0, d);
    lemma_agreeing_grows(data, d, n, 1, 30);
    assert(agreeing(data, d, n, 1) == 1) by {
        reveal_with_fuel(agreeing, 2);
    }
}

proof fn lemma_agreeing_grows(data: Seq<u8>, d: u8, x: int, a: int, b: int)
    requires
        a <= b,
    ensures
        0 <= agreeing(data, d, x, a) <= agreeing(data, d, x, b),
    decreases b,
{
    if b > 0 {
        if a < b {
            lemma_agreeing_grows(data, d, x, a, b - 1);
        } else {
            lemma_agreeing_grows(data, d, x, a - 1, b - 1);
        }
    }
}

/// The place of a delimiter among those that are tried: comma, semicolon, tab,
/// pipe.
pub open spec fn place(d: u8) -> int {
    if d == 0x2c {
        0
    } else if d == 0x3b {
        1
    } else if d == 0x09 {
        2
    } else {
        3
    }
}

/// Unless its name tells, a file is taken to have the delimiter that splits its
/// first record and agrees with most other records on the number of fields; of
/// several the one that gives the most fields, and of those the one that is
/// tried first.
pub proof fn best_delimiter_is_guessed(data: Seq<u8>, p: Seq<u8>, g: u8, d: u8)
    requires
        csv::sniffs(data, p, g),
        !is_tabbed(p),
        !is_piped(p),
        data.len() > 0,
        d == 0x2c || d == 0x3b || d == 0x09 || d == 0x7c,
        split_by(data, d, 0) >= 2,
    ensures
        ({
            let (n, m) = (split_by(data, d, 0), split_by(data, g, 0));
            let (a, b) = (agreeing(data, d, n, 30), agreeing(data, g, m, 30));
            &&& m >= 2
            &&& b * 1000 + m >= a * 1000 + n
            &&& b * 1000 + m == a * 1000 + n ==> place(g) <= place(d)
        }),
{
    lemma_ends_in(p, 0x74, 0x73, 0x76);
    lemma_ends_in(p, 0x74, 0x61, 0x62);
    lemma_ends_in(p, 0x70, 0x73, 0x76);
    let k = choose|k: int| 0 <= k < 4 && g == csv::DELIMS[k] && #[trigger] csv::suits_best(data, k);
    let j = place(d);
    assert(csv::DELIMS[j] == d);
    lemma_score(data, j);
    lemma_score(data, k);
    assert(csv::delim_score(data, j) <= csv::delim_score(data, k));
    assert(place(g) == k);
}

/// A file whose first record no delimiter splits, and an empty one, are taken
/// to be comma-separated, unless their names tell otherwise.
pub proof fn comma_is_guessed_otherwise(data: Seq<u8>, p: Seq<u8>, g: u8)
    requires
        csv::sniffs(data, p, g),
        !is_tabbed(p),
        !is_piped(p),
        data.len() > 0 ==> split_by(data, 0x2c, 0) < 2 && split_by(data, 0x3b, 0) < 2 && split_by(
            data,
            0x09,
            0,
        ) < 2 && split_by(data, 0x7c, 0) < 2,
    ensures
        g == 0x2c,
{
    lemma_ends_in(p, 0x74, 0x73, 0x76);
    lemma_ends_in(p, 0x74, 0x61, 0x62);
    lemma_ends_in(p, 0x70, 0x73, 0x76);
    let k = choose|k: int| 0 <= k < 4 && g == csv::DELIMS[k] && #[trigger] csv::suits_best(data, k);
    if data.len() > 0 {
        lemma_score(data, 0);
        lemma_score(data, k);
    } else {
        assert(csv::delim_score(data, 0) == 0);
        assert(csv::delim_score(data, k) == 0);
    }
    assert(csv::delim_score(data, 0) >= csv::delim_score(data, k));
}

/// When only one of the delimiters stands outside quotes in the first record,
/// it is the one that is guessed.
pub proof fn only_delimiter_is_guessed(data: Seq<u8>, p: Seq<u8>, g: u8, d: u8, i: int)
    requires
        csv::sniffs(data, p, g),
        !is_tabbed(p),
        !is_piped(p),
        d == 0x2c || d == 0x3b || d == 0x09 || d == 0x7c,
        0 <= i < csv::record_end(beginning(data), 0),
        separates(beginning(data), 0, d, i),
        forall|e: u8, k: int|
            (e == 0x2c || e == 0x3b || e == 0x09 || e == 0x7c) && e != d && 0 <= k
                < csv::record_end(beginning(data), 0) ==> !#[trigger] separates(
                beginning(data),
                0,
                e,
                k,
            ),
    ensures
        g == d,
{
    let s = beginning(data);
    let end = csv::record_end(s, 0);
    csv::lemma_split_end(s, 0, d);
    unquoted_delimiters_part_fields(s, 0, d);
    lemma_some_separator(s, 0, d, 0, end, i);
    best_delimiter_is_guessed(data, p, g, d);
    extension_tells_the_delimiter(data, p, g);
    if g != d {
        unquoted_delimiters_part_fields(s, 0, g);
        lemma_no_separator(s, 0, g, 0, end);
    }
}

proof fn lemma_some_separator(data: Seq<u8>, pos: int, d: u8, a: int, b: int, i: int)
    requires
        a <= i < b,
        separates(data, pos, d, i),
    ensures
        separators(data, pos, d, a, b) >= 1,
    decreases b - a,
{
    lemma_separators(data, pos, d, a + 1, b);
    if a < i {
        lemma_some_separator(data, pos, d, a + 1, b, i);
    }
}

proof fn lemma_separators(data: Seq<u8>, pos: int, d: u8, a: int, b: int)
    ensures
        separators(data, pos, d, a, b) >= 0,
    decreases b - a,
{
    if a < b {
        lemma_separators(data, pos, d, a + 1, b);
    }
}

proof fn lemma_no_separator(data: Seq<u8>, pos: int, d: u8, a: int, b: int)
    requires
        0 <= a,
        forall|k: int| a <= k < b ==> !#[trigger] separates(data, pos, d, k),
    ensures
        separators(data, pos, d, a, b) == 0,
    decreases b - a,
{
    if a < b {
        assert(!separates(data, pos, d, a));
        lemma_no_separator(data, pos, d, a + 1, b);
    }
}

} // verus!
