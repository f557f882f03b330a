//! What laying out the columns promises: how many there are, what they are
//! called, how wide they are and on which side their fields stand.

use crate::doc::{self, Layout, Table};
use crate::{csv, index, numeric, screen, text};
use vstd::prelude::*;

verus! {

/// Whether record `k` is one of those that the layout is derived from: the
/// first thousand, as far as they begin in the first 16 MiB.
pub open spec fn sampled(data: Seq<u8>, k: int) -> bool {
    &&& 0 <= k < 1000
    &&& index::start_of(data, k) < data.len()
    &&& index::start_of(data, k) < 16777216
}

/// The fields of record `k`.
pub open spec fn fields_of(data: Seq<u8>, delim: u8, k: int) -> Seq<(int, int)> {
    csv::record_fields(data, index::start_of(data, k), delim)
}

/// The bytes of field `c` of record `k`.
pub open spec fn field_of(data: Seq<u8>, delim: u8, k: int, c: int) -> Seq<u8> {
    let f = fields_of(data, delim, k);
    data.subrange(f[c].0, f[c].1)
}

/// The text of field `c` of record `k`, as much as fits into 40 columns.
pub open spec fn text_in(data: Seq<u8>, delim: u8, k: int, c: int) -> Seq<char> {
    csv::field_text(field_of(data, delim, k, c), 40, false)
}

/// Whether record `k` has a field `c` that counts for the layout of its column.
pub open spec fn counts(data: Seq<u8>, delim: u8, has_header: bool, k: int, c: int) -> bool {
    &&& sampled(data, k)
    &&& has_header ==> k > 0
    &&& 0 <= c < fields_of(data, delim, k).len()
}

/// The records that are looked at, by number.
proof fn lemma_sample(data: Seq<u8>, delim: u8, n: int)
    requires
        delim != csv::NL,
        0 <= n,
        n > 0 ==> sampled(data, n - 1),
    ensures
        ({
            let s = doc::sample_from(data, delim, index::start_of(data, n), n);
            &&& forall|j: int|
                0 <= j < s.len() ==> at_record(data, n + j, #[trigger] s[j])
            &&& !sampled(data, n + s.len())
        }),
    decreases 1000 - n,
{
    let s = doc::sample_from(data, delim, index::start_of(data, n), n);
    index::lemma_start_step(data, n);
    if sampled(data, n) {
        lemma_sample(data, delim, n + 1);
        assert(index::start_of(data, n + 1) == csv::record_end(data, index::start_of(data, n)));
        let t = doc::sample_from(data, delim, index::start_of(data, n + 1), n + 1);
        assert(s == seq![index::start_of(data, n)] + t);
        assert forall|j: int| 0 <= j < s.len() implies at_record(data, n + j, #[trigger] s[j]) by {
            if j > 0 {
                assert(s[j] == t[j - 1]);
                assert(at_record(data, n + 1 + (j - 1), t[j - 1]));
            }
        }
    }
}

/// Whether `p` is where record `k`, which is looked at, starts.
spec fn at_record(data: Seq<u8>, k: int, p: int) -> bool {
    sampled(data, k) && p == index::start_of(data, k)
}

proof fn lemma_sampled_before(data: Seq<u8>, k: int)
    requires
        0 < k,
        sampled(data, k),
    ensures
        sampled(data, k - 1),
{
    index::lemma_start_step(data, k - 1);
}

/// Nothing behind the sample is looked at.
proof fn lemma_not_sampled(data: Seq<u8>, a: int, k: int)
    requires
        0 <= a <= k,
        !sampled(data, a),
    ensures
        !sampled(data, k),
    decreases k - a,
{
    if a < k {
        lemma_not_sampled(data, a, k - 1);
        if sampled(data, k) {
            lemma_sampled_before(data, k);
        }
    }
}

/// The sample in one place: its records are numbers 0 to its length.
proof fn lemma_whole_sample(data: Seq<u8>, delim: u8, k: int)
    requires
        delim != csv::NL,
        0 <= k,
    ensures
        ({
            let s = doc::sample_from(data, delim, 0, 0);
            &&& sampled(data, k) == (k < s.len())
            &&& k < s.len() ==> s[k] == index::start_of(data, k)
        }),
{
    let s = doc::sample_from(data, delim, 0, 0);
    lemma_sample(data, delim, 0);
    if k < s.len() {
        assert(at_record(data, 0 + k, s[k]));
    } else {
        lemma_not_sampled(data, s.len() as int, k);
    }
}

proof fn lemma_most_fields(data: Seq<u8>, delim: u8, ps: Seq<int>, k: int)
    ensures
        0 <= k < ps.len() ==> csv::record_fields(data, ps[k], delim).len() <= doc::most_fields(
            data,
            delim,
            ps,
        ),
        doc::most_fields(data, delim, ps) >= 0,
        ps.len() > 0 ==> exists|j: int|
            0 <= j < ps.len() && csv::record_fields(data, #[trigger] ps[j], delim).len()
                == doc::most_fields(data, delim, ps),
    decreases ps.len(),
{
    if ps.len() > 0 {
        let t = ps.drop_last();
        lemma_most_fields(data, delim, t, k);
        let m = doc::most_fields(data, delim, ps);
        if csv::record_fields(data, ps.last(), delim).len() == m {
            assert(csv::record_fields(data, ps[ps.len() - 1], delim).len() == m);
        } else {
            let j = choose|j: int|
                0 <= j < t.len() && csv::record_fields(data, #[trigger] t[j], delim).len()
                    == doc::most_fields(data, delim, t);
            assert(ps[j] == t[j]);
        }
        if 0 <= k < t.len() {
            assert(t[k] == ps[k]);
        }
    }
}

/// There are as many columns as the records that are looked at have fields at
/// most, and at least one.
pub proof fn columns_for_all_fields(data: Seq<u8>, delim: u8, has_header: bool, k: int)
    requires
        delim != csv::NL,
    ensures
        ({
            let n = doc::layout_of(data, delim, has_header).widths.len();
            &&& n >= 1
            &&& sampled(data, k) ==> fields_of(data, delim, k).len() <= n
            &&& n > 1 ==> exists|j: int|
                sampled(data, j) && #[trigger] fields_of(data, delim, j).len() == n
        }),
{
    let s = doc::sample_from(data, delim, 0, 0);
    let n = doc::layout_of(data, delim, has_header).widths.len();
    if sampled(data, k) {
        lemma_whole_sample(data, delim, k);
        lemma_most_fields(data, delim, s, k);
    }
    if n > 1 {
        lemma_most_fields(data, delim, s, 0);
        assert(s.len() > 0);
        let j = choose|j: int|
            0 <= j < s.len() && csv::record_fields(data, #[trigger] s[j], delim).len()
                == doc::most_fields(data, delim, s);
        lemma_whole_sample(data, delim, j);
        assert(fields_of(data, delim, j).len() == n);
    }
}

/// A column is called as its field in the first record when that is the header
/// and the field is not blank, and else by its letters.
pub proof fn titles_come_from_the_header(data: Seq<u8>, delim: u8, has_header: bool, c: int)
    requires
        delim != csv::NL,
        0 <= c < doc::layout_of(data, delim, has_header).widths.len(),
    ensures
        ({
            let l = doc::layout_of(data, delim, has_header);
            let f = fields_of(data, delim, 0);
            let t = text::trim(csv::field_text(field_of(data, delim, 0, c), 200, false));
            &&& l.headers.len() == l.widths.len()
            &&& l.numeric.len() == l.widths.len()
            &&& l.headers[c] == if has_header && data.len() > 0 && c < f.len() && t.len() > 0 {
                t
            } else {
                doc::col_text(c)
            }
        }),
{
    lemma_whole_sample(data, delim, 0);
}

proof fn lemma_widest(data: Seq<u8>, delim: u8, ps: Seq<int>, c: int, k: int)
    ensures
        ({
            let w = doc::widest(data, delim, ps, c);
            &&& w >= 0
            &&& 0 <= k < ps.len() ==> (doc::cell(data, delim, ps[k], c) matches Some(raw)
                ==> csv::columns(csv::field_text(raw, 40, false)) <= w)
            &&& w > 0 ==> exists|j: int|
                0 <= j < ps.len() && doc::cell(data, delim, #[trigger] ps[j], c) is Some
                    && csv::columns(
                    csv::field_text(doc::cell(data, delim, ps[j], c)->0, 40, false),
                ) == w
        }),
    decreases ps.len(),
{
    if ps.len() > 0 {
        let t = ps.drop_last();
        lemma_widest(data, delim, t, c, k);
        let w = doc::widest(data, delim, ps, c);
        let v = doc::widest(data, delim, t, c);
        if 0 <= k < t.len() {
            assert(t[k] == ps[k]);
        }
        if w > 0 {
            if w == v {
                let j = choose|j: int|
                    0 <= j < t.len() && doc::cell(data, delim, #[trigger] t[j], c) is Some
                        && csv::columns(
                        csv::field_text(doc::cell(data, delim, t[j], c)->0, 40, false),
                    ) == v;
                assert(ps[j] == t[j]);
            } else {
                assert(doc::cell(data, delim, ps[ps.len() - 1], c) is Some);
            }
        }
    }
}

/// A column is as wide as its title and its widest field, but not narrower than
/// 3 nor wider than 40.
pub proof fn columns_are_as_wide_as_their_fields(
    data: Seq<u8>,
    delim: u8,
    has_header: bool,
    c: int,
    k: int,
)
    requires
        delim != csv::NL,
        0 <= c < doc::layout_of(data, delim, has_header).widths.len(),
    ensures
        ({
            let l = doc::layout_of(data, delim, has_header);
            let w = l.widths[c] as int;
            let tw = screen::text_width(l.headers[c]);
            &&& 3 <= w <= 40
            &&& tw <= w || w == 40
            &&& counts(data, delim, has_header, k, c) ==> csv::columns(text_in(data, delim, k, c))
                <= w
            &&& w > 3 ==> w == tw || (w == 40 && tw > 40) || exists|j: int|
                counts(data, delim, has_header, j, c) && csv::columns(
                    #[trigger] text_in(data, delim, j, c),
                ) == w
        }),
{
    let l = doc::layout_of(data, delim, has_header);
    let s = doc::sample_from(data, delim, 0, 0);
    let h = doc::header_count(s, has_header);
    let body = s.skip(h);
    let w = l.widths[c] as int;
    lemma_whole_sample(data, delim, 0);
    lemma_widest(data, delim, body, c, k - h);
    screen::lemma_width_le_bytes(l.headers[c]);
    assert(l.headers[c] == doc::col_title(data, delim, has_header, c));
    if counts(data, delim, has_header, k, c) {
        lemma_whole_sample(data, delim, k);
        assert(body[k - h] == s[k]);
        csv::clipped_text_fits(csv::field_visible(field_of(data, delim, k, c), 40, false), 40);
    }
    let v = doc::widest(data, delim, body, c);
    if v > 0 {
        let j = choose|j: int|
            0 <= j < body.len() && doc::cell(data, delim, #[trigger] body[j], c) is Some
                && csv::columns(
                csv::field_text(doc::cell(data, delim, body[j], c)->0, 40, false),
            ) == v;
        assert(body[j] == s[j + h]);
        lemma_whole_sample(data, delim, j + h);
        assert(counts(data, delim, has_header, j + h, c));
        assert(csv::columns(text_in(data, delim, j + h, c)) == v);
        csv::clipped_text_fits(
            csv::field_visible(field_of(data, delim, j + h, c), 40, false),
            40,
        );
    }
}

/// How many of the fields `c` of the first `n` records count and are not blank.
pub open spec fn not_blank(data: Seq<u8>, delim: u8, has_header: bool, c: int, n: int) -> int
    decreases n,
{
    if n <= 0 {
        0
    } else {
        not_blank(data, delim, has_header, c, n - 1) + if counts(
            data,
            delim,
            has_header,
            n - 1,
            c,
        ) && text::trim(text_in(data, delim, n - 1, c)).len() > 0 {
            1int
        } else {
            0
        }
    }
}

/// How many of them look like numbers.
pub open spec fn number_like(data: Seq<u8>, delim: u8, has_header: bool, c: int, n: int) -> int
    decreases n,
{
    if n <= 0 {
        0
    } else {
        number_like(data, delim, has_header, c, n - 1) + if counts(
            data,
            delim,
            has_header,
            n - 1,
            c,
        ) && text::trim(text_in(data, delim, n - 1, c)).len() > 0 && numeric::numeric(
            text_in(data, delim, n - 1, c),
        ) {
            1int
        } else {
            0
        }
    }
}

proof fn lemma_tally(data: Seq<u8>, delim: u8, has_header: bool, c: int, n: int)
    requires
        delim != csv::NL,
        ({
            let s = doc::sample_from(data, delim, 0, 0);
            doc::header_count(s, has_header) <= n <= s.len()
        }),
    ensures
        ({
            let s = doc::sample_from(data, delim, 0, 0);
            let h = doc::header_count(s, has_header);
            let body = s.skip(h).take(n - h);
            &&& doc::filled(data, delim, body, c) == not_blank(data, delim, has_header, c, n)
            &&& doc::numbers(data, delim, body, c) == number_like(data, delim, has_header, c, n)
        }),
    decreases n,
{
    let s = doc::sample_from(data, delim, 0, 0);
    let h = doc::header_count(s, has_header);
    let body = s.skip(h).take(n - h);
    if n > h {
        lemma_tally(data, delim, has_header, c, n - 1);
        assert(body.drop_last() =~= s.skip(h).take(n - 1 - h));
        assert(body.last() == s[n - 1]);
        lemma_whole_sample(data, delim, n - 1);
    } else {
        assert(body =~= seq![]);
        reveal_with_fuel(not_blank, 2);
        reveal_with_fuel(number_like, 2);
    }
}

proof fn lemma_tally_ends(data: Seq<u8>, delim: u8, has_header: bool, c: int, a: int, n: int)
    requires
        0 <= a <= n,
        !sampled(data, a),
    ensures
        not_blank(data, delim, has_header, c, n) == not_blank(data, delim, has_header, c, a),
        number_like(data, delim, has_header, c, n) == number_like(data, delim, has_header, c, a),
    decreases n - a,
{
    if a < n {
        lemma_tally_ends(data, delim, has_header, c, a, n - 1);
        lemma_not_sampled(data, a, n - 1);
    }
}

/// A column holds numbers, which then stand on its right side, when nine tenths
/// of its fields that are not blank look like numbers, and there are such.
pub proof fn columns_of_numbers(data: Seq<u8>, delim: u8, has_header: bool, c: int)
    requires
        delim != csv::NL,
        0 <= c < doc::layout_of(data, delim, has_header).widths.len(),
    ensures
        ({
            let some = not_blank(data, delim, has_header, c, 1000);
            let like = number_like(data, delim, has_header, c, 1000);
            doc::layout_of(data, delim, has_header).numeric[c] == (some > 0 && like * 10 >= some
                * 9)
        }),
{
    let s = doc::sample_from(data, delim, 0, 0);
    let h = doc::header_count(s, has_header);
    let n = s.len() as int;
    lemma_tally(data, delim, has_header, c, n);
    assert(s.skip(h).take(n - h) =~= s.skip(h));
    lemma_whole_sample(data, delim, n);
    lemma_whole_sample(data, delim, 1000);
    lemma_tally_ends(data, delim, has_header, c, n, 1000);
}

/// Columns that are added behind the others are called by their letters, are 8
/// cells wide and hold no numbers; the others stay as they are.
pub proof fn added_columns_are_plain(l: Layout, n: int, c: int)
    requires
        l.wf(),
    ensures
        ({
            let m = l.with_cols(n);
            let old = l.widths.len() as int;
            &&& m.widths.len() == if n > old {
                n
            } else {
                old
            }
            &&& m.headers.len() == m.widths.len()
            &&& m.numeric.len() == m.widths.len()
            &&& 0 <= c < old ==> m.headers[c] == l.headers[c] && m.widths[c] == l.widths[c]
                && m.numeric[c] == l.numeric[c]
            &&& old <= c < n ==> m.headers[c] == doc::col_text(c) && m.widths[c] == 8
                && !m.numeric[c]
        }),
    decreases n - l.widths.len(),
{
    if l.widths.len() < n {
        let m = Layout {
            headers: l.headers.push(doc::col_text(l.widths.len() as int)),
            widths: l.widths.push(8),
            numeric: l.numeric.push(false),
        };
        added_columns_are_plain(m, n, c);
    }
}

/// The names of the columns: one capital letter for the first 26, then two, and
/// so on; the next name has the next letter last.
pub proof fn column_names_count_in_letters(i: int)
    requires
        0 <= i,
    ensures
        i < 26 ==> doc::col_text(i) == seq![(0x41 + i) as char],
        i >= 26 ==> doc::col_text(i).len() == doc::col_text(i / 26 - 1).len() + 1,
        doc::col_text(i).last() as int == 0x41 + i % 26,
        doc::col_text(i).len() > 0,
        i % 26 != 25 ==> doc::col_text(i + 1).drop_last() == doc::col_text(i).drop_last(),
    decreases i,
{
    if i >= 26 {
        column_names_count_in_letters(i / 26 - 1);
        let t = doc::col_text(i / 26 - 1);
        assert(t.push(doc::letter(i % 26)).drop_last() =~= t);
        if i % 26 != 25 {
            assert((i + 1) / 26 == i / 26);
            assert(doc::col_text(i + 1) == t.push(doc::letter((i + 1) % 26)));
            assert(t.push(doc::letter((i + 1) % 26)).drop_last() =~= t);
        }
    } else if i % 26 != 25 {
        assert(doc::col_text(i + 1).drop_last() =~= doc::col_text(i).drop_last());
    }
}

proof fn lemma_fit_width(data: Seq<u8>, delim: u8, k: int, n: int, c: int, w: int, j: int)
    requires
        delim != csv::NL,
        0 <= k,
    ensures
        ({
            let v = doc::fit_width(data, delim, index::start_of(data, k), n, c, w);
            &&& v >= w
            &&& k <= j < k + n && 0 <= c < fields_of(data, delim, j).len() ==> csv::columns(
                csv::field_text(field_of(data, delim, j, c), 200, false),
            ) <= v
            &&& v > w ==> exists|i: int|
                k <= i < k + n && 0 <= c < #[trigger] fields_of(data, delim, i).len()
                    && csv::columns(csv::field_text(field_of(data, delim, i, c), 200, false)) == v
        }),
    decreases n,
{
    if n > 0 {
        let p = index::start_of(data, k);
        let u = match doc::cell(data, delim, p, c) {
            Some(raw) => vstd::math::max(w, csv::columns(csv::field_text(raw, 200, false))),
            None => w,
        };
        assert(index::start_of(data, k + 1) == csv::record_end(data, p));
        lemma_fit_width(data, delim, k + 1, n - 1, c, u, j);
        let v = doc::fit_width(data, delim, p, n, c, w);
        if v > w {
            if v == u {
                assert(0 <= c < fields_of(data, delim, k).len());
            } else {
                let i = choose|i: int|
                    k + 1 <= i < k + n && 0 <= c < #[trigger] fields_of(data, delim, i).len()
                        && csv::columns(
                        csv::field_text(field_of(data, delim, i, c), 200, false),
                    ) == v;
                assert(0 <= c < fields_of(data, delim, i).len());
            }
        }
    }
}

/// Fitting a column makes it as wide as its title and the widest of its fields
/// in the rows asked for, up to 200 cells and at least one, and changes no
/// other column.
pub proof fn fitted_column_shows_its_fields(t: Table, first: int, count: int, row: int)
    requires
        t.layout.wf(),
        t.delim != csv::NL,
        0 <= t.col < t.ncols(),
        0 <= first < t.rows(),
        0 <= count,
    ensures
        ({
            let u = t.fitted(first, count);
            let w = u.layout.widths[t.col] as int;
            let last = if first + count < t.rows() {
                first + count
            } else {
                t.rows()
            };
            let h = t.hdr();
            let title = screen::text_width(t.layout.headers[t.col]);
            &&& u == (Table {
                layout: Layout { widths: t.layout.widths.update(t.col, w as u16), ..t.layout },
                ..t
            })
            &&& 1 <= w <= 200
            &&& title <= w || w == 200
            &&& first <= row < last && t.col < fields_of(t.data, t.delim, row + h).len()
                ==> csv::columns(
                csv::field_text(field_of(t.data, t.delim, row + h, t.col), 200, false),
            ) <= w
            &&& w == 1 || w == title || (w == 200 && title > 200) || exists|i: int|
                first + h <= i < last + h && t.col < #[trigger] fields_of(
                    t.data,
                    t.delim,
                    i,
                ).len() && csv::columns(
                    csv::field_text(field_of(t.data, t.delim, i, t.col), 200, false),
                ) == w
        }),
{
    let h = t.hdr();
    let title = screen::text_width(t.layout.headers[t.col]);
    let w0 = vstd::math::min(title, 200);
    let n = vstd::math::min(count, t.rows() - first);
    screen::lemma_width_le_bytes(t.layout.headers[t.col]);
    lemma_fit_width(t.data, t.delim, first + h, n, t.col, w0, row + h);
    let v = doc::fit_width(
        t.data,
        t.delim,
        index::start_of(t.data, first + h),
        n,
        t.col,
        w0,
    );
    if v > w0 {
        let i = choose|i: int|
            first + h <= i < first + h + n && 0 <= t.col < #[trigger] fields_of(
                t.data,
                t.delim,
                i,
            ).len() && csv::columns(
                csv::field_text(field_of(t.data, t.delim, i, t.col), 200, false),
            ) == v;
        csv::clipped_text_fits(
            csv::field_visible(field_of(t.data, t.delim, i, t.col), 200, false),
            200,
        );
        assert(t.col < fields_of(t.data, t.delim, i).len());
    }
    assert(v <= 200);
    let u = t.fitted(first, count);
    assert(u.layout.widths =~= t.layout.widths.update(t.col, u.layout.widths[t.col]));
}

} // verus!
