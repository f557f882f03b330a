//! An opened CSV file: data, index and view state (cursor, scroll, columns).

use crate::index::{Batch, Index};
use crate::screen::str_width;
use crate::source::Mmap;
use crate::{csv, index, numeric, path, screen, text, util};
use std::sync::Arc;
use vstd::prelude::*;

verus! {

pub const MAX_COL_W: u16 = 40;

pub const MIN_COL_W: u16 = 3;

/// How many rows are looked at to lay out the columns.
pub const SAMPLE_ROWS: usize = 1000;

/// How many bytes are looked at to lay out the columns.
pub const SAMPLE_BYTES: usize = 0x100_0000;

// ---------------------------------------------------------------------------
// Column names
// ---------------------------------------------------------------------------

/// The capital letter number `k`.
pub open spec fn letter(k: int) -> char {
    (0x41 + k) as char
}

/// The name of column `i`: A, B, …, Z, AA, AB, …
pub open spec fn col_text(i: int) -> Seq<char>
    decreases i,
{
    if i < 26 {
        seq![letter(i)]
    } else {
        col_text(i / 26 - 1).push(letter(i % 26))
    }
}

/// Spreadsheet-style column name: A, B, …, Z, AA, AB, …
pub fn col_name(i: usize) -> (r: String)
    ensures
        r@ == col_text(i as int),
    decreases i,
{
    let b: u8 = 0x41 + (i % 26) as u8;
    let c: char = b as char;
    let mut s = if i < 26 {
        String::new()
    } else {
        col_name(i / 26 - 1)
    };
    s.push(c);
    assert(i < 26 ==> s@ =~= col_text(i as int));
    s
}

/// The column that a name stands for.
pub open spec fn col_number(s: Seq<char>) -> int
    decreases s.len(),
{
    if s.len() <= 1 {
        s[0] as int - 0x41
    } else {
        (col_number(s.drop_last()) + 1) * 26 + s.last() as int - 0x41
    }
}

/// No two columns have the same name: it tells which column it is.
pub proof fn col_name_tells_the_column(i: int)
    requires
        0 <= i,
    ensures
        col_number(col_text(i)) == i,
        col_text(i).len() >= 1,
    decreases i,
{
    if i >= 26 {
        col_name_tells_the_column(i / 26 - 1);
        let t = col_text(i / 26 - 1);
        assert(t.push(letter(i % 26)).drop_last() =~= t);
    }
}

// ---------------------------------------------------------------------------
// Layout of the columns
// ---------------------------------------------------------------------------

/// Starts of the records that are looked at, from the one at `pos` on, `n`
/// having been looked at already.
pub open spec fn sample_from(data: Seq<u8>, delim: u8, pos: int, n: int) -> Seq<int>
    decreases SAMPLE_ROWS - n,
{
    if pos < data.len() && n < SAMPLE_ROWS && pos < SAMPLE_BYTES {
        seq![pos] + sample_from(data, delim, csv::split_end(data, pos, delim), n + 1)
    } else {
        seq![]
    }
}

/// The raw field `c` of the record at `pos`, if it has so many.
pub open spec fn cell(data: Seq<u8>, delim: u8, pos: int, c: int) -> Option<Seq<u8>> {
    let f = csv::record_fields(data, pos, delim);
    if 0 <= c < f.len() {
        Some(data.subrange(f[c].0, f[c].1))
    } else {
        None
    }
}

/// The text of a field as it is looked at to lay out the columns.
pub open spec fn sample_text(raw: Seq<u8>) -> Seq<char> {
    csv::field_text(raw, MAX_COL_W as int, false)
}

/// The number of fields of the widest of the records at `ps`.
pub open spec fn most_fields(data: Seq<u8>, delim: u8, ps: Seq<int>) -> int
    decreases ps.len(),
{
    if ps.len() == 0 {
        0
    } else {
        vstd::math::max(
            most_fields(data, delim, ps.drop_last()),
            csv::record_fields(data, ps.last(), delim).len() as int,
        )
    }
}

/// The width of the widest of the fields `c` of the records at `ps`.
pub open spec fn widest(data: Seq<u8>, delim: u8, ps: Seq<int>, c: int) -> int
    decreases ps.len(),
{
    if ps.len() == 0 {
        0
    } else {
        let before = widest(data, delim, ps.drop_last(), c);
        match cell(data, delim, ps.last(), c) {
            Some(raw) => vstd::math::max(before, csv::columns(sample_text(raw))),
            None => before,
        }
    }
}

/// How many of the fields `c` of the records at `ps` are not blank.
pub open spec fn filled(data: Seq<u8>, delim: u8, ps: Seq<int>, c: int) -> int
    decreases ps.len(),
{
    if ps.len() == 0 {
        0
    } else {
        let before = filled(data, delim, ps.drop_last(), c);
        match cell(data, delim, ps.last(), c) {
            Some(raw) => if text::trim(sample_text(raw)).len() > 0 {
                before + 1
            } else {
                before
            },
            None => before,
        }
    }
}

/// How many of the fields `c` of the records at `ps` look like numbers.
pub open spec fn numbers(data: Seq<u8>, delim: u8, ps: Seq<int>, c: int) -> int
    decreases ps.len(),
{
    if ps.len() == 0 {
        0
    } else {
        let before = numbers(data, delim, ps.drop_last(), c);
        match cell(data, delim, ps.last(), c) {
            Some(raw) => if text::trim(sample_text(raw)).len() > 0 && numeric::numeric(
                sample_text(raw),
            ) {
                before + 1
            } else {
                before
            },
            None => before,
        }
    }
}

/// The title that a header field gives its column.
pub open spec fn title_text(raw: Seq<u8>) -> Seq<char> {
    text::trim(csv::field_text(raw, 200, false))
}

/// How the columns are laid out.
#[verifier::ext_equal]
pub struct Layout {
    pub headers: Seq<Seq<char>>,
    pub widths: Seq<u16>,
    pub numeric: Seq<bool>,
}

/// How many of the records looked at are the header.
pub open spec fn header_count(sample: Seq<int>, has_header: bool) -> int {
    if has_header && sample.len() > 0 {
        1
    } else {
        0
    }
}

/// The number of columns: as many as the widest record has fields, and at
/// least one.
pub open spec fn col_count(data: Seq<u8>, delim: u8) -> int {
    let sample = sample_from(data, delim, 0, 0);
    vstd::math::max(most_fields(data, delim, sample), 1)
}

/// The title of column `c`: that of the header field, or its name when there
/// is none.
pub open spec fn col_title(data: Seq<u8>, delim: u8, has_header: bool, c: int) -> Seq<char> {
    let sample = sample_from(data, delim, 0, 0);
    if header_count(sample, has_header) == 1 {
        match cell(data, delim, sample[0], c) {
            Some(raw) => if title_text(raw).len() > 0 {
                title_text(raw)
            } else {
                col_text(c)
            },
            None => col_text(c),
        }
    } else {
        col_text(c)
    }
}

/// The width of column `c`: that of its widest field or of its title, within
/// limits.
pub open spec fn col_width(data: Seq<u8>, delim: u8, has_header: bool, c: int) -> int {
    let sample = sample_from(data, delim, 0, 0);
    let body = sample.skip(header_count(sample, has_header));
    let title = vstd::math::min(
        screen::text_width(col_title(data, delim, has_header, c)),
        MAX_COL_W as int,
    );
    let w = vstd::math::max(widest(data, delim, body, c), title);
    if w < MIN_COL_W {
        MIN_COL_W as int
    } else if w > MAX_COL_W {
        MAX_COL_W as int
    } else {
        w
    }
}

/// Whether column `c` holds numbers: nine tenths of its fields that are not
/// blank do, and some are not blank.
pub open spec fn col_numeric(data: Seq<u8>, delim: u8, has_header: bool, c: int) -> bool {
    let sample = sample_from(data, delim, 0, 0);
    let body = sample.skip(header_count(sample, has_header));
    filled(data, delim, body, c) > 0 && numbers(data, delim, body, c) * 10 >= filled(
        data,
        delim,
        body,
        c,
    ) * 9
}

/// The layout derived from a sample of the data.
pub open spec fn layout_of(data: Seq<u8>, delim: u8, has_header: bool) -> Layout {
    let n = col_count(data, delim) as nat;
    Layout {
        headers: Seq::new(n, |c: int| col_title(data, delim, has_header, c)),
        widths: Seq::new(n, |c: int| col_width(data, delim, has_header, c) as u16),
        numeric: Seq::new(n, |c: int| col_numeric(data, delim, has_header, c)),
    }
}

/// Records have no more fields than the widest of them, and their widths are
/// those that were asked for.
proof fn lemma_column_bounds(data: Seq<u8>, delim: u8, ps: Seq<int>, c: int)
    ensures
        0 <= widest(data, delim, ps, c) <= MAX_COL_W,
        0 <= numbers(data, delim, ps, c) <= filled(data, delim, ps, c) <= ps.len(),
        0 <= most_fields(data, delim, ps),
        c >= most_fields(data, delim, ps) ==> widest(data, delim, ps, c) == 0 && numbers(
            data,
            delim,
            ps,
            c,
        ) == 0 && filled(data, delim, ps, c) == 0,
    decreases ps.len(),
{
    if ps.len() > 0 {
        lemma_column_bounds(data, delim, ps.drop_last(), c);
        if let Some(raw) = cell(data, delim, ps.last(), c) {
            csv::clipped_text_fits(
                csv::field_visible(raw, MAX_COL_W as int, false),
                MAX_COL_W as int,
            );
        }
    }
}

/// What a sample tells about the columns.
struct Stats {
    widths: Vec<u16>,
    numbers: Vec<u32>,
    filled: Vec<u32>,
}

impl Stats {
    /// These are the statistics of the records at `ps`.
    spec fn of(&self, data: Seq<u8>, delim: u8, ps: Seq<int>) -> bool {
        &&& self.widths@.len() == most_fields(data, delim, ps)
        &&& self.numbers@.len() == self.widths@.len()
        &&& self.filled@.len() == self.widths@.len()
        &&& forall|c: int|
            0 <= c < self.widths@.len() ==> #[trigger] self.widths@[c] == widest(
                data,
                delim,
                ps,
                c,
            )
        &&& forall|c: int|
            0 <= c < self.widths@.len() ==> #[trigger] self.numbers@[c] == numbers(
                data,
                delim,
                ps,
                c,
            )
        &&& forall|c: int|
            0 <= c < self.widths@.len() ==> #[trigger] self.filled@[c] == filled(
                data,
                delim,
                ps,
                c,
            )
    }

    /// Makes room for `n` columns.
    fn grow(&mut self, n: usize, Ghost(data): Ghost<Seq<u8>>, delim: u8, Ghost(ps): Ghost<Seq<int>>)
        requires
            old(self).of(data, delim, ps),
        ensures
            final(self).widths@.len() == vstd::math::max(old(self).widths@.len() as int, n as int),
            final(self).numbers@.len() == final(self).widths@.len(),
            final(self).filled@.len() == final(self).widths@.len(),
            forall|c: int|
                0 <= c < final(self).widths@.len() ==> #[trigger] final(self).widths@[c] == widest(
                    data,
                    delim,
                    ps,
                    c,
                ),
            forall|c: int|
                0 <= c < final(self).widths@.len() ==> #[trigger] final(self).numbers@[c]
                    == numbers(data, delim, ps, c),
            forall|c: int|
                0 <= c < final(self).widths@.len() ==> #[trigger] final(self).filled@[c] == filled(
                    data,
                    delim,
                    ps,
                    c,
                ),
    {
        while self.widths.len() < n
            invariant
                most_fields(data, delim, ps) <= self.widths@.len(),
                old(self).widths@.len() == most_fields(data, delim, ps),
                self.widths@.len() <= n || self.widths@.len() == old(self).widths@.len(),
                self.numbers@.len() == self.widths@.len(),
                self.filled@.len() == self.widths@.len(),
                forall|c: int|
                    0 <= c < self.widths@.len() ==> #[trigger] self.widths@[c] == widest(
                        data,
                        delim,
                        ps,
                        c,
                    ),
                forall|c: int|
                    0 <= c < self.widths@.len() ==> #[trigger] self.numbers@[c] == numbers(
                        data,
                        delim,
                        ps,
                        c,
                    ),
                forall|c: int|
                    0 <= c < self.widths@.len() ==> #[trigger] self.filled@[c] == filled(
                        data,
                        delim,
                        ps,
                        c,
                    ),
            decreases n - self.widths@.len(),
        {
            proof {
                lemma_column_bounds(data, delim, ps, self.widths@.len() as int);
            }
            self.widths.push(0);
            self.numbers.push(0);
            self.filled.push(0);
        }
    }

    /// Takes one more record into account.
    fn add(
        &mut self,
        data: &[u8],
        delim: u8,
        pos: usize,
        fields: &Vec<(usize, usize)>,
        Ghost(ps): Ghost<Seq<int>>,
    )
        requires
            old(self).of(data@, delim, ps),
            pos <= data@.len(),
            ps.len() < SAMPLE_ROWS,
            csv::ranges(fields@) == csv::record_fields(data@, pos as int, delim),
        ensures
            final(self).of(data@, delim, ps.push(pos as int)),
    {
        let ghost qs = ps.push(pos as int);
        let ghost fv = csv::record_fields(data@, pos as int, delim);
        self.grow(fields.len(), Ghost(data@), delim, Ghost(ps));
        proof {
            assert(qs.drop_last() =~= ps);
            csv::fields_tile_the_record(data@, pos as int, delim);
            assert(fields@.len() == csv::ranges(fields@).len());
        }
        let mut buf = String::new();
        let mut i: usize = 0;
        while i < fields.len()
            invariant
                qs == ps.push(pos as int),
                qs.drop_last() == ps,
                fv == csv::record_fields(data@, pos as int, delim),
                csv::ranges(fields@) == fv,
                fields@.len() == fv.len(),
                ps.len() < SAMPLE_ROWS,
                i <= fields@.len() <= self.widths@.len(),
                self.widths@.len() == most_fields(data@, delim, qs),
                self.numbers@.len() == self.widths@.len(),
                self.filled@.len() == self.widths@.len(),
                forall|k: int|
                    0 <= k < fv.len() ==> (#[trigger] fv[k]).0 <= fv[k].1 <= data@.len() && 0
                        <= fv[k].0,
                forall|c: int|
                    0 <= c < self.widths@.len() ==> #[trigger] self.widths@[c] == widest(
                        data@,
                        delim,
                        if c < i {
                            qs
                        } else {
                            ps
                        },
                        c,
                    ),
                forall|c: int|
                    0 <= c < self.widths@.len() ==> #[trigger] self.numbers@[c] == numbers(
                        data@,
                        delim,
                        if c < i {
                            qs
                        } else {
                            ps
                        },
                        c,
                    ),
                forall|c: int|
                    0 <= c < self.widths@.len() ==> #[trigger] self.filled@[c] == filled(
                        data@,
                        delim,
                        if c < i {
                            qs
                        } else {
                            ps
                        },
                        c,
                    ),
            decreases fields@.len() - i,
        {
            let (a, b) = fields[i];
            proof {
                assert(csv::ranges(fields@)[i as int] == (a as int, b as int));
                assert(fv[i as int].0 <= fv[i as int].1);
                lemma_column_bounds(data@, delim, ps, i as int);
                lemma_column_bounds(data@, delim, qs, i as int);
            }
            let raw = &data[a..b];
            assert(cell(data@, delim, pos as int, i as int) == Some(raw@));
            let (w, _) = csv::decode_field(raw, MAX_COL_W as usize, false, &mut buf);
            let w = w as u16;
            if self.widths[i] < w {
                self.widths[i] = w;
            }
            let t = text::trimmed_chars(buf.as_str());
            if t.len() > 0 {
                self.filled[i] = self.filled[i] + 1;
                if numeric::looks_numeric(buf.as_str()) {
                    self.numbers[i] = self.numbers[i] + 1;
                }
            }
            i += 1;
        }
        assert forall|c: int| fields@.len() <= c < self.widths@.len() implies widest(
            data@,
            delim,
            qs,
            c,
        ) == widest(data@, delim, ps, c) && numbers(data@, delim, qs, c) == numbers(
            data@,
            delim,
            ps,
            c,
        ) && filled(data@, delim, qs, c) == filled(data@, delim, ps, c) by {}
    }
}

/// The titles that the fields of a header record give their columns.
fn header_titles(data: &[u8], delim: u8, pos: usize, fields: &Vec<(usize, usize)>) -> (r: Vec<
    String,
>)
    requires
        pos <= data@.len(),
        csv::ranges(fields@) == csv::record_fields(data@, pos as int, delim),
    ensures
        r@.len() == csv::record_fields(data@, pos as int, delim).len(),
        forall|c: int|
            0 <= c < r@.len() ==> (#[trigger] r@[c])@ == title_text(
                cell(data@, delim, pos as int, c)->0,
            ),
{
    let ghost fv = csv::record_fields(data@, pos as int, delim);
    proof {
        csv::fields_tile_the_record(data@, pos as int, delim);
        assert(fields@.len() == csv::ranges(fields@).len());
    }
    let mut r: Vec<String> = Vec::new();
    let mut buf = String::new();
    let mut i: usize = 0;
    while i < fields.len()
        invariant
            i <= fields@.len() == fv.len(),
            fv == csv::record_fields(data@, pos as int, delim),
            csv::ranges(fields@) == fv,
            forall|k: int|
                0 <= k < fv.len() ==> (#[trigger] fv[k]).0 <= fv[k].1 <= data@.len() && 0
                    <= fv[k].0,
            r@.len() == i,
            forall|c: int|
                0 <= c < r@.len() ==> (#[trigger] r@[c])@ == title_text(
                cell(data@, delim, pos as int, c)->0,
            ),
        decreases fields@.len() - i,
    {
        let (a, b) = fields[i];
        proof {
            assert(csv::ranges(fields@)[i as int] == (a as int, b as int));
            assert(fv[i as int].0 <= fv[i as int].1);
        }
        let raw = &data[a..b];
        assert(cell(data@, delim, pos as int, i as int) == Some(raw@));
        csv::decode_field(raw, 200, false, &mut buf);
        r.push(text::trimmed(buf.as_str()));
        i += 1;
    }
    r
}

/// The header has a part in the number of columns.
proof fn lemma_most_fields_front(data: Seq<u8>, delim: u8, x: int, ps: Seq<int>)
    ensures
        most_fields(data, delim, seq![x] + ps) == vstd::math::max(
            csv::record_fields(data, x, delim).len() as int,
            most_fields(data, delim, ps),
        ),
    decreases ps.len(),
{
    let all = seq![x] + ps;
    if ps.len() == 0 {
        assert(all.drop_last() =~= seq![]);
        assert(all.last() == x);
        reveal_with_fuel(most_fields, 2);
    } else {
        assert(all.drop_last() =~= seq![x] + ps.drop_last());
        assert(all.last() == ps.last());
        lemma_most_fields_front(data, delim, x, ps.drop_last());
    }
}

/// The layout derived from a sample of the data.
fn lay_out(data: &[u8], delim: u8, has_header: bool) -> (r: (Vec<String>, Vec<u16>, Vec<bool>))
    ensures
        (Layout { headers: text::texts(r.0@), widths: r.1@, numeric: r.2@ }) == layout_of(
            data@,
            delim,
            has_header,
        ),
{
    let ghost sample = sample_from(data@, delim, 0, 0);
    let ghost mut seen: Seq<int> = seq![];
    let mut fields: Vec<(usize, usize)> = Vec::new();
    let mut stats = Stats { widths: Vec::new(), numbers: Vec::new(), filled: Vec::new() };
    let mut titles: Vec<String> = Vec::new();
    let mut pos: usize = 0;
    let mut n: usize = 0;
    proof {
        assert(seen + sample =~= sample);
        assert(seen.skip(0) =~= seq![]);
    }
    while pos < data.len() && n < SAMPLE_ROWS && pos < SAMPLE_BYTES
        invariant
            pos <= data@.len(),
            n <= SAMPLE_ROWS,
            seen.len() == n,
            sample == seen + sample_from(data@, delim, pos as int, n as int),
            stats.of(data@, delim, seen.skip(header_count(seen, has_header))),
            header_count(seen, has_header) == 0 ==> titles@.len() == 0,
            header_count(seen, has_header) == 1 ==> {
                &&& titles@.len() == csv::record_fields(data@, seen[0], delim).len()
                &&& forall|c: int|
                    0 <= c < titles@.len() ==> (#[trigger] titles@[c])@ == title_text(
                        cell(data@, delim, seen[0], c)->0,
                    )
            },
        decreases SAMPLE_ROWS - n,
    {
        let next = csv::parse_record(data, pos, delim, &mut fields);
        let ghost before = seen;
        let ghost body = before.skip(header_count(before, has_header));
        proof {
            csv::record_end_is_first_unquoted_newline(data@, pos as int);
            seen = before.push(pos as int);
            let rest = sample_from(data@, delim, next as int, n + 1);
            assert(before + (seq![pos as int] + rest) =~= seen + rest);
        }
        if n == 0 && has_header {
            titles = header_titles(data, delim, pos, &fields);
            assert(seen.skip(1) =~= body);
        } else {
            stats.add(data, delim, pos, &fields, Ghost(body));
            assert(seen.skip(header_count(seen, has_header)) =~= body.push(pos as int));
        }
        pos = next;
        n += 1;
    }
    assert(seen + Seq::<int>::empty() =~= seen);
    let ghost hc = header_count(sample, has_header);
    let ghost body = sample.skip(hc);
    let cols = if stats.widths.len() < titles.len() {
        titles.len()
    } else {
        stats.widths.len()
    };
    let ncols: usize = if cols < 1 {
        1
    } else {
        cols
    };
    proof {
        if hc == 1 {
            lemma_most_fields_front(data@, delim, sample[0], body);
            assert(seq![sample[0]] + body =~= sample);
        } else {
            assert(body =~= sample);
        }
        assert(ncols == col_count(data@, delim));
    }
    stats.grow(ncols, Ghost(data@), delim, Ghost(body));
    let mut headers: Vec<String> = Vec::new();
    let mut widths: Vec<u16> = Vec::new();
    let mut numeric: Vec<bool> = Vec::new();
    let mut i: usize = 0;
    let ghost want = layout_of(data@, delim, has_header);
    while i < ncols
        invariant
            i <= ncols,
            ncols == col_count(data@, delim),
            sample == sample_from(data@, delim, 0, 0),
            sample.len() <= SAMPLE_ROWS,
            hc == header_count(sample, has_header),
            body == sample.skip(hc),
            want == layout_of(data@, delim, has_header),
            stats.widths@.len() == ncols,
            stats.numbers@.len() == ncols,
            stats.filled@.len() == ncols,
            forall|c: int|
                0 <= c < ncols ==> #[trigger] stats.widths@[c] == widest(data@, delim, body, c),
            forall|c: int|
                0 <= c < ncols ==> #[trigger] stats.numbers@[c] == numbers(data@, delim, body, c),
            forall|c: int|
                0 <= c < ncols ==> #[trigger] stats.filled@[c] == filled(data@, delim, body, c),
            hc == 0 ==> titles@.len() == 0,
            hc == 1 ==> {
                &&& titles@.len() == csv::record_fields(data@, sample[0], delim).len()
                &&& forall|c: int|
                    0 <= c < titles@.len() ==> (#[trigger] titles@[c])@ == title_text(
                        cell(data@, delim, sample[0], c)->0,
                    )
            },
            headers@.len() == i,
            widths@.len() == i,
            numeric@.len() == i,
            forall|c: int|
                0 <= c < i ==> (#[trigger] headers@[c])@ == col_title(data@, delim, has_header, c),
            forall|c: int|
                0 <= c < i ==> #[trigger] widths@[c] == col_width(data@, delim, has_header, c),
            forall|c: int|
                0 <= c < i ==> #[trigger] numeric@[c] == col_numeric(data@, delim, has_header, c),
        decreases ncols - i,
    {
        let mut title = if i < titles.len() {
            text::to_string(titles[i].as_str())
        } else {
            String::new()
        };
        if title.as_str().is_empty() {
            title = col_name(i);
        }
        assert(title@ == col_title(data@, delim, has_header, i as int));
        let tw = str_width(title.as_str());
        let hw: u16 = if tw < MAX_COL_W as usize {
            tw as u16
        } else {
            MAX_COL_W
        };
        let mut w: u16 = stats.widths[i];
        proof {
            lemma_column_bounds(data@, delim, body, i as int);
        }
        if w < hw {
            w = hw;
        }
        if w < MIN_COL_W {
            w = MIN_COL_W;
        }
        headers.push(title);
        widths.push(w);
        numeric.push(stats.filled[i] > 0 && stats.numbers[i] * 10 >= stats.filled[i] * 9);
        i += 1;
    }
    proof {
        assert(text::texts(headers@) =~= want.headers);
        assert(widths@ =~= want.widths);
        assert(numeric@ =~= want.numeric);
    }
    (headers, widths, numeric)
}

// ---------------------------------------------------------------------------
// The document
// ---------------------------------------------------------------------------

/// An opened file and how it is looked at.
pub struct Doc {
    pub path: Vec<u8>,
    pub name: String,
    pub map: Arc<Mmap>,
    pub index: Index,
    pub delim: u8,
    pub has_header: bool,
    pub headers: Vec<String>,
    pub widths: Vec<u16>,
    pub numeric: Vec<bool>,
    pub row: usize,
    pub col: usize,
    pub row_off: usize,
    pub col_off: usize,
}

/// The contents of a document.
#[verifier::ext_equal]
pub struct Table {
    pub path: Seq<u8>,
    pub name: Seq<char>,
    pub data: Seq<u8>,
    /// Number of records found so far.
    pub found: int,
    /// Number of bytes indexed so far.
    pub scanned: int,
    /// Whether all the data is indexed.
    pub done: bool,
    /// Whether the pass that builds the index was asked to stop.
    pub cancelled: bool,
    pub delim: u8,
    pub has_header: bool,
    pub layout: Layout,
    pub row: int,
    pub col: int,
    pub row_off: int,
    pub col_off: int,
}

impl View for Doc {
    type V = Table;

    open spec fn view(&self) -> Table {
        Table {
            path: self.path@,
            name: self.name@,
            data: self.map@,
            found: self.index.rows as int,
            scanned: self.index.scanned as int,
            done: self.index.done,
            cancelled: self.index.cancel,
            delim: self.delim,
            has_header: self.has_header,
            layout: Layout {
                headers: text::texts(self.headers@),
                widths: self.widths@,
                numeric: self.numeric@,
            },
            row: self.row as int,
            col: self.col as int,
            row_off: self.row_off as int,
            col_off: self.col_off as int,
        }
    }
}

/// The delimiter that follows `d` in the cycle.
pub open spec fn next_delim(d: u8) -> u8 {
    if d == 0x2c {
        0x3b
    } else if d == 0x3b {
        0x09
    } else if d == 0x09 {
        0x7c
    } else {
        0x2c
    }
}

/// The record that byte `off` belongs to.
pub open spec fn record_at(data: Seq<u8>, off: int) -> int {
    choose|r: int| 0 <= r && index::start_of(data, r) <= off < #[trigger] index::start_of(data, r + 1)
}

/// Index of the first of some ranges that ends behind `off`, or the last one.
pub open spec fn field_at(f: Seq<(int, int)>, off: int, k: int) -> int
    decreases f.len() - k,
{
    if k >= f.len() - 1 || off < f[k].1 {
        k
    } else {
        field_at(f, off, k + 1)
    }
}

/// The width of the widest of the fields `c` of `n` records from the one at
/// `pos` on, and at least `w`.
pub open spec fn fit_width(data: Seq<u8>, delim: u8, pos: int, n: int, c: int, w: int) -> int
    decreases n,
{
    if n <= 0 {
        w
    } else {
        let v = match cell(data, delim, pos, c) {
            Some(raw) => vstd::math::max(w, csv::columns(csv::field_text(raw, 200, false))),
            None => w,
        };
        fit_width(data, delim, csv::split_end(data, pos, delim), n - 1, c, v)
    }
}

impl Layout {
    /// With names for the columns up to `n`.
    pub open spec fn with_cols(self, n: int) -> Layout
        decreases n - self.widths.len(),
    {
        if self.widths.len() >= n {
            self
        } else {
            Layout {
                headers: self.headers.push(col_text(self.widths.len() as int)),
                widths: self.widths.push(8),
                numeric: self.numeric.push(false),
            }.with_cols(n)
        }
    }

    /// Every column has a title and a width, and there is one at least.
    pub open spec fn wf(self) -> bool {
        &&& self.headers.len() == self.widths.len()
        &&& self.numeric.len() == self.widths.len()
        &&& 1 <= self.widths.len()
        &&& forall|c: int| 0 <= c < self.widths.len() ==> 1 <= #[trigger] self.widths[c] <= 500
    }
}

impl Table {
    /// 1 when the first record is the header.
    pub open spec fn hdr(self) -> int {
        if self.has_header {
            1
        } else {
            0
        }
    }

    /// Number of data rows indexed so far.
    pub open spec fn rows(self) -> int {
        vstd::math::max(self.found - self.hdr(), 0)
    }

    pub open spec fn ncols(self) -> int {
        self.layout.widths.len() as int
    }

    /// Where data row `row` starts, if it is indexed.
    pub open spec fn record(self, row: int) -> Option<int> {
        if row + self.hdr() < self.found {
            Some(index::start_of(self.data, row + self.hdr()))
        } else {
            None
        }
    }

    /// The raw fields of data row `row`, if it is indexed.
    pub open spec fn row_fields(self, row: int) -> Option<Seq<(int, int)>> {
        match self.record(row) {
            Some(s) => Some(csv::record_fields(self.data, s, self.delim)),
            None => None,
        }
    }

    /// The fields of the record that byte `off` belongs to.
    pub open spec fn fields_around(self, off: int) -> Seq<(int, int)> {
        let r = record_at(self.data, off);
        let start = if r < self.found {
            index::start_of(self.data, r)
        } else {
            0
        };
        csv::record_fields(self.data, start, self.delim)
    }

    /// Row and column of byte `off`.
    pub open spec fn located(self, off: int) -> (int, int) {
        (
            vstd::math::max(record_at(self.data, off) - self.hdr(), 0),
            field_at(self.fields_around(off), off, 0),
        )
    }

    /// With the layout derived from a sample.
    pub open spec fn analyzed(self) -> Table {
        let layout = layout_of(self.data, self.delim, self.has_header);
        let col = vstd::math::min(self.col, layout.widths.len() - 1);
        Table { layout, col, col_off: vstd::math::min(self.col_off, col), ..self }
    }

    /// With the cursor inside the table.
    pub open spec fn clamped(self) -> Table {
        Table {
            row: vstd::math::min(self.row, vstd::math::max(self.rows() - 1, 0)),
            col: vstd::math::min(self.col, vstd::math::max(self.ncols() - 1, 0)),
            ..self
        }
    }

    pub open spec fn moved_row(self, d: int) -> Table {
        Table { row: util::moved(self.row, d), ..self }.clamped()
    }

    pub open spec fn moved_col(self, d: int) -> Table {
        Table { col: util::moved(self.col, d), ..self }.clamped()
    }

    /// With columns for `n` fields at least.
    pub open spec fn with_cols(self, n: int) -> Table {
        Table { layout: self.layout.with_cols(n), ..self }
    }

    /// With the first record taken as the header, or no longer. The cursor
    /// stays on its record.
    pub open spec fn header_toggled(self) -> Table {
        let d: int = if self.has_header {
            1
        } else {
            -1
        };
        Table {
            has_header: !self.has_header,
            row: util::moved(self.row, d),
            ..self
        }.analyzed().clamped()
    }

    /// With the next delimiter.
    pub open spec fn delim_cycled(self) -> Table {
        Table { delim: next_delim(self.delim), col: 0, col_off: 0, ..self }.analyzed()
    }

    /// With the current column wider by `d`.
    pub open spec fn col_resized(self, d: int) -> Table {
        if self.col < self.ncols() {
            let w = self.layout.widths[self.col] + d;
            let to: u16 = if w < 1 {
                1
            } else if w > 500 {
                500
            } else {
                w as u16
            };
            Table {
                layout: Layout { widths: self.layout.widths.update(self.col, to), ..self.layout },
                ..self
            }
        } else {
            self
        }
    }

    /// The width that fits the current column to `count` rows from `first` on.
    pub open spec fn fitting_width(self, first: int, count: int) -> int {
        let w = vstd::math::min(screen::text_width(self.layout.headers[self.col]), 200);
        let v = match self.record(first) {
            Some(pos) => fit_width(
                self.data,
                self.delim,
                pos,
                vstd::math::min(count, self.rows() - first),
                self.col,
                w,
            ),
            None => w,
        };
        vstd::math::max(v, 1)
    }

    /// With the current column fitted to the widest of some rows.
    pub open spec fn fitted(self, first: int, count: int) -> Table {
        Table {
            layout: Layout {
                widths: self.layout.widths.update(
                    self.col,
                    self.fitting_width(first, count) as u16,
                ),
                ..self.layout
            },
            ..self
        }
    }
}

proof fn lemma_layout(data: Seq<u8>, delim: u8, has_header: bool)
    ensures
        layout_of(data, delim, has_header).wf(),
{
    let l = layout_of(data, delim, has_header);
    assert forall|c: int| 0 <= c < l.widths.len() implies 1 <= #[trigger] l.widths[c] <= 500 by {
        assert(l.widths[c] == col_width(data, delim, has_header, c) as u16);
    }
}

/// Byte `off` belongs to one record.
proof fn lemma_record_at(data: Seq<u8>, off: int, r: int)
    requires
        0 <= r,
        index::start_of(data, r) <= off < index::start_of(data, r + 1),
    ensures
        record_at(data, off) == r,
{
    let k = record_at(data, off);
    assert(0 <= k && index::start_of(data, k) <= off < index::start_of(data, k + 1));
    if k < r {
        index::lemma_start_mono(data, k + 1, r);
    } else if r < k {
        index::lemma_start_mono(data, r + 1, k);
    }
}

/// A row that was found starts inside the data.
proof fn lemma_record(d: Doc, row: int)
    requires
        d.index.covers(d.map@),
        0 <= row,
    ensures
        d@.record(row) matches Some(s) ==> 0 <= s < d.map@.len(),
        d.index.rows <= d.map@.len(),
{
    index::lemma_covered_rows(d.index, d.map@);
    if row + d@.hdr() < d@.found {
        index::lemma_covered_row(d.index, d.map@, row + d@.hdr());
    }
}

impl Doc {
    pub open spec fn wf(&self) -> bool {
        &&& self.index.covers(self.map@)
        &&& self@.layout.wf()
    }

    /// The same file and the same index.
    pub open spec fn same_file(&self, other: &Doc) -> bool {
        &&& self.map == other.map
        &&& self.index == other.index
    }

    /// Opens a file whose bytes are `map`. Indexing has not begun.
    pub fn open(path: Vec<u8>, map: Arc<Mmap>) -> (r: Doc)
        ensures
            r.wf(),
            r.map == map,
            r.index.fresh(),
            csv::sniffs(map@, path@, r.delim),
            r@ == opened(path@, map@, r.delim),
            path::name_of(path@) matches Some(n) ==> (vstd::utf8::valid_utf8(n) ==> r.name@
                == vstd::utf8::decode_utf8(n)),
    {
        let index = Index::new();
        let delim = csv::sniff_delimiter(map.bytes(), path.as_slice());
        let name = match path::file_name(path.as_slice()) {
            Some(n) => text::from_utf8_lossy(n.as_slice()),
            None => String::new(),
        };
        let (headers, widths, numeric) = lay_out(map.bytes(), delim, true);
        let size: usize = map.len();
        proof {
            assert(size == map@.len());
            index::lemma_fresh_covers(index, map@);
            lemma_layout(map@, delim, true);
        }
        let r = Doc {
            path,
            name,
            map,
            index,
            delim,
            has_header: true,
            headers,
            widths,
            numeric,
            row: 0,
            col: 0,
            row_off: 0,
            col_off: 0,
        };
        r
    }
}

/// A file that was just opened.
pub open spec fn opened(path: Seq<u8>, data: Seq<u8>, delim: u8) -> Table {
    Table {
        path,
        name: match path::name_of(path) {
            Some(n) => text::utf8_lossy(n),
            None => seq![],
        },
        data,
        found: 0,
        scanned: 0,
        done: false,
        cancelled: false,
        delim,
        has_header: true,
        layout: layout_of(data, delim, true),
        row: 0,
        col: 0,
        row_off: 0,
        col_off: 0,
    }
}

impl Doc {
    /// The bytes of the file.
    pub fn data(&self) -> (r: &[u8])
        ensures
            r@ == self@.data,
    {
        self.map.bytes()
    }

    /// The file itself.
    pub fn map(&self) -> (r: &Arc<Mmap>)
        ensures
            *r == self.map,
    {
        &self.map
    }

    /// Number of bytes in the file.
    pub fn size(&self) -> (r: usize)
        ensures
            r == self@.data.len(),
    {
        self.map.len()
    }

    fn hdr(&self) -> (r: usize)
        ensures
            r == self@.hdr(),
    {
        if self.has_header {
            1
        } else {
            0
        }
    }

    /// Number of data rows indexed so far.
    pub fn rows(&self) -> (r: usize)
        ensures
            r == self@.rows(),
    {
        self.index.rows().saturating_sub(self.hdr())
    }

    /// Number of columns.
    pub fn ncols(&self) -> (r: usize)
        ensures
            r == self@.ncols(),
    {
        self.widths.len()
    }

    /// Where data row `row` starts.
    pub fn record_start(&self, row: usize) -> (r: Option<usize>)
        requires
            self.wf(),
        ensures
            r is Some <==> self@.record(row as int) is Some,
            r matches Some(s) ==> self@.record(row as int) == Some(s as int) && s
                < self@.data.len(),
    {
        let at = row.saturating_add(self.hdr());
        proof {
            lemma_record(*self, row as int);
        }
        self.index.record_start(self.data(), at)
    }

    /// Parses data row `row` into raw field ranges.
    pub fn read_row(&self, row: usize, fields: &mut Vec<(usize, usize)>) -> (r: bool)
        requires
            self.wf(),
        ensures
            r == (self@.row_fields(row as int) is Some),
            r ==> self@.row_fields(row as int) == Some(csv::ranges(final(fields)@)),
            !r ==> final(fields)@ == old(fields)@,
            r ==> forall|k: int|
                0 <= k < final(fields)@.len() ==> (#[trigger] final(fields)@[k]).0 <= final(
                    fields)@[k].1 <= self@.data.len(),
    {
        match self.record_start(row) {
            Some(s) => {
                csv::parse_record(self.data(), s, self.delim, fields);
                proof {
                    lemma_ranges_inside(self@.data, s as int, self.delim, fields@);
                }
                true
            },
            None => false,
        }
    }

    /// Converts a byte offset into (data row, column). Leaves the fields of its
    /// record in `fields`.
    pub fn locate(&self, off: usize, fields: &mut Vec<(usize, usize)>) -> (r: (usize, usize))
        requires
            self.wf(),
            off < self@.data.len(),
        ensures
            (r.0 as int, r.1 as int) == self@.located(off as int),
            csv::ranges(final(fields)@) == self@.fields_around(off as int),
            r.1 < final(fields)@.len(),
    {
        let data = self.data();
        let phys = self.index.record_of_offset(data, off);
        proof {
            lemma_record_at(data@, off as int, phys as int);
            if phys < self.index.rows {
                index::lemma_covered_row(self.index, data@, phys as int);
            }
        }
        let start = match self.index.record_start(data, phys) {
            Some(s) => s,
            None => 0,
        };
        csv::parse_record(data, start, self.delim, fields);
        let ghost fv = csv::record_fields(data@, start as int, self.delim);
        proof {
            csv::fields_tile_the_record(data@, start as int, self.delim);
            assert(fields@.len() == csv::ranges(fields@).len());
        }
        let last: usize = fields.len() - 1;
        let mut k: usize = 0;
        while k < last && off >= fields[k].1
            invariant
                k <= last,
                last + 1 == fields@.len() == fv.len(),
                csv::ranges(fields@) == fv,
                field_at(fv, off as int, 0) == field_at(fv, off as int, k as int),
            decreases fields@.len() - k,
        {
            assert(fv[k as int] == csv::ranges(fields@)[k as int]);
            k += 1;
        }
        proof {
            if k < last {
                assert(fv[k as int] == csv::ranges(fields@)[k as int]);
            }
        }
        (phys.saturating_sub(self.hdr()), k)
    }

    /// Derives column names, widths and alignment from a bounded sample.
    pub fn analyze(&mut self)
        requires
            old(self).wf(),
        ensures
            final(self).wf(),
            final(self).same_file(old(self)),
            final(self)@ == old(self)@.analyzed(),
    {
        let (headers, widths, numeric) = lay_out(self.map.bytes(), self.delim, self.has_header);
        proof {
            lemma_layout(self.map@, self.delim, self.has_header);
        }
        let last: usize = widths.len() - 1;
        self.headers = headers;
        self.widths = widths;
        self.numeric = numeric;
        if self.col > last {
            self.col = last;
        }
        if self.col_off > self.col {
            self.col_off = self.col;
        }
    }

    /// Adds columns discovered in rows wider than the sample.
    pub fn ensure_cols(&mut self, n: usize)
        requires
            old(self).wf(),
        ensures
            final(self).wf(),
            final(self).same_file(old(self)),
            final(self)@ == old(self)@.with_cols(n as int),
    {
        let ghost want = self@.layout.with_cols(n as int);
        let ghost before = *self;
        while self.widths.len() < n
            invariant
                self.wf(),
                self.same_file(&before),
                want == self@.layout.with_cols(n as int),
                self@ == (Table { layout: self@.layout, ..before@ }),
            decreases n - self.widths@.len(),
        {
            let ghost l = self@.layout;
            let name = col_name(self.widths.len());
            self.headers.push(name);
            self.widths.push(8);
            self.numeric.push(false);
            proof {
                assert(text::texts(self.headers@) =~= l.headers.push(
                    col_text(l.widths.len() as int),
                ));
                assert forall|c: int| 0 <= c < self.widths@.len() implies 1
                    <= #[trigger] self.widths@[c] <= 500 by {
                    if c < l.widths.len() {
                        assert(self.widths@[c] == l.widths[c]);
                    }
                }
            }
        }
    }

    /// Takes the first record as the header, or no longer.
    pub fn toggle_header(&mut self)
        requires
            old(self).wf(),
        ensures
            final(self).wf(),
            final(self).same_file(old(self)),
            final(self)@ == old(self)@.header_toggled(),
    {
        self.has_header = !self.has_header;
        let off: isize = if self.has_header {
            -1
        } else {
            1
        };
        self.row = util::add_signed(self.row, off);
        self.analyze();
        self.clamp();
    }

    /// Goes over to the next delimiter.
    pub fn cycle_delimiter(&mut self)
        requires
            old(self).wf(),
        ensures
            final(self).wf(),
            final(self).same_file(old(self)),
            final(self)@ == old(self)@.delim_cycled(),
    {
        self.delim = match self.delim {
            0x2c => 0x3b,
            0x3b => 0x09,
            0x09 => 0x7c,
            _ => 0x2c,
        };
        self.col = 0;
        self.col_off = 0;
        self.analyze();
    }

    /// Changes the width of column `c`.
    fn set_width(&mut self, c: usize, w: u16)
        requires
            old(self).wf(),
            c < old(self)@.ncols(),
            1 <= w <= 500,
        ensures
            final(self).wf(),
            final(self).same_file(old(self)),
            final(self)@ == (Table {
                layout: Layout {
                    widths: old(self)@.layout.widths.update(c as int, w),
                    ..old(self)@.layout
                },
                ..old(self)@
            }),
    {
        let ghost l = self@.layout;
        self.widths[c] = w;
        proof {
            assert forall|k: int| 0 <= k < self.widths@.len() implies 1
                <= #[trigger] self.widths@[k] <= 500 by {
                if k != c {
                    assert(self.widths@[k] == l.widths[k]);
                }
            }
        }
    }

    /// Makes the current column wider by `delta`.
    pub fn resize_col(&mut self, delta: i16)
        requires
            old(self).wf(),
        ensures
            final(self).wf(),
            final(self).same_file(old(self)),
            final(self)@ == old(self)@.col_resized(delta as int),
    {
        if self.col < self.widths.len() {
            let w = self.widths[self.col] as i32 + delta as i32;
            let to: u16 = if w < 1 {
                1
            } else if w > 500 {
                500
            } else {
                w as u16
            };
            self.set_width(self.col, to);
        }
    }

    /// Fits the current column to the widest of the given rows.
    pub fn autofit(&mut self, first: usize, count: usize)
        requires
            old(self).wf(),
            old(self)@.col < old(self)@.ncols(),
        ensures
            final(self).wf(),
            final(self).same_file(old(self)),
            final(self)@ == old(self)@.fitted(first as int, count as int),
    {
        let col = self.col;
        let mut fields: Vec<(usize, usize)> = Vec::new();
        let mut buf = String::new();
        assert(self@.layout.headers[col as int] == self.headers@[col as int]@);
        let tw = str_width(self.headers[col].as_str());
        let mut w: usize = if tw < 200 {
            tw
        } else {
            200
        };
        let ghost w0 = w as int;
        let data = self.data();
        let start = self.record_start(first);
        let rows = self.rows();
        if let Some(s) = start {
            let left = rows.saturating_sub(first);
            let n: usize = if count < left {
                count
            } else {
                left
            };
            proof {
                screen::lemma_width_le_bytes(self@.layout.headers[col as int]);
            }
            let mut pos: usize = s;
            let mut i: usize = 0;
            while i < n
                invariant
                    *self == *old(self),
                    self.wf(),
                    data@ == self@.data,
                    col == self.col,
                    i <= n,
                    pos <= data@.len(),
                    w <= 200,
                    fit_width(data@, self.delim, s as int, n as int, col as int, w0) == fit_width(
                        data@,
                        self.delim,
                        pos as int,
                        n - i,
                        col as int,
                        w as int,
                    ),
                decreases n - i,
            {
                let at = pos;
                pos = csv::parse_record(data, at, self.delim, &mut fields);
                proof {
                    lemma_ranges_inside(data@, at as int, self.delim, fields@);
                    csv::lemma_split_end(data@, at as int, self.delim);
                }
                if col < fields.len() {
                    let (a, b) = fields[col];
                    let raw = &data[a..b];
                    assert(csv::ranges(fields@)[col as int] == (a as int, b as int));
                    assert(cell(data@, self.delim, at as int, col as int) == Some(raw@));
                    let (v, _) = csv::decode_field(raw, 200, false, &mut buf);
                    if w < v {
                        w = v;
                    }
                } else {
                    assert(cell(data@, self.delim, at as int, col as int) is None) by {
                        assert(csv::ranges(fields@).len() == fields@.len());
                    }
                }
                i += 1;
            }
        }
        let to: u16 = if w < 1 {
            1
        } else {
            w as u16
        };
        assert(to == self@.fitting_width(first as int, count as int));
        self.set_width(col, to);
    }

    /// Moves the cursor by `delta` rows.
    pub fn move_row(&mut self, delta: isize)
        requires
            old(self).wf(),
        ensures
            final(self).wf(),
            final(self).same_file(old(self)),
            final(self)@ == old(self)@.moved_row(delta as int),
    {
        self.row = util::add_signed(self.row, delta);
        self.clamp();
    }

    /// Moves the cursor by `delta` columns.
    pub fn move_col(&mut self, delta: isize)
        requires
            old(self).wf(),
        ensures
            final(self).wf(),
            final(self).same_file(old(self)),
            final(self)@ == old(self)@.moved_col(delta as int),
    {
        self.col = util::add_signed(self.col, delta);
        self.clamp();
    }

    /// Keeps the cursor inside the table.
    pub fn clamp(&mut self)
        requires
            old(self).wf(),
        ensures
            final(self).wf(),
            final(self).same_file(old(self)),
            final(self)@ == old(self)@.clamped(),
    {
        let last_row = self.rows().saturating_sub(1);
        if self.row > last_row {
            self.row = last_row;
        }
        let last_col = self.ncols().saturating_sub(1);
        if self.col > last_col {
            self.col = last_col;
        }
    }

    /// Sets the widths of the first columns.
    pub fn set_widths(&mut self, ws: &Vec<u16>)
        requires
            old(self).wf(),
            ws@.len() <= old(self)@.ncols(),
            forall|c: int| 0 <= c < ws@.len() ==> 1 <= #[trigger] ws@[c] <= 500,
        ensures
            final(self).wf(),
            final(self).same_file(old(self)),
            final(self)@ == (Table {
                layout: Layout {
                    widths: ws@ + old(self)@.layout.widths.skip(ws@.len() as int),
                    ..old(self)@.layout
                },
                ..old(self)@
            }),
    {
        let ghost l = self@.layout;
        let ghost before = *self;
        let mut c: usize = 0;
        assert(ws@.take(0) + l.widths.skip(0) =~= l.widths);
        while c < ws.len()
            invariant
                c <= ws@.len() <= l.widths.len(),
                self.same_file(&before),
                before.wf(),
                l == before@.layout,
                self@ == (Table {
                    layout: Layout {
                        widths: ws@.take(c as int) + l.widths.skip(c as int),
                        ..l
                    },
                    ..before@
                }),
            decreases ws@.len() - c,
        {
            self.widths[c] = ws[c];
            c += 1;
            assert(self.widths@ =~= ws@.take(c as int) + l.widths.skip(c as int));
        }
        assert(ws@.take(c as int) =~= ws@);
        proof {
            assert forall|k: int| 0 <= k < self.widths@.len() implies 1
                <= #[trigger] self.widths@[k] <= 500 by {
                if k < ws@.len() {
                    assert(self.widths@[k] == ws@[k]);
                } else {
                    assert(self.widths@[k] == l.widths[k]);
                }
            }
        }
    }

    /// Takes up news of the index, which are right about the file.
    pub fn publish(&mut self, batch: Batch)
        requires
            old(self).wf(),
            index::right_about(
                old(self).index.checkpoints@ + batch.local@,
                batch.rows as int,
                batch.scanned as int,
                batch.done,
                old(self)@.data,
            ),
        ensures
            final(self).wf(),
            final(self).map == old(self).map,
            final(self)@ == (Table {
                found: batch.rows as int,
                scanned: batch.scanned as int,
                done: batch.done,
                ..old(self)@
            }),
    {
        self.index.publish(batch);
    }
}

/// The fields of a record lie inside the data.
pub proof fn lemma_ranges_inside(data: Seq<u8>, pos: int, delim: u8, fields: Seq<(usize, usize)>)
    requires
        0 <= pos <= data.len(),
        csv::ranges(fields) == csv::record_fields(data, pos, delim),
    ensures
        forall|k: int|
            0 <= k < fields.len() ==> (#[trigger] fields[k]).0 <= fields[k].1 <= data.len(),
{
    csv::fields_tile_the_record(data, pos, delim);
    let fv = csv::record_fields(data, pos, delim);
    assert(csv::ranges(fields).len() == fields.len());
    assert forall|k: int| 0 <= k < fields.len() implies (#[trigger] fields[k]).0 <= fields[k].1
        <= data.len() by {
        assert(csv::ranges(fields)[k] == fv[k]);
    }
}

// ---------------------------------------------------------------------------
// What holds of the cursor
// ---------------------------------------------------------------------------

/// A clamped cursor is inside the table: on a row and a column that are there,
/// or on the first row of none.
pub proof fn clamped_cursor_is_inside(t: Table)
    requires
        t.layout.wf(),
        0 <= t.row,
        0 <= t.col,
    ensures
        0 <= t.clamped().col < t.ncols(),
        0 <= t.clamped().row,
        t.clamped().row < t.rows() || t.rows() == 0 && t.clamped().row == 0,
        t.clamped().clamped() == t.clamped(),
{
}

/// Taking the first record as the header, or no longer, keeps the cursor on its
/// record, unless that record becomes the header.
pub proof fn toggling_the_header_keeps_the_record(t: Table)
    requires
        0 <= t.row < usize::MAX,
        t.record(t.row) is Some,
        t.has_header || t.row > 0,
    ensures
        t.header_toggled().record(t.header_toggled().row) == t.record(t.row),
{
}

/// Four times the next delimiter is the same delimiter again.
pub proof fn delimiters_form_a_cycle(d: u8)
    requires
        d == 0x2c || d == 0x3b || d == 0x09 || d == 0x7c,
    ensures
        next_delim(next_delim(next_delim(next_delim(d)))) == d,
{
}

/// The first field that ends behind `off`, when `off` lies in field `c`.
proof fn lemma_field_at(f: Seq<(int, int)>, off: int, k: int, c: int)
    requires
        0 <= k <= c < f.len(),
        f[c].0 <= off < f[c].1,
        forall|j: int| 0 <= j < f.len() ==> (#[trigger] f[j]).0 <= f[j].1,
        forall|j: int| 0 <= j < f.len() - 1 ==> f[j + 1].0 == (#[trigger] f[j]).1 + 1,
    ensures
        field_at(f, off, k) == c,
    decreases c - k,
{
    if k < c {
        lemma_fields_ascend(f, k, c);
        lemma_field_at(f, off, k + 1, c);
    }
}

proof fn lemma_fields_ascend(f: Seq<(int, int)>, k: int, c: int)
    requires
        0 <= k < c < f.len(),
        forall|j: int| 0 <= j < f.len() ==> (#[trigger] f[j]).0 <= f[j].1,
        forall|j: int| 0 <= j < f.len() - 1 ==> f[j + 1].0 == (#[trigger] f[j]).1 + 1,
    ensures
        f[k].1 < f[c].0,
    decreases c - k,
{
    assert(f[k + 1].0 == f[k].1 + 1);
    if k + 1 < c {
        assert(f[k + 1].0 <= f[k + 1].1);
        lemma_fields_ascend(f, k + 1, c);
    }
}

/// A byte is located in the cell that it belongs to: the one of column `c` of
/// row `row`, when it lies in that field.
pub proof fn locating_finds_the_cell(d: Doc, row: int, c: int, off: int)
    requires
        d.wf(),
        d.delim != csv::NL,
        0 <= row,
        d@.row_fields(row) matches Some(f) && 0 <= c < f.len() && f[c].0 <= off < f[c].1,
    ensures
        d@.located(off) == (row, c),
{
    let t = d@;
    let data = t.data;
    let k = row + t.hdr();
    let start = index::start_of(data, k);
    let f = csv::record_fields(data, start, d.delim);
    index::lemma_covered_row(d.index, data, k);
    csv::fields_tile_the_record(data, start, d.delim);
    assert(index::start_of(data, k + 1) == csv::record_end(data, start));
    assert(f[c].1 <= csv::split_end(data, start, d.delim));
    lemma_record_at(data, off, k);
    lemma_field_at(f, off, 0, c);
}

} // verus!
