//! CSV records: where they end, how they split into fields, how a field is
//! shown, which delimiter a file uses.

use crate::screen::char_width;
use crate::{path, screen, text};
use vstd::prelude::*;

verus! {

/// `"`
pub const QUOTE: u8 = 0x22;

/// Line feed.
pub const NL: u8 = 0x0a;

/// Carriage return.
pub const CR: u8 = 0x0d;

// ---------------------------------------------------------------------------
// Records
// ---------------------------------------------------------------------------

/// Position of the first byte equal to `a` or `b`.
pub fn find2(hay: &[u8], a: u8, b: u8) -> (r: Option<usize>)
    ensures
        match r {
            Some(p) => p < hay@.len() && (hay@[p as int] == a || hay@[p as int] == b) && forall|j: int|
                0 <= j < p ==> hay@[j] != a && hay@[j] != b,
            None => forall|j: int| 0 <= j < hay@.len() ==> hay@[j] != a && hay@[j] != b,
        },
{
    let mut i: usize = 0;
    while i < hay.len()
        invariant
            i <= hay@.len(),
            forall|j: int| 0 <= j < i ==> hay@[j] != a && hay@[j] != b,
        decreases hay@.len() - i,
    {
        if hay[i] == a || hay[i] == b {
            return Some(i);
        }
        i += 1;
    }
    None
}

/// Offset right after the first newline outside quotes at or after byte `i`
/// (the length when there is none), where `in_q` tells whether byte `i` is
/// reached inside quotes.
pub open spec fn record_end_from(data: Seq<u8>, i: int, in_q: bool) -> int
    decreases data.len() - i,
{
    if i >= data.len() {
        data.len() as int
    } else if data[i] == QUOTE {
        record_end_from(data, i + 1, !in_q)
    } else if data[i] == NL && !in_q {
        i + 1
    } else {
        record_end_from(data, i + 1, in_q)
    }
}

/// Offset of the record following the one that starts at `pos`.
pub open spec fn record_end(data: Seq<u8>, pos: int) -> int {
    record_end_from(data, pos, false)
}

/// Whether an odd number of quotes stands in `data[from..i]`.
pub open spec fn quoted(data: Seq<u8>, from: int, i: int) -> bool
    decreases i - from,
{
    if i <= from {
        false
    } else {
        quoted(data, from, i - 1) != (data[i - 1] == QUOTE)
    }
}

/// Whether byte `i` is a newline that ends a record begun at `from` or later.
pub open spec fn ends_record(data: Seq<u8>, from: int, i: int) -> bool {
    data[i] == NL && !quoted(data, from, i)
}

/// Scanning on from `i` inside a record begun at `from` finds the same end.
proof fn lemma_record_end_from(data: Seq<u8>, from: int, i: int)
    requires
        0 <= from <= i <= data.len(),
    ensures
        ({
            let e = record_end_from(data, i, quoted(data, from, i));
            &&& i <= e <= data.len()
            &&& i < data.len() ==> i < e
            &&& forall|j: int| i <= j < e - 1 ==> !ends_record(data, from, j)
            &&& e > i && !ends_record(data, from, e - 1) ==> e == data.len()
        }),
    decreases data.len() - i,
{
    if i < data.len() {
        assert(quoted(data, from, i + 1) == (quoted(data, from, i) != (data[i] == QUOTE)));
        if !(data[i] == NL && !quoted(data, from, i)) {
            lemma_record_end_from(data, from, i + 1);
            let e = record_end_from(data, i + 1, quoted(data, from, i + 1));
            assert(record_end_from(data, i, quoted(data, from, i)) == e);
            assert(!ends_record(data, from, i));
        }
    }
}

/// A record ends right after its first newline that stands outside quotes,
/// and reaches to the end of the data when it has none.
pub proof fn record_end_is_first_unquoted_newline(data: Seq<u8>, pos: int)
    requires
        0 <= pos < data.len(),
    ensures
        pos < record_end(data, pos) <= data.len(),
        forall|j: int| pos <= j < record_end(data, pos) - 1 ==> !ends_record(data, pos, j),
        record_end(data, pos) < data.len() ==> ends_record(data, pos, record_end(data, pos) - 1),
{
    lemma_record_end_from(data, pos, pos);
}

/// Skipping bytes that are neither quotes nor newlines changes nothing.
proof fn lemma_skip_plain(data: Seq<u8>, i: int, j: int, in_q: bool)
    requires
        0 <= i <= j <= data.len(),
        forall|k: int| i <= k < j ==> data[k] != NL && data[k] != QUOTE,
    ensures
        record_end_from(data, i, in_q) == record_end_from(data, j, in_q),
    decreases j - i,
{
    if i < j {
        lemma_skip_plain(data, i + 1, j, in_q);
    }
}

/// Offset of the record following the one starting at `pos`.
pub fn next_record(data: &[u8], pos: usize) -> (r: usize)
    requires
        pos <= data@.len(),
    ensures
        r == record_end(data@, pos as int),
        pos <= r <= data@.len(),
        pos < data@.len() ==> pos < r,
{
    proof {
        lemma_record_end_from(data@, pos as int, pos as int);
    }
    let mut at: usize = pos;
    let mut in_q = false;
    loop
        invariant
            at <= data@.len(),
            record_end(data@, pos as int) == record_end_from(data@, at as int, in_q),
            pos <= record_end(data@, pos as int) <= data@.len(),
            pos < data@.len() ==> pos < record_end(data@, pos as int),
        decreases data@.len() - at,
    {
        let tail = &data[at..data.len()];
        let ghost from = at as int;
        match find2(tail, NL, QUOTE) {
            None => {
                proof {
                    assert forall|k: int| from <= k < data@.len() implies data@[k] != NL && data@[k]
                        != QUOTE by {
                        assert(tail@[k - from] == data@[k]);
                    }
                    lemma_skip_plain(data@, from, data@.len() as int, in_q);
                }
                return data.len();
            },
            Some(p) => {
                proof {
                    assert forall|k: int| from <= k < from + p implies data@[k] != NL && data@[k]
                        != QUOTE by {
                        assert(tail@[k - from] == data@[k]);
                    }
                    lemma_skip_plain(data@, from, from + p, in_q);
                    assert(tail@[p as int] == data@[from + p]);
                }
                at = at + p + 1;
                if data[at - 1] == QUOTE {
                    in_q = !in_q;
                } else if !in_q {
                    return at;
                }
            },
        }
    }
}

/// End of a field that stops before byte `i`: a carriage return right before
/// the end of the record is left out.
pub open spec fn without_cr(data: Seq<u8>, start: int, i: int) -> int {
    if i > start && data[i - 1] == CR {
        i - 1
    } else {
        i
    }
}

/// The raw field ranges of a record from byte `i` on, the current field having
/// begun at `start`.
pub open spec fn fields_from(data: Seq<u8>, i: int, start: int, in_q: bool, delim: u8) -> Seq<
    (int, int),
>
    decreases data.len() - i,
{
    if i >= data.len() {
        seq![(start, without_cr(data, start, i))]
    } else if data[i] == QUOTE {
        fields_from(data, i + 1, start, !in_q, delim)
    } else if !in_q && data[i] == delim {
        seq![(start, i)] + fields_from(data, i + 1, i + 1, in_q, delim)
    } else if !in_q && data[i] == NL {
        seq![(start, without_cr(data, start, i))]
    } else {
        fields_from(data, i + 1, start, in_q, delim)
    }
}

/// The raw `(start, end)` field ranges of the record at `pos`, quotes included.
pub open spec fn record_fields(data: Seq<u8>, pos: int, delim: u8) -> Seq<(int, int)> {
    fields_from(data, pos, pos, false, delim)
}

/// Where the record at `pos` ends when `delim` separates its fields.
pub open spec fn split_end(data: Seq<u8>, pos: int, delim: u8) -> int {
    if delim == NL {
        data.len() as int
    } else {
        record_end(data, pos)
    }
}

/// A record ends inside the data, behind its start.
pub proof fn lemma_split_end(data: Seq<u8>, pos: int, delim: u8)
    requires
        0 <= pos <= data.len(),
    ensures
        pos <= split_end(data, pos, delim) <= data.len(),
        pos < data.len() ==> pos < split_end(data, pos, delim),
{
    lemma_record_end_from(data, pos, pos);
}

/// Byte ranges as pairs of integers.
pub open spec fn ranges(v: Seq<(usize, usize)>) -> Seq<(int, int)> {
    Seq::new(v.len(), |k: int| (v[k].0 as int, v[k].1 as int))
}

/// Splits the record at `pos` into raw `(start, end)` field ranges (quotes
/// included). Returns the offset of the next record.
pub fn parse_record(data: &[u8], pos: usize, delim: u8, fields: &mut Vec<(usize, usize)>) -> (r: usize)
    ensures
        ranges(final(fields)@) == record_fields(data@, pos as int, delim),
        r == split_end(data@, pos as int, delim),
{
    fields.clear();
    let mut start: usize = pos;
    let mut i: usize = pos;
    let mut in_q = false;
    assert(ranges(fields@) + record_fields(data@, pos as int, delim) =~= record_fields(
        data@,
        pos as int,
        delim,
    ));
    while i < data.len()
        invariant
            pos <= start <= i,
            i <= data@.len() || i == pos,
            record_fields(data@, pos as int, delim) == ranges(fields@) + fields_from(
                data@,
                i as int,
                start as int,
                in_q,
                delim,
            ),
            delim != NL ==> record_end(data@, pos as int) == record_end_from(
                data@,
                i as int,
                in_q,
            ),
        decreases data@.len() - i,
    {
        let b = data[i];
        if b == QUOTE {
            in_q = !in_q;
        } else if !in_q {
            if b == delim {
                let ghost before = fields@;
                fields.push((start, i));
                proof {
                    let rest = fields_from(data@, i + 1, i + 1, in_q, delim);
                    assert(ranges(before) + (seq![(start as int, i as int)] + rest) =~= ranges(
                        fields@,
                    ) + rest);
                }
                start = i + 1;
            } else if b == NL {
                let end = if i > start && data[i - 1] == CR {
                    i - 1
                } else {
                    i
                };
                let ghost before = fields@;
                fields.push((start, end));
                assert(ranges(before) + seq![(start as int, end as int)] =~= ranges(fields@));
                return i + 1;
            }
        }
        i += 1;
    }
    let end = if i > start && data[i - 1] == CR {
        i - 1
    } else {
        i
    };
    let ghost before = fields@;
    fields.push((start, end));
    assert(ranges(before) + seq![(start as int, end as int)] =~= ranges(fields@));
    data.len()
}

/// The fields of a record tile it: the first one begins where the record
/// does, each other one right behind the delimiter that ends the one before.
/// All lie inside the record, and there are at most as many as bytes and one.
pub proof fn fields_tile_the_record(data: Seq<u8>, pos: int, delim: u8)
    requires
        0 <= pos <= data.len(),
    ensures
        ({
            let f = record_fields(data, pos, delim);
            &&& 1 <= f.len() <= data.len() - pos + 1
            &&& f[0].0 == pos
            &&& forall|k: int| 0 <= k < f.len() ==> pos <= (#[trigger] f[k]).0 <= f[k].1
                <= data.len()
            &&& forall|k: int|
                0 <= k < f.len() - 1 ==> data[(#[trigger] f[k]).1] == delim && f[k + 1].0 == f[k].1
                    + 1
            &&& forall|k: int|
                0 <= k < f.len() ==> (#[trigger] f[k]).1 <= split_end(data, pos, delim)
        }),
{
    lemma_fields_from(data, pos, pos, false, delim);
    if delim != NL {
        lemma_fields_end(data, pos, pos, false, delim);
    }
}

/// Whether ranges end at `e` or before.
spec fn end_by(f: Seq<(int, int)>, e: int) -> bool {
    forall|k: int| 0 <= k < f.len() ==> (#[trigger] f[k]).1 <= e
}

proof fn lemma_fields_end(data: Seq<u8>, i: int, start: int, in_q: bool, delim: u8)
    requires
        0 <= start <= i <= data.len(),
        delim != NL,
    ensures
        i <= record_end_from(data, i, in_q),
        end_by(fields_from(data, i, start, in_q, delim), record_end_from(data, i, in_q)),
    decreases data.len() - i,
{
    if i < data.len() {
        if data[i] == QUOTE {
            lemma_fields_end(data, i + 1, start, !in_q, delim);
        } else if !in_q && data[i] == delim {
            lemma_fields_end(data, i + 1, i + 1, in_q, delim);
            let g = fields_from(data, i + 1, i + 1, in_q, delim);
            let f = seq![(start, i)] + g;
            let e = record_end_from(data, i, in_q);
            assert forall|k: int| 0 <= k < f.len() implies (#[trigger] f[k]).1 <= e by {
                if k > 0 {
                    assert(f[k] == g[k - 1]);
                }
            }
        } else if !in_q && data[i] == NL {
        } else {
            lemma_fields_end(data, i + 1, start, in_q, delim);
        }
    }
}

proof fn lemma_fields_from(data: Seq<u8>, i: int, start: int, in_q: bool, delim: u8)
    requires
        0 <= start <= i <= data.len(),
    ensures
        ({
            let f = fields_from(data, i, start, in_q, delim);
            &&& 1 <= f.len() <= data.len() - i + 1
            &&& f[0].0 == start
            &&& forall|k: int| 0 <= k < f.len() ==> start <= (#[trigger] f[k]).0 <= f[k].1
                <= data.len()
            &&& forall|k: int|
                0 <= k < f.len() - 1 ==> data[(#[trigger] f[k]).1] == delim && f[k + 1].0 == f[k].1
                    + 1
        }),
    decreases data.len() - i,
{
    if i < data.len() {
        if data[i] == QUOTE {
            lemma_fields_from(data, i + 1, start, !in_q, delim);
        } else if !in_q && data[i] == delim {
            lemma_fields_from(data, i + 1, i + 1, in_q, delim);
            let g = fields_from(data, i + 1, i + 1, in_q, delim);
            let f = seq![(start, i)] + g;
            assert forall|k: int| 0 <= k < f.len() implies start <= (#[trigger] f[k]).0 <= f[k].1
                <= data.len() by {
                if k > 0 {
                    assert(f[k] == g[k - 1]);
                }
            }
            assert forall|k: int| 0 <= k < f.len() - 1 implies data[(#[trigger] f[k]).1] == delim
                && f[k + 1].0 == f[k].1 + 1 by {
                assert(f[k + 1] == g[k]);
                if k > 0 {
                    assert(f[k] == g[k - 1]);
                }
            }
        } else if !in_q && data[i] == NL {
        } else {
            lemma_fields_from(data, i + 1, start, in_q, delim);
        }
    }
}

/// Delimiters and newlines between quotes do not split a record: where every
/// such byte of `data[i..j]` stands inside quotes that are closed by then, the
/// record goes on behind `j` in the field it was in.
pub proof fn quoted_text_is_not_split(data: Seq<u8>, i: int, j: int, start: int, delim: u8)
    requires
        0 <= start <= i <= j <= data.len(),
        !quoted(data, i, j),
        delim != QUOTE,
        forall|k: int|
            i <= k < j && (data[k] == delim || data[k] == NL) ==> #[trigger] quoted(data, i, k),
    ensures
        fields_from(data, i, start, false, delim) == fields_from(data, j, start, false, delim),
        record_end_from(data, i, false) == record_end_from(data, j, false),
{
    lemma_skip_quoted(data, i, i, j, start, delim);
}

proof fn lemma_skip_quoted(data: Seq<u8>, from: int, i: int, j: int, start: int, delim: u8)
    requires
        0 <= start <= from <= i <= j <= data.len(),
        forall|k: int|
            from <= k < j && (data[k] == delim || data[k] == NL) ==> #[trigger] quoted(
                data,
                from,
                k,
            ),
        delim != QUOTE,
    ensures
        fields_from(data, i, start, quoted(data, from, i), delim) == fields_from(
            data,
            j,
            start,
            quoted(data, from, j),
            delim,
        ),
        record_end_from(data, i, quoted(data, from, i)) == record_end_from(
            data,
            j,
            quoted(data, from, j),
        ),
    decreases j - i,
{
    if i < j {
        assert(quoted(data, from, i + 1) == (quoted(data, from, i) != (data[i] == QUOTE)));
        lemma_skip_quoted(data, from, i + 1, j, start, delim);
    }
}

// ---------------------------------------------------------------------------
// Decoding
// ---------------------------------------------------------------------------

/// Whether the last of `cs` is a quote that may be the first half of `""`.
pub open spec fn quote_pending(cs: Seq<char>) -> bool
    decreases cs.len(),
{
    cs.len() > 0 && cs.last() == '"' && !quote_pending(cs.drop_last())
}

/// What stands for a character on the screen.
pub open spec fn shown_as(c: char, multiline: bool) -> char {
    if c == '\n' {
        if multiline {
            '\n'
        } else {
            '↵'
        }
    } else if c == '\t' {
        '→'
    } else if (c as u32) < 0x20 || c as u32 == 0x7f {
        '·'
    } else {
        c
    }
}

/// What is to be seen of a field's characters: carriage returns are dropped
/// and, in a quoted field, one quote of each `""` and the closing quote;
/// control characters are replaced.
pub open spec fn visible(cs: Seq<char>, quoted: bool, multiline: bool) -> Seq<char>
    decreases cs.len(),
{
    if cs.len() == 0 {
        seq![]
    } else {
        let v = visible(cs.drop_last(), quoted, multiline);
        if cs.last() == '\r' || (quoted && quote_pending(cs)) {
            v
        } else {
            v.push(shown_as(cs.last(), multiline))
        }
    }
}

/// Columns taken by a decoded text, whose line breaks take none.
pub open spec fn columns(s: Seq<char>) -> int
    decreases s.len(),
{
    if s.len() == 0 {
        0
    } else {
        columns(s.drop_last()) + if s.last() == '\n' {
            0
        } else {
            screen::width_of(s.last())
        }
    }
}

/// The first part of a text, as far as it fits into `max_w` columns.
pub open spec fn clipped(s: Seq<char>, max_w: int) -> Seq<char>
    decreases s.len(),
{
    if s.len() == 0 || columns(s) <= max_w {
        s
    } else {
        clipped(s.drop_last(), max_w)
    }
}

proof fn lemma_columns_take(s: Seq<char>, k: int)
    requires
        0 <= k <= s.len(),
    ensures
        0 <= columns(s.take(k)) <= columns(s),
    decreases s.len(),
{
    if s.len() > 0 {
        screen::lemma_width_range(s.last());
        if k < s.len() {
            assert(s.drop_last().take(k) =~= s.take(k));
            lemma_columns_take(s.drop_last(), k);
        } else {
            assert(s.take(k) =~= s);
            lemma_columns_take(s.drop_last(), k - 1);
            assert(s.drop_last().take(k - 1) =~= s.drop_last());
        }
    }
}

/// A decoded text keeps within its columns, and is all of the text when that
/// does.
pub proof fn clipped_text_fits(s: Seq<char>, max_w: int)
    requires
        0 <= max_w,
    ensures
        0 <= columns(clipped(s, max_w)) <= max_w,
        clipped(s, max_w).is_prefix_of(s),
        columns(s) <= max_w ==> clipped(s, max_w) == s,
    decreases s.len(),
{
    lemma_columns_take(s, s.len() as int);
    assert(s.take(s.len() as int) =~= s);
    if s.len() > 0 && columns(s) > max_w {
        clipped_text_fits(s.drop_last(), max_w);
    }
}

/// `clipped` stops before the first character that does not fit.
proof fn lemma_clip_stops(s: Seq<char>, k: int, max_w: int)
    requires
        0 <= k < s.len(),
        0 <= columns(s.take(k)) <= max_w < columns(s.take(k + 1)),
    ensures
        clipped(s, max_w) == s.take(k),
        columns(s) > max_w,
    decreases s.len(),
{
    lemma_columns_take(s, k + 1);
    if k + 1 == s.len() {
        assert(s.drop_last() =~= s.take(k));
        assert(clipped(s.take(k), max_w) == s.take(k));
    } else {
        assert(s.drop_last().take(k) =~= s.take(k));
        assert(s.drop_last().take(k + 1) =~= s.take(k + 1));
        lemma_clip_stops(s.drop_last(), k, max_w);
    }
}

proof fn lemma_visible_prefix(cs: Seq<char>, k: int, quoted: bool, multiline: bool)
    requires
        0 <= k <= cs.len(),
    ensures
        visible(cs.take(k), quoted, multiline).is_prefix_of(visible(cs, quoted, multiline)),
    decreases cs.len(),
{
    if k < cs.len() {
        lemma_visible_prefix(cs.drop_last(), k, quoted, multiline);
        assert(cs.drop_last().take(k) =~= cs.take(k));
    } else {
        assert(cs.take(k) =~= cs);
    }
}

/// A field being decoded.
struct Decoder {
    w: usize,
    max_w: usize,
    quoted: bool,
    multiline: bool,
    pending_quote: bool,
}

impl Decoder {
    /// The state after the characters `cs`, all of which fitted.
    spec fn after(&self, cs: Seq<char>, out: Seq<char>) -> bool {
        &&& out == visible(cs, self.quoted, self.multiline)
        &&& self.w == columns(out)
        &&& self.w <= self.max_w
        &&& self.pending_quote == (self.quoted && quote_pending(cs))
    }

    /// Appends one source character. Returns false when the width budget is
    /// exhausted.
    fn push(&mut self, c: char, out: &mut String, Ghost(cs): Ghost<Seq<char>>) -> (r: bool)
        requires
            old(self).after(cs, old(out)@),
        ensures
            final(self).max_w == old(self).max_w,
            final(self).quoted == old(self).quoted,
            final(self).multiline == old(self).multiline,
            r ==> final(self).after(cs.push(c), final(out)@),
            !r ==> {
                &&& final(out)@ == old(out)@
                &&& final(self).w == old(self).w
                &&& columns(visible(cs.push(c), old(self).quoted, old(self).multiline))
                    > old(self).max_w
                &&& visible(cs.push(c), old(self).quoted, old(self).multiline).drop_last()
                    == old(out)@
                &&& visible(cs.push(c), old(self).quoted, old(self).multiline).len() > 0
            },
    {
        let ghost v = visible(cs, self.quoted, self.multiline);
        proof {
            assert(cs.push(c).drop_last() =~= cs);
        }
        if self.quoted && c == '"' {
            // `""` is an escaped quote; a lone quote closes the field.
            self.pending_quote = !self.pending_quote;
            if self.pending_quote {
                return true;
            }
        } else {
            self.pending_quote = false;
        }
        if c == '\r' {
            return true;
        }
        if c == '\n' && self.multiline {
            out.push('\n');
            proof {
                assert(v.push('\n').drop_last() =~= v);
            }
            return true;
        }
        let s = if c == '\n' {
            '↵'
        } else if c == '\t' {
            '→'
        } else if (c as u32) < 0x20 || c as u32 == 0x7f {
            '·'
        } else {
            c
        };
        proof {
            assert(v.push(s).drop_last() =~= v);
        }
        let cw = char_width(s);
        if cw > self.max_w - self.w {
            return false;
        }
        out.push(s);
        self.w += cw;
        true
    }
}

/// Decodes the characters of a field for display into `out`. Stops once
/// `max_w` columns are filled. Returns the width and whether something was
/// left out.
pub fn decode_text(body: &str, quoted: bool, max_w: usize, multiline: bool, out: &mut String) -> (r: (
    usize,
    bool,
))
    ensures
        final(out)@ == clipped(visible(body@, quoted, multiline), max_w as int),
        r.0 == columns(final(out)@),
        r.1 == (columns(visible(body@, quoted, multiline)) > max_w),
{
    out.clear();
    let mut d = Decoder { w: 0, max_w, quoted, multiline, pending_quote: false };
    let chars = text::chars_of(body);
    let mut k: usize = 0;
    assert(body@.take(0) =~= Seq::<char>::empty());
    while k < chars.len()
        invariant
            chars@ == body@,
            k <= chars@.len(),
            d.after(body@.take(k as int), out@),
            d.max_w == max_w,
            d.quoted == quoted,
            d.multiline == multiline,
        decreases chars@.len() - k,
    {
        let c = chars[k];
        let ghost cs = body@.take(k as int);
        let ghost before = out@;
        assert(cs.push(c) =~= body@.take(k + 1));
        if !d.push(c, out, Ghost(cs)) {
            proof {
                let all = visible(body@, quoted, multiline);
                let some = visible(cs.push(c), quoted, multiline);
                lemma_visible_prefix(body@, k + 1, quoted, multiline);
                let n = before.len() as int;
                assert(all.take(n) =~= before);
                assert(all.take(n + 1) =~= some);
                lemma_clip_stops(all, n, max_w as int);
            }
            return (d.w, true);
        }
        k += 1;
    }
    assert(body@.take(k as int) =~= body@);
    (d.w, false)
}

/// A raw field without its opening quote.
pub open spec fn field_body(raw: Seq<u8>) -> Seq<u8> {
    if raw.len() > 0 && raw[0] == QUOTE {
        raw.skip(1)
    } else {
        raw
    }
}

/// The bytes of a raw field that are looked at to fill `max_w` columns.
pub open spec fn field_prefix(raw: Seq<u8>, max_w: int) -> Seq<u8> {
    let body = field_body(raw);
    if body.len() > 4 * (max_w + 2) {
        body.take(4 * (max_w + 2))
    } else {
        body
    }
}

/// What is to be seen of a raw field's prefix.
pub open spec fn field_visible(raw: Seq<u8>, max_w: int, multiline: bool) -> Seq<char> {
    visible(
        text::utf8_lossy(field_prefix(raw, max_w)),
        raw.len() > 0 && raw[0] == QUOTE,
        multiline,
    )
}

/// The decoded text of a raw field.
pub open spec fn field_text(raw: Seq<u8>, max_w: int, multiline: bool) -> Seq<char> {
    clipped(field_visible(raw, max_w, multiline), max_w)
}

/// Whether the decoded text leaves out something of the field.
pub open spec fn field_cut(raw: Seq<u8>, max_w: int, multiline: bool) -> bool {
    columns(field_visible(raw, max_w, multiline)) > max_w || field_body(raw).len() > 4 * (max_w
        + 2)
}

/// Decodes a raw field for display into `out`: strips quotes, unescapes `""`,
/// replaces control characters. Stops once `max_w` columns are filled. Returns
/// `(width, truncated)`. Only a bounded prefix of the field is ever looked at,
/// so multi-megabyte cells cost nothing.
pub fn decode_field(raw: &[u8], max_w: usize, multiline: bool, out: &mut String) -> (r: (
    usize,
    bool,
))
    ensures
        final(out)@ == field_text(raw@, max_w as int, multiline),
        r.0 == columns(final(out)@),
        r.0 <= max_w,
        r.1 == field_cut(raw@, max_w as int, multiline),
        vstd::utf8::valid_utf8(field_prefix(raw@, max_w as int)) ==> final(out)@ == clipped(
            visible(
                vstd::utf8::decode_utf8(field_prefix(raw@, max_w as int)),
                raw@.len() > 0 && raw@[0] == QUOTE,
                multiline,
            ),
            max_w as int,
        ),
        vstd::utf8::valid_utf8(field_prefix(raw@, max_w as int)) ==> r.1 == (columns(
            visible(
                vstd::utf8::decode_utf8(field_prefix(raw@, max_w as int)),
                raw@.len() > 0 && raw@[0] == QUOTE,
                multiline,
            ),
        ) > max_w || field_body(raw@).len() > 4 * (max_w + 2)),
{
    let quoted = raw.len() > 0 && raw[0] == QUOTE;
    let start: usize = if quoted {
        1
    } else {
        0
    };
    let len: usize = raw.len() - start;
    let want = max_w.saturating_add(2);
    let limit: usize = if want <= usize::MAX / 4 {
        want * 4
    } else {
        usize::MAX
    };
    let cut = len > limit;
    let end: usize = if cut {
        start + limit
    } else {
        raw.len()
    };
    let body = &raw[start..end];
    assert(body@ =~= field_prefix(raw@, max_w as int));
    let shown = text::from_utf8_lossy(body);
    let (w, more) = decode_text(shown.as_str(), quoted, max_w, multiline, out);
    proof {
        clipped_text_fits(field_visible(raw@, max_w as int, multiline), max_w as int);
    }
    (w, more || cut)
}

// ---------------------------------------------------------------------------
// Quoting
// ---------------------------------------------------------------------------

/// A text as it is written between quotes: every quote doubled.
pub open spec fn escaped(t: Seq<char>) -> Seq<char>
    decreases t.len(),
{
    if t.len() == 0 {
        seq![]
    } else if t.last() == '"' {
        escaped(t.drop_last()).push('"').push('"')
    } else {
        escaped(t.drop_last()).push(t.last())
    }
}

/// Whether a character is shown as it is: all but control characters are, and
/// line breaks where several lines can be shown.
pub open spec fn plain(c: char, multiline: bool) -> bool {
    (c as int >= 0x20 && c as int != 0x7f) || (multiline && c == '\n')
}

/// Such a character does stand for itself.
proof fn lemma_plain(c: char, multiline: bool)
    requires
        plain(c, multiline),
    ensures
        shown_as(c, multiline) == c,
        c != '\r',
{
    text::lemma_code_point(c);
}

proof fn lemma_visible_escaped(t: Seq<char>, multiline: bool)
    requires
        forall|k: int| 0 <= k < t.len() ==> plain(#[trigger] t[k], multiline),
    ensures
        visible(escaped(t), true, multiline) == t,
        !quote_pending(escaped(t)),
    decreases t.len(),
{
    if t.len() > 0 {
        let u = t.drop_last();
        lemma_visible_escaped(u, multiline);
        let e = escaped(u);
        let c = t.last();
        assert(plain(t[t.len() - 1], multiline));
        lemma_plain(c, multiline);
        assert(u.push(c) =~= t);
        assert(e.push(c).drop_last() =~= e);
        if c == '"' {
            assert(e.push('"').push('"').drop_last() =~= e.push('"'));
            assert(quote_pending(e.push('"')));
            assert(visible(e.push('"'), true, multiline) == u);
        }
    }
}

/// Quoting is undone: a text of characters that are shown as they are, written
/// between quotes with its own quotes doubled, reads back as it was and in full,
/// when there is room for it.
pub proof fn quoted_field_reads_back(t: Seq<char>, raw: Seq<u8>, max_w: int, multiline: bool)
    requires
        forall|k: int| 0 <= k < t.len() ==> plain(#[trigger] t[k], multiline),
        raw == seq![QUOTE] + vstd::utf8::encode_utf8(escaped(t).push('"')),
        columns(t) <= max_w,
        raw.len() <= 4 * (max_w + 2),
    ensures
        vstd::utf8::valid_utf8(field_prefix(raw, max_w)),
        clipped(
            visible(vstd::utf8::decode_utf8(field_prefix(raw, max_w)), true, multiline),
            max_w,
        ) == t,
        columns(visible(vstd::utf8::decode_utf8(field_prefix(raw, max_w)), true, multiline))
            <= max_w,
        field_body(raw).len() <= 4 * (max_w + 2),
{
    let e = escaped(t).push('"');
    let body = vstd::utf8::encode_utf8(e);
    assert(field_prefix(raw, max_w) =~= body);
    vstd::utf8::encode_utf8_valid_utf8(e);
    vstd::utf8::encode_utf8_decode_utf8(e);
    lemma_visible_escaped(t, multiline);
    assert(e.drop_last() =~= escaped(t));
    assert(quote_pending(e));
    assert(visible(e, true, multiline) == t);
}

/// An unquoted text of characters that are shown as they are reads back as it
/// was and in full, when there is room for it.
pub proof fn plain_field_reads_back(t: Seq<char>, raw: Seq<u8>, max_w: int, multiline: bool)
    requires
        forall|k: int| 0 <= k < t.len() ==> plain(#[trigger] t[k], multiline),
        raw == vstd::utf8::encode_utf8(t),
        raw.len() == 0 || raw[0] != QUOTE,
        columns(t) <= max_w,
        raw.len() <= 4 * (max_w + 2),
    ensures
        vstd::utf8::valid_utf8(field_prefix(raw, max_w)),
        clipped(
            visible(vstd::utf8::decode_utf8(field_prefix(raw, max_w)), false, multiline),
            max_w,
        ) == t,
        columns(visible(vstd::utf8::decode_utf8(field_prefix(raw, max_w)), false, multiline))
            <= max_w,
        field_body(raw).len() <= 4 * (max_w + 2),
{
    vstd::utf8::encode_utf8_valid_utf8(t);
    vstd::utf8::encode_utf8_decode_utf8(t);
    lemma_visible_plain(t, multiline);
}

proof fn lemma_visible_plain(t: Seq<char>, multiline: bool)
    requires
        forall|k: int| 0 <= k < t.len() ==> plain(#[trigger] t[k], multiline),
    ensures
        visible(t, false, multiline) == t,
    decreases t.len(),
{
    if t.len() > 0 {
        lemma_visible_plain(t.drop_last(), multiline);
        assert(plain(t[t.len() - 1], multiline));
        lemma_plain(t.last(), multiline);
        assert(t.drop_last().push(t.last()) =~= t);
    }
}

// ---------------------------------------------------------------------------
// Guessing
// ---------------------------------------------------------------------------

/// The delimiters that are tried, in order: comma, semicolon, tab, pipe.
pub const DELIMS: [u8; 4] = [0x2c, 0x3b, 0x09, 0x7c];

/// How much of a file is looked at to guess its delimiter.
pub const SNIFF_BYTES: usize = 0x1_0000;

/// How many records are looked at to guess the delimiter.
pub const SNIFF_RECORDS: usize = 30;

/// Field counts of the records of `sample` from `pos` on, `n` records having
/// been counted already. The last record of a truncated sample is left out,
/// being probably cut, unless it is the only one.
pub open spec fn field_counts(
    sample: Seq<u8>,
    truncated: bool,
    delim: u8,
    pos: int,
    n: int,
) -> Seq<int>
    decreases SNIFF_RECORDS - n,
{
    if pos >= sample.len() || n >= SNIFF_RECORDS {
        seq![]
    } else {
        let next = split_end(sample, pos, delim);
        if next >= sample.len() && truncated && n > 0 {
            seq![]
        } else {
            seq![record_fields(sample, pos, delim).len() as int] + field_counts(
                sample,
                truncated,
                delim,
                next,
                n + 1,
            )
        }
    }
}

/// How many of `counts` equal `x`.
pub open spec fn occurrences(counts: Seq<int>, x: int) -> int
    decreases counts.len(),
{
    if counts.len() == 0 {
        0
    } else {
        occurrences(counts.drop_last(), x) + if counts.last() == x {
            1int
        } else {
            0
        }
    }
}

/// How well a delimiter suits: mainly how many records have as many fields as
/// the first one, then how many that is. A delimiter that does not occur in
/// the first record does not suit at all.
pub open spec fn score(counts: Seq<int>) -> int {
    if counts.len() == 0 || counts[0] < 2 {
        0
    } else {
        occurrences(counts, counts[0]) * 1000 + counts[0]
    }
}

/// The part of a file that is looked at.
pub open spec fn sample_of(data: Seq<u8>) -> Seq<u8> {
    if data.len() > SNIFF_BYTES {
        data.take(SNIFF_BYTES as int)
    } else {
        data
    }
}

/// How well the `k`th delimiter suits a file.
pub open spec fn delim_score(data: Seq<u8>, k: int) -> int {
    score(field_counts(sample_of(data), data.len() > SNIFF_BYTES, DELIMS[k], 0, 0))
}

/// Whether the `k`th delimiter is the first of those that suit a file best.
pub open spec fn suits_best(data: Seq<u8>, k: int) -> bool {
    &&& forall|j: int| 0 <= j < k ==> #[trigger] delim_score(data, j) < delim_score(data, k)
    &&& forall|j: int| k <= j < 4 ==> #[trigger] delim_score(data, j) <= delim_score(data, k)
}

/// Whether a path ends in the extension `ext`, in capitals or not.
pub open spec fn has_extension(p: Seq<u8>, ext: Seq<u8>) -> bool {
    path::name_of(p) matches Some(n) && path::extension_of(n) matches Some(e) && e.map_values(
        |b: u8| crate::search::lower(b),
    ) == ext
}

/// The delimiter that a file's extension tells, if it does.
pub open spec fn delim_of_extension(p: Seq<u8>) -> Option<u8> {
    if has_extension(p, seq![0x74u8, 0x73, 0x76]) || has_extension(p, seq![0x74u8, 0x61, 0x62]) {
        Some(0x09)
    } else if has_extension(p, seq![0x70u8, 0x73, 0x76]) {
        Some(0x7c)
    } else {
        None
    }
}

/// Whether `d` is the delimiter guessed for a file.
pub open spec fn sniffs(data: Seq<u8>, p: Seq<u8>, d: u8) -> bool {
    match delim_of_extension(p) {
        Some(e) => d == e,
        None => exists|k: int| 0 <= k < 4 && d == DELIMS[k] && #[trigger] suits_best(data, k),
    }
}

/// One delimiter is guessed, no other.
pub proof fn sniffing_is_unambiguous(data: Seq<u8>, p: Seq<u8>, d: u8, e: u8)
    requires
        sniffs(data, p, d),
        sniffs(data, p, e),
    ensures
        d == e,
{
    if delim_of_extension(p) is None {
        let j = choose|k: int| 0 <= k < 4 && d == DELIMS[k] && #[trigger] suits_best(data, k);
        let k = choose|k: int| 0 <= k < 4 && e == DELIMS[k] && #[trigger] suits_best(data, k);
        assert(delim_score(data, j) == delim_score(data, j));
        assert(delim_score(data, k) == delim_score(data, k));
        assert(j == k);
    }
}

fn three(e: &Vec<u8>, a: u8, b: u8, c: u8) -> (r: bool)
    ensures
        r == (e@ == seq![a, b, c]),
{
    let r = e.len() == 3 && e[0] == a && e[1] == b && e[2] == c;
    assert(r ==> e@ =~= seq![a, b, c]);
    r
}

fn extension_delimiter(p: &[u8]) -> (r: Option<u8>)
    ensures
        r == delim_of_extension(p@),
{
    let name = match path::file_name(p) {
        Some(n) => n,
        None => return None,
    };
    let ext = match path::extension(name.as_slice()) {
        Some(e) => e,
        None => return None,
    };
    let mut low: Vec<u8> = Vec::new();
    let ghost want = ext@.map_values(|b: u8| crate::search::lower(b));
    let mut i: usize = 0;
    while i < ext.len()
        invariant
            i <= ext@.len(),
            low@ == want.take(i as int),
            want == ext@.map_values(|b: u8| crate::search::lower(b)),
        decreases ext@.len() - i,
    {
        low.push(crate::search::lower_byte(ext[i]));
        i += 1;
        assert(want.take(i as int) =~= want.take(i - 1).push(want[i - 1]));
    }
    assert(want.take(i as int) =~= want);
    if three(&low, 0x74, 0x73, 0x76) || three(&low, 0x74, 0x61, 0x62) {
        Some(0x09)
    } else if three(&low, 0x70, 0x73, 0x76) {
        Some(0x7c)
    } else {
        None
    }
}

/// Byte counts as integers.
spec fn ints(v: Seq<usize>) -> Seq<int> {
    v.map_values(|n: usize| n as int)
}

/// How well a delimiter suits the sample of a file.
fn delimiter_score(sample: &[u8], truncated: bool, delim: u8) -> (r: usize)
    requires
        sample@.len() <= SNIFF_BYTES,
        delim != NL,
    ensures
        r == score(field_counts(sample@, truncated, delim, 0, 0)),
{
    let ghost all = field_counts(sample@, truncated, delim, 0, 0);
    let mut counts: Vec<usize> = Vec::new();
    let mut fields: Vec<(usize, usize)> = Vec::new();
    let mut pos: usize = 0;
    assert(ints(counts@) + all =~= all);
    while pos < sample.len() && counts.len() < SNIFF_RECORDS
        invariant_except_break
            all == ints(counts@) + field_counts(
                sample@,
                truncated,
                delim,
                pos as int,
                counts@.len() as int,
            ),
        invariant
            pos <= sample@.len() <= SNIFF_BYTES,
            delim != NL,
            counts@.len() <= SNIFF_RECORDS,
            forall|k: int| 0 <= k < counts@.len() ==> #[trigger] counts@[k] <= SNIFF_BYTES + 1,
        ensures
            all == ints(counts@),
        decreases SNIFF_RECORDS - counts@.len(),
    {
        let next = parse_record(sample, pos, delim, &mut fields);
        proof {
            fields_tile_the_record(sample@, pos as int, delim);
            record_end_is_first_unquoted_newline(sample@, pos as int);
            assert(fields@.len() == ranges(fields@).len());
        }
        if next >= sample.len() && truncated && counts.len() > 0 {
            assert(all =~= ints(counts@));
            break;
        }
        let ghost before = counts@;
        counts.push(fields.len());
        proof {
            let rest = field_counts(
                sample@,
                truncated,
                delim,
                next as int,
                counts@.len() as int,
            );
            assert(ints(before) + (seq![fields@.len() as int] + rest) =~= ints(counts@) + rest);
        }
        pos = next;
        if !(pos < sample.len() && counts.len() < SNIFF_RECORDS) {
            assert(all =~= ints(counts@));
        }
    }
    if counts.len() == 0 || counts[0] < 2 {
        return 0;
    }
    let first: usize = counts[0];
    let mut same: usize = 0;
    let mut i: usize = 0;
    assert(all.take(0) =~= Seq::<int>::empty());
    while i < counts.len()
        invariant
            i <= counts@.len() <= SNIFF_RECORDS,
            all == ints(counts@),
            same <= i,
            same == occurrences(all.take(i as int), first as int),
        decreases counts@.len() - i,
    {
        if counts[i] == first {
            same += 1;
        }
        i += 1;
        assert(all.take(i as int).drop_last() =~= all.take(i - 1));
    }
    assert(all.take(i as int) =~= all);
    assert(counts@[0] <= SNIFF_BYTES + 1);
    same * 1000 + first
}

/// Guesses the delimiter from the file extension and the first lines: of the
/// delimiters that split the first record, the one that splits most of the
/// records into as many fields as the first, and of several the one that
/// gives the most fields. A comma when none does.
pub fn sniff_delimiter(data: &[u8], path: &[u8]) -> (r: u8)
    ensures
        sniffs(data@, path@, r),
{
    if let Some(d) = extension_delimiter(path) {
        return d;
    }
    let truncated = data.len() > SNIFF_BYTES;
    let n: usize = if truncated {
        SNIFF_BYTES
    } else {
        data.len()
    };
    let sample = &data[0..n];
    assert(sample@ =~= sample_of(data@));
    let mut best: usize = 0;
    let mut best_score: usize = 0;
    let mut k: usize = 0;
    while k < 4
        invariant
            k <= 4,
            best < 4,
            best < k || best == 0,
            sample@ == sample_of(data@),
            sample@.len() <= SNIFF_BYTES,
            truncated == (data@.len() > SNIFF_BYTES),
            k > 0 ==> best_score == delim_score(data@, best as int),
            k == 0 ==> best_score == 0,
            forall|j: int| 0 <= j < best ==> #[trigger] delim_score(data@, j) < best_score,
            forall|j: int| best <= j < k ==> #[trigger] delim_score(data@, j) <= best_score,
        decreases 4 - k,
    {
        let s = delimiter_score(sample, truncated, DELIMS[k]);
        assert(s == delim_score(data@, k as int));
        if s > best_score {
            best = k;
            best_score = s;
        }
        k += 1;
    }
    assert(suits_best(data@, best as int));
    DELIMS[best]
}

} // verus!
