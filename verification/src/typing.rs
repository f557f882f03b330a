//! What decoding of terminal input promises: which bytes stand for which key,
//! wherever they stand in the input.

use crate::term::{Event, Key, ESC, SEMICOLON};
use crate::{term, text};
use vstd::prelude::*;

verus! {

// ---------------------------------------------------------------------------
// One input behind the other
// ---------------------------------------------------------------------------

proof fn lemma_csi_shift(a: Seq<u8>, r: Seq<u8>, i: int)
    requires
        0 <= i <= r.len(),
    ensures
        term::csi_end(a + r, a.len() + i) == a.len() + term::csi_end(r, i),
    decreases r.len() - i,
{
    if i < r.len() {
        assert((a + r)[a.len() + i] == r[i]);
        if !(0x40 <= r[i] <= 0x7e) {
            lemma_csi_shift(a, r, i + 1);
        }
    }
}

/// What stands before does not matter to the input behind it.
proof fn lemma_shift(a: Seq<u8>, r: Seq<u8>, i: int)
    requires
        0 <= i <= r.len(),
    ensures
        term::events_from(a + r, a.len() + i) == term::events_from(r, i),
    decreases r.len() - i,
{
    if i < r.len() {
        let n = a.len() as int;
        let b = a + r;
        assert(b[n + i] == r[i]);
        if i + 1 < r.len() {
            assert(b[n + i + 1] == r[i + 1]);
            lemma_csi_shift(a, r, i + 2);
            term::lemma_csi_end(r, i + 2);
            let j = term::csi_end(r, i + 2);
            if j < r.len() {
                assert(b[n + j] == r[j]);
            }
            assert(b.subrange(n + i + 2, n + j) =~= r.subrange(i + 2, j));
        }
        if i + 2 < r.len() {
            assert(b[n + i + 2] == r[i + 2]);
        }
        term::lemma_input_end(r, i);
        let e = term::input_end(r, i);
        assert(b.subrange(n + i, n + e) =~= r.subrange(i, e));
        lemma_shift(a, r, e);
    }
}

/// The first bytes are one input, and the rest is read as if it stood alone.
proof fn lemma_first(a: Seq<u8>, r: Seq<u8>)
    requires
        a.len() > 0,
        term::input_end(a + r, 0) == a.len(),
    ensures
        term::events_from(a + r, 0) == term::at_most(term::input_event(a + r, 0))
            + term::events_from(r, 0),
{
    lemma_shift(a, r, 0);
}

// ---------------------------------------------------------------------------
// Keys
// ---------------------------------------------------------------------------

/// The letters that end the sequences of the arrow keys, home, end and the
/// tabulator with shift.
pub open spec fn letter_key(b: u8) -> Key {
    if b == 0x41 {
        Key::Up
    } else if b == 0x42 {
        Key::Down
    } else if b == 0x43 {
        Key::Right
    } else if b == 0x44 {
        Key::Left
    } else if b == 0x46 {
        Key::End
    } else if b == 0x48 {
        Key::Home
    } else {
        Key::BackTab
    }
}

/// Whether bytes can be the parameters of a sequence other than a mouse report.
pub open spec fn parameters(p: Seq<u8>) -> bool {
    &&& forall|k: int| 0 <= k < p.len() ==> #[trigger] p[k] < 0x40
    &&& p.len() > 0 ==> p[0] != 0x3c
}

proof fn lemma_csi_of(p: Seq<u8>, fin: u8, r: Seq<u8>, i: int)
    requires
        0 <= i <= p.len(),
        forall|k: int| 0 <= k < p.len() ==> #[trigger] p[k] < 0x40,
        0x40 <= fin <= 0x7e,
    ensures
        term::csi_end(seq![ESC, 0x5b] + p.push(fin) + r, i + 2) == p.len() + 2,
    decreases p.len() - i,
{
    let b = seq![ESC, 0x5b] + p.push(fin) + r;
    assert(b[i + 2] == p.push(fin)[i]);
    if i < p.len() {
        assert(p[i] < 0x40);
        lemma_csi_of(p, fin, r, i + 1);
    }
}

/// A control sequence is one input: nothing is left of it.
proof fn lemma_sequence(p: Seq<u8>, fin: u8, r: Seq<u8>)
    requires
        forall|k: int| 0 <= k < p.len() ==> #[trigger] p[k] < 0x40,
        0x40 <= fin <= 0x7e,
    ensures
        term::events_from(seq![ESC, 0x5b] + p.push(fin) + r, 0) == term::at_most(
            term::csi_event(p, fin),
        ) + term::events_from(r, 0),
{
    let a = seq![ESC, 0x5b] + p.push(fin);
    let b = a + r;
    lemma_csi_of(p, fin, r, 0);
    assert(b[0] == ESC && b[1] == 0x5b);
    assert(b[p.len() as int + 2] == fin);
    assert(b.subrange(2, p.len() as int + 2) =~= p);
    lemma_first(a, r);
}

/// The sequences of the arrow keys, home, end and the tabulator with shift are
/// read as these keys, with parameters (other keys held down) or without, and
/// in the form that application mode has.
pub proof fn letters_are_keys(p: Seq<u8>, b: u8, r: Seq<u8>)
    requires
        parameters(p),
        0x41 <= b <= 0x44 || b == 0x46 || b == 0x48 || b == 0x5a,
    ensures
        term::events_from(seq![ESC, 0x5b] + p.push(b) + r, 0) == seq![Event::Key(letter_key(b))]
            + term::events_from(r, 0),
        term::events_from(seq![ESC, 0x4f, b] + r, 0) == seq![Event::Key(letter_key(b))]
            + term::events_from(r, 0),
{
    lemma_sequence(p, b, r);
    let a = seq![ESC, 0x4f, b];
    assert((a + r)[0] == ESC && (a + r)[1] == 0x4f && (a + r)[2] == b);
    lemma_first(a, r);
}

/// The keys whose sequences end in a tilde.
pub open spec fn numbered_key(b: u8) -> Key {
    if b == 0x31 || b == 0x37 {
        Key::Home
    } else if b == 0x33 {
        Key::Delete
    } else if b == 0x34 || b == 0x38 {
        Key::End
    } else if b == 0x35 {
        Key::PageUp
    } else {
        Key::PageDown
    }
}

/// The sequences of home, delete, end and the paging keys are read as these
/// keys, with a second parameter or without.
pub proof fn numbers_are_keys(b: u8, p: Seq<u8>, r: Seq<u8>)
    requires
        b == 0x31 || 0x33 <= b <= 0x38,
        parameters(p),
    ensures
        term::events_from(seq![ESC, 0x5b, b, 0x7e] + r, 0) == seq![Event::Key(numbered_key(b))]
            + term::events_from(r, 0),
        term::events_from(seq![ESC, 0x5b] + (seq![b, SEMICOLON] + p).push(0x7e) + r, 0) == seq![
            Event::Key(numbered_key(b)),
        ] + term::events_from(r, 0),
{
    let one = seq![b];
    lemma_sequence(one, 0x7e, r);
    assert(seq![ESC, 0x5b] + one.push(0x7e) =~= seq![ESC, 0x5b, b, 0x7e]);
    assert(term::next_index(one, SEMICOLON, 0) == 1) by {
        reveal_with_fuel(term::next_index, 2);
    }
    assert(one.skip(0) =~= one);
    lemma_number(b);
    let two = seq![b, SEMICOLON] + p;
    assert forall|k: int| 0 <= k < two.len() implies #[trigger] two[k] < 0x40 by {
        if k >= 2 {
            assert(two[k] == p[k - 2]);
        }
    }
    lemma_sequence(two, 0x7e, r);
    assert(two[0] == b && two[1] == SEMICOLON);
    assert(term::next_index(two, SEMICOLON, 0) == 1) by {
        reveal_with_fuel(term::next_index, 2);
    }
    assert(two.subrange(0, 1) =~= one);
    assert(term::parts(two, SEMICOLON)[0] == one);
}

proof fn lemma_number(b: u8)
    requires
        b == 0x31 || 0x33 <= b <= 0x38,
    ensures
        term::key_of_number(seq![b]) == Some(numbered_key(b)),
{
    let p = seq![b];
    assert forall|c: u8| #[trigger] seq![c] == p implies b == c by {
        assert(seq![c][0] == c && p[0] == b);
    }
}

/// Control characters are keys of their own: enter, the tabulator, backspace
/// and letters with control.
pub proof fn control_characters_are_keys(b: u8, r: Seq<u8>)
    requires
        1 <= b <= 26 || b == 0x7f,
    ensures
        term::events_from(seq![b] + r, 0) == seq![
            Event::Key(
                if b == 0x0a || b == 0x0d {
                    Key::Enter
                } else if b == 0x09 {
                    Key::Tab
                } else if b == 0x08 || b == 0x7f {
                    Key::Backspace
                } else {
                    Key::Ctrl((0x60 + b) as char)
                },
            ),
        ] + term::events_from(r, 0),
{
    assert((seq![b] + r)[0] == b);
    lemma_first(seq![b], r);
}

/// An escape character that begins no sequence is the escape key, and what
/// follows is read on its own.
pub proof fn escape_is_a_key(r: Seq<u8>)
    requires
        r.len() > 0 ==> r[0] != 0x5b && r[0] != 0x4f,
    ensures
        term::events_from(seq![ESC] + r, 0) == seq![Event::Key(Key::Esc)] + term::events_from(r, 0),
{
    let b = seq![ESC] + r;
    assert(b[0] == ESC);
    if r.len() > 0 {
        assert(b[1] == r[0]);
    }
    lemma_first(seq![ESC], r);
}

/// Text before other input is read character by character, and the other input
/// behind it as if it stood alone.
pub proof fn printable_bytes_are_characters(b: u8, r: Seq<u8>)
    requires
        0x20 <= b < 0x7f,
    ensures
        term::events_from(seq![b] + r, 0) == seq![Event::Key(Key::Char(b as char))]
            + term::events_from(r, 0),
{
    let a = seq![b];
    let c = b as char;
    assert((a + r)[0] == b);
    assert((a + r).subrange(0, 1) =~= a);
    lemma_first(a, r);
    assert(term::typeable(c));
    term::typed_text_is_read_back(seq![c]);
    assert(vstd::utf8::encode_utf8(seq![c]) =~= a) by {
        assert(seq![c].drop_first() =~= Seq::<char>::empty());
        reveal_with_fuel(vstd::utf8::encode_utf8, 2);
        lemma_one_byte(b);
    }
    assert(seq![c].drop_first() =~= Seq::<char>::empty());
    reveal_with_fuel(term::keys_of, 2);
    assert(term::keys_of(seq![c]) =~= seq![Event::Key(Key::Char(c))]);
    assert(a.subrange(0, 1) =~= a);
    assert(term::events_from(a, 1) =~= seq![]);
    assert(term::events_from(a, 0) =~= term::at_most(term::char_event(a)));
    assert(term::keys_of(seq![c])[0] == term::at_most(term::char_event(a))[0]);
}

proof fn lemma_one_byte(b: u8)
    by (bit_vector)
    requires
        b < 0x80,
    ensures
        vstd::utf8::leading_byte_width_1(b as u32) == b,
{
}

// ---------------------------------------------------------------------------
// Mouse
// ---------------------------------------------------------------------------

/// The bytes of a mouse report.
pub open spec fn report(b: nat, x: nat, y: nat, fin: u8) -> Seq<u8> {
    seq![ESC, 0x5b, 0x3c] + text::decimal_bytes(b) + seq![SEMICOLON] + text::decimal_bytes(x)
        + seq![SEMICOLON] + text::decimal_bytes(y) + seq![fin]
}

proof fn lemma_no_separator(s: Seq<u8>, i: int, e: int)
    requires
        0 <= i <= e <= s.len(),
        forall|k: int| i <= k < e ==> #[trigger] s[k] != SEMICOLON,
        e < s.len() ==> s[e] == SEMICOLON,
    ensures
        term::next_index(s, SEMICOLON, i) == e,
    decreases e - i,
{
    if i < e {
        lemma_no_separator(s, i + 1, e);
    }
}

proof fn lemma_decimal(n: nat)
    requires
        n <= 0xffff,
    ensures
        text::decimal_bytes(n).len() > 0,
        forall|k: int|
            0 <= k < text::decimal_bytes(n).len() ==> 0x30 <= #[trigger] text::decimal_bytes(n)[k]
                <= 0x39,
        term::param_value(text::decimal_bytes(n)) == n,
{
    let d = text::decimal_bytes(n);
    text::lemma_decimal_digits(n);
    text::decimal_reads_back(n);
    assert forall|k: int| 0 <= k < d.len() implies 0x30 <= #[trigger] d[k] <= 0x39 by {
        assert(0x30 <= text::decimal(n)[k] as int <= 0x39);
    }
    assert forall|k: int| 0 <= k < d.len() implies text::is_digit_byte(#[trigger] d[k]) by {
        assert(0x30 <= d[k] <= 0x39);
    }
    assert(d[0] != 0x2b);
}

proof fn lemma_report(b: nat, x: nat, y: nat, fin: u8, r: Seq<u8>)
    requires
        b <= 0xffff,
        x <= 0xffff,
        y <= 0xffff,
        fin == 0x4d || fin == 0x6d,
    ensures
        ({
            let ps = term::parts(
                text::decimal_bytes(b) + seq![SEMICOLON] + text::decimal_bytes(x) + seq![SEMICOLON]
                    + text::decimal_bytes(y),
                SEMICOLON,
            );
            &&& ps.len() == 3
            &&& term::param_value(ps[0]) == b
            &&& term::param_value(ps[1]) == x
            &&& term::param_value(ps[2]) == y
            &&& term::events_from(report(b, x, y, fin) + r, 0) == term::at_most(
                term::mouse_event(
                    text::decimal_bytes(b) + seq![SEMICOLON] + text::decimal_bytes(x)
                        + seq![SEMICOLON] + text::decimal_bytes(y),
                    fin,
                ),
            ) + term::events_from(r, 0)
        }),
{
    let (db, dx, dy) = (text::decimal_bytes(b), text::decimal_bytes(x), text::decimal_bytes(y));
    lemma_decimal(b);
    lemma_decimal(x);
    lemma_decimal(y);
    let s = db + seq![SEMICOLON] + dx + seq![SEMICOLON] + dy;
    let (i, j) = (db.len() as int, (db.len() + 1 + dx.len()) as int);
    assert(s[i] == SEMICOLON);
    assert(s[j] == SEMICOLON);
    assert forall|k: int| 0 <= k < i implies #[trigger] s[k] != SEMICOLON by {
        assert(s[k] == db[k]);
    }
    assert forall|k: int| i + 1 <= k < j implies #[trigger] s[k] != SEMICOLON by {
        assert(s[k] == dx[k - i - 1]);
    }
    assert forall|k: int| j + 1 <= k < s.len() implies #[trigger] s[k] != SEMICOLON by {
        assert(s[k] == dy[k - j - 1]);
    }
    lemma_no_separator(s, 0, i);
    lemma_no_separator(s, i + 1, j);
    lemma_no_separator(s, j + 1, s.len() as int);
    let ps = term::parts(s, SEMICOLON);
    assert(s.subrange(0, i) =~= db);
    assert(s.subrange(i + 1, j) =~= dx);
    assert(s.skip(j + 1) =~= dy);
    reveal_with_fuel(term::parts_from, 3);
    assert(term::parts_from(s, SEMICOLON, j + 1) =~= seq![dy]);
    assert(term::parts_from(s, SEMICOLON, i + 1) =~= seq![dx, dy]);
    assert(ps =~= seq![db, dx, dy]);
    let p = seq![0x3cu8] + s;
    assert forall|k: int| 0 <= k < p.len() implies #[trigger] p[k] < 0x40 by {
        if k > 0 {
            assert(p[k] == s[k - 1]);
            if k - 1 < i {
                assert(s[k - 1] == db[k - 1]);
            } else if i < k - 1 < j {
                assert(s[k - 1] == dx[k - 1 - i - 1]);
            } else if j < k - 1 {
                assert(s[k - 1] == dy[k - 1 - j - 1]);
            }
        }
    }
    lemma_sequence(p, fin, r);
    assert(report(b, x, y, fin) =~= seq![ESC, 0x5b] + p.push(fin));
    assert(p.skip(1) =~= s);
    assert(p[0] == 0x3c);
}

/// The left button pressed at column `x` and line `y`, counted from 1, is a
/// click there, counted from 0; letting it go is nothing.
pub proof fn left_button_clicks(x: nat, y: nat, r: Seq<u8>)
    requires
        0 < x <= 0xffff,
        0 < y <= 0xffff,
    ensures
        term::events_from(report(0, x, y, 0x4d) + r, 0) == seq![
            Event::Click((x - 1) as u16, (y - 1) as u16),
        ] + term::events_from(r, 0),
        term::events_from(report(0, x, y, 0x6d) + r, 0) == term::events_from(r, 0),
{
    lemma_report(0, x, y, 0x4d, r);
    lemma_report(0, x, y, 0x6d, r);
    lemma_buttons();
    assert(term::at_most(None) + term::events_from(r, 0) =~= term::events_from(r, 0));
}

/// Other buttons, and moving the mouse with a button held down or without, are
/// nothing.
pub proof fn other_buttons_do_nothing(b: u16, x: nat, y: nat, fin: u8, r: Seq<u8>)
    requires
        0 < x <= 0xffff,
        0 < y <= 0xffff,
        fin == 0x4d || fin == 0x6d,
        1 <= b <= 3 || 32 <= b <= 35,
    ensures
        term::events_from(report(b as nat, x, y, fin) + r, 0) == term::events_from(r, 0),
{
    lemma_report(b as nat, x, y, fin, r);
    assert(1 <= b <= 3 || 32 <= b <= 35 ==> b & 64 == 0 && (b & 3 != 0 || b & 32 != 0))
        by (bit_vector);
    assert(term::at_most(None) + term::events_from(r, 0) =~= term::events_from(r, 0));
}

/// Turning the wheel scrolls, up or down, at the place of the mouse.
pub proof fn wheel_scrolls(x: nat, y: nat, fin: u8, r: Seq<u8>)
    requires
        0 < x <= 0xffff,
        0 < y <= 0xffff,
        fin == 0x4d || fin == 0x6d,
    ensures
        term::events_from(report(64, x, y, fin) + r, 0) == seq![
            Event::Scroll((x - 1) as u16, (y - 1) as u16, (-1) as i8),
        ] + term::events_from(r, 0),
        term::events_from(report(65, x, y, fin) + r, 0) == seq![
            Event::Scroll((x - 1) as u16, (y - 1) as u16, 1),
        ] + term::events_from(r, 0),
{
    lemma_report(64, x, y, fin, r);
    lemma_report(65, x, y, fin, r);
    lemma_buttons();
}

proof fn lemma_buttons()
    by (bit_vector)
    ensures
        0u16 & 64 == 0,
        0u16 & 3 == 0,
        0u16 & 32 == 0,
        64u16 & 64 == 64,
        65u16 & 64 == 64,
        64u16 & 1 == 0,
        65u16 & 1 == 1,
{
}

} // verus!
