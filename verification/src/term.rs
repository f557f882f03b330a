//! Terminal input: decodes raw bytes into key and mouse events.

use crate::text;
use vstd::prelude::*;

verus! {

#[derive(Clone, Copy, Debug, PartialEq, Eq, Structural)]
pub enum Key {
    Char(char),
    Ctrl(char),
    Enter,
    Esc,
    Tab,
    BackTab,
    Backspace,
    Delete,
    Up,
    Down,
    Left,
    Right,
    Home,
    End,
    PageUp,
    PageDown,
}

#[derive(Clone, Copy, Debug, PartialEq, Eq, Structural)]
pub enum Event {
    Key(Key),
    Click(u16, u16),
    Scroll(u16, u16, i8),
}

/// Size of a terminal window as the system reports it.
#[derive(Clone, Copy, Debug, PartialEq, Eq, Structural)]
pub struct Winsize {
    pub ws_row: u16,
    pub ws_col: u16,
    pub ws_xpixel: u16,
    pub ws_ypixel: u16,
}

/// Columns and rows of the terminal; 80 by 24 when the system could not tell.
pub fn size(ok: bool, ws: &Winsize) -> (r: (u16, u16))
    ensures
        r == if ok && ws.ws_col > 0 && ws.ws_row > 0 {
            (ws.ws_col, ws.ws_row)
        } else {
            (80, 24)
        },
{
    if ok && ws.ws_col > 0 && ws.ws_row > 0 {
        (ws.ws_col, ws.ws_row)
    } else {
        (80, 24)
    }
}

pub const ESC: u8 = 0x1b;

pub const SEMICOLON: u8 = 0x3b;

// ---------------------------------------------------------------------------
// Splitting parameters
// ---------------------------------------------------------------------------

/// Index of the first byte equal to `b` at or after `i`, or the length.
pub open spec fn next_index(s: Seq<u8>, b: u8, i: int) -> int
    decreases s.len() - i,
{
    if i >= s.len() {
        s.len() as int
    } else if s[i] == b {
        i
    } else {
        next_index(s, b, i + 1)
    }
}

pub proof fn lemma_next_index(s: Seq<u8>, b: u8, i: int)
    requires
        0 <= i <= s.len(),
    ensures
        i <= next_index(s, b, i) <= s.len(),
    decreases s.len() - i,
{
    if i < s.len() && s[i] != b {
        lemma_next_index(s, b, i + 1);
    }
}

/// The parts of `s` from byte `i` on, separated by `b`.
pub open spec fn parts_from(s: Seq<u8>, b: u8, i: int) -> Seq<Seq<u8>>
    decreases s.len() - i,
    when 0 <= i <= s.len()
{
    proof {
        lemma_next_index(s, b, i);
    }
    let k = next_index(s, b, i);
    if k >= s.len() {
        seq![s.skip(i)]
    } else {
        seq![s.subrange(i, k)] + parts_from(s, b, k + 1)
    }
}

/// The parts of `s`, separated by `b`. There is always at least one.
pub open spec fn parts(s: Seq<u8>, b: u8) -> Seq<Seq<u8>> {
    parts_from(s, b, 0)
}

/// Splits `s` at every `b`.
pub fn split(s: &[u8], b: u8) -> (r: Vec<Vec<u8>>)
    ensures
        text::contents(r@) == parts(s@, b),
        r@.len() > 0,
{
    let mut r: Vec<Vec<u8>> = Vec::new();
    let mut start: usize = 0;
    let mut i: usize = 0;
    assert(text::contents(r@) + parts(s@, b) =~= parts(s@, b));
    while i < s.len()
        invariant
            start <= i <= s@.len(),
            parts(s@, b) == text::contents(r@) + parts_from(s@, b, start as int),
            next_index(s@, b, start as int) == next_index(s@, b, i as int),
        decreases s@.len() - i,
    {
        if s[i] == b {
            let part = text::bytes_copy(&s[start..i]);
            let ghost before = r@;
            r.push(part);
            proof {
                let rest = parts_from(s@, b, i + 1);
                assert(text::contents(before) + (seq![s@.subrange(start as int, i as int)] + rest)
                    =~= text::contents(r@) + rest);
            }
            start = i + 1;
        }
        i += 1;
    }
    let part = text::bytes_copy(&s[start..s.len()]);
    assert(part@ =~= s@.skip(start as int));
    let ghost before = r@;
    r.push(part);
    assert(text::contents(before) + seq![s@.skip(start as int)] =~= text::contents(r@));
    r
}

/// The number that a mouse parameter stands for: digits behind an optional
/// plus sign; 0 for anything else and for what does not fit.
pub open spec fn param_value(p: Seq<u8>) -> u16 {
    let d = if p.len() > 0 && p[0] == 0x2b {
        p.skip(1)
    } else {
        p
    };
    match text::number_of(d, 0xffff) {
        Some(n) => n as u16,
        None => 0,
    }
}

fn param(p: &Vec<u8>) -> (r: u16)
    ensures
        r == param_value(p@),
{
    let start: usize = if p.len() > 0 && p[0] == 0x2b {
        1
    } else {
        0
    };
    let d = &p.as_slice()[start..p.len()];
    assert(d@ =~= if p@.len() > 0 && p@[0] == 0x2b {
        p@.skip(1)
    } else {
        p@
    });
    match text::parse_digits(d, 0xffff) {
        Some(n) => n as u16,
        None => 0,
    }
}

// ---------------------------------------------------------------------------
// Escape sequences
// ---------------------------------------------------------------------------

/// The key that the last byte of an escape sequence stands for.
pub open spec fn key_of_final(b: u8) -> Option<Key> {
    if b == 0x41 {
        Some(Key::Up)
    } else if b == 0x42 {
        Some(Key::Down)
    } else if b == 0x43 {
        Some(Key::Right)
    } else if b == 0x44 {
        Some(Key::Left)
    } else if b == 0x48 {
        Some(Key::Home)
    } else if b == 0x46 {
        Some(Key::End)
    } else if b == 0x5a {
        Some(Key::BackTab)
    } else {
        None
    }
}

/// The key that the first parameter of a sequence ending in `~` stands for.
pub open spec fn key_of_number(p: Seq<u8>) -> Option<Key> {
    if p == seq![0x31u8] || p == seq![0x37u8] {
        Some(Key::Home)
    } else if p == seq![0x34u8] || p == seq![0x38u8] {
        Some(Key::End)
    } else if p == seq![0x33u8] {
        Some(Key::Delete)
    } else if p == seq![0x35u8] {
        Some(Key::PageUp)
    } else if p == seq![0x36u8] {
        Some(Key::PageDown)
    } else {
        None
    }
}

/// The coordinate, counted from 0, of a mouse parameter counted from 1.
pub open spec fn coordinate(ps: Seq<Seq<u8>>, k: int) -> u16 {
    let v = if k < ps.len() {
        param_value(ps[k])
    } else {
        1
    };
    if v == 0 {
        0
    } else {
        (v - 1) as u16
    }
}

/// The event of a mouse report: the wheel, or the left button pressed.
pub open spec fn mouse_event(params: Seq<u8>, fin: u8) -> Option<Event> {
    let ps = parts(params, SEMICOLON);
    let cb = param_value(ps[0]);
    let (x, y) = (coordinate(ps, 1), coordinate(ps, 2));
    if cb & 64 != 0 {
        Some(
            Event::Scroll(
                x,
                y,
                if cb & 1 == 0 {
                    (-1) as i8
                } else {
                    1i8
                },
            ),
        )
    } else if fin == 0x4d && cb & 3 == 0 && cb & 32 == 0 {
        Some(Event::Click(x, y))
    } else {
        None
    }
}

/// The event of a control sequence with the given parameter bytes and last
/// byte.
pub open spec fn csi_event(params: Seq<u8>, fin: u8) -> Option<Event> {
    if params.len() > 0 && params[0] == 0x3c {
        mouse_event(params.skip(1), fin)
    } else {
        let key = if fin == 0x7e {
            key_of_number(parts(params, SEMICOLON)[0])
        } else {
            key_of_final(fin)
        };
        match key {
            Some(k) => Some(Event::Key(k)),
            None => None,
        }
    }
}

/// Index of the first byte at or after `i` that ends a control sequence, or
/// the length.
pub open spec fn csi_end(buf: Seq<u8>, i: int) -> int
    decreases buf.len() - i,
{
    if i >= buf.len() {
        buf.len() as int
    } else if 0x40 <= buf[i] <= 0x7e {
        i
    } else {
        csi_end(buf, i + 1)
    }
}

pub proof fn lemma_csi_end(buf: Seq<u8>, i: int)
    requires
        0 <= i <= buf.len(),
    ensures
        i <= csi_end(buf, i) <= buf.len(),
    decreases buf.len() - i,
{
    if i < buf.len() && !(0x40 <= buf[i] <= 0x7e) {
        lemma_csi_end(buf, i + 1);
    }
}

/// No event or one.
pub open spec fn at_most(e: Option<Event>) -> Seq<Event> {
    match e {
        Some(e) => seq![e],
        None => seq![],
    }
}

fn final_key(b: u8) -> (r: Option<Key>)
    ensures
        r == key_of_final(b),
{
    match b {
        0x41 => Some(Key::Up),
        0x42 => Some(Key::Down),
        0x43 => Some(Key::Right),
        0x44 => Some(Key::Left),
        0x48 => Some(Key::Home),
        0x46 => Some(Key::End),
        0x5a => Some(Key::BackTab),
        _ => None,
    }
}

fn number_key(p: &Vec<u8>) -> (r: Option<Key>)
    ensures
        r == key_of_number(p@),
{
    if p.len() != 1 {
        return None;
    }
    let b = p[0];
    assert(p@ =~= seq![b]);
    assert forall|c: u8| #[trigger] seq![c] == p@ implies b == c by {
        assert(seq![c][0] == c);
    }
    match b {
        0x31 | 0x37 => Some(Key::Home),
        0x34 | 0x38 => Some(Key::End),
        0x33 => Some(Key::Delete),
        0x35 => Some(Key::PageUp),
        0x36 => Some(Key::PageDown),
        _ => None,
    }
}

fn push_event(out: &mut Vec<Event>, e: Option<Event>)
    ensures
        final(out)@ == old(out)@ + at_most(e),
{
    if let Some(e) = e {
        out.push(e);
    }
    assert(out@ =~= old(out)@ + at_most(e));
}

fn coord(ps: &Vec<Vec<u8>>, k: usize) -> (r: u16)
    ensures
        r == coordinate(text::contents(ps@), k as int),
{
    let v: u16 = if k < ps.len() {
        param(&ps[k])
    } else {
        1
    };
    v.saturating_sub(1)
}

/// The event of a mouse report: `b ; x ; y`, ended by `M` or `m`.
fn parse_mouse(params: &[u8], fin: u8) -> (r: Option<Event>)
    ensures
        r == mouse_event(params@, fin),
{
    let ps = split(params, SEMICOLON);
    let cb = param(&ps[0]);
    let x = coord(&ps, 1);
    let y = coord(&ps, 2);
    if cb & 64 != 0 {
        let d: i8 = if cb & 1 == 0 {
            -1
        } else {
            1
        };
        Some(Event::Scroll(x, y, d))
    } else if fin == 0x4d && cb & 3 == 0 && cb & 32 == 0 {
        Some(Event::Click(x, y))
    } else {
        None
    }
}

/// Parses a control sequence starting after `ESC [`. Returns the next index.
fn parse_csi(buf: &[u8], start: usize, out: &mut Vec<Event>) -> (r: usize)
    requires
        start <= buf@.len(),
    ensures
        csi_end(buf@, start as int) == buf@.len() ==> r == buf@.len() && final(out)@ == old(out)@,
        csi_end(buf@, start as int) < buf@.len() ==> {
            let j = csi_end(buf@, start as int);
            &&& r == j + 1
            &&& final(out)@ == old(out)@ + at_most(
                csi_event(buf@.subrange(start as int, j), buf@[j]),
            )
        },
{
    let mut j: usize = start;
    while j < buf.len() && !(0x40 <= buf[j] && buf[j] <= 0x7e)
        invariant
            start <= j <= buf@.len(),
            csi_end(buf@, start as int) == csi_end(buf@, j as int),
        decreases buf@.len() - j,
    {
        j += 1;
    }
    if j >= buf.len() {
        return buf.len();
    }
    let params = &buf[start..j];
    let fin = buf[j];
    if params.len() > 0 && params[0] == 0x3c {
        let rest = &params[1..params.len()];
        assert(rest@ =~= params@.skip(1));
        let e = parse_mouse(rest, fin);
        push_event(out, e);
    } else {
        let key = if fin == 0x7e {
            let ps = split(params, SEMICOLON);
            number_key(&ps[0])
        } else {
            final_key(fin)
        };
        let e = match key {
            Some(k) => Some(Event::Key(k)),
            None => None,
        };
        push_event(out, e);
    }
    j + 1
}

// ---------------------------------------------------------------------------
// Input
// ---------------------------------------------------------------------------

/// Length of the UTF-8 sequence that a byte begins.
pub open spec fn char_len(b: u8) -> int {
    if 0xf0 <= b <= 0xf7 {
        4
    } else if 0xe0 <= b <= 0xef {
        3
    } else if 0xc0 <= b <= 0xdf {
        2
    } else {
        1
    }
}

/// The key of a character's bytes, if they are one.
pub open spec fn char_event(bytes: Seq<u8>) -> Option<Event> {
    if vstd::utf8::valid_utf8(bytes) && vstd::utf8::decode_utf8(bytes).len() > 0 {
        Some(Event::Key(Key::Char(vstd::utf8::decode_utf8(bytes)[0])))
    } else {
        None
    }
}

/// Index behind the input that begins at byte `i`.
pub open spec fn input_end(buf: Seq<u8>, i: int) -> int {
    let b = buf[i];
    if b == ESC {
        if i + 1 < buf.len() && buf[i + 1] == 0x5b {
            let j = csi_end(buf, i + 2);
            if j < buf.len() {
                j + 1
            } else {
                j
            }
        } else if i + 2 < buf.len() && buf[i + 1] == 0x4f {
            i + 3
        } else {
            i + 1
        }
    } else if b < 0x20 || b == 0x7f {
        i + 1
    } else {
        vstd::math::min(i + char_len(b), buf.len() as int)
    }
}

/// The event of the input that begins at byte `i`. An escape that begins no
/// sequence is the escape key.
pub open spec fn input_event(buf: Seq<u8>, i: int) -> Option<Event> {
    let b = buf[i];
    if b == ESC {
        if i + 1 < buf.len() && buf[i + 1] == 0x5b {
            let j = csi_end(buf, i + 2);
            if j < buf.len() {
                csi_event(buf.subrange(i + 2, j), buf[j])
            } else {
                None
            }
        } else if i + 2 < buf.len() && buf[i + 1] == 0x4f {
            match key_of_final(buf[i + 2]) {
                Some(k) => Some(Event::Key(k)),
                None => None,
            }
        } else {
            Some(Event::Key(Key::Esc))
        }
    } else if b == 0x0d || b == 0x0a {
        Some(Event::Key(Key::Enter))
    } else if b == 0x09 {
        Some(Event::Key(Key::Tab))
    } else if b == 0x7f || b == 0x08 {
        Some(Event::Key(Key::Backspace))
    } else if 1 <= b <= 26 {
        Some(Event::Key(Key::Ctrl((0x60 + b) as char)))
    } else if b < 0x20 {
        None
    } else {
        char_event(buf.subrange(i, input_end(buf, i)))
    }
}

pub proof fn lemma_input_end(buf: Seq<u8>, i: int)
    requires
        0 <= i < buf.len(),
    ensures
        i < input_end(buf, i) <= buf.len(),
{
    if i + 1 < buf.len() {
        lemma_csi_end(buf, i + 2);
    }
}

/// The events of the input from byte `i` on.
pub open spec fn events_from(buf: Seq<u8>, i: int) -> Seq<Event>
    decreases buf.len() - i,
    when 0 <= i <= buf.len()
{
    if i >= buf.len() {
        seq![]
    } else {
        proof {
            lemma_input_end(buf, i);
        }
        at_most(input_event(buf, i)) + events_from(buf, input_end(buf, i))
    }
}

fn char_key(bytes: &[u8]) -> (r: Option<Event>)
    ensures
        r == char_event(bytes@),
{
    match text::from_utf8(bytes) {
        Some(s) => {
            let cs = text::chars_of(s.as_str());
            if cs.len() > 0 {
                Some(Event::Key(Key::Char(cs[0])))
            } else {
                None
            }
        },
        None => None,
    }
}

/// Decodes a chunk of raw terminal input into events, which are appended to
/// `out`.
pub fn parse(buf: &[u8], out: &mut Vec<Event>)
    ensures
        final(out)@ == old(out)@ + events_from(buf@, 0),
{
    let mut i: usize = 0;
    while i < buf.len()
        invariant
            i <= buf@.len(),
            old(out)@ + events_from(buf@, 0) == out@ + events_from(buf@, i as int),
        decreases buf@.len() - i,
    {
        let ghost i0 = i as int;
        let ghost before = out@;
        let b = buf[i];
        proof {
            lemma_input_end(buf@, i0);
        }
        match b {
            0x1b => {
                if i + 1 >= buf.len() {
                    push_event(out, Some(Event::Key(Key::Esc)));
                    i += 1;
                } else if buf[i + 1] == 0x5b {
                    proof {
                        lemma_csi_end(buf@, i0 + 2);
                    }
                    i = parse_csi(buf, i + 2, out);
                    assert(before + at_most(None) =~= before);
                } else if buf[i + 1] == 0x4f && i + 2 < buf.len() {
                    let e = match final_key(buf[i + 2]) {
                        Some(k) => Some(Event::Key(k)),
                        None => None,
                    };
                    push_event(out, e);
                    i += 3;
                } else {
                    // ESC followed by something else (Alt+key): report a bare Esc.
                    push_event(out, Some(Event::Key(Key::Esc)));
                    i += 1;
                }
            },
            0x0d | 0x0a => {
                push_event(out, Some(Event::Key(Key::Enter)));
                i += 1;
            },
            0x09 => {
                push_event(out, Some(Event::Key(Key::Tab)));
                i += 1;
            },
            0x7f | 0x08 => {
                push_event(out, Some(Event::Key(Key::Backspace)));
                i += 1;
            },
            1..=26 => {
                push_event(out, Some(Event::Key(Key::Ctrl((0x60 + b) as char))));
                i += 1;
            },
            0 | 28..=31 => {
                i += 1;
                assert(before + at_most(None) =~= before);
            },
            _ => {
                let len: usize = match b {
                    0xf0..=0xf7 => 4,
                    0xe0..=0xef => 3,
                    0xc0..=0xdf => 2,
                    _ => 1,
                };
                let end: usize = if len < buf.len() - i {
                    i + len
                } else {
                    buf.len()
                };
                let e = char_key(&buf[i..end]);
                push_event(out, e);
                i = end;
            },
        }
        proof {
            assert(i == input_end(buf@, i0));
            assert(out@ =~= before + at_most(input_event(buf@, i0)));
            assert(before + events_from(buf@, i0) =~= out@ + events_from(buf@, i as int));
        }
    }
    assert(out@ + events_from(buf@, i as int) =~= out@);
}

/// The first byte of a character's UTF-8 encoding tells its length.
proof fn lemma_leading_byte(v: u32)
    by (bit_vector)
    requires
        v <= 0x10_ffff,
    ensures
        vstd::utf8::has_width_1_encoding(v) ==> vstd::utf8::leading_byte_width_1(v) == v,
        vstd::utf8::has_width_2_encoding(v) ==> 0xc0 <= vstd::utf8::leading_byte_width_2(v) <= 0xdf,
        vstd::utf8::has_width_3_encoding(v) ==> 0xe0 <= vstd::utf8::leading_byte_width_3(v) <= 0xef,
        vstd::utf8::has_width_4_encoding(v) ==> 0xf0 <= vstd::utf8::leading_byte_width_4(v) <= 0xf7,
{
}

/// Whether typing a character gives that character: all but control characters
/// do.
pub open spec fn typeable(c: char) -> bool {
    c as u32 >= 0x20 && c as u32 != 0x7f
}

/// One key for each character.
pub open spec fn keys_of(t: Seq<char>) -> Seq<Event>
    decreases t.len(),
{
    if t.len() == 0 {
        seq![]
    } else {
        seq![Event::Key(Key::Char(t[0]))] + keys_of(t.drop_first())
    }
}

/// Text that is typed or pasted is read back character by character.
pub proof fn typed_text_is_read_back(t: Seq<char>)
    requires
        forall|k: int| 0 <= k < t.len() ==> typeable(#[trigger] t[k]),
    ensures
        events_from(vstd::utf8::encode_utf8(t), 0) == keys_of(t),
{
    assert(t.take(0) =~= Seq::<char>::empty());
    assert(t.skip(0) =~= t);
    lemma_typed_from(t, 0);
}

proof fn lemma_typed_from(t: Seq<char>, k: int)
    requires
        0 <= k <= t.len(),
        forall|j: int| 0 <= j < t.len() ==> typeable(#[trigger] t[j]),
    ensures
        vstd::utf8::encode_utf8(t.take(k)).len() <= vstd::utf8::encode_utf8(t).len(),
        events_from(
            vstd::utf8::encode_utf8(t),
            vstd::utf8::encode_utf8(t.take(k)).len() as int,
        ) == keys_of(t.skip(k)),
    decreases t.len() - k,
{
    let b = vstd::utf8::encode_utf8(t);
    let i = vstd::utf8::encode_utf8(t.take(k)).len() as int;
    assert(t.take(k) + t.skip(k) =~= t);
    text::lemma_encode_concat(t.take(k), t.skip(k));
    if k < t.len() {
        let c = t[k];
        assert(typeable(c));
        let e = vstd::utf8::encode_scalar(c as u32);
        lemma_typed_from(t, k + 1);
        assert(t.take(k + 1) =~= t.take(k).push(c));
        text::lemma_encode_push(t.take(k), c);
        assert(t.skip(k + 1) =~= t.skip(k).drop_first());
        assert(b.subrange(i, i + e.len()) =~= e);
        assert(b[i] == e[0]);
        vstd::utf8::char_is_scalar(c);
        lemma_leading_byte(c as u32);
        assert(char_len(e[0]) == e.len());
        assert(seq![c].drop_first() =~= Seq::<char>::empty());
        assert(vstd::utf8::encode_utf8(seq![c]) =~= e) by {
            reveal_with_fuel(vstd::utf8::encode_utf8, 2);
        }
        vstd::utf8::encode_utf8_valid_utf8(seq![c]);
        vstd::utf8::encode_utf8_decode_utf8(seq![c]);
        assert(input_end(b, i) == i + e.len());
        assert(char_event(e) == Some(Event::Key(Key::Char(c))));
    } else {
        assert(t.take(k) =~= t);
    }
}

} // verus!
