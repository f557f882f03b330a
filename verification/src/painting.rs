//! What painting promises: the bytes sent to a terminal ask for the right
//! styles and places, characters take their columns, and frames are closed.

use crate::screen::{self, Cell, Color, Grid, Op, Rect, Style, BOLD, CONT, DIM, ITALIC, REVERSE};
use crate::screen::UNDERLINE;
use crate::term::SEMICOLON;
use crate::{display, frames, showing, term, text};
use vstd::prelude::*;

verus! {

// ---------------------------------------------------------------------------
// Bytes
// ---------------------------------------------------------------------------

/// What a terminal makes of the codes of a style so far: the style, and whether
/// it waits for the rest of a color from the palette, and of which.
#[verifier::ext_equal]
pub struct Brush {
    pub st: Style,
    pub waits: Option<(bool, bool)>,
}

/// With a color of the foreground or of the background.
pub open spec fn colored(st: Style, front: bool, n: int) -> Style {
    if front {
        Style { fg: Color::Idx(n as u8), ..st }
    } else {
        Style { bg: Color::Idx(n as u8), ..st }
    }
}

/// What a terminal does with one more code.
pub open spec fn taken(b: Brush, n: nat) -> Brush {
    match b.waits {
        Some((front, false)) => Brush {
            waits: if n == 5 {
                Some((front, true))
            } else {
                None
            },
            ..b
        },
        Some((front, true)) => Brush { st: colored(b.st, front, n as int), waits: None },
        None => if n == 0 {
            Brush { st: Style::plain(), ..b }
        } else if n == 1 {
            Brush { st: Style { attr: b.st.attr | BOLD, ..b.st }, ..b }
        } else if n == 2 {
            Brush { st: Style { attr: b.st.attr | DIM, ..b.st }, ..b }
        } else if n == 3 {
            Brush { st: Style { attr: b.st.attr | ITALIC, ..b.st }, ..b }
        } else if n == 4 {
            Brush { st: Style { attr: b.st.attr | UNDERLINE, ..b.st }, ..b }
        } else if n == 7 {
            Brush { st: Style { attr: b.st.attr | REVERSE, ..b.st }, ..b }
        } else if 30 <= n <= 37 {
            Brush { st: colored(b.st, true, n - 30), ..b }
        } else if 90 <= n <= 97 {
            Brush { st: colored(b.st, true, n - 82), ..b }
        } else if 40 <= n <= 47 {
            Brush { st: colored(b.st, false, n - 40), ..b }
        } else if 100 <= n <= 107 {
            Brush { st: colored(b.st, false, n - 92), ..b }
        } else if n == 38 {
            Brush { waits: Some((true, false)), ..b }
        } else if n == 48 {
            Brush { waits: Some((false, false)), ..b }
        } else {
            b
        },
    }
}

/// What a terminal makes of several codes, one after the other.
pub open spec fn brush(st: Style, parts: Seq<Seq<u8>>) -> Brush
    decreases parts.len(),
{
    if parts.len() == 0 {
        Brush { st, waits: None }
    } else {
        taken(brush(st, parts.drop_last()), text::value_of(parts.last()))
    }
}

proof fn lemma_no_more(s: Seq<u8>, i: int)
    requires
        0 <= i <= s.len(),
        forall|k: int| i <= k < s.len() ==> #[trigger] s[k] != SEMICOLON,
    ensures
        term::parts_from(s, SEMICOLON, i) == seq![s.skip(i)],
        term::next_index(s, SEMICOLON, i) == s.len(),
    decreases s.len() - i,
{
    if i < s.len() {
        lemma_no_more(s, i + 1);
    }
}

proof fn lemma_next(a: Seq<u8>, d: Seq<u8>, i: int)
    requires
        0 <= i <= a.len(),
    ensures
        term::next_index(a + seq![SEMICOLON] + d, SEMICOLON, i) == term::next_index(
            a,
            SEMICOLON,
            i,
        ),
    decreases a.len() - i,
{
    let s = a + seq![SEMICOLON] + d;
    if i < a.len() {
        assert(s[i] == a[i]);
        lemma_next(a, d, i + 1);
    } else {
        assert(s[i] == SEMICOLON);
    }
}

/// A separator and a part without any add that part to what stands before.
proof fn lemma_part(a: Seq<u8>, d: Seq<u8>, i: int)
    requires
        0 <= i <= a.len(),
        forall|k: int| 0 <= k < d.len() ==> #[trigger] d[k] != SEMICOLON,
    ensures
        term::parts_from(a + seq![SEMICOLON] + d, SEMICOLON, i) == term::parts_from(
            a,
            SEMICOLON,
            i,
        ).push(d),
    decreases a.len() - i,
{
    let s = a + seq![SEMICOLON] + d;
    let n = a.len() as int;
    lemma_next(a, d, i);
    term::lemma_next_index(a, SEMICOLON, i);
    let k = term::next_index(a, SEMICOLON, i);
    if k < n {
        lemma_part(a, d, k + 1);
        assert(s.subrange(i, k) =~= a.subrange(i, k));
        assert(term::parts_from(s, SEMICOLON, i) =~= (seq![a.subrange(i, k)] + term::parts_from(
            a,
            SEMICOLON,
            k + 1,
        )).push(d));
    } else {
        assert forall|j: int| n + 1 <= j < s.len() implies #[trigger] s[j] != SEMICOLON by {
            assert(s[j] == d[j - n - 1]);
        }
        lemma_no_more(s, n + 1);
        assert(s.skip(n + 1) =~= d);
        assert(s.subrange(i, n) =~= a.skip(i));
        assert(term::parts_from(s, SEMICOLON, i) =~= seq![a.skip(i)].push(d));
    }
}

/// What a terminal makes of the codes in `a`, separated by semicolons.
pub open spec fn brush_of(st: Style, a: Seq<u8>) -> Brush {
    brush(st, term::parts(a, SEMICOLON))
}

proof fn lemma_code(st: Style, a: Seq<u8>, d: Seq<u8>)
    requires
        forall|k: int| 0 <= k < d.len() ==> #[trigger] d[k] != SEMICOLON,
    ensures
        brush_of(st, a + seq![SEMICOLON] + d) == taken(brush_of(st, a), text::value_of(d)),
{
    lemma_part(a, d, 0);
    let ps = term::parts(a, SEMICOLON);
    assert(ps.push(d).drop_last() =~= ps);
}

proof fn lemma_digit(code: u8)
    ensures
        0x30 <= code <= 0x39 ==> text::value_of(seq![code]) == code - 0x30,
{
    let d = seq![code];
    assert(d.drop_last() =~= seq![]);
    assert(d.last() == code);
    reveal_with_fuel(text::value_of, 2);
}

proof fn lemma_decimal(n: nat)
    ensures
        text::value_of(text::decimal_bytes(n)) == n,
        forall|k: int|
            0 <= k < text::decimal_bytes(n).len() ==> #[trigger] text::decimal_bytes(n)[k]
                != SEMICOLON,
{
    text::decimal_reads_back(n);
    text::lemma_decimal_digits(n);
    let d = text::decimal_bytes(n);
    assert forall|k: int| 0 <= k < d.len() implies #[trigger] d[k] != SEMICOLON by {
        assert(0x30 <= text::decimal(n)[k] as int <= 0x39);
    }
}

/// The code of an attribute asks for it when the style has it.
proof fn lemma_attr(st: Style, a: Seq<u8>, attr: u8, bit: u8, code: u8)
    requires
        0x30 <= code <= 0x39,
    ensures
        brush_of(st, a + screen::attr_code(attr, bit, code)) == if attr & bit != 0 {
            taken(brush_of(st, a), (code - 0x30) as nat)
        } else {
            brush_of(st, a)
        },
{
    if attr & bit != 0 {
        lemma_digit(code);
        lemma_code(st, a, seq![code]);
        assert(a + screen::attr_code(attr, bit, code) =~= a + seq![SEMICOLON] + seq![code]);
    } else {
        assert(a + screen::attr_code(attr, bit, code) =~= a);
    }
}

/// The code of a color asks for it.
proof fn lemma_color(st: Style, a: Seq<u8>, front: bool, c: Color)
    requires
        brush_of(st, a).waits is None,
    ensures
        ({
            let b = brush_of(
                st,
                a + screen::color_code(
                    if front {
                        30
                    } else {
                        40
                    },
                    c,
                ),
            );
            &&& b.waits is None
            &&& b.st == match c {
                Color::Reset => brush_of(st, a).st,
                Color::Idx(n) => colored(brush_of(st, a).st, front, n as int),
            }
        }),
{
    let base: int = if front {
        30
    } else {
        40
    };
    match c {
        Color::Reset => {
            assert(a + screen::color_code(base, c) =~= a);
        },
        Color::Idx(n) => {
            if n < 8 {
                lemma_decimal((base + n) as nat);
                lemma_code(st, a, text::decimal_bytes((base + n) as nat));
                assert(a + screen::color_code(base, c) =~= a + seq![SEMICOLON]
                    + text::decimal_bytes((base + n) as nat));
            } else if n < 16 {
                lemma_decimal((base + 60 + n - 8) as nat);
                lemma_code(st, a, text::decimal_bytes((base + 60 + n - 8) as nat));
                assert(a + screen::color_code(base, c) =~= a + seq![SEMICOLON]
                    + text::decimal_bytes((base + 60 + n - 8) as nat));
            } else {
                let d = text::decimal_bytes((base + 8) as nat);
                let e = text::decimal_bytes(n as nat);
                lemma_decimal((base + 8) as nat);
                lemma_decimal(n as nat);
                lemma_digit(0x35);
                lemma_code(st, a, d);
                let a1 = a + seq![SEMICOLON] + d;
                lemma_code(st, a1, seq![0x35u8]);
                let a2 = a1 + seq![SEMICOLON] + seq![0x35u8];
                lemma_code(st, a2, e);
                assert(a + screen::color_code(base, c) =~= a2 + seq![SEMICOLON] + e);
            }
        },
    }
}

/// The codes of the attributes, behind the one that goes back to the plain
/// style.
spec fn attr_codes(t: u8) -> Seq<u8> {
    seq![0x30u8] + screen::attr_code(t, BOLD, 0x31) + screen::attr_code(t, DIM, 0x32)
        + screen::attr_code(t, ITALIC, 0x33) + screen::attr_code(t, UNDERLINE, 0x34)
        + screen::attr_code(t, REVERSE, 0x37)
}

/// The code that goes back to the plain style.
proof fn lemma_plain(before: Style)
    ensures
        brush_of(before, seq![0x30u8]) == (Brush { st: Style::plain(), waits: None }),
{
    let a0 = seq![0x30u8];
    assert(term::parts(a0, SEMICOLON) =~= seq![a0]) by {
        lemma_no_more(a0, 0);
        assert(a0.skip(0) =~= a0);
    }
    lemma_digit(0x30);
    assert(seq![a0].drop_last() =~= seq![]);
    assert(brush(before, seq![a0].drop_last()) == (Brush { st: before, waits: None }));
}

#[verifier::spinoff_prover]
proof fn lemma_attrs(t: u8, before: Style)
    ensures
        brush_of(before, attr_codes(t)) == (Brush {
            st: Style { attr: t & 0x1f, ..Style::plain() },
            waits: None,
        }),
{
    lemma_plain(before);
    let a0 = seq![0x30u8];
    let a1 = a0 + screen::attr_code(t, BOLD, 0x31);
    lemma_attr(before, a0, t, BOLD, 0x31);
    let a2 = a1 + screen::attr_code(t, DIM, 0x32);
    lemma_attr(before, a1, t, DIM, 0x32);
    let a3 = a2 + screen::attr_code(t, ITALIC, 0x33);
    lemma_attr(before, a2, t, ITALIC, 0x33);
    let a4 = a3 + screen::attr_code(t, UNDERLINE, 0x34);
    lemma_attr(before, a3, t, UNDERLINE, 0x34);
    lemma_attr(before, a4, t, REVERSE, 0x37);
    lemma_bits(t);
}

/// The bytes of a style, understood as terminals do, ask for that style,
/// whatever was painted before.
#[verifier::spinoff_prover]
pub proof fn styles_are_asked_for(st: Style, before: Style) -> (p: Seq<u8>)
    ensures
        screen::op_bytes(Op::Paint(st)) == seq![0x1bu8, 0x5b] + p + seq![0x6du8],
        brush_of(before, p) == (Brush {
            st: Style { attr: st.attr & 0x1f, ..st },
            waits: None,
        }),
{
    let a5 = attr_codes(st.attr);
    lemma_attrs(st.attr, before);
    let a6 = a5 + screen::color_code(30, st.fg);
    lemma_color(before, a5, true, st.fg);
    let a7 = a6 + screen::color_code(40, st.bg);
    lemma_color(before, a6, false, st.bg);
    assert(screen::sgr(st) =~= seq![0x1bu8, 0x5b] + a7 + seq![0x6du8]);
    a7
}

proof fn lemma_bits(t: u8)
    ensures
        ({
            let b1 = if t & BOLD != 0 {
                0u8 | BOLD
            } else {
                0u8
            };
            let b2 = if t & DIM != 0 {
                b1 | DIM
            } else {
                b1
            };
            let b3 = if t & ITALIC != 0 {
                b2 | ITALIC
            } else {
                b2
            };
            let b4 = if t & UNDERLINE != 0 {
                b3 | UNDERLINE
            } else {
                b3
            };
            let b5 = if t & REVERSE != 0 {
                b4 | REVERSE
            } else {
                b4
            };
            b5 == t & 0x1f
        }),
{
    assert({
        let b1 = if t & 1 != 0 {
            0u8 | 1
        } else {
            0u8
        };
        let b2 = if t & 2 != 0 {
            b1 | 2
        } else {
            b1
        };
        let b3 = if t & 4 != 0 {
            b2 | 4
        } else {
            b2
        };
        let b4 = if t & 8 != 0 {
            b3 | 8
        } else {
            b3
        };
        let b5 = if t & 16 != 0 {
            b4 | 16
        } else {
            b4
        };
        b5 == t & 0x1f
    }) by (bit_vector);
}

/// The bytes of a move name the row and then the column, counted from 1.
pub proof fn places_are_asked_for(x: nat, y: nat) -> (p: Seq<u8>)
    ensures
        screen::op_bytes(Op::Goto(x as int, y as int)) == seq![0x1bu8, 0x5b] + p + seq![0x48u8],
        ({
            let ps = term::parts(p, SEMICOLON);
            ps.len() == 2 && text::value_of(ps[0]) == y + 1 && text::value_of(ps[1]) == x + 1
        }),
{
    let (a, d) = (text::decimal_bytes((y + 1) as nat), text::decimal_bytes((x + 1) as nat));
    lemma_decimal((y + 1) as nat);
    lemma_decimal((x + 1) as nat);
    lemma_no_more(a, 0);
    assert(a.skip(0) =~= a);
    lemma_part(a, d, 0);
    let p = a + seq![SEMICOLON] + d;
    assert(screen::op_bytes(Op::Goto(x as int, y as int)) =~= seq![0x1bu8, 0x5b] + p
        + seq![0x48u8]);
    p
}

/// Characters are sent as their UTF-8 bytes.
pub proof fn characters_are_sent(c: char)
    ensures
        vstd::utf8::decode_utf8(screen::op_bytes(Op::Show(c))) == seq![c],
{
    vstd::utf8::encode_utf8_decode_utf8(seq![c]);
}

// ---------------------------------------------------------------------------
// Columns
// ---------------------------------------------------------------------------

/// Whether the code point of a character lies in a range.
pub open spec fn within(c: char, a: int, b: int) -> bool {
    a <= c as int <= b
}

/// Latin, Greek and Cyrillic letters, and everything else up to the first
/// combining marks, take one column.
pub proof fn letters_take_one_column(c: char)
    requires
        within(c, 0, 0x2ff) || within(c, 0x370, 0x482) || within(c, 0x48a, 0x590) || within(
            c,
            0x1e00,
            0x200a,
        ) || within(c, 0x2010, 0x2029) || within(c, 0x2100, 0x2319) || within(c, 0x2400, 0x25fc),
    ensures
        screen::width_of(c) == 1,
{
    reveal(screen::width_of);
    text::lemma_code_point(c);
}

/// Marks that combine with a letter, joiners and variation selectors take no
/// column, and nothing else does.
pub proof fn marks_take_no_column(c: char)
    ensures
        (screen::width_of(c) == 0) == {
            // Combining marks of letters in general.
            ||| within(c, 0x300, 0x36f) || within(c, 0x1ab0, 0x1aff) || within(c, 0x1dc0, 0x1dff)
            ||| within(c, 0x20d0, 0x20ff) || within(c, 0xfe20, 0xfe2f)
            // Those of Cyrillic, Hebrew and Arabic letters.
            ||| within(c, 0x483, 0x489) || within(c, 0x591, 0x5bd) || within(c, 0x610, 0x61a)
            ||| within(c, 0x64b, 0x65f)
            // Joiners, directions and the byte order mark.
            ||| within(c, 0x200b, 0x200f) || within(c, 0x202a, 0x202e) || within(c, 0x2060, 0x2064)
            ||| within(c, 0xfeff, 0xfeff)
            // Variation selectors.
            ||| within(c, 0xfe00, 0xfe0f) || within(c, 0xe0100, 0xe01ef)
        },
{
    reveal(screen::width_of);
    text::lemma_code_point(c);
}

/// The scripts of East Asia and pictures take two columns.
pub proof fn wide_characters_take_two_columns(c: char)
    ensures
        // Hangul.
        within(c, 0x1100, 0x115f) ==> screen::width_of(c) == 2,
        within(c, 0xa960, 0xa97f) ==> screen::width_of(c) == 2,
        within(c, 0xac00, 0xd7a3) ==> screen::width_of(c) == 2,
        // Ideographs, kana and what goes with them.
        within(c, 0x2e80, 0x303e) ==> screen::width_of(c) == 2,
        within(c, 0x3041, 0x4dbf) ==> screen::width_of(c) == 2,
        within(c, 0x4e00, 0xa4cf) ==> screen::width_of(c) == 2,
        within(c, 0xf900, 0xfaff) ==> screen::width_of(c) == 2,
        within(c, 0x20000, 0x3fffd) ==> screen::width_of(c) == 2,
        // Wide forms.
        within(c, 0xfe10, 0xfe19) ==> screen::width_of(c) == 2,
        within(c, 0xfe30, 0xfe6f) ==> screen::width_of(c) == 2,
        within(c, 0xff00, 0xff60) ==> screen::width_of(c) == 2,
        within(c, 0xffe0, 0xffe6) ==> screen::width_of(c) == 2,
        // Pictures.
        within(c, 0x1f300, 0x1f64f) ==> screen::width_of(c) == 2,
        within(c, 0x1f680, 0x1f6ff) ==> screen::width_of(c) == 2,
        within(c, 0x1f7e0, 0x1f7eb) ==> screen::width_of(c) == 2,
        within(c, 0x1f90c, 0x1f9ff) ==> screen::width_of(c) == 2,
        within(c, 0x1fa70, 0x1faff) ==> screen::width_of(c) == 2,
        within(c, 0x1f191, 0x1f19a) ==> screen::width_of(c) == 2,
        within(c, 0x1f200, 0x1f251) ==> screen::width_of(c) == 2,
        within(c, 0x2648, 0x2653) ==> screen::width_of(c) == 2,
        within(c, 0x23e9, 0x23ec) ==> screen::width_of(c) == 2,
{
    reveal(screen::width_of);
    text::lemma_code_point(c);
}

/// A text is as wide as its parts together.
pub proof fn widths_add_up(a: Seq<char>, b: Seq<char>)
    ensures
        screen::text_width(a + b) == screen::text_width(a) + screen::text_width(b),
        forall|c: char| #[trigger] screen::text_width(seq![c]) == screen::width_of(c),
{
    screen::lemma_width_concat(a, b);
    assert forall|c: char| #[trigger] screen::text_width(seq![c]) == screen::width_of(c) by {
        assert(seq![c].drop_last() =~= seq![]);
        reveal_with_fuel(screen::text_width, 2);
        assert(seq![c].last() == c);
    }
}

// ---------------------------------------------------------------------------
// Frames
// ---------------------------------------------------------------------------

/// A rectangle holds the cells from its corner on, as many as it is wide and
/// high; what is inside its border are all but the outermost ones.
pub proof fn rectangles_hold_their_cells(r: Rect, x: int, y: int)
    requires
        r.x < u16::MAX,
        r.y < u16::MAX,
    ensures
        r.has(x, y) <==> 0 <= x - r.x < r.w && 0 <= y - r.y < r.h,
        r.inside().has(x, y) <==> 0 < x - r.x < r.w - 1 && 0 < y - r.y < r.h - 1,
{
}

/// Whether a cell holds a character of one column.
pub open spec fn narrow(c: Cell) -> bool {
    screen::width_of(c.ch) == 1 && c.ch != CONT
}

/// What is put into a cell stands there. Outside the screen nothing is put, nor
/// is a character that takes no column; one that takes two also takes the next
/// cell, and is but a space in the last column, where there is no room for it.
pub proof fn characters_stand_where_they_are_put(g: Grid, x: int, y: int, ch: char, st: Style)
    requires
        display::consistent(g),
        ch != CONT,
    ensures
        ({
            let r = g.put(x, y, ch, st);
            let inside = 0 <= x < g.w && 0 <= y < g.h;
            &&& !inside || screen::width_of(ch) == 0 ==> r == g
            &&& inside && screen::width_of(ch) == 1 ==> r.at(x, y) == (Cell { ch, st })
            &&& inside && screen::width_of(ch) == 2 && x + 1 < g.w ==> r.at(x, y) == (Cell {
                ch,
                st,
            }) && r.at(x + 1, y) == (Cell { ch: CONT, st })
            &&& inside && screen::width_of(ch) == 2 && x + 1 == g.w ==> r.at(x, y) == (Cell {
                ch: ' ',
                st,
            })
        }),
{
    reveal(Grid::put);
    screen::lemma_width_range(ch);
    if 0 <= x < g.w && 0 <= y < g.h {
        screen::lemma_index(g.w, g.h, x, y);
        if x + 1 < g.w {
            screen::lemma_index(g.w, g.h, x + 1, y);
        }
    }
}

/// Putting a character leaves all characters of one column that stand elsewhere.
pub proof fn putting_leaves_other_cells(
    g: Grid,
    x: int,
    y: int,
    ch: char,
    st: Style,
    i: int,
    j: int,
)
    requires
        display::consistent(g),
        ch != CONT,
        0 <= i < g.w,
        0 <= j < g.h,
        j != y || i < x || i >= x + screen::width_of(ch),
        narrow(g.at(i, j)),
    ensures
        g.put(x, y, ch, st).at(i, j) == g.at(i, j),
{
    reveal(Grid::put);
    screen::lemma_width_range(ch);
    screen::lemma_width_range(' ');
    screen::lemma_width_range(CONT);
    if 0 <= x < g.w && 0 <= y < g.h && screen::width_of(ch) != 0 {
        screen::lemma_index(g.w, g.h, x, y);
        screen::lemma_index(g.w, g.h, i, j);
        if j != y {
            showing::lemma_other_row(g.w, i, j, x, y);
            if x > 0 {
                showing::lemma_other_row(g.w, i, j, x - 1, y);
            }
            if x + 1 < g.w {
                showing::lemma_other_row(g.w, i, j, x + 1, y);
            }
            if x + 2 < g.w {
                showing::lemma_other_row(g.w, i, j, x + 2, y);
            }
        } else {
            let k = g.index(x, y);
            assert(display::settled(g.w, g.cells, k));
            if x + 1 < g.w {
                screen::lemma_index(g.w, g.h, x + 1, y);
                assert(display::settled(g.w, g.cells, k + 1));
            }
        }
    }
}

/// Whether drawing on `g` has left `r`, of the same size, in which every
/// character of one column in front of `x0`, from `x1` on or in other rows than
/// `y` still stands.
pub open spec fn beside(g: Grid, r: Grid, x0: int, x1: int, y: int) -> bool {
    &&& display::kept(g, r)
    &&& forall|i: int, j: int|
        0 <= i < g.w && 0 <= j < g.h && (j != y || i < x0 || i >= x1) && narrow(g.at(i, j))
            ==> #[trigger] r.at(i, j) == g.at(i, j)
}

pub proof fn lemma_put_beside(g: Grid, x: int, y: int, ch: char, st: Style)
    requires
        display::consistent(g),
        ch != CONT,
    ensures
        beside(g, g.put(x, y, ch, st), x, x + screen::width_of(ch), y),
{
    display::put_keeps_grid_consistent(g, x, y, ch, st);
    let r = g.put(x, y, ch, st);
    let x1 = x + screen::width_of(ch);
    assert forall|i: int, j: int|
        0 <= i < g.w && 0 <= j < g.h && (j != y || i < x || i >= x1) && narrow(
            g.at(i, j),
        ) implies #[trigger] r.at(i, j) == g.at(i, j) by {
        putting_leaves_other_cells(g, x, y, ch, st, i, j);
    }
}

pub proof fn lemma_beside_then(a: Grid, b: Grid, c: Grid, x0: int, x1: int, y: int, z0: int, z1: int)
    requires
        beside(a, b, x0, x1, y),
        beside(b, c, z0, z1, y),
        x0 <= z0,
        z1 <= x1,
    ensures
        beside(a, c, x0, x1, y),
{
    assert forall|i: int, j: int|
        0 <= i < a.w && 0 <= j < a.h && (j != y || i < x0 || i >= x1) && narrow(
            a.at(i, j),
        ) implies #[trigger] c.at(i, j) == a.at(i, j) by {
        assert(b.at(i, j) == a.at(i, j));
        assert(c.at(i, j) == b.at(i, j));
    }
}

pub proof fn lemma_beside_wider(a: Grid, b: Grid, x0: int, x1: int, y: int, z0: int, z1: int)
    requires
        beside(a, b, x0, x1, y),
        z0 <= x0,
        x1 <= z1,
    ensures
        beside(a, b, z0, z1, y),
{
    assert forall|i: int, j: int|
        0 <= i < a.w && 0 <= j < a.h && (j != y || i < z0 || i >= z1) && narrow(
            a.at(i, j),
        ) implies #[trigger] b.at(i, j) == a.at(i, j) by {}
}

/// A line of characters stands where it is drawn.
pub proof fn lemma_hline(g: Grid, x: int, y: int, n: int, ch: char, st: Style)
    requires
        display::consistent(g),
        ch != CONT,
        screen::width_of(ch) == 1,
        0 <= x,
        x + n <= g.w,
        0 <= y < g.h,
        0 <= n,
    ensures
        beside(g, g.hline(x, y, n, ch, st), x, x + n, y),
        forall|i: int| x <= i < x + n ==> #[trigger] g.hline(x, y, n, ch, st).at(i, y) == (Cell {
            ch,
            st,
        }),
    decreases n,
{
    if n > 0 {
        lemma_hline(g, x, y, n - 1, ch, st);
        let a = g.hline(x, y, n - 1, ch, st);
        let b = a.put(x + n - 1, y, ch, st);
        lemma_put_beside(a, x + n - 1, y, ch, st);
        showing::lemma_put_here(a, x + n - 1, y, ch, st);
        lemma_beside_wider(g, a, x, x + n - 1, y, x, x + n);
        lemma_beside_then(g, a, b, x, x + n, y, x + n - 1, x + n);
        assert forall|i: int| x <= i < x + n implies #[trigger] b.at(i, y) == (Cell { ch, st }) by {
            if i < x + n - 1 {
                assert(a.at(i, y) == (Cell { ch, st }));
                assert(narrow(a.at(i, y)));
            }
        }
    }
}

pub proof fn lemma_fill_rows(g: Grid, x: int, y: int, w: int, h: int, st: Style)
    requires
        display::consistent(g),
        0 <= x,
        x + w <= g.w,
        0 <= y,
        y + h <= g.h,
        0 <= w,
        0 <= h,
    ensures
        display::kept(g, g.fill_rows(x, y, w, h, st)),
        forall|i: int, j: int|
            x <= i < x + w && y <= j < y + h ==> #[trigger] g.fill_rows(x, y, w, h, st).at(i, j)
                == (Cell { ch: ' ', st }),
        forall|i: int, j: int|
            0 <= i < g.w && 0 <= j < g.h && !(x <= i < x + w && y <= j < y + h) && narrow(
                g.at(i, j),
            ) ==> #[trigger] g.fill_rows(x, y, w, h, st).at(i, j) == g.at(i, j),
    decreases h,
{
    if h > 0 {
        lemma_fill_rows(g, x, y, w, h - 1, st);
        let a = g.fill_rows(x, y, w, h - 1, st);
        let z = y + h - 1;
        screen::lemma_width_range(' ');
        lemma_hline(a, x, z, w, ' ', st);
        let b = a.hline(x, z, w, ' ', st);
        assert forall|i: int, j: int| x <= i < x + w && y <= j < y + h implies #[trigger] b.at(i, j)
            == (Cell { ch: ' ', st }) by {
            if j < z {
                assert(a.at(i, j) == (Cell { ch: ' ', st }));
                assert(narrow(a.at(i, j)));
            }
        }
        assert forall|i: int, j: int|
            0 <= i < g.w && 0 <= j < g.h && !(x <= i < x + w && y <= j < y + h) && narrow(
                g.at(i, j),
            ) implies #[trigger] b.at(i, j) == g.at(i, j) by {
            assert(a.at(i, j) == g.at(i, j));
        }
    }
}

/// Filling a rectangle blanks all of it, and leaves all characters of one column
/// that stand elsewhere.
pub proof fn filling_blanks_the_rectangle(g: Grid, r: Rect, st: Style, i: int, j: int)
    requires
        display::consistent(g),
        r.x + r.w <= g.w,
        r.y + r.h <= g.h,
        0 <= i < g.w,
        0 <= j < g.h,
    ensures
        r.has(i, j) ==> g.fill(r, st).at(i, j) == (Cell { ch: ' ', st }),
        !r.has(i, j) && narrow(g.at(i, j)) ==> g.fill(r, st).at(i, j) == g.at(i, j),
{
    lemma_fill_rows(g, r.x as int, r.y as int, r.w as int, r.h as int, st);
}

pub proof fn lemma_edges()
    ensures
        screen::width_of('│') == 1,
        screen::width_of('─') == 1,
        screen::width_of('╭') == 1,
        screen::width_of('╮') == 1,
        screen::width_of('╰') == 1,
        screen::width_of('╯') == 1,
        screen::width_of('…') == 1,
{
    reveal(screen::width_of);
}

/// Whether the edges and corners of a frame stand, but for its top and its
/// bottom edge.
pub open spec fn framed(g: Grid, r: Rect, st: Style) -> bool {
    let (x0, y0) = (r.x as int, r.y as int);
    let (x1, y1) = (r.x + r.w - 1, r.y + r.h - 1);
    &&& g.at(x0, y0) == (Cell { ch: '╭', st })
    &&& g.at(x1, y0) == (Cell { ch: '╮', st })
    &&& g.at(x0, y1) == (Cell { ch: '╰', st })
    &&& g.at(x1, y1) == (Cell { ch: '╯', st })
    &&& forall|j: int|
        y0 < j < y1 ==> #[trigger] g.at(x0, j) == (Cell { ch: '│', st }) && g.at(x1, j) == (Cell {
            ch: '│',
            st,
        })
}

proof fn lemma_sides(g: Grid, x0: int, x1: int, y: int, n: int, st: Style)
    requires
        display::consistent(g),
        0 <= x0 < x1 < g.w,
        0 <= y,
        y + n <= g.h,
        0 <= n,
    ensures
        ({
            let r = g.sides(x0, x1, y, n, st);
            &&& display::kept(g, r)
            &&& forall|i: int, j: int|
                0 <= i < g.w && 0 <= j < g.h && (j < y || j >= y + n) && narrow(g.at(i, j))
                    ==> #[trigger] r.at(i, j) == g.at(i, j)
            &&& forall|j: int|
                y <= j < y + n ==> #[trigger] r.at(x0, j) == (Cell { ch: '│', st }) && r.at(x1, j)
                    == (Cell { ch: '│', st })
        }),
    decreases n,
{
    if n > 0 {
        lemma_edges();
        lemma_sides(g, x0, x1, y, n - 1, st);
        let z = y + n - 1;
        let a = g.sides(x0, x1, y, n - 1, st);
        let b = a.put(x0, z, '│', st);
        let c = b.put(x1, z, '│', st);
        lemma_put_beside(a, x0, z, '│', st);
        lemma_put_beside(b, x1, z, '│', st);
        showing::lemma_put_here(a, x0, z, '│', st);
        showing::lemma_put_here(b, x1, z, '│', st);
        assert forall|i: int, j: int|
            0 <= i < g.w && 0 <= j < g.h && (j < y || j >= y + n) && narrow(
                g.at(i, j),
            ) implies #[trigger] c.at(i, j) == g.at(i, j) by {
            assert(a.at(i, j) == g.at(i, j));
            assert(b.at(i, j) == a.at(i, j));
        }
        assert forall|j: int| y <= j < y + n implies #[trigger] c.at(x0, j) == (Cell {
            ch: '│',
            st,
        }) && c.at(x1, j) == (Cell { ch: '│', st }) by {
            if j < z {
                assert(a.at(x0, j) == (Cell { ch: '│', st }));
                assert(b.at(x0, j) == a.at(x0, j));
                assert(b.at(x1, j) == a.at(x1, j));
            } else {
                assert(c.at(x0, j) == b.at(x0, j));
            }
        }
    }
}

/// The edges and corners of a frame stand where they belong.
#[verifier::rlimit(40)]
#[verifier::spinoff_prover]
pub proof fn frames_are_closed(g: Grid, r: Rect, st: Style)
    requires
        display::consistent(g),
        2 <= r.w,
        2 <= r.h,
        r.x + r.w <= g.w,
        r.y + r.h <= g.h,
    ensures
        display::kept(g, g.border(r, st)),
        framed(g.border(r, st), r, st),
        forall|i: int|
            r.x < i < r.x + r.w - 1 ==> #[trigger] g.border(r, st).at(i, r.y as int) == (Cell {
                ch: '─',
                st,
            }) && g.border(r, st).at(i, r.y + r.h - 1) == (Cell { ch: '─', st }),
{
    lemma_edges();
    let (x0, y0) = (r.x as int, r.y as int);
    let (x1, y1) = (r.x + r.w - 1, r.y + r.h - 1);
    let a = g.put(x0, y0, '╭', st);
    lemma_put_beside(g, x0, y0, '╭', st);
    showing::lemma_put_here(g, x0, y0, '╭', st);
    let b = a.put(x1, y0, '╮', st);
    lemma_put_beside(a, x1, y0, '╮', st);
    showing::lemma_put_here(a, x1, y0, '╮', st);
    assert(b.at(x0, y0) == a.at(x0, y0));
    let c = b.put(x0, y1, '╰', st);
    lemma_put_beside(b, x0, y1, '╰', st);
    showing::lemma_put_here(b, x0, y1, '╰', st);
    assert(c.at(x0, y0) == b.at(x0, y0) && c.at(x1, y0) == b.at(x1, y0));
    let d = c.put(x1, y1, '╯', st);
    lemma_put_beside(c, x1, y1, '╯', st);
    showing::lemma_put_here(c, x1, y1, '╯', st);
    assert(d.at(x0, y0) == c.at(x0, y0) && d.at(x1, y0) == c.at(x1, y0));
    assert(d.at(x0, y1) == c.at(x0, y1));
    let e = d.hline(x0 + 1, y0, r.w - 2, '─', st);
    lemma_hline(d, x0 + 1, y0, r.w - 2, '─', st);
    assert(e.at(x0, y0) == d.at(x0, y0) && e.at(x1, y0) == d.at(x1, y0));
    assert(e.at(x0, y1) == d.at(x0, y1) && e.at(x1, y1) == d.at(x1, y1));
    let f = e.hline(x0 + 1, y1, r.w - 2, '─', st);
    lemma_hline(e, x0 + 1, y1, r.w - 2, '─', st);
    assert(f.at(x0, y0) == e.at(x0, y0) && f.at(x1, y0) == e.at(x1, y0));
    assert(f.at(x0, y1) == e.at(x0, y1) && f.at(x1, y1) == e.at(x1, y1));
    let h = f.sides(x0, x1, y0 + 1, r.h - 2, st);
    lemma_sides(f, x0, x1, y0 + 1, r.h - 2, st);
    assert(h.at(x0, y0) == f.at(x0, y0) && h.at(x1, y0) == f.at(x1, y0));
    assert(h.at(x0, y1) == f.at(x0, y1) && h.at(x1, y1) == f.at(x1, y1));
    assert forall|i: int| x0 < i < x1 implies #[trigger] h.at(i, y0) == (Cell { ch: '─', st })
        && h.at(i, y1) == (Cell { ch: '─', st }) by {
        assert(e.at(i, y0) == (Cell { ch: '─', st }));
        assert(f.at(i, y0) == e.at(i, y0));
        assert(f.at(i, y1) == (Cell { ch: '─', st }));
        assert(h.at(i, y0) == f.at(i, y0));
        assert(h.at(i, y1) == f.at(i, y1));
    }
}

proof fn lemma_write_beside(g: Grid, x: int, y: int, s: Seq<char>, st: Style)
    requires
        display::consistent(g),
        frames::clean(s),
    ensures
        beside(g, g.write(x, y, s, st), x, x + screen::text_width(s), y),
    decreases s.len(),
{
    if s.len() > 0 {
        let t = s.drop_last();
        assert(frames::clean(t)) by {
            if t.contains(CONT) {
                assert(s[t.index_of(CONT)] == CONT);
            }
        }
        assert(s.contains(s.last()));
        lemma_write_beside(g, x, y, t, st);
        let a = g.write(x, y, t, st);
        let at = x + screen::text_width(t);
        screen::lemma_width_le_bytes(t);
        screen::lemma_width_range(s.last());
        lemma_put_beside(a, at, y, s.last(), st);
        lemma_beside_wider(g, a, x, at, y, x, x + screen::text_width(s));
        lemma_beside_then(
            g,
            a,
            g.write(x, y, s, st),
            x,
            x + screen::text_width(s),
            y,
            at,
            at + screen::width_of(s.last()),
        );
    }
}

/// Writing a text leaves all characters of one column that stand elsewhere.
pub proof fn writing_leaves_other_cells(
    g: Grid,
    x: int,
    y: int,
    s: Seq<char>,
    st: Style,
    i: int,
    j: int,
)
    requires
        display::consistent(g),
        frames::clean(s),
        0 <= i < g.w,
        0 <= j < g.h,
        j != y || i < x || i >= x + screen::text_width(s),
        narrow(g.at(i, j)),
    ensures
        g.write(x, y, s, st).at(i, j) == g.at(i, j),
{
    lemma_write_beside(g, x, y, s, st);
}

/// Drawing a text into `room` columns changes nothing beside them.
pub proof fn lemma_text_beside(g: Grid, x: int, y: int, room: int, s: Seq<char>, st: Style)
    requires
        display::consistent(g),
        frames::clean(s),
        0 <= room,
    ensures
        beside(g, g.text(x, y, room, s, st), x, x + room, y),
        beside(g, g.ellipsis(x, y, room, s, st), x, x + room, y),
{
    lemma_edges();
    screen::lemma_fitting(s, room);
    lemma_clean_fit(s, room);
    let t = screen::fitting(s, room);
    lemma_write_beside(g, x, y, t, st);
    lemma_beside_wider(g, g.text(x, y, room, s, st), x, x + screen::text_width(t), y, x, x + room);
    if room > 0 {
        if screen::text_width(s) <= room {
        } else {
            screen::lemma_fitting(s, room - 1);
            lemma_clean_fit(s, room - 1);
            let u = screen::fitting(s, room - 1);
            let a = g.text(x, y, room - 1, s, st);
            lemma_write_beside(g, x, y, u, st);
            let at = x + screen::text_width(u);
            lemma_beside_wider(g, a, x, at, y, x, x + room);
            lemma_put_beside(a, at, y, '…', st);
            lemma_beside_then(g, a, a.put(at, y, '…', st), x, x + room, y, at, at + 1);
        }
    }
}

proof fn lemma_clean_fit(s: Seq<char>, room: int)
    requires
        0 <= room,
        frames::clean(s),
    ensures
        frames::clean(screen::fitting(s, room)),
{
    screen::lemma_fitting(s, room);
    let t = screen::fitting(s, room);
    if t.contains(CONT) {
        assert(s[t.index_of(CONT)] == CONT);
    }
}

/// A frame with a title and a footer is closed too: they stand within its top
/// and its bottom edge.
#[verifier::rlimit(40)]
#[verifier::spinoff_prover]
pub proof fn titles_leave_frames_closed(
    g: Grid,
    r: Rect,
    title: Seq<char>,
    footer: Seq<char>,
    focused: bool,
)
    requires
        display::consistent(g),
        2 <= r.w,
        2 <= r.h,
        r.x + r.w <= g.w,
        r.y + r.h <= g.h,
        frames::clean(title),
        frames::clean(footer),
    ensures
        framed(g.frame(r, title, footer, focused), r, screen::border_style(focused)),
        screen::text_width(title) <= r.w - 3 && r.w > 4 ==> showing::reads(
            g.frame(r, title, footer, focused),
            r.x + 1,
            r.y as int,
            title,
        ),
{
    lemma_edges();
    let st = screen::border_style(focused);
    let ts = screen::title_style(focused);
    frames_are_closed(g, r, st);
    let a = g.border(r, st);
    let t = if title.len() > 0 && r.w > 4 {
        lemma_text_beside(a, r.x + 1, r.y as int, r.w - 3, title, ts);
        a.ellipsis(r.x + 1, r.y as int, r.w - 3, title, ts)
    } else {
        lemma_beside_self(a, r.x + 1, r.x + r.w - 2, r.y as int);
        a
    };
    assert(beside(a, t, r.x + 1, r.x + r.w - 2, r.y as int));
    lemma_framed_kept(a, t, r, st, r.x + 1, r.x + r.w - 2, r.y as int);
    let fw = screen::text_width(footer) % 0x1_0000;
    let z = g.frame(r, title, footer, focused);
    if footer.len() > 0 && fw + 4 <= r.w {
        let x = r.x + r.w - 2 - fw;
        lemma_text_beside(t, x, r.y + r.h - 1, fw, footer, st);
        lemma_beside_wider(t, z, x, x + fw, r.y + r.h - 1, r.x + 1, r.x + r.w - 2);
        lemma_framed_kept(t, z, r, st, r.x + 1, r.x + r.w - 2, r.y + r.h - 1);
        showing::lemma_only_text(t, x, r.y + r.h - 1, fw, footer, st);
    }
    if screen::text_width(title) <= r.w - 3 && r.w > 4 {
        if title.len() > 0 {
            showing::written_text_is_shown(a, r.x + 1, r.y as int, title, ts);
            showing::lemma_shows_reads(t, r.x + 1, r.y as int, title, ts);
        }
        assert(showing::reads(t, r.x + 1, r.y as int, title));
        if footer.len() > 0 && fw + 4 <= r.w {
            showing::lemma_reads_kept(
                t,
                z,
                r.x + r.w - 2 - fw - 1,
                r.y + r.h - 1,
                r.y + r.h,
                r.x + 1,
                r.y as int,
                title,
            );
        }
    }
}

pub proof fn lemma_beside_self(g: Grid, x0: int, x1: int, y: int)
    requires
        display::consistent(g),
    ensures
        beside(g, g, x0, x1, y),
{
}

proof fn lemma_framed_kept(a: Grid, b: Grid, r: Rect, st: Style, x0: int, x1: int, y: int)
    requires
        framed(a, r, st),
        beside(a, b, x0, x1, y),
        2 <= r.w,
        2 <= r.h,
        r.x + r.w <= a.w,
        r.y + r.h <= a.h,
        r.x < x0,
        x1 < r.x + r.w,
    ensures
        framed(b, r, st),
{
    lemma_edges();
    let (l, u) = (r.x as int, r.y as int);
    let (m, v) = (r.x + r.w - 1, r.y + r.h - 1);
    assert(b.at(l, u) == a.at(l, u) && b.at(m, u) == a.at(m, u));
    assert(b.at(l, v) == a.at(l, v) && b.at(m, v) == a.at(m, v));
    assert forall|j: int| u < j < v implies #[trigger] b.at(l, j) == (Cell { ch: '│', st })
        && b.at(m, j) == (Cell { ch: '│', st }) by {
        assert(a.at(l, j) == (Cell { ch: '│', st }));
        assert(b.at(m, j) == a.at(m, j));
    }
}

} // verus!
