//! The 5x7 pixel font (proportional widths) with composed French accents.
//! Rows are top to bottom, bit 4 the leftmost pixel; accented letters are
//! composed at lookup (base letter pushed down a row under the mark, or a
//! cedilla row added below), so the table only holds ASCII.
use vstd::prelude::*;
use vstd::std_specs::iter::IteratorSpec;

verus! {

/// Rows of a looked-up glyph.
pub const ROWS: usize = 8;

pub const GLYPHS: [(char, [u8; 7]); 95] = [
    (' ', [0, 0, 0, 0, 0, 0, 0]),
    ('!', [0b00100, 0b00100, 0b00100, 0b00100, 0b00100, 0b00000, 0b00100]),
    ('"', [0b01010, 0b01010, 0b00000, 0b00000, 0b00000, 0b00000, 0b00000]),
    ('#', [0b01010, 0b10101, 0b11111, 0b01010, 0b11111, 0b10101, 0b01010]),
    ('$', [0b00100, 0b01111, 0b10100, 0b01110, 0b00101, 0b11110, 0b00100]),
    ('%', [0b11001, 0b11010, 0b00010, 0b00100, 0b01000, 0b01011, 0b10011]),
    ('&', [0b01100, 0b10010, 0b10100, 0b01000, 0b10101, 0b10010, 0b01101]),
    ('\'', [0b00100, 0b00100, 0b00000, 0b00000, 0b00000, 0b00000, 0b00000]),
    ('(', [0b00010, 0b00100, 0b01000, 0b01000, 0b01000, 0b00100, 0b00010]),
    (')', [0b01000, 0b00100, 0b00010, 0b00010, 0b00010, 0b00100, 0b01000]),
    ('*', [0b00000, 0b00100, 0b10101, 0b01110, 0b10101, 0b00100, 0b00000]),
    ('+', [0b00000, 0b00100, 0b00100, 0b11111, 0b00100, 0b00100, 0b00000]),
    (',', [0b00000, 0b00000, 0b00000, 0b00000, 0b01100, 0b00100, 0b01000]),
    ('-', [0b00000, 0b00000, 0b00000, 0b11111, 0b00000, 0b00000, 0b00000]),
    ('.', [0b00000, 0b00000, 0b00000, 0b00000, 0b00000, 0b01100, 0b01100]),
    ('/', [0b00001, 0b00010, 0b00010, 0b00100, 0b01000, 0b01000, 0b10000]),
    ('0', [0b01110, 0b10001, 0b10011, 0b10101, 0b11001, 0b10001, 0b01110]),
    ('1', [0b00100, 0b01100, 0b00100, 0b00100, 0b00100, 0b00100, 0b01110]),
    ('2', [0b01110, 0b10001, 0b00001, 0b00010, 0b00100, 0b01000, 0b11111]),
    ('3', [0b11111, 0b00010, 0b00100, 0b00010, 0b00001, 0b10001, 0b01110]),
    ('4', [0b00010, 0b00110, 0b01010, 0b10010, 0b11111, 0b00010, 0b00010]),
    ('5', [0b11111, 0b10000, 0b11110, 0b00001, 0b00001, 0b10001, 0b01110]),
    ('6', [0b00110, 0b01000, 0b10000, 0b11110, 0b10001, 0b10001, 0b01110]),
    ('7', [0b11111, 0b00001, 0b00010, 0b00100, 0b01000, 0b01000, 0b01000]),
    ('8', [0b01110, 0b10001, 0b10001, 0b01110, 0b10001, 0b10001, 0b01110]),
    ('9', [0b01110, 0b10001, 0b10001, 0b01111, 0b00001, 0b00010, 0b01100]),
    (':', [0b00000, 0b01100, 0b01100, 0b00000, 0b01100, 0b01100, 0b00000]),
    (';', [0b00000, 0b01100, 0b01100, 0b00000, 0b01100, 0b00100, 0b01000]),
    ('<', [0b00010, 0b00100, 0b01000, 0b10000, 0b01000, 0b00100, 0b00010]),
    ('=', [0b00000, 0b00000, 0b11111, 0b00000, 0b11111, 0b00000, 0b00000]),
    ('>', [0b01000, 0b00100, 0b00010, 0b00001, 0b00010, 0b00100, 0b01000]),
    ('?', [0b01110, 0b10001, 0b00001, 0b00010, 0b00100, 0b00000, 0b00100]),
    ('@', [0b01110, 0b10001, 0b10111, 0b10101, 0b10111, 0b10000, 0b01110]),
    ('A', [0b01110, 0b10001, 0b10001, 0b11111, 0b10001, 0b10001, 0b10001]),
    ('B', [0b11110, 0b10001, 0b10001, 0b11110, 0b10001, 0b10001, 0b11110]),
    ('C', [0b01110, 0b10001, 0b10000, 0b10000, 0b10000, 0b10001, 0b01110]),
    ('D', [0b11100, 0b10010, 0b10001, 0b10001, 0b10001, 0b10010, 0b11100]),
    ('E', [0b11111, 0b10000, 0b10000, 0b11110, 0b10000, 0b10000, 0b11111]),
    ('F', [0b11111, 0b10000, 0b10000, 0b11110, 0b10000, 0b10000, 0b10000]),
    ('G', [0b01110, 0b10001, 0b10000, 0b10111, 0b10001, 0b10001, 0b01111]),
    ('H', [0b10001, 0b10001, 0b10001, 0b11111, 0b10001, 0b10001, 0b10001]),
    ('I', [0b01110, 0b00100, 0b00100, 0b00100, 0b00100, 0b00100, 0b01110]),
    ('J', [0b00111, 0b00010, 0b00010, 0b00010, 0b00010, 0b10010, 0b01100]),
    ('K', [0b10001, 0b10010, 0b10100, 0b11000, 0b10100, 0b10010, 0b10001]),
    ('L', [0b10000, 0b10000, 0b10000, 0b10000, 0b10000, 0b10000, 0b11111]),
    ('M', [0b10001, 0b11011, 0b10101, 0b10101, 0b10001, 0b10001, 0b10001]),
    ('N', [0b10001, 0b10001, 0b11001, 0b10101, 0b10011, 0b10001, 0b10001]),
    ('O', [0b01110, 0b10001, 0b10001, 0b10001, 0b10001, 0b10001, 0b01110]),
    ('P', [0b11110, 0b10001, 0b10001, 0b11110, 0b10000, 0b10000, 0b10000]),
    ('Q', [0b01110, 0b10001, 0b10001, 0b10001, 0b10101, 0b10010, 0b01101]),
    ('R', [0b11110, 0b10001, 0b10001, 0b11110, 0b10100, 0b10010, 0b10001]),
    ('S', [0b01111, 0b10000, 0b10000, 0b01110, 0b00001, 0b00001, 0b11110]),
    ('T', [0b11111, 0b00100, 0b00100, 0b00100, 0b00100, 0b00100, 0b00100]),
    ('U', [0b10001, 0b10001, 0b10001, 0b10001, 0b10001, 0b10001, 0b01110]),
    ('V', [0b10001, 0b10001, 0b10001, 0b10001, 0b10001, 0b01010, 0b00100]),
    ('W', [0b10001, 0b10001, 0b10001, 0b10101, 0b10101, 0b10101, 0b01010]),
    ('X', [0b10001, 0b10001, 0b01010, 0b00100, 0b01010, 0b10001, 0b10001]),
    ('Y', [0b10001, 0b10001, 0b01010, 0b00100, 0b00100, 0b00100, 0b00100]),
    ('Z', [0b11111, 0b00001, 0b00010, 0b00100, 0b01000, 0b10000, 0b11111]),
    ('[', [0b01110, 0b01000, 0b01000, 0b01000, 0b01000, 0b01000, 0b01110]),
    ('\\', [0b10000, 0b01000, 0b01000, 0b00100, 0b00010, 0b00010, 0b00001]),
    (']', [0b01110, 0b00010, 0b00010, 0b00010, 0b00010, 0b00010, 0b01110]),
    ('^', [0b00100, 0b01010, 0b10001, 0b00000, 0b00000, 0b00000, 0b00000]),
    ('_', [0b00000, 0b00000, 0b00000, 0b00000, 0b00000, 0b00000, 0b11111]),
    ('`', [0b01000, 0b00100, 0b00000, 0b00000, 0b00000, 0b00000, 0b00000]),
    ('a', [0b00000, 0b00000, 0b01110, 0b00001, 0b01111, 0b10001, 0b01111]),
    ('b', [0b10000, 0b10000, 0b11110, 0b10001, 0b10001, 0b10001, 0b11110]),
    ('c', [0b00000, 0b00000, 0b01111, 0b10000, 0b10000, 0b10000, 0b01111]),
    ('d', [0b00001, 0b00001, 0b01111, 0b10001, 0b10001, 0b10001, 0b01111]),
    ('e', [0b00000, 0b00000, 0b01110, 0b10001, 0b11111, 0b10000, 0b01110]),
    ('f', [0b00110, 0b01001, 0b01000, 0b11100, 0b01000, 0b01000, 0b01000]),
    ('g', [0b00000, 0b01111, 0b10001, 0b10001, 0b01111, 0b00001, 0b01110]),
    ('h', [0b10000, 0b10000, 0b11110, 0b10001, 0b10001, 0b10001, 0b10001]),
    ('i', [0b00100, 0b00000, 0b01100, 0b00100, 0b00100, 0b00100, 0b01110]),
    ('j', [0b00010, 0b00000, 0b00110, 0b00010, 0b00010, 0b10010, 0b01100]),
    ('k', [0b10000, 0b10000, 0b10010, 0b10100, 0b11000, 0b10100, 0b10010]),
    ('l', [0b01100, 0b00100, 0b00100, 0b00100, 0b00100, 0b00100, 0b01110]),
    ('m', [0b00000, 0b00000, 0b11010, 0b10101, 0b10101, 0b10101, 0b10101]),
    ('n', [0b00000, 0b00000, 0b11110, 0b10001, 0b10001, 0b10001, 0b10001]),
    ('o', [0b00000, 0b00000, 0b01110, 0b10001, 0b10001, 0b10001, 0b01110]),
    ('p', [0b00000, 0b00000, 0b11110, 0b10001, 0b11110, 0b10000, 0b10000]),
    ('q', [0b00000, 0b00000, 0b01111, 0b10001, 0b01111, 0b00001, 0b00001]),
    ('r', [0b00000, 0b00000, 0b01110, 0b10001, 0b10000, 0b10000, 0b10000]),
    ('s', [0b00000, 0b00000, 0b01111, 0b10000, 0b01110, 0b00001, 0b11110]),
    ('t', [0b01000, 0b01000, 0b11100, 0b01000, 0b01000, 0b01000, 0b00110]),
    ('u', [0b00000, 0b00000, 0b10001, 0b10001, 0b10001, 0b10011, 0b01101]),
    ('v', [0b00000, 0b00000, 0b10001, 0b10001, 0b10001, 0b01010, 0b00100]),
    ('w', [0b00000, 0b00000, 0b10001, 0b10101, 0b10101, 0b10101, 0b01010]),
    ('x', [0b00000, 0b00000, 0b10001, 0b01010, 0b00100, 0b01010, 0b10001]),
    ('y', [0b00000, 0b00000, 0b10001, 0b10001, 0b01111, 0b00001, 0b01110]),
    ('z', [0b00000, 0b00000, 0b11111, 0b00010, 0b00100, 0b01000, 0b11111]),
    ('{', [0b00110, 0b00100, 0b00100, 0b01100, 0b00100, 0b00100, 0b00110]),
    ('|', [0b00100, 0b00100, 0b00100, 0b00100, 0b00100, 0b00100, 0b00100]),
    ('}', [0b01100, 0b00100, 0b00100, 0b00010, 0b00100, 0b00100, 0b01100]),
    ('~', [0b00000, 0b00000, 0b01000, 0b10101, 0b00010, 0b00000, 0b00000]),
];

/// An accent mark.
#[derive(Clone, Copy, PartialEq, Eq, Structural, Debug)]
pub enum Accent {
    Acute,
    Grave,
    Circumflex,
    Umlaut,
    Cedilla,
    Tilde,
}

/// Composed accented characters: (character, base letter, accent).
pub const ACCENTS: [(char, char, Accent); 23] = [
    ('à', 'a', Accent::Grave),
    ('â', 'a', Accent::Circumflex),
    ('ä', 'a', Accent::Umlaut),
    ('é', 'e', Accent::Acute),
    ('è', 'e', Accent::Grave),
    ('ê', 'e', Accent::Circumflex),
    ('ë', 'e', Accent::Umlaut),
    ('î', 'i', Accent::Circumflex),
    ('ï', 'i', Accent::Umlaut),
    ('ô', 'o', Accent::Circumflex),
    ('ö', 'o', Accent::Umlaut),
    ('ù', 'u', Accent::Grave),
    ('û', 'u', Accent::Circumflex),
    ('ü', 'u', Accent::Umlaut),
    ('ç', 'c', Accent::Cedilla),
    ('œ', 'o', Accent::Tilde),
    ('É', 'E', Accent::Acute),
    ('È', 'E', Accent::Grave),
    ('Ê', 'E', Accent::Circumflex),
    ('À', 'A', Accent::Grave),
    ('Â', 'A', Accent::Circumflex),
    ('Ç', 'C', Accent::Cedilla),
    ('Ô', 'O', Accent::Circumflex),
];

/// Index of the first table glyph for `c` from entry `k` on.
pub open spec fn glyph_at(c: char, k: int) -> Option<int>
    decreases 95 - k,
{
    if k < 0 || k >= 95 {
        None
    } else if GLYPHS@[k].0 == c {
        Some(k)
    } else {
        glyph_at(c, k + 1)
    }
}

/// Index of the first accent entry for `c` from entry `k` on.
pub open spec fn accent_at(c: char, k: int) -> Option<int>
    decreases 23 - k,
{
    if k < 0 || k >= 23 {
        None
    } else if ACCENTS@[k].0 == c {
        Some(k)
    } else {
        accent_at(c, k + 1)
    }
}

/// Pixel `b` (0 leftmost) of a glyph row is set.
pub open spec fn bit_on(row: u8, b: int) -> bool {
    row & (1u8 << ((4 - b) as u8)) != 0
}

/// Rightmost set pixel, plus one, over the first `n` pixels of `rows`
/// taken row by row, five a row.
pub open spec fn ink_upto(rows: Seq<u8>, n: int) -> int
    decreases n,
{
    if n <= 0 {
        0
    } else {
        let k = n - 1;
        let prev = ink_upto(rows, k);
        let v = if bit_on(rows[k / 5], k % 5) { k % 5 + 1 } else { 0 };
        if v > prev { v } else { prev }
    }
}

/// Width in pixels of a seven-row glyph: its rightmost set pixel, at least 1.
pub open spec fn used_width_spec(rows: Seq<u8>) -> int {
    let w = ink_upto(rows, 35);
    if w > 1 { w } else { 1 }
}

/// The top row drawn for an accent (none for the cedilla, drawn below).
pub open spec fn accent_mark(acc: Accent) -> u8 {
    match acc {
        Accent::Acute => 0b00010,
        Accent::Grave => 0b01000,
        Accent::Circumflex => 0b01010,
        Accent::Umlaut => 0b01010,
        Accent::Tilde => 0b01101,
        Accent::Cedilla => 0,
    }
}

/// The eight rows and width of `base` with `acc`: a cedilla goes on an
/// eighth row, another mark on a new top row above the base pushed down.
pub open spec fn compose_spec(base: char, acc: Accent) -> Option<(Seq<u8>, int)> {
    match glyph_at(base, 0) {
        None => None,
        Some(k) => {
            let rows = GLYPHS@[k].1@;
            let w = used_width_spec(rows);
            if acc == Accent::Cedilla {
                Some((rows.push(0b00010u8), w))
            } else {
                Some((seq![accent_mark(acc)] + rows, w))
            }
        },
    }
}

/// The eight rows and width of the glyph of `c`.
pub open spec fn glyph_spec(c: char) -> Option<(Seq<u8>, int)> {
    match accent_at(c, 0) {
        Some(a) => compose_spec(ACCENTS@[a].1, ACCENTS@[a].2),
        None => match glyph_at(c, 0) {
            None => None,
            Some(k) => Some((GLYPHS@[k].1@.push(0u8), used_width_spec(GLYPHS@[k].1@))),
        },
    }
}

/// Advance of `c` in pixels: its width plus one pixel of spacing, 5 for a
/// character without a glyph.
pub open spec fn char_width_spec(c: char) -> int {
    match glyph_spec(c) {
        Some((_, w)) => w + 1,
        None => 5,
    }
}

/// Width of the characters `s` in pixels.
pub open spec fn width_spec(s: Seq<char>) -> int
    decreases s.len(),
{
    if s.len() == 0 {
        0
    } else {
        width_spec(s.drop_last()) + char_width_spec(s.last())
    }
}

fn find_glyph(c: char) -> (r: Option<usize>)
    ensures
        match r {
            Some(k) => glyph_at(c, 0) == Some(k as int) && k < 95,
            None => glyph_at(c, 0) is None,
        },
{
    let mut k: usize = 0;
    while k < 95
        invariant
            k <= 95,
            glyph_at(c, 0) == glyph_at(c, k as int),
        decreases 95 - k,
    {
        if GLYPHS[k].0 == c {
            return Some(k);
        }
        k += 1;
    }
    None
}

/// Width of a glyph: its rightmost set pixel, at least 1.
fn used_width(rows: &[u8; 7]) -> (w: usize)
    ensures
        w == used_width_spec(rows@),
        1 <= w <= 5,
{
    let mut w: usize = 0;
    let mut i: usize = 0;
    while i < 7
        invariant
            i <= 7,
            w == ink_upto(rows@, 5 * i),
            w <= 5,
        decreases 7 - i,
    {
        let row = rows[i];
        let mut b: usize = 0;
        while b < 5
            invariant
                i < 7,
                b <= 5,
                row == rows@[i as int],
                w == ink_upto(rows@, 5 * i + b),
                w <= 5,
            decreases 5 - b,
        {
            proof {
                let k = 5 * i + b;
                assert(k / 5 == i && k % 5 == b);
            }
            if row & (1u8 << ((4 - b) as u8)) != 0 && b + 1 > w {
                w = b + 1;
            }
            b += 1;
        }
        i += 1;
    }
    if w > 1 { w } else { 1 }
}

fn compose(base: char, acc: Accent) -> (r: Option<([u8; ROWS], usize)>)
    ensures
        match r {
            Some((rows, w)) => compose_spec(base, acc) == Some((rows@, w as int)),
            None => compose_spec(base, acc) is None,
        },
{
    let k = match find_glyph(base) {
        Some(k) => k,
        None => return None,
    };
    let rows = GLYPHS[k].1;
    let w = used_width(&rows);
    let mut r = [0u8; ROWS];
    match acc {
        Accent::Cedilla => {
            for j in 0usize..7
                invariant
                    r@.len() == 8,
                    forall|t: int| 0 <= t < j ==> #[trigger] r@[t] == rows@[t],
            {
                r[j] = rows[j];
            }
            r[7] = 0b00010;
            proof {
                assert(r@ =~= rows@.push(0b00010u8));
            }
        },
        _ => {
            r[0] = match acc {
                Accent::Acute => 0b00010,
                Accent::Grave => 0b01000,
                Accent::Circumflex => 0b01010,
                Accent::Umlaut => 0b01010,
                Accent::Tilde => 0b01101,
                _ => 0,
            };
            for j in 0usize..7
                invariant
                    r@.len() == 8,
                    r@[0] == accent_mark(acc),
                    forall|t: int| 0 <= t < j ==> #[trigger] r@[t + 1] == rows@[t],
            {
                r[j + 1] = rows[j];
            }
            proof {
                let m = seq![accent_mark(acc)] + rows@;
                assert forall|t: int| 0 <= t < 8 implies #[trigger] r@[t] == m[t] by {
                    if t > 0 {
                        assert(r@[(t - 1) + 1] == rows@[t - 1]);
                    }
                }
                assert(r@ =~= m);
            }
        },
    }
    Some((r, w))
}

/// Looks a glyph up: its eight rows (row 0 first) and pixel width.
pub fn glyph(c: char) -> (r: Option<([u8; ROWS], usize)>)
    ensures
        match r {
            Some((rows, w)) => glyph_spec(c) == Some((rows@, w as int)),
            None => glyph_spec(c) is None,
        },
{
    let mut a: usize = 0;
    while a < 23
        invariant
            a <= 23,
            accent_at(c, 0) == accent_at(c, a as int),
        decreases 23 - a,
    {
        if ACCENTS[a].0 == c {
            return compose(ACCENTS[a].1, ACCENTS[a].2);
        }
        a += 1;
    }
    let k = match find_glyph(c) {
        Some(k) => k,
        None => return None,
    };
    let rows = GLYPHS[k].1;
    let mut r = [0u8; ROWS];
    for j in 0usize..7
        invariant
            r@.len() == 8,
            r@[7] == 0,
            forall|t: int| 0 <= t < j ==> #[trigger] r@[t] == rows@[t],
    {
        r[j] = rows[j];
    }
    proof {
        assert(r@ =~= rows@.push(0u8));
    }
    Some((r, used_width(&rows)))
}

/// Advance width of one character in pixels (glyph + 1 px spacing).
pub fn char_width(c: char) -> (r: usize)
    ensures
        r == char_width_spec(c),
        r <= 6,
{
    match glyph(c) {
        Some((_, w)) => {
            proof { lemma_width_bound(c); }
            w + 1
        },
        None => 5,
    }
}

proof fn lemma_width_bound(c: char)
    ensures
        glyph_spec(c) matches Some((_, w)) ==> 1 <= w <= 5,
{
    assert forall|rows: Seq<u8>| #[trigger] used_width_spec(rows) <= 5 by {
        lemma_ink_bound(rows, 35);
    }
}

proof fn lemma_ink_bound(rows: Seq<u8>, n: int)
    ensures
        0 <= ink_upto(rows, n) <= 5,
    decreases n,
{
    if n > 0 {
        lemma_ink_bound(rows, n - 1);
    }
}

/// Width of a string in pixels (scale 1).
pub fn width(s: &str) -> (r: usize)
    requires
        width_spec(s@) <= usize::MAX,
    ensures
        r == width_spec(s@),
{
    let mut it = s.chars();
    let mut total: usize = 0;
    let ghost mut done: Seq<char> = Seq::empty();
    proof {
        vstd::string::axiom_spec_iter(s);
    }
    loop
        invariant
            done + it.remaining() == s@,
            total == width_spec(done),
            width_spec(s@) <= usize::MAX,
            it.decrease() is Some,
        decreases it.decrease().unwrap(),
    {
        let ghost before = it;
        let c = it.next();
        proof {
            vstd::string::next_postcondition(&before, &it, c);
        }
        match c {
            Some(ch) => {
                let cw = char_width(ch);
                proof {
                    let nd = done.push(ch);
                    assert(nd.drop_last() =~= done);
                    assert(nd + it.remaining() =~= s@) by {
                        assert(before.remaining() == seq![ch] + it.remaining());
                    }
                    width_concat(nd, it.remaining());
                    lemma_width_nonneg(it.remaining());
                    done = nd;
                }
                total = total + cw;
            },
            None => {
                proof { assert(done =~= s@); }
                return total;
            },
        }
    }
}

proof fn lemma_width_nonneg(s: Seq<char>)
    ensures
        width_spec(s) >= 0,
    decreases s.len(),
{
    if s.len() > 0 {
        lemma_width_nonneg(s.drop_last());
        lemma_width_bound(s.last());
    }
}

/// The width of two strings one after the other is the sum of their
/// widths.
pub proof fn width_concat(a: Seq<char>, b: Seq<char>)
    ensures
        width_spec(a + b) == width_spec(a) + width_spec(b),
    decreases b.len(),
{
    if b.len() == 0 {
        assert(a + b =~= a);
    } else {
        width_concat(a, b.drop_last());
        assert((a + b).drop_last() =~= a + b.drop_last());
        assert((a + b).last() == b.last());
    }
}

proof fn lemma_glyph_scan(c: char, k: int)
    requires
        0 <= k <= 95,
        forall|j: int| 0 <= j < k ==> GLYPHS@[j].0 != c,
    ensures
        glyph_at(c, 0) == glyph_at(c, k),
    decreases k,
{
    if k > 0 {
        lemma_glyph_scan(c, k - 1);
    }
}

proof fn lemma_accent_scan(c: char, k: int)
    requires
        0 <= k <= 23,
        forall|j: int| 0 <= j < k ==> ACCENTS@[j].0 != c,
    ensures
        accent_at(c, 0) == accent_at(c, k),
    decreases k,
{
    if k > 0 {
        lemma_accent_scan(c, k - 1);
    }
}

proof fn lemma_table_chars()
    ensures
        forall|k: int| 0 <= k < 95 ==> (#[trigger] GLYPHS@[k]).0 as u32 == 32 + k,
        forall|k: int| 0 <= k < 23 ==> (#[trigger] ACCENTS@[k]).0 as u32 >= 0xC0,
{
    assert(GLYPHS@[0].0 == (32u32 as char));
    assert(GLYPHS@[1].0 == (33u32 as char));
    assert(GLYPHS@[2].0 == (34u32 as char));
    assert(GLYPHS@[3].0 == (35u32 as char));
    assert(GLYPHS@[4].0 == (36u32 as char));
    assert(GLYPHS@[5].0 == (37u32 as char));
    assert(GLYPHS@[6].0 == (38u32 as char));
    assert(GLYPHS@[7].0 == (39u32 as char));
    assert(GLYPHS@[8].0 == (40u32 as char));
    assert(GLYPHS@[9].0 == (41u32 as char));
    assert(GLYPHS@[10].0 == (42u32 as char));
    assert(GLYPHS@[11].0 == (43u32 as char));
    assert(GLYPHS@[12].0 == (44u32 as char));
    assert(GLYPHS@[13].0 == (45u32 as char));
    assert(GLYPHS@[14].0 == (46u32 as char));
    assert(GLYPHS@[15].0 == (47u32 as char));
    assert(GLYPHS@[16].0 == (48u32 as char));
    assert(GLYPHS@[17].0 == (49u32 as char));
    assert(GLYPHS@[18].0 == (50u32 as char));
    assert(GLYPHS@[19].0 == (51u32 as char));
    assert(GLYPHS@[20].0 == (52u32 as char));
    assert(GLYPHS@[21].0 == (53u32 as char));
    assert(GLYPHS@[22].0 == (54u32 as char));
    assert(GLYPHS@[23].0 == (55u32 as char));
    assert(GLYPHS@[24].0 == (56u32 as char));
    assert(GLYPHS@[25].0 == (57u32 as char));
    assert(GLYPHS@[26].0 == (58u32 as char));
    assert(GLYPHS@[27].0 == (59u32 as char));
    assert(GLYPHS@[28].0 == (60u32 as char));
    assert(GLYPHS@[29].0 == (61u32 as char));
    assert(GLYPHS@[30].0 == (62u32 as char));
    assert(GLYPHS@[31].0 == (63u32 as char));
    assert(GLYPHS@[32].0 == (64u32 as char));
    assert(GLYPHS@[33].0 == (65u32 as char));
    assert(GLYPHS@[34].0 == (66u32 as char));
    assert(GLYPHS@[35].0 == (67u32 as char));
    assert(GLYPHS@[36].0 == (68u32 as char));
    assert(GLYPHS@[37].0 == (69u32 as char));
    assert(GLYPHS@[38].0 == (70u32 as char));
    assert(GLYPHS@[39].0 == (71u32 as char));
    assert(GLYPHS@[40].0 == (72u32 as char));
    assert(GLYPHS@[41].0 == (73u32 as char));
    assert(GLYPHS@[42].0 == (74u32 as char));
    assert(GLYPHS@[43].0 == (75u32 as char));
    assert(GLYPHS@[44].0 == (76u32 as char));
    assert(GLYPHS@[45].0 == (77u32 as char));
    assert(GLYPHS@[46].0 == (78u32 as char));
    assert(GLYPHS@[47].0 == (79u32 as char));
    assert(GLYPHS@[48].0 == (80u32 as char));
    assert(GLYPHS@[49].0 == (81u32 as char));
    assert(GLYPHS@[50].0 == (82u32 as char));
    assert(GLYPHS@[51].0 == (83u32 as char));
    assert(GLYPHS@[52].0 == (84u32 as char));
    assert(GLYPHS@[53].0 == (85u32 as char));
    assert(GLYPHS@[54].0 == (86u32 as char));
    assert(GLYPHS@[55].0 == (87u32 as char));
    assert(GLYPHS@[56].0 == (88u32 as char));
    assert(GLYPHS@[57].0 == (89u32 as char));
    assert(GLYPHS@[58].0 == (90u32 as char));
    assert(GLYPHS@[59].0 == (91u32 as char));
    assert(GLYPHS@[60].0 == (92u32 as char));
    assert(GLYPHS@[61].0 == (93u32 as char));
    assert(GLYPHS@[62].0 == (94u32 as char));
    assert(GLYPHS@[63].0 == (95u32 as char));
    assert(GLYPHS@[64].0 == (96u32 as char));
    assert(GLYPHS@[65].0 == (97u32 as char));
    assert(GLYPHS@[66].0 == (98u32 as char));
    assert(GLYPHS@[67].0 == (99u32 as char));
    assert(GLYPHS@[68].0 == (100u32 as char));
    assert(GLYPHS@[69].0 == (101u32 as char));
    assert(GLYPHS@[70].0 == (102u32 as char));
    assert(GLYPHS@[71].0 == (103u32 as char));
    assert(GLYPHS@[72].0 == (104u32 as char));
    assert(GLYPHS@[73].0 == (105u32 as char));
    assert(GLYPHS@[74].0 == (106u32 as char));
    assert(GLYPHS@[75].0 == (107u32 as char));
    assert(GLYPHS@[76].0 == (108u32 as char));
    assert(GLYPHS@[77].0 == (109u32 as char));
    assert(GLYPHS@[78].0 == (110u32 as char));
    assert(GLYPHS@[79].0 == (111u32 as char));
    assert(GLYPHS@[80].0 == (112u32 as char));
    assert(GLYPHS@[81].0 == (113u32 as char));
    assert(GLYPHS@[82].0 == (114u32 as char));
    assert(GLYPHS@[83].0 == (115u32 as char));
    assert(GLYPHS@[84].0 == (116u32 as char));
    assert(GLYPHS@[85].0 == (117u32 as char));
    assert(GLYPHS@[86].0 == (118u32 as char));
    assert(GLYPHS@[87].0 == (119u32 as char));
    assert(GLYPHS@[88].0 == (120u32 as char));
    assert(GLYPHS@[89].0 == (121u32 as char));
    assert(GLYPHS@[90].0 == (122u32 as char));
    assert(GLYPHS@[91].0 == (123u32 as char));
    assert(GLYPHS@[92].0 == (124u32 as char));
    assert(GLYPHS@[93].0 == (125u32 as char));
    assert(GLYPHS@[94].0 == (126u32 as char));
    assert(ACCENTS@[0].0 as u32 == 224);
    assert(ACCENTS@[1].0 as u32 == 226);
    assert(ACCENTS@[2].0 as u32 == 228);
    assert(ACCENTS@[3].0 as u32 == 233);
    assert(ACCENTS@[4].0 as u32 == 232);
    assert(ACCENTS@[5].0 as u32 == 234);
    assert(ACCENTS@[6].0 as u32 == 235);
    assert(ACCENTS@[7].0 as u32 == 238);
    assert(ACCENTS@[8].0 as u32 == 239);
    assert(ACCENTS@[9].0 as u32 == 244);
    assert(ACCENTS@[10].0 as u32 == 246);
    assert(ACCENTS@[11].0 as u32 == 249);
    assert(ACCENTS@[12].0 as u32 == 251);
    assert(ACCENTS@[13].0 as u32 == 252);
    assert(ACCENTS@[14].0 as u32 == 231);
    assert(ACCENTS@[15].0 as u32 == 339);
    assert(ACCENTS@[16].0 as u32 == 201);
    assert(ACCENTS@[17].0 as u32 == 200);
    assert(ACCENTS@[18].0 as u32 == 202);
    assert(ACCENTS@[19].0 as u32 == 192);
    assert(ACCENTS@[20].0 as u32 == 194);
    assert(ACCENTS@[21].0 as u32 == 199);
    assert(ACCENTS@[22].0 as u32 == 212);
    assert forall|k: int| 0 <= k < 95 implies (#[trigger] GLYPHS@[k]).0 as u32 == 32 + k by {
        assert(k == 0 || k == 1 || k == 2 || k == 3 || k == 4 || k == 5 || k == 6 || k == 7 || k == 8 || k == 9 || k == 10 || k == 11 || k == 12 || k == 13 || k == 14 || k == 15 || k == 16 || k == 17 || k == 18 || k == 19 || k == 20 || k == 21 || k == 22 || k == 23 || k == 24 || k == 25 || k == 26 || k == 27 || k == 28 || k == 29 || k == 30 || k == 31 || k == 32 || k == 33 || k == 34 || k == 35 || k == 36 || k == 37 || k == 38 || k == 39 || k == 40 || k == 41 || k == 42 || k == 43 || k == 44 || k == 45 || k == 46 || k == 47 || k == 48 || k == 49 || k == 50 || k == 51 || k == 52 || k == 53 || k == 54 || k == 55 || k == 56 || k == 57 || k == 58 || k == 59 || k == 60 || k == 61 || k == 62 || k == 63 || k == 64 || k == 65 || k == 66 || k == 67 || k == 68 || k == 69 || k == 70 || k == 71 || k == 72 || k == 73 || k == 74 || k == 75 || k == 76 || k == 77 || k == 78 || k == 79 || k == 80 || k == 81 || k == 82 || k == 83 || k == 84 || k == 85 || k == 86 || k == 87 || k == 88 || k == 89 || k == 90 || k == 91 || k == 92 || k == 93 || k == 94);
    }
    assert forall|k: int| 0 <= k < 23 implies (#[trigger] ACCENTS@[k]).0 as u32 >= 0xC0 by {
        assert(k == 0 || k == 1 || k == 2 || k == 3 || k == 4 || k == 5 || k == 6 || k == 7 || k == 8 || k == 9 || k == 10 || k == 11 || k == 12 || k == 13 || k == 14 || k == 15 || k == 16 || k == 17 || k == 18 || k == 19 || k == 20 || k == 21 || k == 22);
    }
}

/// Every printable ASCII character has a glyph.
pub proof fn ascii_glyphs(c: char)
    requires
        32 <= c as u32 <= 126,
    ensures
        glyph_spec(c) is Some,
{
    lemma_table_chars();
    let k = c as u32 - 32;
    assert forall|j: int| 0 <= j < 23 implies ACCENTS@[j].0 != c by {
        assert(ACCENTS@[j].0 as u32 >= 0xC0);
    }
    lemma_accent_scan(c, 23);
    assert forall|j: int| 0 <= j < k implies GLYPHS@[j].0 != c by {
        assert(GLYPHS@[j].0 as u32 == 32 + j);
    }
    lemma_glyph_scan(c, k as int);
    assert(GLYPHS@[k as int].0 as u32 == c as u32);
}

/// Number of rows with ink.
pub open spec fn ink_rows(rows: Seq<u8>) -> int
    decreases rows.len(),
{
    if rows.len() == 0 {
        0
    } else {
        ink_rows(rows.drop_last()) + if rows.last() != 0 { 1int } else { 0int }
    }
}

proof fn lemma_ink_push(rows: Seq<u8>, v: u8)
    ensures
        ink_rows(rows.push(v)) == ink_rows(rows) + if v != 0 { 1int } else { 0int },
{
    assert(rows.push(v).drop_last() =~= rows);
}

proof fn lemma_ink_front(v: u8, rows: Seq<u8>)
    ensures
        ink_rows(seq![v] + rows) == ink_rows(rows) + if v != 0 { 1int } else { 0int },
    decreases rows.len(),
{
    if rows.len() > 0 {
        lemma_ink_front(v, rows.drop_last());
        assert((seq![v] + rows).drop_last() =~= seq![v] + rows.drop_last());
        assert((seq![v] + rows).last() == rows.last());
        assert(ink_rows(rows) == ink_rows(rows.drop_last()) + if rows.last() != 0 { 1int } else { 0int });
    } else {
        assert(seq![v] + rows =~= seq![v]);
        assert(seq![v].drop_last() =~= Seq::<u8>::empty());
        assert(seq![v].last() == v);
        assert(ink_rows(seq![v]) == ink_rows(seq![v].drop_last()) + if v != 0 { 1int } else { 0int });
        assert(ink_rows(rows) == 0);
    }
}

/// An accented letter keeps every inked row of its base letter.
pub proof fn accents_keep_ink(c: char)
    requires
        accent_at(c, 0) is Some,
        glyph_spec(accent_base(c)) is Some,
    ensures
        glyph_spec(c) is Some,
        ink_rows(glyph_spec(c).unwrap().0) >= ink_rows(glyph_spec(accent_base(c)).unwrap().0),
{
    lemma_table_chars();
    let b = accent_base(c);
    let a = accent_at(c, 0).unwrap();
    lemma_accent_at_in(c, 0);
    assert(ACCENTS@[a].1 as u32 >= 0x41 && (ACCENTS@[a].1 as u32) < 0x7B) by {
        lemma_accent_bases();
    }
    assert forall|j: int| 0 <= j < 23 implies ACCENTS@[j].0 != b by {
        assert(ACCENTS@[j].0 as u32 >= 0xC0);
    }
    lemma_accent_scan(b, 23);
    let k = glyph_at(b, 0).unwrap();
    let rows = GLYPHS@[k].1@;
    lemma_ink_push(rows, 0);
    lemma_ink_push(rows, 0b00010u8);
    lemma_ink_front(accent_mark(ACCENTS@[a].2), rows);
}

/// Every accented letter of the table has a glyph: its base letter with the
/// mark. A cedilla replaces the empty eighth row; another mark takes a new
/// top row, non-empty, with the base moved down one row; the width stays the
/// base's.
pub proof fn accent_rows(c: char)
    requires
        accent_at(c, 0) is Some,
    ensures
        ({
            let (brows, bw) = glyph_spec(accent_base(c)).unwrap();
            let (rows, w) = glyph_spec(c).unwrap();
            let acc = ACCENTS@[accent_at(c, 0).unwrap()].2;
            &&& glyph_spec(c) is Some
            &&& w == bw
            &&& rows.len() == 8 && brows.len() == 8
            &&& if acc == Accent::Cedilla {
                rows.subrange(0, 7) == brows.subrange(0, 7) && rows[7] == 0b00010
            } else {
                rows[0] != 0 && rows.subrange(1, 8) == brows.subrange(0, 7)
            }
        }),
{
    lemma_table_chars();
    let b = accent_base(c);
    let a = accent_at(c, 0).unwrap();
    lemma_accent_at_in(c, 0);
    assert(ACCENTS@[a].1 as u32 >= 0x41 && (ACCENTS@[a].1 as u32) < 0x7B) by {
        lemma_accent_bases();
    }
    assert forall|j: int| 0 <= j < 23 implies ACCENTS@[j].0 != b by {
        assert(ACCENTS@[j].0 as u32 >= 0xC0);
    }
    lemma_accent_scan(b, 23);
    ascii_glyphs(b);
    let k = glyph_at(b, 0).unwrap();
    let rows = GLYPHS@[k].1@;
    assert(rows.len() == 7);
    let acc = ACCENTS@[a].2;
    if acc == Accent::Cedilla {
        assert(rows.push(0b00010u8).subrange(0, 7) =~= rows.push(0u8).subrange(0, 7));
    } else {
        assert((seq![accent_mark(acc)] + rows).subrange(1, 8) =~= rows.push(0u8).subrange(0, 7));
        assert(accent_mark(acc) != 0);
    }
}

/// The base letter of an accented character.
pub open spec fn accent_base(c: char) -> char {
    match accent_at(c, 0) {
        Some(a) => ACCENTS@[a].1,
        None => c,
    }
}

proof fn lemma_accent_at_in(c: char, k: int)
    requires
        0 <= k,
    ensures
        accent_at(c, k) matches Some(a) ==> k <= a < 23 && ACCENTS@[a].0 == c,
    decreases 23 - k,
{
    if k < 23 && ACCENTS@[k].0 != c {
        lemma_accent_at_in(c, k + 1);
    }
}

proof fn lemma_accent_bases()
    ensures
        forall|k: int| 0 <= k < 23 ==> 0x41 <= (#[trigger] ACCENTS@[k]).1 as u32 && (ACCENTS@[k].1 as u32) < 0x7B,
{
    assert(ACCENTS@[0].1 as u32 == 97);
    assert(ACCENTS@[1].1 as u32 == 97);
    assert(ACCENTS@[2].1 as u32 == 97);
    assert(ACCENTS@[3].1 as u32 == 101);
    assert(ACCENTS@[4].1 as u32 == 101);
    assert(ACCENTS@[5].1 as u32 == 101);
    assert(ACCENTS@[6].1 as u32 == 101);
    assert(ACCENTS@[7].1 as u32 == 105);
    assert(ACCENTS@[8].1 as u32 == 105);
    assert(ACCENTS@[9].1 as u32 == 111);
    assert(ACCENTS@[10].1 as u32 == 111);
    assert(ACCENTS@[11].1 as u32 == 117);
    assert(ACCENTS@[12].1 as u32 == 117);
    assert(ACCENTS@[13].1 as u32 == 117);
    assert(ACCENTS@[14].1 as u32 == 99);
    assert(ACCENTS@[15].1 as u32 == 111);
    assert(ACCENTS@[16].1 as u32 == 69);
    assert(ACCENTS@[17].1 as u32 == 69);
    assert(ACCENTS@[18].1 as u32 == 69);
    assert(ACCENTS@[19].1 as u32 == 65);
    assert(ACCENTS@[20].1 as u32 == 65);
    assert(ACCENTS@[21].1 as u32 == 67);
    assert(ACCENTS@[22].1 as u32 == 79);
    assert forall|k: int| 0 <= k < 23 implies 0x41 <= (#[trigger] ACCENTS@[k]).1 as u32 && (ACCENTS@[k].1 as u32) < 0x7B by {
        assert(k == 0 || k == 1 || k == 2 || k == 3 || k == 4 || k == 5 || k == 6 || k == 7 || k == 8 || k == 9 || k == 10 || k == 11 || k == 12 || k == 13 || k == 14 || k == 15 || k == 16 || k == 17 || k == 18 || k == 19 || k == 20 || k == 21 || k == 22);
    }
}

} // verus!
