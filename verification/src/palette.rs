//! The fixed quantization palette: five tone levels, each with a glyph and a
//! visual width, ordered from brightest to darkest. Every 0-255 channel value
//! maps to the nearest level by absolute distance, earlier entries winning
//! ties.

use vstd::prelude::*;

verus! {

/// The quantized channel value of palette entry `i`, in palette order
/// (brightest first).
pub open spec fn level(i: int) -> int {
    if i == 0 {
        255
    } else if i == 1 {
        209
    } else if i == 2 {
        63
    } else if i == 3 {
        48
    } else {
        0
    }
}

/// Whether `v` is one of the five palette levels.
pub open spec fn is_level(v: int) -> bool {
    v == 255 || v == 209 || v == 63 || v == 48 || v == 0
}

/// Absolute distance between two integers.
pub open spec fn abs_diff(a: int, b: int) -> int {
    if a >= b {
        a - b
    } else {
        b - a
    }
}

/// Nearest palette level to `v` among the first `n` entries, earlier entries
/// winning ties (a stable minimum scan in palette order).
pub open spec fn nearest_upto(v: int, n: int) -> int
    decreases n,
{
    if n <= 1 {
        level(0)
    } else {
        let best = nearest_upto(v, n - 1);
        if abs_diff(level(n - 1), v) < abs_diff(best, v) {
            level(n - 1)
        } else {
            best
        }
    }
}

/// Nearest palette level to `v` over the whole palette.
pub open spec fn nearest_level_spec(v: int) -> int {
    nearest_upto(v, 5)
}

/// The channel value of palette entry `i`.
pub fn level_value(i: usize) -> (r: u8)
    requires
        i < 5,
    ensures
        r == level(i as int),
{
    if i == 0 {
        255
    } else if i == 1 {
        209
    } else if i == 2 {
        63
    } else if i == 3 {
        48
    } else {
        0
    }
}

/// Nearest palette level to a raw channel value, by absolute distance, the
/// earlier palette entry winning ties.
pub fn nearest_level(v: u8) -> (r: u8)
    ensures
        r == nearest_level_spec(v as int),
        is_level(r as int),
{
    let mut best: u8 = 255;
    let mut i: usize = 1;
    while i < 5
        invariant
            1 <= i <= 5,
            best == nearest_upto(v as int, i as int),
        decreases 5 - i,
    {
        let cand = level_value(i);
        let dc = if cand >= v {
            cand - v
        } else {
            v - cand
        };
        let db = if best >= v {
            best - v
        } else {
            v - best
        };
        if dc < db {
            best = cand;
        }
        i = i + 1;
    }
    proof {
        lemma_nearest_is_level(v as int);
    }
    best
}

/// Palette totality: every channel value 0-255 maps to exactly one of the
/// five fixed levels, and the mapping is a function of the value alone.
pub proof fn lemma_nearest_is_level(v: int)
    ensures
        is_level(nearest_level_spec(v)),
{
    reveal_with_fuel(nearest_upto, 6);
}

/// Glyph text of a palette level, brightest to darkest: the full-width
/// glyphs `O`, `o` and `=`, the half-width pair `..`, and the two-space
/// blank.
pub open spec fn glyph_seq(lv: int) -> Seq<char> {
    if lv == 255 {
        seq!['O']
    } else if lv == 209 {
        seq!['o']
    } else if lv == 63 {
        seq!['=']
    } else if lv == 48 {
        seq!['.', '.']
    } else {
        seq![' ', ' ']
    }
}

/// Visual width of one glyph character in half-cells: the dot and the blank
/// count half a cell, every other glyph character a full cell.
pub open spec fn char_width2(c: char) -> int {
    if c == '.' || c == ' ' {
        1
    } else {
        2
    }
}

/// A run of `n` half-width blank characters.
pub open spec fn blanks(n: int) -> Seq<char> {
    Seq::new(n as nat, |i: int| ' ')
}

/// Visual width of a line in half-cells.
pub open spec fn width2(s: Seq<char>) -> int
    decreases s.len(),
{
    if s.len() == 0 {
        0
    } else {
        width2(s.drop_last()) + char_width2(s.last())
    }
}

/// Visual width sums over concatenation.
pub proof fn lemma_width2_append(a: Seq<char>, b: Seq<char>)
    ensures
        width2(a + b) == width2(a) + width2(b),
    decreases b.len(),
{
    if b.len() == 0 {
        assert(a + b =~= a);
    } else {
        lemma_width2_append(a, b.drop_last());
        assert((a + b).drop_last() =~= a + b.drop_last());
        assert((a + b).last() == b.last());
    }
}

/// Every palette glyph occupies exactly one cell (two half-cells).
pub proof fn lemma_glyph_width2(lv: int)
    ensures
        width2(glyph_seq(lv)) == 2,
{
    reveal_with_fuel(width2, 3);
    let g = glyph_seq(lv);
    if g.len() == 1 {
        assert(g.drop_last() =~= Seq::<char>::empty());
    } else {
        assert(g.drop_last().drop_last() =~= Seq::<char>::empty());
        assert(g.drop_last() =~= seq![g[0]]);
    }
}

/// Glyph text of a quantized palette level.
pub fn glyph_str(lv: u8) -> (r: &'static str)
    requires
        is_level(lv as int),
    ensures
        r@ == glyph_seq(lv as int),
{
    proof {
        reveal_strlit("O");
        reveal_strlit("o");
        reveal_strlit("=");
        reveal_strlit("..");
        reveal_strlit("  ");
    }
    if lv == 255 {
        let r = "O";
        proof {
            assert(r@ =~= glyph_seq(lv as int));
        }
        r
    } else if lv == 209 {
        let r = "o";
        proof {
            assert(r@ =~= glyph_seq(lv as int));
        }
        r
    } else if lv == 63 {
        let r = "=";
        proof {
            assert(r@ =~= glyph_seq(lv as int));
        }
        r
    } else if lv == 48 {
        let r = "..";
        proof {
            assert(r@ =~= glyph_seq(lv as int));
        }
        r
    } else {
        let r = "  ";
        proof {
            assert(r@ =~= glyph_seq(lv as int));
        }
        r
    }
}

} // verus!
