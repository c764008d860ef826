//! Glyph encoding of a quantized pixel buffer: one text layer per channel,
//! or a single averaged layer in grayscale mode. Each image row becomes one
//! text line; trailing blank glyphs are trimmed (an all-blank row keeps a
//! single blank placeholder so the row structure survives), and when no row
//! reaches the full image width the first row is padded up to it with
//! half-width blanks.

use vstd::prelude::*;
use vstd::string::StringExecFns;
use crate::buffer::{pix, PixelBuffer};
use crate::palette::{
    blanks, glyph_seq, glyph_str, is_level, lemma_glyph_width2, lemma_width2_append,
    nearest_level, nearest_level_spec, width2,
};

verus! {

/// The palette level shown at cell (x, y) of a layer: the already-quantized
/// channel itself in colour mode, the level nearest to the unweighted
/// channel average in grayscale mode.
pub open spec fn cell_level(s: Seq<u8>, w: int, x: int, y: int, gray: bool, ch: int) -> int {
    let i = pix(w, x, y);
    if gray {
        nearest_level_spec(((s[i] as int) + (s[i + 1] as int) + (s[i + 2] as int)) / 3)
    } else {
        s[i + ch] as int
    }
}

/// Length of row `y` up to and including its last non-blank cell, looking at
/// the first `n` cells only; 0 when they are all blank.
pub open spec fn ink_len(s: Seq<u8>, w: int, y: int, gray: bool, ch: int, n: int) -> int
    decreases n,
{
    if n <= 0 {
        0
    } else if cell_level(s, w, n - 1, y, gray, ch) != 0 {
        n
    } else {
        ink_len(s, w, y, gray, ch, n - 1)
    }
}

/// Largest inked row length over the first `m` rows.
pub open spec fn max_ink(s: Seq<u8>, w: int, m: int, gray: bool, ch: int) -> int
    decreases m,
{
    if m <= 0 {
        0
    } else {
        let prev = max_ink(s, w, m - 1, gray, ch);
        let cur = ink_len(s, w, m - 1, gray, ch, w);
        if cur > prev {
            cur
        } else {
            prev
        }
    }
}

/// The concatenated glyphs of the first `n` cells of row `y`.
pub open spec fn row_glyphs(s: Seq<u8>, w: int, y: int, gray: bool, ch: int, n: int) -> Seq<char>
    decreases n,
{
    if n <= 0 {
        Seq::<char>::empty()
    } else {
        row_glyphs(s, w, y, gray, ch, n - 1) + glyph_seq(cell_level(s, w, n - 1, y, gray, ch))
    }
}

/// A stored row: its glyphs up to the last non-blank cell, or a single
/// blank placeholder when the whole row is blank.
pub open spec fn stored_row(s: Seq<u8>, w: int, y: int, gray: bool, ch: int) -> Seq<char> {
    let n = ink_len(s, w, y, gray, ch, w);
    if n == 0 {
        seq![' ']
    } else {
        row_glyphs(s, w, y, gray, ch, n)
    }
}

/// The first `m` stored rows joined by line breaks, without a trailing one.
pub open spec fn rows_joined(s: Seq<u8>, w: int, m: int, gray: bool, ch: int) -> Seq<char>
    decreases m,
{
    if m <= 1 {
        stored_row(s, w, 0, gray, ch)
    } else {
        rows_joined(s, w, m - 1, gray, ch) + seq!['\n'] + stored_row(s, w, m - 1, gray, ch)
    }
}

/// Half-cells of padding owed to the first row: when no row reached the full
/// image width, the first row is brought up to exactly that width.
pub open spec fn pad_len(s: Seq<u8>, w: int, h: int, gray: bool, ch: int) -> int {
    if max_ink(s, w, h, gray, ch) != w {
        2 * w - width2(stored_row(s, w, 0, gray, ch))
    } else {
        0
    }
}

/// One finished text layer.
pub open spec fn layer_spec(s: Seq<u8>, w: int, h: int, gray: bool, ch: int) -> Seq<char> {
    blanks(pad_len(s, w, h, gray, ch)) + rows_joined(s, w, h, gray, ch)
}

/// An inked length never exceeds the scanned cell count.
pub proof fn lemma_ink_len_bounds(s: Seq<u8>, w: int, y: int, gray: bool, ch: int, n: int)
    requires
        n >= 0,
    ensures
        0 <= ink_len(s, w, y, gray, ch, n) <= n,
    decreases n,
{
    if n > 0 {
        lemma_ink_len_bounds(s, w, y, gray, ch, n - 1);
    }
}

/// The largest inked length over `m` rows is the inked length of some row.
pub proof fn lemma_max_ink_bounds(s: Seq<u8>, w: int, m: int, gray: bool, ch: int)
    requires
        m >= 0,
        w >= 0,
    ensures
        0 <= max_ink(s, w, m, gray, ch) <= w,
        forall|y: int| 0 <= y < m ==> ink_len(s, w, y, gray, ch, w) <= max_ink(s, w, m, gray, ch),
    decreases m,
{
    if m > 0 {
        lemma_max_ink_bounds(s, w, m - 1, gray, ch);
        lemma_ink_len_bounds(s, w, m - 1, gray, ch, w);
    }
}

/// The glyphs of `n` cells span `n` cells (2n half-cells) of visual width.
proof fn lemma_row_glyphs_width2(s: Seq<u8>, w: int, y: int, gray: bool, ch: int, n: int)
    requires
        n >= 0,
    ensures
        width2(row_glyphs(s, w, y, gray, ch, n)) == 2 * n,
    decreases n,
{
    if n == 0 {
        assert(width2(Seq::<char>::empty()) == 0);
    } else {
        lemma_row_glyphs_width2(s, w, y, gray, ch, n - 1);
        lemma_width2_append(
            row_glyphs(s, w, y, gray, ch, n - 1),
            glyph_seq(cell_level(s, w, n - 1, y, gray, ch)),
        );
        lemma_glyph_width2(cell_level(s, w, n - 1, y, gray, ch));
    }
}

/// The visual width of a stored row: one half-cell for the blank
/// placeholder, otherwise one full cell per inked cell.
pub proof fn lemma_stored_row_width2(s: Seq<u8>, w: int, y: int, gray: bool, ch: int)
    requires
        w >= 0,
    ensures
        width2(stored_row(s, w, y, gray, ch)) == if ink_len(s, w, y, gray, ch, w) == 0 {
            1int
        } else {
            2 * ink_len(s, w, y, gray, ch, w)
        },
{
    let n = ink_len(s, w, y, gray, ch, w);
    lemma_ink_len_bounds(s, w, y, gray, ch, w);
    if n == 0 {
        reveal_with_fuel(width2, 3);
        assert(seq![' '].drop_last() =~= Seq::<char>::empty());
    } else {
        lemma_row_glyphs_width2(s, w, y, gray, ch, n);
    }
}

/// Number of line-break characters in a text.
pub open spec fn count_newlines(s: Seq<char>) -> int
    decreases s.len(),
{
    if s.len() == 0 {
        0
    } else {
        count_newlines(s.drop_last()) + if s.last() == '\n' {
            1int
        } else {
            0int
        }
    }
}

/// Line-break counts sum over concatenation.
proof fn lemma_count_newlines_append(a: Seq<char>, b: Seq<char>)
    ensures
        count_newlines(a + b) == count_newlines(a) + count_newlines(b),
    decreases b.len(),
{
    if b.len() == 0 {
        assert(a + b =~= a);
    } else {
        lemma_count_newlines_append(a, b.drop_last());
        assert((a + b).drop_last() =~= a + b.drop_last());
        assert((a + b).last() == b.last());
    }
}

/// No glyph contains a line break.
proof fn lemma_glyph_no_newline(lv: int)
    ensures
        count_newlines(glyph_seq(lv)) == 0,
{
    reveal_with_fuel(count_newlines, 3);
    let g = glyph_seq(lv);
    if g.len() == 1 {
        assert(g.drop_last() =~= Seq::<char>::empty());
    } else {
        assert(g.drop_last().drop_last() =~= Seq::<char>::empty());
        assert(g.drop_last() =~= seq![g[0]]);
    }
}

/// A run of blanks contains no line break and spans one half-cell per
/// character.
proof fn lemma_blanks_facts(n: int)
    requires
        n >= 0,
    ensures
        count_newlines(blanks(n)) == 0,
        width2(blanks(n)) == n,
        blanks(n).len() == n,
    decreases n,
{
    if n > 0 {
        lemma_blanks_facts(n - 1);
        assert(blanks(n).drop_last() =~= blanks(n - 1));
        assert(blanks(n).last() == ' ');
    }
}

/// A stored row contains no line break.
proof fn lemma_row_glyphs_no_newline(s: Seq<u8>, w: int, y: int, gray: bool, ch: int, n: int)
    requires
        n >= 0,
    ensures
        count_newlines(row_glyphs(s, w, y, gray, ch, n)) == 0,
    decreases n,
{
    if n > 0 {
        lemma_row_glyphs_no_newline(s, w, y, gray, ch, n - 1);
        lemma_count_newlines_append(
            row_glyphs(s, w, y, gray, ch, n - 1),
            glyph_seq(cell_level(s, w, n - 1, y, gray, ch)),
        );
        lemma_glyph_no_newline(cell_level(s, w, n - 1, y, gray, ch));
    }
}

/// A stored row (glyphs or the blank placeholder) contains no line break.
proof fn lemma_stored_row_no_newline(s: Seq<u8>, w: int, y: int, gray: bool, ch: int)
    requires
        w >= 0,
    ensures
        count_newlines(stored_row(s, w, y, gray, ch)) == 0,
{
    let n = ink_len(s, w, y, gray, ch, w);
    lemma_ink_len_bounds(s, w, y, gray, ch, w);
    if n == 0 {
        reveal_with_fuel(count_newlines, 3);
        assert(seq![' '].drop_last() =~= Seq::<char>::empty());
    } else {
        lemma_row_glyphs_no_newline(s, w, y, gray, ch, n);
    }
}

/// `m` joined rows hold exactly `m - 1` line breaks.
proof fn lemma_rows_joined_newlines(s: Seq<u8>, w: int, m: int, gray: bool, ch: int)
    requires
        w >= 0,
        m >= 1,
    ensures
        count_newlines(rows_joined(s, w, m, gray, ch)) == m - 1,
    decreases m,
{
    if m == 1 {
        lemma_stored_row_no_newline(s, w, 0, gray, ch);
    } else {
        lemma_rows_joined_newlines(s, w, m - 1, gray, ch);
        lemma_stored_row_no_newline(s, w, m - 1, gray, ch);
        lemma_count_newlines_append(rows_joined(s, w, m - 1, gray, ch), seq!['\n']);
        lemma_count_newlines_append(
            rows_joined(s, w, m - 1, gray, ch) + seq!['\n'],
            stored_row(s, w, m - 1, gray, ch),
        );
        reveal_with_fuel(count_newlines, 2);
        assert(seq!['\n'].drop_last() =~= Seq::<char>::empty());
    }
}

/// Row count invariant: a produced layer has exactly `h` line-break
/// separated rows -- `h - 1` break characters, none of which sits inside a
/// row, since an all-blank row keeps its placeholder instead of vanishing.
pub proof fn lemma_row_count(s: Seq<u8>, w: int, h: int, gray: bool, ch: int)
    requires
        w >= 1,
        h >= 1,
    ensures
        count_newlines(layer_spec(s, w, h, gray, ch)) == h - 1,
{
    lemma_pad_len_nonneg(s, w, h, gray, ch);
    lemma_blanks_facts(pad_len(s, w, h, gray, ch));
    lemma_rows_joined_newlines(s, w, h, gray, ch);
    lemma_count_newlines_append(
        blanks(pad_len(s, w, h, gray, ch)),
        rows_joined(s, w, h, gray, ch),
    );
}

/// The first row is never padded beyond what the image width owes it.
proof fn lemma_pad_len_nonneg(s: Seq<u8>, w: int, h: int, gray: bool, ch: int)
    requires
        w >= 1,
        h >= 1,
    ensures
        pad_len(s, w, h, gray, ch) >= 0,
        max_ink(s, w, h, gray, ch) != w ==> pad_len(s, w, h, gray, ch) == 2 * w - width2(
            stored_row(s, w, 0, gray, ch),
        ),
{
    lemma_stored_row_width2(s, w, 0, gray, ch);
    lemma_ink_len_bounds(s, w, 0, gray, ch, w);
}

/// Width padding invariant: when a layer is padded -- that is, no row
/// reached the full image width -- its first row, padding included, spans
/// exactly the image width (`2 * w` half-cells), and no other row's visual
/// width exceeds the first row's.
pub proof fn lemma_width_padding(s: Seq<u8>, w: int, h: int, gray: bool, ch: int)
    requires
        w >= 1,
        h >= 1,
        max_ink(s, w, h, gray, ch) != w,
    ensures
        width2(blanks(pad_len(s, w, h, gray, ch)) + stored_row(s, w, 0, gray, ch)) == 2 * w,
        forall|y: int| 0 <= y < h ==> width2(stored_row(s, w, y, gray, ch)) <= 2 * w,
{
    lemma_pad_len_nonneg(s, w, h, gray, ch);
    lemma_blanks_facts(pad_len(s, w, h, gray, ch));
    lemma_width2_append(blanks(pad_len(s, w, h, gray, ch)), stored_row(s, w, 0, gray, ch));
    lemma_max_ink_bounds(s, w, h, gray, ch);
    assert forall|y: int| 0 <= y < h implies width2(stored_row(s, w, y, gray, ch)) <= 2 * w by {
        lemma_stored_row_width2(s, w, y, gray, ch);
        lemma_ink_len_bounds(s, w, y, gray, ch, w);
    };
}

/// The palette level shown at cell (x, y), computed from the buffer.
fn cell_level_exec(buf: &PixelBuffer, x: usize, y: usize, gray: bool, ch: usize) -> (r: u8)
    requires
        buf.wf(),
        x < buf.width,
        y < buf.height,
        ch < 3,
    ensures
        r as int == cell_level(buf.data@, buf.width as int, x as int, y as int, gray, ch as int),
        is_level(r as int) || !gray,
{
    let w = buf.width;
    let h = buf.height;
    let nbytes = buf.data.len();
    proof {
        assert(y * w + x < w * h && y * w >= 0) by (nonlinear_arith)
            requires
                0 <= x < w,
                0 <= y < h,
        ;
        assert(3 * ((y as int) * (w as int) + (x as int)) + 2 < nbytes as int);
    }
    let i = 3 * (y * w + x);
    if gray {
        let sum = buf.data[i] as u32 + buf.data[i + 1] as u32 + buf.data[i + 2] as u32;
        let avg = (sum / 3) as u8;
        let r = nearest_level(avg);
        r
    } else {
        buf.data[i + ch]
    }
}

/// Length of row `y` up to and including its last non-blank cell.
fn row_ink(buf: &PixelBuffer, y: usize, gray: bool, ch: usize) -> (r: usize)
    requires
        buf.wf(),
        y < buf.height,
        ch < 3,
    ensures
        r as int == ink_len(
            buf.data@,
            buf.width as int,
            y as int,
            gray,
            ch as int,
            buf.width as int,
        ),
        r <= buf.width,
{
    let w = buf.width;
    let mut r: usize = 0;
    let mut x: usize = 0;
    while x < w
        invariant
            x <= w,
            r <= x,
            y < buf.height,
            ch < 3,
            buf.wf(),
            w == buf.width,
            r as int == ink_len(buf.data@, w as int, y as int, gray, ch as int, x as int),
        decreases w - x,
    {
        let lv = cell_level_exec(buf, x, y, gray, ch);
        if lv != 0 {
            r = x + 1;
        }
        x = x + 1;
    }
    r
}

/// Encodes one layer: the given channel in colour mode, or the single
/// averaged layer in grayscale mode.
#[verifier::rlimit(100)]
fn encode_one(buf: &PixelBuffer, gray: bool, ch: usize) -> (r: String)
    requires
        buf.wf(),
        1 <= buf.width,
        1 <= buf.height,
        ch < 3,
        !gray ==> forall|k: int|
            0 <= k < buf.data@.len() ==> is_level((#[trigger] buf.data@[k]) as int),
    ensures
        r@ == layer_spec(buf.data@, buf.width as int, buf.height as int, gray, ch as int),
{
    let w = buf.width;
    let h = buf.height;
    let ghost s = buf.data@;
    let nbytes = buf.data.len();
    proof {
        assert(nbytes as int == 3 * ((w as int) * (h as int)));
        assert(w <= w * h && 2 * w <= 3 * (w * h) && w * h >= 0) by (nonlinear_arith)
            requires
                1 <= w,
                1 <= h,
        ;
    }
    let mut lens: Vec<usize> = Vec::new();
    let mut maxw: usize = 0;
    let mut y: usize = 0;
    while y < h
        invariant
            y <= h,
            lens@.len() == y as int,
            buf.wf(),
            w == buf.width,
            h == buf.height,
            s == buf.data@,
            ch < 3,
            maxw <= w,
            forall|t: int|
                0 <= t < y as int ==> (#[trigger] lens@[t]) as int == ink_len(
                    s,
                    w as int,
                    t,
                    gray,
                    ch as int,
                    w as int,
                ),
            maxw as int == max_ink(s, w as int, y as int, gray, ch as int),
        decreases h - y,
    {
        let n = row_ink(buf, y, gray, ch);
        if n > maxw {
            maxw = n;
        }
        lens.push(n);
        y = y + 1;
    }
    let first = lens[0];
    proof {
        lemma_stored_row_width2(s, w as int, 0, gray, ch as int);
        lemma_ink_len_bounds(s, w as int, 0, gray, ch as int, w as int);
        assert(first as int <= w as int);
    }
    let pad: usize = if maxw != w {
        if first == 0 {
            2 * w - 1
        } else {
            2 * w - 2 * first
        }
    } else {
        0
    };
    proof {
        assert(pad as int == pad_len(s, w as int, h as int, gray, ch as int));
        reveal_strlit(" ");
        reveal_strlit("\n");
    }
    let mut out = String::new();
    proof {
        assert(out@ =~= blanks(0));
    }
    let mut p: usize = 0;
    while p < pad
        invariant
            p <= pad,
            out@ == blanks(p as int),
        decreases pad - p,
    {
        out.append(" ");
        proof {
            reveal_strlit(" ");
            assert(out@ =~= blanks(p as int + 1));
        }
        p = p + 1;
    }
    let mut row: usize = 0;
    while row < h
        invariant
            row <= h,
            1 <= w,
            1 <= h,
            buf.wf(),
            w == buf.width,
            h == buf.height,
            s == buf.data@,
            ch < 3,
            lens@.len() == h as int,
            forall|t: int|
                0 <= t < h as int ==> (#[trigger] lens@[t]) as int == ink_len(
                    s,
                    w as int,
                    t,
                    gray,
                    ch as int,
                    w as int,
                ),
            !gray ==> forall|k: int| 0 <= k < s.len() ==> is_level((#[trigger] s[k]) as int),
            row == 0 ==> out@ == blanks(pad as int),
            row >= 1 ==> out@ == blanks(pad as int) + rows_joined(
                s,
                w as int,
                row as int,
                gray,
                ch as int,
            ),
        decreases h - row,
    {
        let ghost pre = out@;
        if row > 0 {
            out.append("\n");
        }
        let ghost base = if row > 0 {
            pre + seq!['\n']
        } else {
            pre
        };
        proof {
            reveal_strlit("\n");
            assert(out@ =~= base);
        }
        let n = lens[row];
        proof {
            lemma_ink_len_bounds(s, w as int, row as int, gray, ch as int, w as int);
        }
        if n == 0 {
            out.append(" ");
            proof {
                reveal_strlit(" ");
                assert(out@ =~= base + stored_row(s, w as int, row as int, gray, ch as int));
            }
        } else {
            let mut x: usize = 0;
            proof {
                assert(base + row_glyphs(s, w as int, row as int, gray, ch as int, 0) =~= base);
            }
            while x < n
                invariant
                    x <= n,
                    n <= w,
                    1 <= w,
                    1 <= h,
                    row < h,
                    ch < 3,
                    buf.wf(),
                    w == buf.width,
                    h == buf.height,
                    s == buf.data@,
                    !gray ==> forall|k: int|
                        0 <= k < s.len() ==> is_level((#[trigger] s[k]) as int),
                    out@ == base + row_glyphs(s, w as int, row as int, gray, ch as int, x as int),
                decreases n - x,
            {
                let lv = cell_level_exec(buf, x, row, gray, ch);
                proof {
                    if !gray {
                        assert((row as int) * (w as int) + (x as int) < (w as int) * (h as int)
                            && (row as int) * (w as int) >= 0) by (nonlinear_arith)
                            requires
                                0 <= (x as int) < (w as int),
                                0 <= (row as int) < (h as int),
                        ;
                        assert(is_level(lv as int));
                    }
                }
                let g = glyph_str(lv);
                out.append(g);
                x = x + 1;
            }
            proof {
                assert(n as int == ink_len(s, w as int, row as int, gray, ch as int, w as int));
                assert(out@ == base + stored_row(s, w as int, row as int, gray, ch as int));
            }
        }
        proof {
            let ri = row as int;
            if row == 0 {
                assert(out@ =~= blanks(pad as int) + rows_joined(s, w as int, 1, gray, ch as int));
            } else {
                assert(out@ =~= blanks(pad as int) + rows_joined(
                    s,
                    w as int,
                    ri + 1,
                    gray,
                    ch as int,
                ));
            }
        }
        row = row + 1;
    }
    out
}

/// Encodes a quantized buffer into its text layers: three (one per channel)
/// in colour mode, one averaged layer in grayscale mode.
pub fn encode(buf: &PixelBuffer, grayscale: bool) -> (r: Vec<String>)
    requires
        buf.wf(),
        1 <= buf.width,
        1 <= buf.height,
        !grayscale ==> forall|k: int|
            0 <= k < buf.data@.len() ==> is_level((#[trigger] buf.data@[k]) as int),
    ensures
        r@.len() == (if grayscale {
            1int
        } else {
            3int
        }),
        forall|i: int|
            0 <= i < r@.len() ==> (#[trigger] r@[i])@ == layer_spec(
                buf.data@,
                buf.width as int,
                buf.height as int,
                grayscale,
                i,
            ),
{
    let mut r: Vec<String> = Vec::new();
    if grayscale {
        r.push(encode_one(buf, true, 0));
    } else {
        r.push(encode_one(buf, false, 0));
        r.push(encode_one(buf, false, 1));
        r.push(encode_one(buf, false, 2));
    }
    r
}

} // verus!
