//! Floyd-Steinberg error diffusion over a pixel buffer: pixels are visited
//! in row-major order, each is snapped to the nearest palette level, and the
//! signed quantization error is spread to the four forward neighbours with
//! weights 7, 5, 3 and 1 sixteenths. Neighbours outside the image are
//! skipped; their share of the error is lost, not redistributed.

use vstd::prelude::*;
use vstd::arithmetic::div_mod::lemma_fundamental_div_mod_converse;
use crate::buffer::{pix, PixelBuffer};
use crate::palette::{is_level, nearest_level, nearest_level_spec, lemma_nearest_is_level};

verus! {

/// One clamped error-diffusion update of a single channel: the channel
/// becomes `clamp(cur + err * weight / 16, 0, 255)`, computed exactly over
/// sixteenths (`t` counts sixteenths) and truncated toward zero.
pub open spec fn diffuse_ch(cur: int, err: int, weight: int) -> int {
    let t = 16 * cur + err * weight;
    if t <= 0 {
        0
    } else if t >= 4080 {
        255
    } else {
        t / 16
    }
}

/// The weighted error of one quantized pixel applied to all three channels
/// of the neighbour with pixel index `j`.
pub open spec fn diffuse_px(s: Seq<u8>, j: int, e0: int, e1: int, e2: int, wt: int) -> Seq<u8> {
    s.update(3 * j, diffuse_ch(s[3 * j] as int, e0, wt) as u8).update(
        3 * j + 1,
        diffuse_ch(s[3 * j + 1] as int, e1, wt) as u8,
    ).update(3 * j + 2, diffuse_ch(s[3 * j + 2] as int, e2, wt) as u8)
}

/// The full effect of visiting pixel (x, y): snap it to the nearest palette
/// level per channel, then diffuse the signed error to the right,
/// below-left, below and below-right neighbours that lie inside the image.
pub open spec fn dither_step(s: Seq<u8>, w: int, h: int, x: int, y: int) -> Seq<u8> {
    let i = pix(w, x, y);
    let o0 = s[i] as int;
    let o1 = s[i + 1] as int;
    let o2 = s[i + 2] as int;
    let n0 = nearest_level_spec(o0);
    let n1 = nearest_level_spec(o1);
    let n2 = nearest_level_spec(o2);
    let e0 = o0 - n0;
    let e1 = o1 - n1;
    let e2 = o2 - n2;
    let s1 = s.update(i, n0 as u8).update(i + 1, n1 as u8).update(i + 2, n2 as u8);
    let s2 = if x + 1 < w {
        diffuse_px(s1, y * w + x + 1, e0, e1, e2, 7)
    } else {
        s1
    };
    let s3 = if x >= 1 && y + 1 < h {
        diffuse_px(s2, (y + 1) * w + x - 1, e0, e1, e2, 5)
    } else {
        s2
    };
    let s4 = if y + 1 < h {
        diffuse_px(s3, (y + 1) * w + x, e0, e1, e2, 3)
    } else {
        s3
    };
    if x + 1 < w && y + 1 < h {
        diffuse_px(s4, (y + 1) * w + x + 1, e0, e1, e2, 1)
    } else {
        s4
    }
}

/// The buffer after the first `n` pixels, in row-major order, have been
/// visited.
pub open spec fn dither_upto(s: Seq<u8>, w: int, h: int, n: int) -> Seq<u8>
    decreases n,
{
    if n <= 0 {
        s
    } else {
        dither_step(dither_upto(s, w, h, n - 1), w, h, (n - 1) % w, (n - 1) / w)
    }
}

/// The whole dithered buffer.
pub open spec fn dither_spec(s: Seq<u8>, w: int, h: int) -> Seq<u8> {
    dither_upto(s, w, h, w * h)
}

/// Sum of the error-diffusion weights, in sixteenths, actually applied from
/// pixel (x, y): each of the four neighbours contributes its weight only
/// when it lies inside the image.
pub open spec fn applied_weight(w: int, h: int, x: int, y: int) -> int {
    (if x + 1 < w {
        7int
    } else {
        0int
    }) + (if x >= 1 && y + 1 < h {
        5int
    } else {
        0int
    }) + (if y + 1 < h {
        3int
    } else {
        0int
    }) + (if x + 1 < w && y + 1 < h {
        1int
    } else {
        0int
    })
}

/// Bounded error conservation: when all four neighbours of a pixel lie
/// inside the image, the applied weights sum to the whole error (16
/// sixteenths); when any neighbour falls outside, the sum is strictly
/// smaller -- that share of the error is lost, never redistributed.
pub proof fn lemma_error_conservation(w: int, h: int, x: int, y: int)
    requires
        0 <= x < w,
        0 <= y < h,
    ensures
        (x >= 1 && x + 1 < w && y + 1 < h) ==> applied_weight(w, h, x, y) == 16,
        !(x >= 1 && x + 1 < w && y + 1 < h) ==> applied_weight(w, h, x, y) < 16,
{
}

/// When all four neighbours are in bounds and the error splits evenly into
/// sixteenths, the four truncated shares add up to exactly the original
/// error: nothing is lost away from the image edges.
pub proof fn lemma_error_split_exact(e: int)
    requires
        e % 16 == 0,
    ensures
        e * 7 / 16 + e * 5 / 16 + e * 3 / 16 + e * 1 / 16 == e,
{
    let k = e / 16;
    vstd::arithmetic::div_mod::lemma_fundamental_div_mod(e, 16);
    assert(e * 7 == 16 * (7 * k) && e * 5 == 16 * (5 * k) && e * 3 == 16 * (3 * k) && e * 1 == 16
        * (1 * k)) by (nonlinear_arith)
        requires
            e == 16 * k,
    ;
    vstd::arithmetic::div_mod::lemma_div_multiples_vanish(7 * k, 16);
    vstd::arithmetic::div_mod::lemma_div_multiples_vanish(5 * k, 16);
    vstd::arithmetic::div_mod::lemma_div_multiples_vanish(3 * k, 16);
    vstd::arithmetic::div_mod::lemma_div_multiples_vanish(1 * k, 16);
}

/// The clamped channel update `clamp(cur + err * wt / 16, 0, 255)`.
fn diffuse_channel(cur: u8, err: i32, wt: i32) -> (r: u8)
    requires
        -255 <= err <= 255,
        1 <= wt <= 7,
    ensures
        r as int == diffuse_ch(cur as int, err as int, wt as int),
{
    proof {
        assert(-1785 <= err * wt <= 1785) by (nonlinear_arith)
            requires
                -255 <= err <= 255,
                1 <= wt <= 7,
        ;
    }
    let t: i32 = 16 * (cur as i32) + err * wt;
    if t <= 0 {
        0
    } else if t >= 4080 {
        255
    } else {
        ((t as u32) / 16) as u8
    }
}

/// One weighted error update of the three channels of pixel `j`.
fn diffuse_at(data: &mut Vec<u8>, j: usize, e0: i32, e1: i32, e2: i32, wt: i32)
    requires
        3 * (j as int) + 2 < old(data)@.len(),
        -255 <= e0 <= 255,
        -255 <= e1 <= 255,
        -255 <= e2 <= 255,
        1 <= wt <= 7,
    ensures
        final(data)@ == diffuse_px(old(data)@, j as int, e0 as int, e1 as int, e2 as int, wt as int),
        final(data)@.len() == old(data)@.len(),
{
    let n = data.len();
    proof {
        assert(3 * (j as int) + 2 < n as int);
    }
    let i = 3 * j;
    let c0 = data[i];
    let c1 = data[i + 1];
    let c2 = data[i + 2];
    data[i] = diffuse_channel(c0, e0, wt);
    data[i + 1] = diffuse_channel(c1, e1, wt);
    data[i + 2] = diffuse_channel(c2, e2, wt);
}

/// Visits one pixel: quantizes it in place and diffuses its error forward.
#[verifier::rlimit(60)]
fn step_at(data: &mut Vec<u8>, w: usize, h: usize, x: usize, y: usize)
    requires
        x < w,
        y < h,
        old(data)@.len() == 3 * (w * h),
    ensures
        final(data)@ == dither_step(old(data)@, w as int, h as int, x as int, y as int),
        final(data)@.len() == old(data)@.len(),
{
    let n = data.len();
    proof {
        assert(n as int == 3 * ((w as int) * (h as int)));
        assert(y * w + x < w * h && (y + 1) * w == y * w + w && y * w >= 0 && y * w + w <= w * h)
            by (nonlinear_arith)
            requires
                0 <= x < w,
                0 <= y < h,
        ;
        assert(y + 1 < h ==> (y + 1) * w + w <= w * h) by (nonlinear_arith)
            requires
                0 <= y,
                y < h,
                0 <= w,
        ;
    }
    let i = 3 * (y * w + x);
    let o0 = data[i];
    let o1 = data[i + 1];
    let o2 = data[i + 2];
    let n0 = nearest_level(o0);
    let n1 = nearest_level(o1);
    let n2 = nearest_level(o2);
    data[i] = n0;
    data[i + 1] = n1;
    data[i + 2] = n2;
    let e0 = o0 as i32 - n0 as i32;
    let e1 = o1 as i32 - n1 as i32;
    let e2 = o2 as i32 - n2 as i32;
    if x + 1 < w {
        diffuse_at(data, y * w + x + 1, e0, e1, e2, 7);
    }
    if y + 1 < h {
        if x >= 1 {
            diffuse_at(data, (y + 1) * w + x - 1, e0, e1, e2, 5);
        }
        diffuse_at(data, (y + 1) * w + x, e0, e1, e2, 3);
        if x + 1 < w {
            diffuse_at(data, (y + 1) * w + x + 1, e0, e1, e2, 1);
        }
    }
}

/// Applies Floyd-Steinberg error diffusion to the buffer in place, visiting
/// pixels top-to-bottom and left-to-right within each row. Every channel of
/// the result then holds a palette level.
pub fn dither(buf: &mut PixelBuffer)
    requires
        old(buf).wf(),
    ensures
        final(buf).wf(),
        final(buf).width == old(buf).width,
        final(buf).height == old(buf).height,
        final(buf).data@ == dither_spec(
            old(buf).data@,
            old(buf).width as int,
            old(buf).height as int,
        ),
        forall|k: int|
            0 <= k < final(buf).data@.len() ==> is_level((#[trigger] final(buf).data@[k]) as int),
{
    let w = buf.width;
    let h = buf.height;
    let ghost orig = buf.data@;
    if w == 0 || h == 0 {
        proof {
            assert(w * h == 0) by (nonlinear_arith)
                requires
                    w == 0 || h == 0,
            ;
        }
        return ;
    }
    let mut y: usize = 0;
    while y < h
        invariant
            y <= h,
            1 <= w,
            1 <= h,
            buf.width == w,
            buf.height == h,
            buf.wf(),
            buf.data@ == dither_upto(orig, w as int, h as int, (y as int) * (w as int)),
            orig.len() == 3 * (w * h),
        decreases h - y,
    {
        proof {
            assert(y * w + w <= w * h && y * w >= 0) by (nonlinear_arith)
                requires
                    y < h,
                    1 <= w,
            ;
        }
        let mut x: usize = 0;
        while x < w
            invariant
                x <= w,
                y < h,
                1 <= w,
                1 <= h,
                y * w + w <= w * h,
                y * w >= 0,
                buf.width == w,
                buf.height == h,
                buf.wf(),
                buf.data@ == dither_upto(orig, w as int, h as int, (y as int) * (w as int) + x),
                orig.len() == 3 * (w * h),
            decreases w - x,
        {
            let ghost pre = buf.data@;
            step_at(&mut buf.data, w, h, x, y);
            proof {
                lemma_fundamental_div_mod_converse(
                    (y as int) * (w as int) + x,
                    w as int,
                    y as int,
                    x as int,
                );
                assert(buf.data@ == dither_upto(
                    orig,
                    w as int,
                    h as int,
                    (y as int) * (w as int) + x + 1,
                ));
            }
            x = x + 1;
        }
        proof {
            assert((y + 1) * w == y * w + w) by (nonlinear_arith);
        }
        y = y + 1;
    }
    proof {
        assert((h as int) * (w as int) == (w as int) * (h as int)) by (nonlinear_arith);
        lemma_dither_levels(orig, w as int, h as int, (w as int) * (h as int));
        assert(buf.data@.len() == 3 * ((w as int) * (h as int)));
    }
}

/// A diffusion update leaves everything below `lo` unchanged.
proof fn lemma_diffuse_px_frame(s: Seq<u8>, j: int, e0: int, e1: int, e2: int, wt: int, lo: int)
    requires
        0 <= lo <= 3 * j,
        3 * j + 2 < s.len(),
    ensures
        diffuse_px(s, j, e0, e1, e2, wt).len() == s.len(),
        forall|k: int| 0 <= k < lo ==> diffuse_px(s, j, e0, e1, e2, wt)[k] == s[k],
{
}

/// One visit changes nothing before the visited pixel and leaves the visited
/// pixel itself on palette levels.
#[verifier::rlimit(60)]
proof fn lemma_step_frame(s: Seq<u8>, w: int, h: int, x: int, y: int)
    requires
        1 <= w,
        1 <= h,
        0 <= x < w,
        0 <= y < h,
        s.len() == 3 * (w * h),
    ensures
        dither_step(s, w, h, x, y).len() == s.len(),
        forall|k: int| 0 <= k < 3 * (y * w + x) ==> dither_step(s, w, h, x, y)[k] == s[k],
        is_level(dither_step(s, w, h, x, y)[3 * (y * w + x)] as int),
        is_level(dither_step(s, w, h, x, y)[3 * (y * w + x) + 1] as int),
        is_level(dither_step(s, w, h, x, y)[3 * (y * w + x) + 2] as int),
{
    let i = pix(w, x, y);
    assert(y * w + x < w * h && (y + 1) * w == y * w + w && y * w >= 0 && y * w + w <= w * h)
        by (nonlinear_arith)
        requires
            0 <= x < w,
            0 <= y < h,
    ;
    assert(y + 1 < h ==> (y + 1) * w + w <= w * h) by (nonlinear_arith)
        requires
            0 <= y,
            y < h,
            0 <= w,
    ;
    let o0 = s[i] as int;
    let o1 = s[i + 1] as int;
    let o2 = s[i + 2] as int;
    let n0 = nearest_level_spec(o0);
    let n1 = nearest_level_spec(o1);
    let n2 = nearest_level_spec(o2);
    let e0 = o0 - n0;
    let e1 = o1 - n1;
    let e2 = o2 - n2;
    lemma_nearest_is_level(o0);
    lemma_nearest_is_level(o1);
    lemma_nearest_is_level(o2);
    let s1 = s.update(i, n0 as u8).update(i + 1, n1 as u8).update(i + 2, n2 as u8);
    assert(s1.len() == s.len());
    assert(s1[i] == n0 as u8 && s1[i + 1] == n1 as u8 && s1[i + 2] == n2 as u8);
    let s2 = if x + 1 < w {
        lemma_diffuse_px_frame(s1, y * w + x + 1, e0, e1, e2, 7, i + 3);
        diffuse_px(s1, y * w + x + 1, e0, e1, e2, 7)
    } else {
        s1
    };
    assert(s2.len() == s.len() && forall|k: int| 0 <= k < i + 3 ==> s2[k] == s1[k]);
    let s3 = if x >= 1 && y + 1 < h {
        lemma_diffuse_px_frame(s2, (y + 1) * w + x - 1, e0, e1, e2, 5, i + 3);
        diffuse_px(s2, (y + 1) * w + x - 1, e0, e1, e2, 5)
    } else {
        s2
    };
    assert(s3.len() == s.len() && forall|k: int| 0 <= k < i + 3 ==> s3[k] == s2[k]);
    let s4 = if y + 1 < h {
        lemma_diffuse_px_frame(s3, (y + 1) * w + x, e0, e1, e2, 3, i + 3);
        diffuse_px(s3, (y + 1) * w + x, e0, e1, e2, 3)
    } else {
        s3
    };
    assert(s4.len() == s.len() && forall|k: int| 0 <= k < i + 3 ==> s4[k] == s3[k]);
    let s5 = if x + 1 < w && y + 1 < h {
        lemma_diffuse_px_frame(s4, (y + 1) * w + x + 1, e0, e1, e2, 1, i + 3);
        diffuse_px(s4, (y + 1) * w + x + 1, e0, e1, e2, 1)
    } else {
        s4
    };
    assert(s5.len() == s.len() && forall|k: int| 0 <= k < i + 3 ==> s5[k] == s4[k]);
    assert(s5 == dither_step(s, w, h, x, y));
}

/// After `n` pixels have been visited, every channel of every visited pixel
/// holds a palette level.
#[verifier::rlimit(100)]
proof fn lemma_dither_levels(s: Seq<u8>, w: int, h: int, n: int)
    requires
        1 <= w,
        1 <= h,
        0 <= n <= w * h,
        s.len() == 3 * (w * h),
    ensures
        dither_upto(s, w, h, n).len() == s.len(),
        forall|k: int| 0 <= k < 3 * n ==> is_level((#[trigger] dither_upto(s, w, h, n)[k]) as int),
    decreases n,
{
    if n > 0 {
        lemma_dither_levels(s, w, h, n - 1);
        let x = (n - 1) % w;
        let y = (n - 1) / w;
        vstd::arithmetic::div_mod::lemma_mod_bound(n - 1, w);
        vstd::arithmetic::div_mod::lemma_div_pos_is_pos(n - 1, w);
        assert(y < h && y * w + x == n - 1) by {
            vstd::arithmetic::div_mod::lemma_fundamental_div_mod(n - 1, w);
            assert(y < h) by (nonlinear_arith)
                requires
                    w * y + x == n - 1,
                    n <= w * h,
                    0 <= x < w,
                    w >= 1,
                    y >= 0,
            ;
            assert(y * w == w * y) by (nonlinear_arith);
        };
        let prev = dither_upto(s, w, h, n - 1);
        let cur = dither_upto(s, w, h, n);
        lemma_step_frame(prev, w, h, x, y);
        assert(cur == dither_step(prev, w, h, x, y));
        assert forall|k: int| 0 <= k < 3 * n implies is_level((#[trigger] cur[k]) as int) by {
            if k < 3 * (n - 1) {
                assert(cur[k] == prev[k]);
            } else {
                assert(k == 3 * (n - 1) || k == 3 * (n - 1) + 1 || k == 3 * (n - 1) + 2);
            }
        };
    }
}

} // verus!
