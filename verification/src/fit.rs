//! The budget fitter: resamples the source image to a candidate resolution,
//! dithers and encodes it, measures the largest layer, and shrinks the
//! resolution by `sqrt(capacity / measured)` until the encoding fits the
//! capacity. A dimension reaching zero is a terminal failure, not a loop.

use vstd::prelude::*;
use vstd::string::StrSliceExecFns;
use crate::buffer::PixelBuffer;
use crate::dither::{dither, dither_spec};
use crate::encode::{encode, layer_spec};

verus! {

/// Largest layer length in characters, line breaks included, of the encoded
/// image: the single grayscale layer, or the largest of the three channel
/// layers.
pub open spec fn max_layer_len(s: Seq<u8>, w: int, h: int, gray: bool) -> int {
    if gray {
        layer_spec(s, w, h, true, 0).len() as int
    } else {
        let a = layer_spec(s, w, h, false, 0).len() as int;
        let b = layer_spec(s, w, h, false, 1).len() as int;
        let c = layer_spec(s, w, h, false, 2).len() as int;
        if a >= b && a >= c {
            a
        } else if b >= c {
            b
        } else {
            c
        }
    }
}

/// Floor of the square root of a nonnegative integer.
pub open spec fn isqrt_spec(n: int) -> int
    decreases n,
{
    if n <= 0 {
        0
    } else {
        let p = isqrt_spec(n - 1);
        if (p + 1) * (p + 1) <= n {
            p + 1
        } else {
            p
        }
    }
}

proof fn lemma_isqrt_bounds(n: int)
    requires
        n >= 0,
    ensures
        isqrt_spec(n) >= 0,
        isqrt_spec(n) * isqrt_spec(n) <= n,
        n < (isqrt_spec(n) + 1) * (isqrt_spec(n) + 1),
    decreases n,
{
    if n > 0 {
        lemma_isqrt_bounds(n - 1);
        let p = isqrt_spec(n - 1);
        if (p + 1) * (p + 1) <= n {
            assert((p + 1) * (p + 1) + 1 <= (p + 2) * (p + 2)) by (nonlinear_arith)
                requires
                    p >= 0,
            ;
        }
    }
}

proof fn lemma_sq_mono(a: int, b: int)
    requires
        0 <= a <= b,
    ensures
        a * a <= b * b,
{
    assert(a * a <= b * b) by (nonlinear_arith)
        requires
            0 <= a <= b,
    ;
}

proof fn lemma_isqrt_unique(n: int, r: int)
    requires
        n >= 0,
        r >= 0,
        r * r <= n,
        n < (r + 1) * (r + 1),
    ensures
        r == isqrt_spec(n),
{
    lemma_isqrt_bounds(n);
    let q = isqrt_spec(n);
    if r < q {
        lemma_sq_mono(r + 1, q);
    }
    if q < r {
        lemma_sq_mono(q + 1, r);
    }
}

/// The next candidate for one dimension when the measured size `m` exceeds
/// the capacity: `floor(d * sqrt(cap / m))`, computed as the integer square
/// root of `d * d * cap / m`.
pub open spec fn shrink_dim(d: int, cap: int, m: int) -> int {
    isqrt_spec(d * d * cap / m)
}

/// Monotonic shrink: whenever the measured size exceeds the capacity, the
/// next candidate for each dimension is strictly smaller than the current
/// one, so the resolution sequence strictly decreases until acceptance.
pub proof fn lemma_shrink_strict(d: int, cap: int, m: int)
    requires
        1 <= d,
        0 <= cap < m,
    ensures
        0 <= shrink_dim(d, cap, m) < d,
        0 <= d * d * cap / m < d * d,
{
    let dd = d * d;
    let a = d * d * cap;
    let x = a / m;
    assert(d * d >= 1) by (nonlinear_arith)
        requires
            1 <= d,
    ;
    assert(dd * cap < dd * m && dd * cap >= 0) by (nonlinear_arith)
        requires
            dd >= 1,
            0 <= cap < m,
    ;
    assert(a == dd * cap && d * d * m == dd * m);
    vstd::arithmetic::div_mod::lemma_div_pos_is_pos(a, m);
    assert(x < d * d) by {
        vstd::arithmetic::div_mod::lemma_fundamental_div_mod(a, m);
        assert(m * x <= a) by (nonlinear_arith)
            requires
                a == m * x + a % m,
                a % m >= 0,
        ;
        assert(x < d * d) by (nonlinear_arith)
            requires
                m * x <= a,
                a < d * d * m,
                m >= 1,
                x >= 0,
        ;
    };
    lemma_isqrt_bounds(x);
    if isqrt_spec(x) >= d {
        lemma_sq_mono(d, isqrt_spec(x));
    }
}

/// Integer square root by binary search, for a value known to lie below the
/// square of `bound`.
fn isqrt_below(x: u128, bound: usize) -> (r: usize)
    requires
        (x as int) < (bound as int) * (bound as int),
        bound <= 0xFFFF_FFFFusize,
    ensures
        r as int == isqrt_spec(x as int),
        r < bound,
{
    let mut lo: usize = 0;
    let mut hi: usize = bound;
    proof {
        assert(bound >= 1) by (nonlinear_arith)
            requires
                0 <= (x as int) < (bound as int) * (bound as int),
        ;
    }
    while hi - lo > 1
        invariant
            lo < hi <= bound,
            bound <= 0xFFFF_FFFFusize,
            (lo as int) * (lo as int) <= x as int,
            (x as int) < (hi as int) * (hi as int),
        decreases hi - lo,
    {
        let mid = lo + (hi - lo) / 2;
        proof {
            assert((mid as int) * (mid as int) <= 0xFFFF_FFFFint * 0xFFFF_FFFFint)
                by (nonlinear_arith)
                requires
                    0 <= (mid as int) <= 0xFFFF_FFFFint,
            ;
        }
        if (mid as u128) * (mid as u128) <= x {
            lo = mid;
        } else {
            hi = mid;
        }
    }
    proof {
        lemma_isqrt_unique(x as int, lo as int);
    }
    lo
}

/// One shrink step of the resolution search for a single dimension.
fn shrink(d: usize, cap: usize, m: usize) -> (r: usize)
    requires
        1 <= d <= 0xFFFF_FFFFusize,
        cap <= 0xFFFF_FFFFusize,
        cap < m,
    ensures
        r as int == shrink_dim(d as int, cap as int, m as int),
        r < d,
{
    proof {
        assert((d as int) * (d as int) <= 0xFFFF_FFFFint * 0xFFFF_FFFFint) by (nonlinear_arith)
            requires
                1 <= (d as int) <= 0xFFFF_FFFFint,
        ;
        assert((d as int) * (d as int) * (cap as int) <= (0xFFFF_FFFFint * 0xFFFF_FFFFint)
            * 0xFFFF_FFFFint) by (nonlinear_arith)
            requires
                0 <= (d as int) * (d as int) <= 0xFFFF_FFFFint * 0xFFFF_FFFFint,
                0 <= (cap as int) <= 0xFFFF_FFFFint,
        ;
    }
    let x: u128 = (d as u128) * (d as u128) * (cap as u128) / (m as u128);
    proof {
        lemma_shrink_strict(d as int, cap as int, m as int);
    }
    isqrt_below(x, d)
}

/// What `image::imageops::resize` returns for the nearest-neighbour filter:
/// the source bytes resampled to the target dimensions. The result is a
/// function of the source bytes and the four dimensions alone.
pub uninterp spec fn nearest_resample(s: Seq<u8>, sw: int, sh: int, w: int, h: int) -> Seq<u8>;

/// Relies on `image::imageops::resize` with `FilterType::Nearest` (plus
/// `image::RgbImage::from_raw` / `into_raw` for the conversions): a pure
/// resampling of the source pixels to exactly `w` x `h`, returned as a
/// row-major RGB buffer of three bytes per pixel.
#[verifier::external_body]
fn resample(src: &PixelBuffer, w: usize, h: usize) -> (r: PixelBuffer)
    requires
        src.wf(),
        1 <= src.width <= 0xFFFF_FFFFusize,
        1 <= src.height <= 0xFFFF_FFFFusize,
        1 <= w <= 0xFFFF_FFFFusize,
        1 <= h <= 0xFFFF_FFFFusize,
        3 * ((w as int) * (h as int)) <= usize::MAX,
        // the resampler's intermediate buffer holds src.width * h pixels of
        // sixteen bytes each
        16 * ((src.width as int) * (h as int)) <= usize::MAX,
    ensures
        r.wf(),
        r.width == w,
        r.height == h,
        r.data@ == nearest_resample(
            src.data@,
            src.width as int,
            src.height as int,
            w as int,
            h as int,
        ),
{
    let img = image::RgbImage::from_raw(src.width as u32, src.height as u32, src.data.clone())
        .expect("buffer length matches the dimensions");
    let out = image::imageops::resize(
        &img,
        w as u32,
        h as u32,
        image::imageops::FilterType::Nearest,
    );
    PixelBuffer { width: w, height: h, data: out.into_raw() }
}

/// The outcome of the resolution search started at (w, h): the accepted
/// resolution, or `None` when a dimension reaches zero before anything
/// fits.
pub open spec fn fit_spec(
    s: Seq<u8>,
    sw: int,
    sh: int,
    w: int,
    h: int,
    gray: bool,
    cap: int,
) -> Option<(int, int)>
    decreases w,
    via fit_spec_decreases
{
    if w <= 0 || h <= 0 || cap < 0 {
        None
    } else {
        let m = max_layer_len(dither_spec(nearest_resample(s, sw, sh, w, h), w, h), w, h, gray);
        if m <= cap {
            Some((w, h))
        } else {
            fit_spec(s, sw, sh, shrink_dim(w, cap, m), shrink_dim(h, cap, m), gray, cap)
        }
    }
}

#[via_fn]
proof fn fit_spec_decreases(s: Seq<u8>, sw: int, sh: int, w: int, h: int, gray: bool, cap: int) {
    if !(w <= 0 || h <= 0 || cap < 0) {
        let m = max_layer_len(dither_spec(nearest_resample(s, sw, sh, w, h), w, h), w, h, gray);
        if !(m <= cap) {
            lemma_shrink_strict(w, cap, m);
        }
    }
}

/// Failure of the resolution search.
#[derive(Debug, PartialEq, Eq)]
pub enum FitError {
    /// The resolution shrank to zero before any encoding fit the capacity.
    Unfittable,
}

/// An accepted encoding: the text layers and the resolution that produced
/// them.
#[derive(Debug)]
pub struct FitOutcome {
    pub layers: Vec<String>,
    pub width: usize,
    pub height: usize,
}

/// The starting resolution: the caller's override when given, otherwise the
/// source dimensions with the height halved to offset the glyphs' roughly
/// one-to-two aspect ratio.
pub fn initial_resolution(src_w: usize, src_h: usize, user: Option<(usize, usize)>) -> (r: (
    usize,
    usize,
))
    ensures
        match user {
            Some(u) => r == u,
            None => r.0 == src_w && r.1 == src_h / 2,
        },
{
    match user {
        Some(u) => u,
        None => (src_w, src_h / 2),
    }
}

/// Runs the resize / dither / encode / measure loop from the initial
/// resolution, shrinking both dimensions until the largest layer fits the
/// capacity; fails when a dimension reaches zero first.
pub fn fit(
    src: &PixelBuffer,
    init_w: usize,
    init_h: usize,
    grayscale: bool,
    capacity: usize,
) -> (r: Result<FitOutcome, FitError>)
    requires
        src.wf(),
        1 <= src.width <= 0xFFFF_FFFFusize,
        1 <= src.height <= 0xFFFF_FFFFusize,
        init_w <= 0xFFFF_FFFFusize,
        init_h <= 0xFFFF_FFFFusize,
        capacity <= 0xFFFF_FFFFusize,
        3 * ((init_w as int) * (init_h as int)) <= usize::MAX,
        16 * ((src.width as int) * (init_h as int)) <= usize::MAX,
    ensures
        ({
            let outcome = fit_spec(
                src.data@,
                src.width as int,
                src.height as int,
                init_w as int,
                init_h as int,
                grayscale,
                capacity as int,
            );
            match r {
                Ok(out) => {
                    &&& outcome == Some((out.width as int, out.height as int))
                    &&& 1 <= out.width <= init_w
                    &&& 1 <= out.height <= init_h
                    &&& out.layers@.len() == (if grayscale {
                        1int
                    } else {
                        3int
                    })
                    &&& forall|i: int|
                        0 <= i < out.layers@.len() ==> (#[trigger] out.layers@[i])@ == layer_spec(
                            dither_spec(
                                nearest_resample(
                                    src.data@,
                                    src.width as int,
                                    src.height as int,
                                    out.width as int,
                                    out.height as int,
                                ),
                                out.width as int,
                                out.height as int,
                            ),
                            out.width as int,
                            out.height as int,
                            grayscale,
                            i,
                        )
                    &&& max_layer_len(
                        dither_spec(
                            nearest_resample(
                                src.data@,
                                src.width as int,
                                src.height as int,
                                out.width as int,
                                out.height as int,
                            ),
                            out.width as int,
                            out.height as int,
                        ),
                        out.width as int,
                        out.height as int,
                        grayscale,
                    ) <= capacity as int
                },
                Err(e) => outcome is None && e == FitError::Unfittable,
            }
        }),
{
    let ghost s0 = src.data@;
    let ghost sw = src.width as int;
    let ghost sh = src.height as int;
    let mut w = init_w;
    let mut h = init_h;
    loop
        invariant
            src.wf(),
            1 <= src.width <= 0xFFFF_FFFFusize,
            1 <= src.height <= 0xFFFF_FFFFusize,
            s0 == src.data@,
            sw == src.width as int,
            sh == src.height as int,
            w <= init_w,
            h <= init_h,
            init_w <= 0xFFFF_FFFFusize,
            init_h <= 0xFFFF_FFFFusize,
            capacity <= 0xFFFF_FFFFusize,
            3 * ((init_w as int) * (init_h as int)) <= usize::MAX,
            16 * (sw * (init_h as int)) <= usize::MAX,
            fit_spec(s0, sw, sh, w as int, h as int, grayscale, capacity as int) == fit_spec(
                s0,
                sw,
                sh,
                init_w as int,
                init_h as int,
                grayscale,
                capacity as int,
            ),
        decreases w,
    {
        if w == 0 || h == 0 {
            return Err(FitError::Unfittable);
        }
        proof {
            assert((w as int) * (h as int) <= (init_w as int) * (init_h as int))
                by (nonlinear_arith)
                requires
                    0 <= w as int <= init_w as int,
                    0 <= h as int <= init_h as int,
            ;
            assert(sw * (h as int) <= sw * (init_h as int)) by (nonlinear_arith)
                requires
                    sw >= 0,
                    0 <= h as int <= init_h as int,
            ;
        }
        let mut buf = resample(src, w, h);
        dither(&mut buf);
        let layers = encode(&buf, grayscale);
        let m: usize = if grayscale {
            layers[0].as_str().unicode_len()
        } else {
            let a = layers[0].as_str().unicode_len();
            let b = layers[1].as_str().unicode_len();
            let c = layers[2].as_str().unicode_len();
            if a >= b && a >= c {
                a
            } else if b >= c {
                b
            } else {
                c
            }
        };
        proof {
            assert(m as int == max_layer_len(
                dither_spec(nearest_resample(s0, sw, sh, w as int, h as int), w as int, h as int),
                w as int,
                h as int,
                grayscale,
            ));
        }
        if m <= capacity {
            proof {
                assert(fit_spec(s0, sw, sh, w as int, h as int, grayscale, capacity as int)
                    == Some((w as int, h as int)));
            }
            return Ok(FitOutcome { layers, width: w, height: h });
        }
        let ghost pw = w as int;
        let ghost ph = h as int;
        w = shrink(w, capacity, m);
        h = shrink(h, capacity, m);
        proof {
            assert(fit_spec(s0, sw, sh, pw, ph, grayscale, capacity as int) == fit_spec(
                s0,
                sw,
                sh,
                w as int,
                h as int,
                grayscale,
                capacity as int,
            ));
        }
    }
}

} // verus!
