//! The in-memory pixel grid: RGB bytes stored row-major, three bytes per
//! pixel, with explicit width and height.

use vstd::prelude::*;

verus! {

/// Index of the first channel byte of pixel (x, y) in a row-major RGB byte
/// buffer of width `w`.
pub open spec fn pix(w: int, x: int, y: int) -> int {
    3 * (y * w + x)
}

/// A 2D grid of RGB pixels with explicit dimensions.
pub struct PixelBuffer {
    pub width: usize,
    pub height: usize,
    pub data: Vec<u8>,
}

impl PixelBuffer {
    /// The buffer holds exactly three bytes per pixel.
    pub open spec fn wf(&self) -> bool {
        self.data@.len() == 3 * (self.width * self.height)
    }

    /// Builds a buffer from raw row-major RGB bytes; rejects a byte count
    /// that does not match the dimensions.
    pub fn from_raw(width: usize, height: usize, data: Vec<u8>) -> (r: Option<PixelBuffer>)
        ensures
            match r {
                Some(b) => {
                    &&& b.wf()
                    &&& b.width == width
                    &&& b.height == height
                    &&& b.data@ == data@
                },
                None => data@.len() != 3 * (width * height),
            },
    {
        let n = data.len();
        proof {
            assert((width as int) * (height as int) >= 0) by (nonlinear_arith);
        }
        match width.checked_mul(height) {
            Some(p) => match p.checked_mul(3) {
                Some(t) => {
                    if n == t {
                        Some(PixelBuffer { width, height, data })
                    } else {
                        None
                    }
                },
                None => None,
            },
            None => None,
        }
    }
}

} // verus!
