//! Raw pixel buffers and boolean masks.

use vstd::prelude::*;
use crate::codec::decode;

verus! {

/// A decoded image: rows top to bottom, pixels left to right, each pixel three
/// bytes (RGB) or, when `has_alpha` holds, four (RGBA).
#[derive(Clone, Debug)]
pub struct RawImage {
    pub width: u32,
    pub height: u32,
    pub has_alpha: bool,
    pub data: Vec<u8>,
}

impl RawImage {
    /// Bytes per pixel.
    pub open spec fn bpp(&self) -> int {
        if self.has_alpha { 4 } else { 3 }
    }

    pub open spec fn pixel_count(&self) -> int {
        self.width as int * self.height as int
    }

    /// The buffer holds exactly one pixel for each position of the canvas.
    pub open spec fn wf(&self) -> bool {
        self.data@.len() == self.pixel_count() * self.bpp()
    }

    /// Channel `c` of pixel `p` (row-major position).
    pub open spec fn channel(&self, p: int, c: int) -> u8 {
        self.data@[p * self.bpp() + c]
    }

    /// A well-formed image has no more pixels than bytes.
    pub proof fn lemma_pixels_fit(&self)
        requires
            self.wf(),
        ensures
            0 <= self.pixel_count() <= self.data@.len(),
    {
        let n = self.pixel_count();
        assert(0 <= n <= n * self.bpp()) by (nonlinear_arith)
            requires
                n == self.width as int * self.height as int,
                self.bpp() >= 3,
        ;
    }

    /// Alpha of pixel `p`; an image without alpha is opaque.
    pub open spec fn alpha(&self, p: int) -> u8 {
        if self.has_alpha { self.channel(p, 3) } else { 255 }
    }

    /// The segment index that pixel `p` stores when the image is read as a stencil.
    pub open spec fn index_at(&self, p: int) -> int {
        decode(self.channel(p, 0), self.channel(p, 1), self.channel(p, 2))
    }

    /// Pixel `p` has the RGB colour `(r, g, b)`.
    pub open spec fn same_rgb(&self, p: int, r: u8, g: u8, b: u8) -> bool {
        &&& self.channel(p, 0) == r
        &&& self.channel(p, 1) == g
        &&& self.channel(p, 2) == b
    }
}

/// A grid of booleans, row-major.
#[derive(Clone, Debug)]
pub struct BoolMask {
    pub width: u32,
    pub height: u32,
    pub cells: Vec<bool>,
}

impl BoolMask {
    pub open spec fn wf(&self) -> bool {
        self.cells@.len() == self.width as int * self.height as int
    }

    /// The cell at column `x`, row `y`.
    pub open spec fn at(&self, x: int, y: int) -> bool {
        self.cells@[y * self.width + x]
    }
}

} // verus!
