//! Pixels and dense row-major pixel grids.

use vstd::prelude::*;

verus! {

/// One RGBA pixel with 8-bit channels.
#[derive(Clone, Copy, Debug, PartialEq, Eq, Hash, Structural)]
pub struct Pixel {
    pub r: u8,
    pub g: u8,
    pub b: u8,
    pub a: u8,
}

/// A dense, row-major grid of pixels: the pixel in column `x` of row `y` is
/// `pixels[y * width + x]`.
#[derive(Debug)]
pub struct PixelGrid {
    pub width: u32,
    pub height: u32,
    pub pixels: Vec<Pixel>,
}

impl PixelGrid {
    /// The buffer holds exactly `width * height` pixels.
    pub open spec fn wf(&self) -> bool {
        self.pixels@.len() == self.width * self.height
    }

    /// A grid over `pixels`, if there are `width * height` of them.
    pub fn new(width: u32, height: u32, pixels: Vec<Pixel>) -> (grid: Option<PixelGrid>)
        ensures
            grid is Some <==> pixels@.len() == width * height,
            grid matches Some(g) ==> g.wf() && g.width == width && g.height == height && g.pixels@
                == pixels@,
    {
        assert(width * height <= 0xFFFF_FFFF * 0xFFFF_FFFF) by (nonlinear_arith)
            requires
                width <= 0xFFFF_FFFF,
                height <= 0xFFFF_FFFF,
        ;
        let area: u64 = width as u64 * height as u64;
        if pixels.len() as u64 == area {
            Some(PixelGrid { width, height, pixels })
        } else {
            None
        }
    }

    /// The pixel in column `x` of row `y`.
    pub fn pixel_at(&self, x: u32, y: u32) -> (pixel: Pixel)
        requires
            self.wf(),
            x < self.width,
            y < self.height,
        ensures
            y * self.width + x < self.pixels@.len(),
            pixel == self.pixels@[y * self.width + x],
    {
        let n = self.pixels.len();
        assert(y * self.width + x < self.width * self.height) by (nonlinear_arith)
            requires
                x < self.width,
                y < self.height,
        ;
        assert(0 <= y * self.width <= self.width * self.height) by (nonlinear_arith)
            requires
                y < self.height,
        ;
        self.pixels[y as usize * self.width as usize + x as usize]
    }
}

} // verus!
