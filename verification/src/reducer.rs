//! The colour reducer: mapping to the palette, labeling of the regions, and
//! consolidation of the small ones, in this order and once each.

use vstd::prelude::*;
use crate::consolidator::{consolidate, consolidated, lemma_consolidated_from_colors};
use crate::labeler::label_regions;
use crate::mapper::{in_palette, is_mapped, is_mapping, map_colors};
use crate::trusted::{image_from_grid, image_height, image_rgba, image_width, rgba_grid};
use crate::pixel::{Pixel, PixelGrid};
use image::DynamicImage;

verus! {

/// Why an image could not be reduced.
#[derive(Clone, Copy, Debug, PartialEq, Eq, Structural)]
pub enum ReduceError {
    /// The palette has no colour.
    EmptyPalette,
}

impl ReduceError {
    /// The error in words.
    pub fn message(&self) -> (text: &'static str)
        ensures
            text@ == "Palette is empty"@,
    {
        "Palette is empty"
    }
}

/// `output` is `input` reduced: first mapped to the palette, then consolidated.
pub open spec fn is_reduction(
    palette: Seq<[u8; 3]>,
    threshold: int,
    w: int,
    input: Seq<Pixel>,
    output: Seq<Pixel>,
) -> bool {
    exists|mapped: Seq<Pixel>| #[trigger]
        is_mapping(palette, input, mapped) && output == consolidated(mapped, w, threshold)
}

/// Every pixel of `pixels` has the red, green and blue of some palette entry.
pub open spec fn all_in_palette(palette: Seq<[u8; 3]>, pixels: Seq<Pixel>) -> bool {
    forall|i: int| 0 <= i < pixels.len() ==> in_palette(palette, #[trigger] pixels[i])
}

/// A reduced image has as many pixels as the image it was made from.
pub proof fn lemma_reduction_keeps_length(
    palette: Seq<[u8; 3]>,
    threshold: int,
    w: int,
    input: Seq<Pixel>,
    output: Seq<Pixel>,
)
    requires
        is_reduction(palette, threshold, w, input, output),
    ensures
        output.len() == input.len(),
{
}

/// Every pixel of a reduced image has the red, green and blue of some palette entry:
/// mapping only hands out palette colours, and consolidation only hands on colours
/// that mapping produced.
pub proof fn lemma_reduction_in_palette(
    palette: Seq<[u8; 3]>,
    threshold: int,
    w: int,
    input: Seq<Pixel>,
    output: Seq<Pixel>,
)
    requires
        palette.len() > 0,
        w > 0,
        is_reduction(palette, threshold, w, input, output),
    ensures
        all_in_palette(palette, output),
{
    let mapped = choose|mapped: Seq<Pixel>| #[trigger]
        is_mapping(palette, input, mapped) && output == consolidated(mapped, w, threshold);
    assert forall|i: int| 0 <= i < output.len() implies in_palette(
        palette,
        #[trigger] output[i],
    ) by {
        let k = lemma_consolidated_from_colors(mapped, w, threshold, i);
        assert(is_mapped(palette, input[k], mapped[k]));
    }
}

/// Labels the regions of the grid and repaints every region of fewer than `threshold`
/// pixels with the colour that its border sees most often.
pub fn remove_small_regions(grid: &PixelGrid, threshold: usize) -> (out: PixelGrid)
    requires
        grid.wf(),
    ensures
        out.wf(),
        out.width == grid.width,
        out.height == grid.height,
        out.pixels@ == consolidated(grid.pixels@, grid.width as int, threshold as int),
{
    let labeling = label_regions(grid);
    consolidate(grid, &labeling, threshold)
}

/// Reduces images to a palette and removes the regions that are smaller than a
/// threshold.
pub struct ColorReducer {
    palette: Vec<[u8; 3]>,
    area_threshold: usize,
}

impl ColorReducer {
    /// The palette, in the order in which it was given.
    pub closed spec fn palette(&self) -> Seq<[u8; 3]> {
        self.palette@
    }

    /// The number of pixels below which a region is consolidated.
    pub closed spec fn area_threshold(&self) -> usize {
        self.area_threshold
    }

    /// A reducer with the given palette and threshold.
    pub fn new(palette: Vec<[u8; 3]>, area_threshold: usize) -> (reducer: Self)
        ensures
            reducer.palette() == palette@,
            reducer.area_threshold() == area_threshold,
    {
        ColorReducer { palette, area_threshold }
    }

    /// Reduces a grid of pixels. Fails, before any pixel is looked at, exactly when the
    /// palette is empty. Otherwise the result has the width and height of `grid`, and
    /// its pixels are those of `grid`, mapped to the palette and then consolidated.
    pub fn reduce_grid(&self, grid: &PixelGrid) -> (res: Result<PixelGrid, ReduceError>)
        requires
            grid.wf(),
        ensures
            res is Err <==> self.palette().len() == 0,
            res matches Ok(out) ==> {
                &&& out.wf()
                &&& out.width == grid.width
                &&& out.height == grid.height
                &&& is_reduction(
                    self.palette(),
                    self.area_threshold() as int,
                    grid.width as int,
                    grid.pixels@,
                    out.pixels@,
                )
                &&& all_in_palette(self.palette(), out.pixels@)
            },
    {
        if self.palette.len() == 0 {
            return Err(ReduceError::EmptyPalette);
        }
        let mapped = map_colors(grid, &self.palette);
        let out = remove_small_regions(&mapped, self.area_threshold);
        proof {
            assert(is_mapping(self.palette(), grid.pixels@, mapped.pixels@));
            if out.pixels@.len() > 0 {
                assert(grid.width > 0) by (nonlinear_arith)
                    requires
                        grid.width * grid.height > 0,
                ;
                lemma_reduction_in_palette(
                    self.palette(),
                    self.area_threshold() as int,
                    grid.width as int,
                    grid.pixels@,
                    out.pixels@,
                );
            }
        }
        Ok(out)
    }

    /// Reduces an image. Fails, before the image is looked at, exactly when the palette
    /// is empty. Otherwise the result has the width and height of `img`, and its pixels
    /// are those of `img`, read as 8-bit RGBA, mapped to the palette and then
    /// consolidated.
    pub fn reduce(&self, img: &DynamicImage) -> (res: Result<DynamicImage, ReduceError>)
        ensures
            res is Err <==> self.palette().len() == 0,
            res matches Ok(out) ==> {
                &&& image_width(out) == image_width(*img)
                &&& image_height(out) == image_height(*img)
                &&& is_reduction(
                    self.palette(),
                    self.area_threshold() as int,
                    image_width(*img) as int,
                    image_rgba(*img),
                    image_rgba(out),
                )
                &&& all_in_palette(self.palette(), image_rgba(out))
            },
    {
        if self.palette.len() == 0 {
            return Err(ReduceError::EmptyPalette);
        }
        let grid = rgba_grid(img);
        match self.reduce_grid(&grid) {
            Ok(out) => Ok(image_from_grid(&out)),
            Err(e) => Err(e),
        }
    }
}

} // verus!
