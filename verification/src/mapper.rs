//! Colour mapping: every pixel takes the red, green and blue of the palette entry that
//! is nearest to it and keeps its own alpha.
//!
//! How far a pixel is from an entry is measured in CIE L\*a\*b\*, by the `palette` crate.
//! The measure reaches this module as an integer key that grows with the distance; the
//! entry with the smallest key wins, and among entries with equal keys the first.

use vstd::prelude::*;
use crate::pixel::{Pixel, PixelGrid};
use crate::trusted::{lab_distance_key, lab_of_entry, lab_of_pixel};
use palette::Lab;

verus! {

/// `keys[i]` is a smallest key, and every key before it is larger.
pub open spec fn is_first_minimum(keys: Seq<u32>, i: int) -> bool {
    &&& 0 <= i < keys.len()
    &&& forall|j: int| 0 <= j < keys.len() ==> keys[i] <= #[trigger] keys[j]
    &&& forall|j: int| 0 <= j < i ==> keys[i] < #[trigger] keys[j]
}

/// The position of the first smallest key.
pub open spec fn first_minimum_index(keys: Seq<u32>) -> int {
    choose|i: int| is_first_minimum(keys, i)
}

/// `pixel` with the red, green and blue of `entry`.
pub open spec fn recolored(pixel: Pixel, entry: [u8; 3]) -> Pixel {
    Pixel { r: entry[0], g: entry[1], b: entry[2], a: pixel.a }
}

/// The pixel that `pixel` is mapped to when `keys[i]` measures its distance from
/// `palette[i]`. With an empty palette the pixel stays as it is.
pub open spec fn nearest(pixel: Pixel, palette: Seq<[u8; 3]>, keys: Seq<u32>) -> Pixel {
    if palette.len() == 0 {
        pixel
    } else {
        recolored(pixel, palette[first_minimum_index(keys)])
    }
}

/// The red, green and blue of `pixel` are those of some palette entry.
pub open spec fn in_palette(palette: Seq<[u8; 3]>, pixel: Pixel) -> bool {
    exists|i: int|
        0 <= i < palette.len() && pixel.r == (#[trigger] palette[i])[0] && pixel.g == palette[i][1]
            && pixel.b == palette[i][2]
}

/// `dst` is `src` moved to some palette entry, or `src` itself if there is no entry.
pub open spec fn is_mapped(palette: Seq<[u8; 3]>, src: Pixel, dst: Pixel) -> bool {
    if palette.len() == 0 {
        dst == src
    } else {
        dst.a == src.a && in_palette(palette, dst)
    }
}

/// `output` is `input` with every pixel moved to some palette entry.
pub open spec fn is_mapping(palette: Seq<[u8; 3]>, input: Seq<Pixel>, output: Seq<Pixel>) -> bool {
    &&& output.len() == input.len()
    &&& forall|i: int| 0 <= i < input.len() ==> is_mapped(palette, input[i], #[trigger] output[i])
}

/// There is one first smallest key at most.
pub proof fn lemma_first_minimum_unique(keys: Seq<u32>, i: int)
    requires
        is_first_minimum(keys, i),
    ensures
        first_minimum_index(keys) == i,
{
    let j = first_minimum_index(keys);
    assert(is_first_minimum(keys, j));
    if j < i {
        assert(keys[i] < keys[j]);
    } else if i < j {
        assert(keys[j] < keys[i]);
    }
}

/// The position of the smallest key; of equal keys the first counts.
pub fn first_minimum(keys: &Vec<u32>) -> (best: usize)
    requires
        keys@.len() > 0,
    ensures
        is_first_minimum(keys@, best as int),
        best == first_minimum_index(keys@),
{
    let mut best: usize = 0;
    let mut k: usize = 1;
    while k < keys.len()
        invariant
            0 <= best < k <= keys@.len(),
            forall|j: int| 0 <= j < k ==> keys@[best as int] <= #[trigger] keys@[j],
            forall|j: int| 0 <= j < best ==> keys@[best as int] < #[trigger] keys@[j],
        decreases keys@.len() - k,
    {
        if keys[k] < keys[best] {
            best = k;
        }
        k += 1;
    }
    proof {
        lemma_first_minimum_unique(keys@, best as int);
    }
    best
}

/// Moves `pixel` to the palette entry with the first smallest key and keeps its alpha.
/// With an empty palette the pixel is returned as it is.
pub fn nearest_color(pixel: Pixel, palette: &Vec<[u8; 3]>, keys: &Vec<u32>) -> (out: Pixel)
    requires
        keys@.len() == palette@.len(),
    ensures
        out == nearest(pixel, palette@, keys@),
        is_mapped(palette@, pixel, out),
{
    if palette.len() == 0 {
        return pixel;
    }
    let best = first_minimum(keys);
    let entry = &palette[best];
    Pixel { r: entry[0], g: entry[1], b: entry[2], a: pixel.a }
}

/// The palette entries in CIE L\*a\*b\*, in the order of the palette.
fn palette_labs(palette: &Vec<[u8; 3]>) -> (labs: Vec<Lab>)
    ensures
        labs@.len() == palette@.len(),
{
    let mut labs: Vec<Lab> = Vec::new();
    let mut i: usize = 0;
    while i < palette.len()
        invariant
            i <= palette@.len(),
            labs@.len() == i,
        decreases palette@.len() - i,
    {
        labs.push(lab_of_entry(&palette[i]));
        i += 1;
    }
    labs
}

/// Maps `pixel` as `map_pixel` does, with the palette entries already in L\*a\*b\*.
fn map_pixel_with(pixel: Pixel, palette: &Vec<[u8; 3]>, labs: &Vec<Lab>) -> (out: Pixel)
    requires
        labs@.len() == palette@.len(),
    ensures
        is_mapped(palette@, pixel, out),
{
    let lab = lab_of_pixel(pixel);
    let mut keys: Vec<u32> = Vec::new();
    let mut i: usize = 0;
    while i < labs.len()
        invariant
            i <= labs@.len(),
            keys@.len() == i,
        decreases labs@.len() - i,
    {
        keys.push(lab_distance_key(&lab, &labs[i]));
        i += 1;
    }
    nearest_color(pixel, palette, &keys)
}

/// Moves `pixel` to the palette entry that is nearest to it in CIE L\*a\*b\*, the first
/// of several that are equally near, and keeps its alpha. With an empty palette the
/// pixel is returned as it is.
pub fn map_pixel(pixel: Pixel, palette: &Vec<[u8; 3]>) -> (out: Pixel)
    ensures
        is_mapped(palette@, pixel, out),
{
    let labs = palette_labs(palette);
    map_pixel_with(pixel, palette, &labs)
}

/// Maps every pixel of the grid as `map_pixel` does.
pub fn map_colors(grid: &PixelGrid, palette: &Vec<[u8; 3]>) -> (out: PixelGrid)
    requires
        grid.wf(),
    ensures
        out.wf(),
        out.width == grid.width,
        out.height == grid.height,
        is_mapping(palette@, grid.pixels@, out.pixels@),
{
    let labs = palette_labs(palette);
    let mut pixels: Vec<Pixel> = Vec::new();
    let mut i: usize = 0;
    while i < grid.pixels.len()
        invariant
            i <= grid.pixels@.len(),
            labs@.len() == palette@.len(),
            pixels@.len() == i,
            forall|k: int|
                0 <= k < i ==> is_mapped(palette@, grid.pixels@[k], #[trigger] pixels@[k]),
        decreases grid.pixels@.len() - i,
    {
        pixels.push(map_pixel_with(grid.pixels[i], palette, &labs));
        i += 1;
    }
    PixelGrid { width: grid.width, height: grid.height, pixels }
}

} // verus!
