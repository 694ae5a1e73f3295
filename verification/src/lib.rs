//! Posterization filter: every pixel of an image is moved to the nearest colour of a
//! fixed palette, and regions of one colour that are smaller than a threshold are
//! repainted with the colour that is most frequent along their border.

pub mod consolidator;
pub mod counting;
pub mod flood_fill;
pub mod labeler;
pub mod mapper;
pub mod pixel;
pub mod reducer;
pub mod regions;
pub mod trusted;
pub mod union_find;

pub use pixel::{Pixel, PixelGrid};
pub use reducer::{ColorReducer, ReduceError};
