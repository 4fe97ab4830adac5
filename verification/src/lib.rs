//! Glyph textures for text rendering: a cache of rasterised glyphs per font,
//! and the signed distance fields that let text scale and take outlines.
//!
//! The library works on whole numbers throughout. A rasteriser hands it
//! coverage bitmaps; it finds the boundary of each glyph ([`boundary`]),
//! relaxes distances outward and inward from it ([`sdf`]) and keeps the
//! result for every character of every font ([`cache`], [`fonts`]). What a
//! distance field is made of is laid down in [`field`], which one is built
//! in [`relaxation`]; the exact arithmetic of distances is in [`distance`].
use vstd::prelude::*;

pub mod bitmap;
pub mod boundary;
pub mod cache;
pub mod distance;
pub mod field;
pub mod fonts;
pub mod frontier;
pub mod relaxation;
pub mod root;
pub mod sdf;
pub mod settings;

pub use fonts::FontId;
pub use settings::SdfSettings;

verus! {

} // verus!
