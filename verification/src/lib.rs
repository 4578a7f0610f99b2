//! Repair of "color bleed" in RGBA raster images: fully transparent pixels
//! keep arbitrary color channels, which leak into the visible image when a
//! consumer blends across the alpha boundary.  The crate classifies the
//! opaque pixels that border transparency, extrapolates a plausible color
//! into every fully transparent pixel — either from the nearest border
//! point or by flood averaging — and never changes which pixels are
//! transparent unless a strategy is specified to solidify the image.

pub mod batch;
pub mod classify;
pub mod codec;
pub mod errors;
pub mod files;
pub mod flood;
pub mod nearest;
pub mod neighbor;
pub mod pipeline;
pub mod raster;
