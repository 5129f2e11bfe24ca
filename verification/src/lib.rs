//! Quantization and raster-encoding pipeline for a six-color e-paper panel.
//!
//! The library takes an RGB pixel raster of known width and height and
//! produces (a) a dithered raster whose pixels all lie exactly in a fixed
//! six-entry palette and (b) a rotated, two-strip, 4-bit-per-pixel packed
//! buffer in the layout the panel controller expects.  The surrounding
//! service (HTTP routes, flight data fetching, SVG rasterization) supplies
//! the input raster and transmits the outputs; none of that lives here.

pub mod color;
pub mod dither;
pub mod pack;
pub mod raster;
pub mod svg;
