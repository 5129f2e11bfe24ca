//! Row-major RGB rasters, the single data shape every pipeline stage works
//! on.

use vstd::prelude::*;
use crate::color::Rgb;

verus! {

/// A width x height raster of pixels in row-major order: the pixel at
/// column x and row y sits at index y * width + x.
pub struct Raster {
    pub width: usize,
    pub height: usize,
    pub pixels: Vec<Rgb>,
}

impl Raster {
    /// The declared dimensions match the pixel data.
    pub open spec fn wf(&self) -> bool {
        self.pixels@.len() == (self.width as int) * (self.height as int)
    }

    /// Build a raster, rejecting a pixel buffer whose length does not match
    /// the declared width x height.
    pub fn new(width: usize, height: usize, pixels: Vec<Rgb>) -> (r: Option<Raster>)
        ensures
            r is Some <==> (width as int) * (height as int) == pixels@.len(),
            r is Some ==> r->0.width == width && r->0.height == height && r->0.pixels@
                == pixels@ && r->0.wf(),
    {
        proof {
            assert((width as int) * (height as int) < 0x1_0000_0000_0000_0000_0000_0000_0000_0000)
                by (nonlinear_arith)
                requires
                    width <= 0xffff_ffff_ffff_ffff && height <= 0xffff_ffff_ffff_ffff,
            ;
        }
        let prod: u128 = (width as u128) * (height as u128);
        if prod == pixels.len() as u128 {
            Some(Raster { width, height, pixels })
        } else {
            None
        }
    }
}

} // verus!

