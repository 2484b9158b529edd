//! A software 3D rasteriser's integer core: pixel addressing, span and line
//! drawing, scanline triangle filling, painter's ordering and colour packing.

use vstd::prelude::*;

pub mod colour;
pub mod coverage;
pub mod input;
pub mod mesh;
pub mod painter;
pub mod raster;
pub mod strings;
pub mod text;

verus! {

/// Width of the frame buffer in pixels.
pub const WIDTH: usize = 800;

/// Height of the frame buffer in pixels.
pub const HEIGHT: usize = 600;

/// Number of pixels of a full frame buffer.
pub const NUM_PIXELS: usize = HEIGHT * WIDTH;

} // verus!
