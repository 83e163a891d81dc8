//! Point-cloud rasterizer: reads an ASCII vertex list, computes its bounding
//! extent, and projects the points onto a 2D density raster.
//!
//! Coordinates are fixed-point numbers: one unit is a millionth of the input's
//! physical unit, held in an `i64`. The decimal parser, the bounds reduction,
//! the raster geometry and the density accumulation are all verified.

use vstd::prelude::*;

pub mod color;
pub mod geometry;
pub mod reader;
pub mod raster;
pub mod vertex;

verus! {

/// The errors the library reports.
#[derive(Clone, Copy, Debug, PartialEq, Eq, Structural)]
pub enum PcError {
    /// A data line has fewer than three tokens, or a token is not a decimal
    /// number within the supported range.
    MalformedVertex,
    /// The file holds no data line after the header marker.
    EmptyInput,
    /// The pixel scale is not positive.
    InvalidScale,
    /// A color code is not `#` followed by six hex digits.
    MalformedColor,
}

} // verus!
