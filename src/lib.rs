use vstd::prelude::*;

pub mod edge;
pub mod geometry;
pub mod polygon;
pub mod raster;
pub mod utils;

verus! {

/// How a pixel's colour is obtained from its triangle.
#[derive(Clone, Copy, Debug, PartialEq, Eq, Structural)]
pub enum InterpolationType {
    /// Blend the colours shaded at the three vertices.
    Color,
    /// Blend the normals and shade every pixel afresh.
    Vector,
}

/// Where the surface colour comes from.
#[derive(Clone, Copy, Debug, PartialEq, Eq, Structural)]
pub enum ColorSourceType {
    /// One constant colour.
    Color,
    /// A texel of the texture image at the pixel.
    Texture,
}

} // verus!
