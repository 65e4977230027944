//! Image processing primitives with machine-checked contracts: rectangle
//! geometry, contrast operations on 8-bit rasters, and Canny-style edge
//! tracing.

pub mod contrast;
pub mod edges;
pub mod hysteresis;
pub mod integralimage;
pub mod raster;
pub mod rect;
pub mod traversal;
