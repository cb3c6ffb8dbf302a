//! Building blocks of an offline path tracer: the image raster and the order
//! in which its pixels are emitted, the split of the image among workers and
//! the merge of their results, the bounce-limited light-transport recursion,
//! and the text encoding of the finished image.
//!
//! The numeric side of rendering (vectors, intersections, scattering) is left
//! to the caller, who supplies it as closures over its own ray and colour
//! types. What this crate fixes, and proves, is the structure around it.

pub mod interval;
pub mod raster;
pub mod merge;
pub mod tiling;
pub mod render;
pub mod integrator;
pub mod hittable;
pub mod sampling;
pub mod color;
pub mod ppm;
pub mod material;
pub mod camera;
