//! Raster back end of a small software renderer: a depth-tested framebuffer,
//! the grouping of vertices into triangles, and the exact meaning of the
//! single-precision values that cross from the shading stages into both.

pub mod assembly;
pub mod binary32;
pub mod color;
pub mod depth_test;
pub mod framebuffer;
pub mod raster;
pub mod vector;

pub use assembly::assemble_triangles;
pub use binary32::Binary32;
pub use color::Color;
pub use framebuffer::Frame;
pub use framebuffer::Framebuffer;
pub use raster::BoundingBox;
pub use vector::Vector3;
