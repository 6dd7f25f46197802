//! A small software rasterizer: integer line tracing, gradient-shaded
//! scanline triangle fill, and a double-buffered RGBA8 framebuffer.

pub mod color;
pub mod geometry;
pub mod raster;
pub mod renderer;
