//! A small software rendering pipeline over fixed-point values: a depth-tested
//! framebuffer, a triangle rasterizer, and the colour stage of a glowing
//! procedural surface.
pub mod arith;
pub mod framebuffer;
pub mod rasterizer;
pub mod shaders;
pub mod vertex;
