//! The integer core of a Monte Carlo path tracer: how pixels are dealt out to
//! render workers, how the finished 8-bit image is post-processed, the shape of
//! the bounding-volume hierarchy, the lattice hash of Perlin noise, texel lookup
//! in decoded image bytes, and triangle assembly from mesh indices.
pub mod bvh;
pub mod framebuffer;
pub mod material;
pub mod mesh;
pub mod perlin;
pub mod sampler;
pub mod texture;
pub mod utility;
