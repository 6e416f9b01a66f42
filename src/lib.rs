//! Integer core of an interactive Monte Carlo path tracer: Morton codes,
//! the topology of the bounding volume hierarchy and its traversal, light
//! selection, the frame accumulator, the tile scheduler, the camera's key
//! handling and the layout of the sky map.

pub mod accum;
pub mod bands;
pub mod bvh;
pub mod input;
pub mod morton;
pub mod skybox;
