//! A small path-tracing renderer, verified end to end.
//!
//! Every scalar is a fixed-point number: an `i64` holding `value * SCALE`
//! with `SCALE = 2^16`.  All geometry, shading and sampling is exact
//! integer arithmetic — the slab test compares rational entry and exit
//! parameters by cross-multiplication, sphere roots come from an integer
//! square root of the exact discriminant — so each function's result is
//! pinned by its contract, and a render is a pure function of the scene,
//! the camera and a seed.
//!
//! - [`num`], [`vec3`], [`ray`]: fixed-point scalars, vectors, rays;
//! - [`aabb`]: bounding boxes and the exact slab test;
//! - [`shape`], [`bvh`], [`scene`]: the sphere primitive, the bounding
//!   volume hierarchy (with its proof of equivalence to a linear scan),
//!   and the scene list;
//! - [`texture`], [`material`], [`scatter`], [`sample`], [`rng`]: shading;
//! - [`camera`], [`render`]: ray generation and the renderer.

pub mod num;
pub mod vec3;
pub mod ray;
pub mod aabb;
pub mod texture;
pub mod material;
pub mod shape;
pub mod bvh;
pub mod rng;
pub mod sample;
pub mod scatter;
pub mod scene;
pub mod camera;
pub mod render;

use vstd::prelude::*;

verus! {

} // verus!
