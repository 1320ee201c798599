//! A small recursive ray tracer over fixed-point arithmetic.
//!
//! Geometry and colours are held as integers scaled by `fx::SCALE`, so that
//! every step of the rendering pipeline — vector algebra, ray–sphere
//! intersection, nearest-hit resolution, the sky gradient, the diffuse
//! bounce, and the conversion to display colour channels — carries an exact
//! contract.

pub mod camera;
pub mod colour;
pub mod fx;
pub mod hit;
pub mod ray;
pub mod render;
pub mod sampler;
pub mod sphere;
pub mod vec3;

use vstd::prelude::*;

verus! {

} // verus!
