//! The geometric core of a ray tracer: where rays strike spheres, which
//! strike is the nearest visible one, the shading frame at that point, and a
//! canvas of pixels with its PPM encoding.
//!
//! All quantities are fixed-point integers: `geometry::SCALE` raw units make
//! one world unit.
use vstd::prelude::*;

pub mod canvas;
pub mod geometry;
pub mod intersections;
pub mod theorems;
pub mod ray;
pub mod shape;

verus! {

} // verus!
