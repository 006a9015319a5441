//! A small ray tracer whose arithmetic is IEEE 754 binary32, carried out on bit
//! patterns with integer operations only, so that every pixel is reproducible
//! bit for bit and every operation has a proved contract.
//!
//! From the ground up: `intmath` and `rounding` hold the integer facts and the
//! definition of rounding to nearest; `value` the numbers and their
//! arithmetic as mathematics; `binary32` the numbers as bits, with each
//! operation proved to compute what `value` says. On these stand the vectors
//! (`vec3`), rays (`ray`), the ray-sphere test (`sphere`), the shading of a
//! ray (`shade`), the camera (`camera`), the colours and their text (`color`)
//! and the image as a whole (`render`).
pub mod intmath;
pub mod rounding;
pub mod value;
pub mod binary32;
pub mod vec3;
pub mod color;
pub mod ray;
pub mod sphere;
pub mod shade;
pub mod camera;
pub mod render;
