//! A path-tracing kernel with proved contracts.
//!
//! The numbers are IEEE 754 binary32 values carried by their bit patterns.
//! Every arithmetic step is integer code, proved to return the exact result
//! rounded to nearest with ties to even, so that an image comes out the same
//! on every machine and every function of the kernel has a contract that
//! says which bits it returns.
//!
//! - `scalar`: the numbers, their classes, signs, comparisons and constants.
//! - `rounding`: what rounding to nearest means, and the routine that does it.
//! - `arith`: product, quotient, sum, difference, square root, and how they
//!   behave when signs are flipped or operands ordered.
//! - `accuracy`: how far rounding can carry a computed length, or the hit of
//!   a ray aimed at the centre of a sphere, from the true one.
//! - `geom`: vectors of three numbers.
//! - `ray`, `bodies`, `scene`: rays, the sphere and the record of a hit, and
//!   the scene that returns the closest hit among its spheres.
//! - `materials`: diffuse, metal and glass surfaces.
//! - `tracer`: the colour that arrives along a ray.
//! - `utils`, `ppm`: clamping, interpolation, the tests that rejection
//!   sampling makes, and pixels as bytes.
//!
//! Random draws are made by the caller and handed in as numbers.

pub mod accuracy;
pub mod arith;
pub mod bodies;
pub mod geom;
pub mod materials;
pub mod ppm;
pub mod ray;
pub mod rounding;
pub mod scalar;
pub mod scene;
pub mod tracer;
pub mod utils;
