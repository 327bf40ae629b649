//! Pixels for a plain-text image: accumulated colour to three bytes.

use vstd::prelude::*;
use crate::geom::Vec3;
use crate::scalar::{Scalar, BYTE_MAX_BITS};
use crate::utils::{clamp, clamp_spec};

verus! {

/// The byte of one channel: the accumulated value over `samples`, its square
/// root for a gamma of two, times 255, clamped.
pub open spec fn channel_spec(sum: Scalar, samples: int) -> int {
    clamp_spec(
        (Scalar { bits: BYTE_MAX_BITS }).mul_spec(
            sum.mul_spec(crate::scalar::one().div_spec(Scalar::from_int_spec(samples))).sqrt_spec(),
        ),
    )
}

/// The red, green and blue bytes of a pixel whose colour was accumulated
/// over `samples` samples.
pub fn color_bytes(pixel: Vec3, samples: i32) -> (r: (u8, u8, u8))
    ensures
        r.0 == channel_spec(pixel.0[0], samples as int),
        r.1 == channel_spec(pixel.0[1], samples as int),
        r.2 == channel_spec(pixel.0[2], samples as int),
{
    let mean: Vec3 = pixel / Scalar::from_i32(samples);
    let top: Scalar = Scalar::from_bits(BYTE_MAX_BITS);
    let ir: u8 = clamp(top.mul(mean.0[0].sqrt()));
    let ig: u8 = clamp(top.mul(mean.0[1].sqrt()));
    let ib: u8 = clamp(top.mul(mean.0[2].sqrt()));
    (ir, ig, ib)
}

} // verus!
