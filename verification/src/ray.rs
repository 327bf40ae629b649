//! Rays: an origin and a direction.

use vstd::prelude::*;
use crate::geom::Vec3;
use crate::scalar::Scalar;

verus! {

/// A ray from `orig` along `dir`; the direction need not have length one.
#[derive(Clone, Copy, Debug)]
pub struct Ray {
    pub orig: Vec3,
    pub dir: Vec3,
}

impl Ray {
    /// The point at parameter `t`: the origin plus `t` times the direction.
    pub open spec fn at_spec(self, t: Scalar) -> Vec3 {
        self.orig.plus(self.dir.scaled(t))
    }

    /// The ray from `orig` along `dir`.
    pub fn new(orig: Vec3, dir: Vec3) -> (r: Ray)
        ensures
            r.orig == orig,
            r.dir == dir,
    {
        Ray { orig, dir }
    }

    /// Where the ray starts.
    pub fn origin(&self) -> (r: Vec3)
        ensures
            r == self.orig,
    {
        self.orig
    }

    /// Where the ray points.
    pub fn direction(&self) -> (r: Vec3)
        ensures
            r == self.dir,
    {
        self.dir
    }

    /// The point of the ray at parameter `t`.
    pub fn at(&self, t: Scalar) -> (r: Vec3)
        ensures
            r == self.at_spec(t),
    {
        self.orig + t * self.dir
    }
}

} // verus!
