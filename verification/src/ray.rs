//! Rays with exact integer origins and directions.

use vstd::prelude::*;

use crate::rat::{lemma_mul_bounds, Rat};
use crate::vec3::{vec_wf, Vec3, COORD_LIMIT};

verus! {

/// A ray `origin + t * direction`. The direction is an exact integer vector
/// and is not scaled, so the parameter `t` is not arc length.
#[derive(Clone, Copy, PartialEq, Eq, Structural, Debug)]
pub struct Ray {
    pub origin: Vec3,
    pub direction: Vec3,
}

/// A point with rational coordinates `num / den`, sharing one denominator.
#[derive(Clone, Copy, PartialEq, Eq, Structural, Debug)]
pub struct RatVec3 {
    pub num: Vec3,
    pub den: i64,
}

/// Origin and direction are bounded and the direction is not the zero vector.
pub open spec fn ray_wf(r: Ray) -> bool {
    &&& vec_wf(r.origin)
    &&& vec_wf(r.direction)
    &&& !(r.direction.x == 0 && r.direction.y == 0 && r.direction.z == 0)
}

/// Ray parameters whose numerator and denominator arise from one slab test:
/// the numerator is a difference of two coordinates and the denominator is
/// the magnitude of a direction component.
pub open spec fn rat_small(t: Rat) -> bool {
    &&& -2 * COORD_LIMIT <= t.num <= 2 * COORD_LIMIT
    &&& 0 < t.den <= COORD_LIMIT
}

impl Ray {
    /// The ray from `origin` along `direction`.
    pub fn new(origin: Vec3, direction: Vec3) -> (r: Ray)
        requires
            vec_wf(origin),
            vec_wf(direction),
            !(direction.x == 0 && direction.y == 0 && direction.z == 0),
        ensures
            r == (Ray { origin, direction }),
            ray_wf(r),
    {
        Ray { origin, direction }
    }

    /// The point `origin + t * direction`, exactly, as a rational point over
    /// the denominator of `t`.
    pub fn at(&self, t: Rat) -> (p: RatVec3)
        requires
            ray_wf(*self),
            rat_small(t),
        ensures
            p.den == t.den,
            p.num.x as int == self.origin.x * t.den + t.num * self.direction.x,
            p.num.y as int == self.origin.y * t.den + t.num * self.direction.y,
            p.num.z as int == self.origin.z * t.den + t.num * self.direction.z,
    {
        proof {
            lemma_mul_bounds(self.origin.x as int, t.den as int, COORD_LIMIT as int,
                COORD_LIMIT as int);
            lemma_mul_bounds(self.origin.y as int, t.den as int, COORD_LIMIT as int,
                COORD_LIMIT as int);
            lemma_mul_bounds(self.origin.z as int, t.den as int, COORD_LIMIT as int,
                COORD_LIMIT as int);
            lemma_mul_bounds(t.num as int, self.direction.x as int, 2 * COORD_LIMIT as int,
                COORD_LIMIT as int);
            lemma_mul_bounds(t.num as int, self.direction.y as int, 2 * COORD_LIMIT as int,
                COORD_LIMIT as int);
            lemma_mul_bounds(t.num as int, self.direction.z as int, 2 * COORD_LIMIT as int,
                COORD_LIMIT as int);
        }
        RatVec3 {
            num: Vec3 {
                x: self.origin.x * t.den + t.num * self.direction.x,
                y: self.origin.y * t.den + t.num * self.direction.y,
                z: self.origin.z * t.den + t.num * self.direction.z,
            },
            den: t.den,
        }
    }
}

} // verus!
