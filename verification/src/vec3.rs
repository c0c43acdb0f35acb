//! Integer 3-vectors.
//!
//! Points, sizes and ray directions are exact 64-bit integer triples, kept
//! within `COORD_LIMIT` so that every product the library forms fits its
//! machine type.

use vstd::prelude::*;

use crate::rat::lemma_mul_bounds;

verus! {

/// Largest magnitude allowed for a scene coordinate.
pub const COORD_LIMIT: i64 = 1_000_000_000;

/// Largest magnitude allowed for the arguments of `Vec3::reflect`.
pub const REFLECT_LIMIT: i64 = 1_000_000;

/// A 3-vector with exact integer components.
#[derive(Clone, Copy, PartialEq, Eq, Structural, Debug)]
pub struct Vec3 {
    pub x: i64,
    pub y: i64,
    pub z: i64,
}

/// One of the three coordinate axes.
#[derive(Clone, Copy, PartialEq, Eq, Structural, Debug)]
pub enum Axis {
    X,
    Y,
    Z,
}

/// Every component has magnitude at most `COORD_LIMIT`.
pub open spec fn vec_wf(v: Vec3) -> bool {
    &&& -COORD_LIMIT <= v.x <= COORD_LIMIT
    &&& -COORD_LIMIT <= v.y <= COORD_LIMIT
    &&& -COORD_LIMIT <= v.z <= COORD_LIMIT
}

/// The component of `v` along axis `a`.
pub open spec fn axis_coord(v: Vec3, a: Axis) -> int {
    match a {
        Axis::X => v.x as int,
        Axis::Y => v.y as int,
        Axis::Z => v.z as int,
    }
}

/// The mathematical dot product of two integer vectors.
pub open spec fn spec_dot(a: Vec3, b: Vec3) -> int {
    a.x * b.x + a.y * b.y + a.z * b.z
}

impl Vec3 {
    /// The zero vector; components are then set one by one.
    pub fn new() -> (r: Vec3)
        ensures
            r == (Vec3 { x: 0i64, y: 0i64, z: 0i64 }),
    {
        Vec3 { x: 0, y: 0, z: 0 }
    }

    /// A vector with the given components.
    pub fn of(x: i64, y: i64, z: i64) -> (r: Vec3)
        ensures
            r == (Vec3 { x, y, z }),
    {
        Vec3 { x, y, z }
    }

    /// `self` with its first component replaced.
    pub fn x(self, x: i64) -> (r: Vec3)
        ensures
            r == (Vec3 { x, ..self }),
    {
        Vec3 { x, ..self }
    }

    /// `self` with its second component replaced.
    pub fn y(self, y: i64) -> (r: Vec3)
        ensures
            r == (Vec3 { y, ..self }),
    {
        Vec3 { y, ..self }
    }

    /// `self` with its third component replaced.
    pub fn z(self, z: i64) -> (r: Vec3)
        ensures
            r == (Vec3 { z, ..self }),
    {
        Vec3 { z, ..self }
    }

    /// The component along axis `a`.
    pub fn axis(self, a: Axis) -> (r: i64)
        ensures
            r as int == axis_coord(self, a),
    {
        match a {
            Axis::X => self.x,
            Axis::Y => self.y,
            Axis::Z => self.z,
        }
    }

    /// The dot product, exactly.
    pub fn dot(&self, other: &Vec3) -> (r: i64)
        requires
            vec_wf(*self),
            vec_wf(*other),
        ensures
            r as int == spec_dot(*self, *other),
    {
        proof {
            lemma_mul_bounds(self.x as int, other.x as int, COORD_LIMIT as int, COORD_LIMIT as int);
            lemma_mul_bounds(self.y as int, other.y as int, COORD_LIMIT as int, COORD_LIMIT as int);
            lemma_mul_bounds(self.z as int, other.z as int, COORD_LIMIT as int, COORD_LIMIT as int);
        }
        self.x * other.x + self.y * other.y + self.z * other.z
    }

    /// The squared euclidean length, exactly.
    pub fn length_squared(&self) -> (r: i64)
        requires
            vec_wf(*self),
        ensures
            r as int == spec_dot(*self, *self),
    {
        self.dot(self)
    }

    /// The cross product, exactly.
    pub fn cross(&self, other: &Vec3) -> (r: Vec3)
        requires
            vec_wf(*self),
            vec_wf(*other),
        ensures
            r.x as int == self.y * other.z - self.z * other.y,
            r.y as int == self.z * other.x - self.x * other.z,
            r.z as int == self.x * other.y - self.y * other.x,
    {
        proof {
            lemma_mul_bounds(self.y as int, other.z as int, COORD_LIMIT as int, COORD_LIMIT as int);
            lemma_mul_bounds(self.z as int, other.y as int, COORD_LIMIT as int, COORD_LIMIT as int);
            lemma_mul_bounds(self.z as int, other.x as int, COORD_LIMIT as int, COORD_LIMIT as int);
            lemma_mul_bounds(self.x as int, other.z as int, COORD_LIMIT as int, COORD_LIMIT as int);
            lemma_mul_bounds(self.x as int, other.y as int, COORD_LIMIT as int, COORD_LIMIT as int);
            lemma_mul_bounds(self.y as int, other.x as int, COORD_LIMIT as int, COORD_LIMIT as int);
        }
        Vec3 {
            x: self.y * other.z - self.z * other.y,
            y: self.z * other.x - self.x * other.z,
            z: self.x * other.y - self.y * other.x,
        }
    }

    /// The reflection of `self` about the direction `normal`:
    /// `self - 2 * dot(self, normal) * normal`, exactly.
    pub fn reflect(&self, normal: &Vec3) -> (r: Vec3)
        requires
            -REFLECT_LIMIT <= self.x <= REFLECT_LIMIT,
            -REFLECT_LIMIT <= self.y <= REFLECT_LIMIT,
            -REFLECT_LIMIT <= self.z <= REFLECT_LIMIT,
            -REFLECT_LIMIT <= normal.x <= REFLECT_LIMIT,
            -REFLECT_LIMIT <= normal.y <= REFLECT_LIMIT,
            -REFLECT_LIMIT <= normal.z <= REFLECT_LIMIT,
        ensures
            r.x as int == self.x - 2 * spec_dot(*self, *normal) * normal.x,
            r.y as int == self.y - 2 * spec_dot(*self, *normal) * normal.y,
            r.z as int == self.z - 2 * spec_dot(*self, *normal) * normal.z,
    {
        proof {
            lemma_mul_bounds(self.x as int, normal.x as int, REFLECT_LIMIT as int, REFLECT_LIMIT as int);
            lemma_mul_bounds(self.y as int, normal.y as int, REFLECT_LIMIT as int, REFLECT_LIMIT as int);
            lemma_mul_bounds(self.z as int, normal.z as int, REFLECT_LIMIT as int, REFLECT_LIMIT as int);
        }
        let d: i64 = self.x * normal.x + self.y * normal.y + self.z * normal.z;
        proof {
            let m: int = 6 * (REFLECT_LIMIT as int) * (REFLECT_LIMIT as int);
            lemma_mul_bounds(2 * (d as int), normal.x as int, m, REFLECT_LIMIT as int);
            lemma_mul_bounds(2 * (d as int), normal.y as int, m, REFLECT_LIMIT as int);
            lemma_mul_bounds(2 * (d as int), normal.z as int, m, REFLECT_LIMIT as int);
        }
        Vec3 {
            x: self.x - 2 * d * normal.x,
            y: self.y - 2 * d * normal.y,
            z: self.z - 2 * d * normal.z,
        }
    }

    /// True exactly when every component is zero.
    pub fn near_zero(&self) -> (r: bool)
        ensures
            r == (self.x == 0 && self.y == 0 && self.z == 0),
    {
        self.x == 0 && self.y == 0 && self.z == 0
    }
}


} // verus!
