//! A box-shaped primitive: the one scene object whose ray intersection is
//! exact over integer coordinates.

use vstd::prelude::*;

use crate::aabb::{
    aabb_wf, lemma_axis_sound, lemma_clip_box_ok, lemma_slab_rat_small, slab_axis_pass, slab_hi,
    slab_lo, slab_tmax, slab_tmin, spec_clip_box, AABB,
};
use crate::hit::{Hit, HitRecord};
use crate::interval::{interval_wf, spec_surrounds, Interval};
use crate::rat::{
    lemma_mul_bounds, lemma_rat_le_lt_trans, lemma_rat_le_trans, lemma_rat_lt_le_trans,
    lemma_rat_max_ge, lemma_rat_min_le, lemma_rat_total, rat_finite, rat_le, rat_lt, Rat,
};
use crate::ray::{rat_small, ray_wf, RatVec3, Ray};
use crate::vec3::{spec_dot, vec_wf, Axis, Vec3, COORD_LIMIT};

verus! {

/// An axis-aligned box as a scene object, with a material tag that hit
/// records carry back to the caller.
#[derive(Clone, Copy, PartialEq, Eq, Structural, Debug)]
pub struct BoxPrim {
    pub min: Vec3,
    pub max: Vec3,
    pub material: usize,
}

/// The outward normal of the box face that the rational point `p` lies on:
/// the first face found in axis order. Points away from any face get the
/// last axis direction.
pub open spec fn box_out_normal(b: AABB, p: RatVec3) -> Vec3 {
    if p.num.x == b.min.x * p.den {
        Vec3 { x: -1i64, y: 0i64, z: 0i64 }
    } else if p.num.x == b.max.x * p.den {
        Vec3 { x: 1i64, y: 0i64, z: 0i64 }
    } else if p.num.y == b.min.y * p.den {
        Vec3 { x: 0i64, y: -1i64, z: 0i64 }
    } else if p.num.y == b.max.y * p.den {
        Vec3 { x: 0i64, y: 1i64, z: 0i64 }
    } else if p.num.z == b.min.z * p.den {
        Vec3 { x: 0i64, y: 0i64, z: -1i64 }
    } else {
        Vec3 { x: 0i64, y: 0i64, z: 1i64 }
    }
}

impl BoxPrim {
    /// The box with the given corners and material tag.
    pub fn new(min: Vec3, max: Vec3, material: usize) -> (r: BoxPrim)
        requires
            vec_wf(min),
            vec_wf(max),
            min.x <= max.x,
            min.y <= max.y,
            min.z <= max.z,
        ensures
            r == (BoxPrim { min, max, material }),
            r.inv(),
    {
        BoxPrim { min, max, material }
    }

    /// The same corners as a bounding box value.
    pub open spec fn spec_box(self) -> AABB {
        AABB { min: self.min, max: self.max }
    }

    /// The record reported for a hit of this box at parameter `t`.
    pub open spec fn spec_hit_at(self, r: Ray, t: Rat) -> HitRecord {
        let p = RatVec3 {
            num: Vec3 {
                x: (r.origin.x * t.den + t.num * r.direction.x) as i64,
                y: (r.origin.y * t.den + t.num * r.direction.y) as i64,
                z: (r.origin.z * t.den + t.num * r.direction.z) as i64,
            },
            den: t.den,
        };
        let n = box_out_normal(self.spec_box(), p);
        let front_face = spec_dot(r.direction, n) < 0;
        HitRecord {
            t,
            p,
            normal: if front_face {
                n
            } else {
                Vec3 { x: (-n.x) as i64, y: (-n.y) as i64, z: (-n.z) as i64 }
            },
            front_face,
            material: self.material,
        }
    }

    /// Builds the hit record at parameter `t`, exactly as `spec_hit_at` says.
    fn make_hit(&self, r: &Ray, t: Rat) -> (res: HitRecord)
        requires
            self.inv(),
            ray_wf(*r),
            rat_small(t),
        ensures
            res == self.spec_hit_at(*r, t),
    {
        let p = r.at(t);
        proof {
            lemma_mul_bounds(self.min.x as int, p.den as int, COORD_LIMIT as int,
                COORD_LIMIT as int);
            lemma_mul_bounds(self.max.x as int, p.den as int, COORD_LIMIT as int,
                COORD_LIMIT as int);
            lemma_mul_bounds(self.min.y as int, p.den as int, COORD_LIMIT as int,
                COORD_LIMIT as int);
            lemma_mul_bounds(self.max.y as int, p.den as int, COORD_LIMIT as int,
                COORD_LIMIT as int);
            lemma_mul_bounds(self.min.z as int, p.den as int, COORD_LIMIT as int,
                COORD_LIMIT as int);
            lemma_mul_bounds(self.max.z as int, p.den as int, COORD_LIMIT as int,
                COORD_LIMIT as int);
        }
        let n: Vec3 = if p.num.x == self.min.x * p.den {
            Vec3 { x: -1, y: 0, z: 0 }
        } else if p.num.x == self.max.x * p.den {
            Vec3 { x: 1, y: 0, z: 0 }
        } else if p.num.y == self.min.y * p.den {
            Vec3 { x: 0, y: -1, z: 0 }
        } else if p.num.y == self.max.y * p.den {
            Vec3 { x: 0, y: 1, z: 0 }
        } else if p.num.z == self.min.z * p.den {
            Vec3 { x: 0, y: 0, z: -1 }
        } else {
            Vec3 { x: 0, y: 0, z: 1 }
        };
        let front_face = r.direction.dot(&n) < 0;
        HitRecord {
            t,
            p,
            normal: if front_face {
                n
            } else {
                Vec3 { x: -n.x, y: -n.y, z: -n.z }
            },
            front_face,
            material: self.material,
        }
    }
}

impl Hit for BoxPrim {
    /// Bounded corners in the right order: the box is non-empty.
    open spec fn inv(&self) -> bool {
        &&& vec_wf(self.min)
        &&& vec_wf(self.max)
        &&& self.min.x <= self.max.x
        &&& self.min.y <= self.max.y
        &&& self.min.z <= self.max.z
    }

    open spec fn aabb_spec(&self) -> AABB {
        self.spec_box()
    }

    /// The box itself cut down to the range along the clip axis.
    open spec fn clipped_spec(&self, axis: Axis, lo: int, hi: int) -> AABB {
        spec_clip_box(self.spec_box(), axis, lo, hi)
    }

    /// The slab range of the box; the hit is the slab entry when it lies
    /// strictly inside the interval, else the slab exit when that does, else
    /// nothing.
    open spec fn hit_spec(&self, r: Ray, ray_t: Interval) -> Option<HitRecord> {
        let b = self.spec_box();
        if !(slab_axis_pass(b, r, Axis::X) && slab_axis_pass(b, r, Axis::Y) && slab_axis_pass(
            b,
            r,
            Axis::Z,
        )) {
            None
        } else {
            let tmin = slab_tmin(b, r);
            let tmax = slab_tmax(b, r);
            if rat_lt(tmax, tmin) {
                None
            } else if spec_surrounds(ray_t, tmin) {
                Some(self.spec_hit_at(r, tmin))
            } else if spec_surrounds(ray_t, tmax) {
                Some(self.spec_hit_at(r, tmax))
            } else {
                None
            }
        }
    }

    fn aabb(&self) -> (b: AABB) {
        AABB { min: self.min, max: self.max }
    }

    /// The part of the box between `lo` and `hi` along `axis`, returned as
    /// the canonical empty box when the range misses the box.
    fn clipped_aabb(&self, axis: Axis, lo: i64, hi: i64) -> (b: AABB) {
        let mut bmin = self.min;
        let mut bmax = self.max;
        match axis {
            Axis::X => {
                if lo > bmin.x {
                    bmin.x = lo;
                }
                if hi < bmax.x {
                    bmax.x = hi;
                }
            },
            Axis::Y => {
                if lo > bmin.y {
                    bmin.y = lo;
                }
                if hi < bmax.y {
                    bmax.y = hi;
                }
            },
            Axis::Z => {
                if lo > bmin.z {
                    bmin.z = lo;
                }
                if hi < bmax.z {
                    bmax.z = hi;
                }
            },
        }
        proof {
            match axis {
                Axis::X => {},
                Axis::Y => {},
                Axis::Z => {},
            }
        }
        if bmin.x > bmax.x || bmin.y > bmax.y || bmin.z > bmax.z {
            AABB::new()
        } else {
            AABB { min: bmin, max: bmax }
        }
    }

    fn hit(&self, r: &Ray, ray_t: Interval) -> (h: Option<HitRecord>) {
        let b = AABB { min: self.min, max: self.max };
        let (px, lox, hix) = b.axis_slab(r, Axis::X);
        let (py, loy, hiy) = b.axis_slab(r, Axis::Y);
        let (pz, loz, hiz) = b.axis_slab(r, Axis::Z);
        if !(px && py && pz) {
            return None;
        }
        let tmin = lox.max(loy).max(loz);
        let tmax = hix.min(hiy).min(hiz);
        if tmax.lt(tmin) {
            return None;
        }
        proof {
            lemma_rat_max_ge(lox, loy);
            lemma_rat_max_ge(crate::rat::rat_max(lox, loy), loz);
            lemma_rat_min_le(hix, hiy);
            lemma_rat_min_le(crate::rat::rat_min(hix, hiy), hiz);
            lemma_slab_rat_small(b, *r, Axis::X);
            lemma_slab_rat_small(b, *r, Axis::Y);
            lemma_slab_rat_small(b, *r, Axis::Z);
        }
        if ray_t.surrounds(tmin) {
            proof {
                lemma_tmin_finite_when_surrounded(b, *r, ray_t);
            }
            Some(self.make_hit(r, tmin))
        } else if ray_t.surrounds(tmax) {
            proof {
                lemma_tmax_finite_when_surrounded(b, *r, ray_t);
            }
            Some(self.make_hit(r, tmax))
        } else {
            None
        }
    }

    proof fn lemma_aabb_wf(&self) {
    }

    proof fn lemma_clipped_ok(&self, axis: Axis, lo: int, hi: int) {
        lemma_clip_box_ok(self.spec_box(), axis, lo, hi);
    }

    proof fn lemma_hit_in_bounds(&self, r: Ray, ray_t: Interval) {
        let b = self.spec_box();
        if self.hit_spec(r, ray_t) is Some {
            let tmin = slab_tmin(b, r);
            let tmax = slab_tmax(b, r);
            lemma_slab_rat_small(b, r, Axis::X);
            lemma_slab_rat_small(b, r, Axis::Y);
            lemma_slab_rat_small(b, r, Axis::Z);
            lemma_rat_max_ge(slab_lo(b, r, Axis::X), slab_lo(b, r, Axis::Y));
            lemma_rat_max_ge(crate::rat::rat_max(slab_lo(b, r, Axis::X), slab_lo(b, r, Axis::Y)),
                slab_lo(b, r, Axis::Z));
            lemma_rat_min_le(slab_hi(b, r, Axis::X), slab_hi(b, r, Axis::Y));
            lemma_rat_min_le(crate::rat::rat_min(slab_hi(b, r, Axis::X), slab_hi(b, r, Axis::Y)),
                slab_hi(b, r, Axis::Z));
            lemma_rat_total(tmax, tmin);
            let t = if spec_surrounds(ray_t, tmin) {
                tmin
            } else {
                tmax
            };
            if t == tmin {
                lemma_tmin_finite_when_surrounded(b, r, ray_t);
            } else {
                lemma_tmax_finite_when_surrounded(b, r, ray_t);
            }
            // The chosen parameter sits between every slab entry and exit.
            let m01 = crate::rat::rat_max(slab_lo(b, r, Axis::X), slab_lo(b, r, Axis::Y));
            let n01 = crate::rat::rat_min(slab_hi(b, r, Axis::X), slab_hi(b, r, Axis::Y));
            lemma_rat_le_trans(slab_lo(b, r, Axis::X), m01, tmin);
            lemma_rat_le_trans(slab_lo(b, r, Axis::Y), m01, tmin);
            lemma_rat_le_trans(tmax, n01, slab_hi(b, r, Axis::X));
            lemma_rat_le_trans(tmax, n01, slab_hi(b, r, Axis::Y));
            assert(rat_le(slab_lo(b, r, Axis::X), tmin));
            assert(rat_le(tmax, slab_hi(b, r, Axis::X)));
            lemma_rat_le_trans(slab_lo(b, r, Axis::X), tmin, t);
            lemma_rat_le_trans(slab_lo(b, r, Axis::Y), tmin, t);
            lemma_rat_le_trans(slab_lo(b, r, Axis::Z), tmin, t);
            lemma_rat_le_trans(t, tmax, slab_hi(b, r, Axis::X));
            lemma_rat_le_trans(t, tmax, slab_hi(b, r, Axis::Y));
            lemma_rat_le_trans(t, tmax, slab_hi(b, r, Axis::Z));
            lemma_axis_sound(b, r, Axis::X, t, b.min.x as int, b.max.x as int, r.origin.x as int,
                r.direction.x as int);
            lemma_axis_sound(b, r, Axis::Y, t, b.min.y as int, b.max.y as int, r.origin.y as int,
                r.direction.y as int);
            lemma_axis_sound(b, r, Axis::Z, t, b.min.z as int, b.max.z as int, r.origin.z as int,
                r.direction.z as int);
        }
    }

    #[verifier::rlimit(30)]
    proof fn lemma_hit_narrow(&self, r: Ray, i1: Interval, i2: Interval) {
        let b = self.spec_box();
        if !(slab_axis_pass(b, r, Axis::X) && slab_axis_pass(b, r, Axis::Y) && slab_axis_pass(
            b,
            r,
            Axis::Z,
        )) {
        } else {
            let tmin = slab_tmin(b, r);
            let tmax = slab_tmax(b, r);
            lemma_slab_rat_small(b, r, Axis::X);
            lemma_slab_rat_small(b, r, Axis::Y);
            lemma_slab_rat_small(b, r, Axis::Z);
            lemma_rat_max_ge(slab_lo(b, r, Axis::X), slab_lo(b, r, Axis::Y));
            lemma_rat_max_ge(crate::rat::rat_max(slab_lo(b, r, Axis::X), slab_lo(b, r, Axis::Y)),
                slab_lo(b, r, Axis::Z));
            lemma_rat_min_le(slab_hi(b, r, Axis::X), slab_hi(b, r, Axis::Y));
            lemma_rat_min_le(crate::rat::rat_min(slab_hi(b, r, Axis::X), slab_hi(b, r, Axis::Y)),
                slab_hi(b, r, Axis::Z));
            if rat_lt(tmax, tmin) {
            } else {
                lemma_rat_total(tmax, tmin);
                lemma_rat_total(tmin, i2.max);
                lemma_rat_total(tmax, i2.max);
                lemma_rat_total(tmin, i1.max);
                lemma_rat_total(tmax, i1.max);
                if spec_surrounds(i1, tmin) {
                    // The entry hit: it survives narrowing exactly when it is
                    // still below the new far end.
                    if rat_lt(tmin, i2.max) {
                        assert(spec_surrounds(i2, tmin));
                    } else {
                        assert(!spec_surrounds(i2, tmin));
                        // The exit lies at or beyond the entry, hence beyond
                        // the new far end as well.
                        lemma_rat_le_trans(i2.max, tmin, tmax);
                        assert(!spec_surrounds(i2, tmax));
                    }
                } else if spec_surrounds(i1, tmax) {
                    // The exit hit: the entry lies at or below the near end,
                    // in both intervals.
                    lemma_rat_le_lt_trans(tmin, tmax, i1.max);
                    assert(rat_lt(tmin, i1.max));
                    assert(!rat_lt(i1.min, tmin));
                    assert(!rat_lt(i2.min, tmin));
                    assert(!spec_surrounds(i2, tmin));
                    if rat_lt(tmax, i2.max) {
                        assert(spec_surrounds(i2, tmax));
                    } else {
                        assert(!spec_surrounds(i2, tmax));
                    }
                } else {
                    // A miss stays a miss when the interval narrows.
                    if rat_lt(i1.min, tmin) {
                        lemma_rat_total(tmin, i1.max);
                        assert(!rat_lt(tmin, i1.max));
                        lemma_rat_le_trans(i1.max, tmin, tmin);
                        if rat_lt(tmin, i2.max) {
                            lemma_rat_lt_le_trans(tmin, i2.max, i1.max);
                            assert(false);
                        }
                        assert(!spec_surrounds(i2, tmin));
                        if rat_lt(i1.min, tmax) {
                            assert(!rat_lt(tmax, i1.max));
                            if rat_lt(tmax, i2.max) {
                                lemma_rat_lt_le_trans(tmax, i2.max, i1.max);
                                assert(false);
                            }
                            assert(!spec_surrounds(i2, tmax));
                        } else {
                            assert(!spec_surrounds(i2, tmax));
                        }
                    } else {
                        assert(!spec_surrounds(i2, tmin));
                        if rat_lt(i1.min, tmax) {
                            assert(!rat_lt(tmax, i1.max));
                            if rat_lt(tmax, i2.max) {
                                lemma_rat_lt_le_trans(tmax, i2.max, i1.max);
                                assert(false);
                            }
                            assert(!spec_surrounds(i2, tmax));
                        } else {
                            assert(!spec_surrounds(i2, tmax));
                        }
                    }
                }
            }
        }
    }
}

/// When the slab entry lies strictly inside an interval it is finite and
/// representable.
proof fn lemma_tmin_finite_when_surrounded(b: AABB, r: Ray, ray_t: Interval)
    requires
        aabb_wf(b),
        ray_wf(r),
        interval_wf(ray_t),
        spec_surrounds(ray_t, slab_tmin(b, r)),
    ensures
        rat_finite(slab_tmin(b, r)),
        rat_small(slab_tmin(b, r)),
{
    lemma_slab_rat_small(b, r, Axis::X);
    lemma_slab_rat_small(b, r, Axis::Y);
    lemma_slab_rat_small(b, r, Axis::Z);
    lemma_rat_max_ge(slab_lo(b, r, Axis::X), slab_lo(b, r, Axis::Y));
    lemma_rat_max_ge(crate::rat::rat_max(slab_lo(b, r, Axis::X), slab_lo(b, r, Axis::Y)), slab_lo(
        b,
        r,
        Axis::Z,
    ));
    let tmin = slab_tmin(b, r);
    if tmin.den == 0 {
        // An infinite slab entry is minus infinity, which nothing lies below.
        assert(tmin.num == -1);
        assert(rat_lt(ray_t.min, tmin));
        assert(false);
    }
}

/// When the slab exit lies strictly inside an interval it is finite and
/// representable.
proof fn lemma_tmax_finite_when_surrounded(b: AABB, r: Ray, ray_t: Interval)
    requires
        aabb_wf(b),
        ray_wf(r),
        interval_wf(ray_t),
        spec_surrounds(ray_t, slab_tmax(b, r)),
    ensures
        rat_finite(slab_tmax(b, r)),
        rat_small(slab_tmax(b, r)),
{
    lemma_slab_rat_small(b, r, Axis::X);
    lemma_slab_rat_small(b, r, Axis::Y);
    lemma_slab_rat_small(b, r, Axis::Z);
    lemma_rat_min_le(slab_hi(b, r, Axis::X), slab_hi(b, r, Axis::Y));
    lemma_rat_min_le(crate::rat::rat_min(slab_hi(b, r, Axis::X), slab_hi(b, r, Axis::Y)), slab_hi(
        b,
        r,
        Axis::Z,
    ));
    let tmax = slab_tmax(b, r);
    if tmax.den == 0 {
        // An infinite slab exit is plus infinity, which lies above nothing.
        assert(tmax.num == 1);
        assert(rat_lt(tmax, ray_t.max));
        assert(false);
    }
}


} // verus!
