//! The primitive capability: anything with a bounding box that rays can hit.

use vstd::prelude::*;

use crate::aabb::{aabb_subset, aabb_wf, clip_overlap, int_max, int_min, spec_empty, spec_is_empty, time_in_box, AABB};
use crate::interval::{interval_wf, spec_surrounds, Interval};
use crate::rat::{rat_finite, rat_le, rat_lt, Rat};
use crate::ray::{ray_wf, rat_small, RatVec3, Ray};
use crate::vec3::{axis_coord, spec_dot, vec_wf, Axis, Vec3, COORD_LIMIT};

verus! {

/// What a successful ray-primitive intersection reports: the hit parameter,
/// the hit point, the (possibly flipped) surface normal, whether the ray met
/// the surface from outside, and the primitive's material tag.
#[derive(Clone, Copy, PartialEq, Eq, Structural, Debug)]
pub struct HitRecord {
    pub t: Rat,
    pub p: RatVec3,
    pub normal: Vec3,
    pub front_face: bool,
    pub material: usize,
}

impl HitRecord {
    /// Builds a record from an outward surface normal: the stored normal is
    /// flipped to face against the ray, and `front_face` records whether the
    /// ray came from outside.
    pub fn new(r: &Ray, p: RatVec3, t: Rat, out_normal: Vec3, material: usize) -> (res: HitRecord)
        requires
            ray_wf(*r),
            vec_wf(out_normal),
        ensures
            res.t == t,
            res.p == p,
            res.material == material,
            res.front_face == (spec_dot(r.direction, out_normal) < 0),
            res.front_face ==> res.normal == out_normal,
            !res.front_face ==> (res.normal.x as int == -out_normal.x && res.normal.y as int
                == -out_normal.y && res.normal.z as int == -out_normal.z),
    {
        let front_face = r.direction.dot(&out_normal) < 0;
        HitRecord {
            front_face,
            normal: if front_face {
                out_normal
            } else {
                Vec3 { x: -out_normal.x, y: -out_normal.y, z: -out_normal.z }
            },
            p,
            t,
            material,
        }
    }
}

/// The primitive capability: a bounding box query, a clipped bounding box
/// query for spatial splitting, and the nearest-hit query. The specification
/// members pin each query down, and the two laws are what the hierarchy's
/// correctness proof rests on: every reported hit parameter lies strictly
/// inside the query interval and inside the primitive's own box, and
/// narrowing the far end of the interval drops a hit exactly when the hit
/// lies beyond the new far end.
pub trait Hit: Sized {
    /// The primitive's own invariant; every query requires it.
    spec fn inv(&self) -> bool;

    /// The value `aabb` returns.
    spec fn aabb_spec(&self) -> AABB;

    /// The value `hit` returns.
    spec fn hit_spec(&self, r: Ray, ray_t: Interval) -> Option<HitRecord>;

    /// The value `clipped_aabb` returns.
    spec fn clipped_spec(&self, axis: Axis, lo: int, hi: int) -> AABB;

    /// The primitive's tight bounding box.
    fn aabb(&self) -> (b: AABB)
        requires
            self.inv(),
        ensures
            b == self.aabb_spec(),
    ;

    /// A box holding the part of the primitive whose coordinate along `axis`
    /// lies between `lo` and `hi`.
    fn clipped_aabb(&self, axis: Axis, lo: i64, hi: i64) -> (b: AABB)
        requires
            self.inv(),
            -COORD_LIMIT <= lo <= COORD_LIMIT,
            -COORD_LIMIT <= hi <= COORD_LIMIT,
        ensures
            b == self.clipped_spec(axis, lo as int, hi as int),
    ;

    /// The nearest hit whose parameter lies strictly inside `ray_t`, if any.
    fn hit(&self, r: &Ray, ray_t: Interval) -> (h: Option<HitRecord>)
        requires
            self.inv(),
            ray_wf(*r),
            interval_wf(ray_t),
        ensures
            h == self.hit_spec(*r, ray_t),
    ;

    /// The bounding box is well formed.
    proof fn lemma_aabb_wf(&self)
        requires
            self.inv(),
        ensures
            aabb_wf(self.aabb_spec()),
    ;

    /// What every clipped box guarantees: a well-formed box inside the full
    /// bounding box, canonically empty exactly when the range misses the
    /// bounding box's extent along the clip axis, and otherwise spanning
    /// exactly the overlap of the range with that extent.
    proof fn lemma_clipped_ok(&self, axis: Axis, lo: int, hi: int)
        requires
            self.inv(),
            -COORD_LIMIT <= lo <= COORD_LIMIT,
            -COORD_LIMIT <= hi <= COORD_LIMIT,
        ensures
            aabb_wf(self.clipped_spec(axis, lo, hi)),
            aabb_subset(self.clipped_spec(axis, lo, hi), self.aabb_spec()),
            spec_is_empty(self.clipped_spec(axis, lo, hi)) ==> self.clipped_spec(axis, lo, hi)
                == spec_empty(),
            spec_is_empty(self.clipped_spec(axis, lo, hi)) <==> !clip_overlap(
                self.aabb_spec(),
                axis,
                lo,
                hi,
            ),
            !spec_is_empty(self.clipped_spec(axis, lo, hi)) ==> axis_coord(
                self.clipped_spec(axis, lo, hi).min,
                axis,
            ) == int_max(lo, axis_coord(self.aabb_spec().min, axis)) && axis_coord(
                self.clipped_spec(axis, lo, hi).max,
                axis,
            ) == int_min(hi, axis_coord(self.aabb_spec().max, axis)),
    ;

    /// Every reported hit is finite, lies strictly inside the query interval,
    /// is representable, and its parameter passes through the primitive's own
    /// bounding box.
    proof fn lemma_hit_in_bounds(&self, r: Ray, ray_t: Interval)
        requires
            self.inv(),
            ray_wf(r),
            interval_wf(ray_t),
        ensures
            match self.hit_spec(r, ray_t) {
                Some(h) => rat_finite(h.t) && rat_small(h.t) && spec_surrounds(ray_t, h.t)
                    && time_in_box(self.aabb_spec(), r, h.t),
                None => true,
            },
    ;

    /// Narrowing the far end of the interval keeps a hit that is still
    /// strictly inside and drops everything else; a miss stays a miss.
    proof fn lemma_hit_narrow(&self, r: Ray, i1: Interval, i2: Interval)
        requires
            self.inv(),
            ray_wf(r),
            interval_wf(i1),
            interval_wf(i2),
            i1.min == i2.min,
            rat_le(i2.max, i1.max),
        ensures
            match self.hit_spec(r, i1) {
                Some(h) => self.hit_spec(r, i2) == if rat_lt(h.t, i2.max) {
                    Some(h)
                } else {
                    None::<HitRecord>
                },
                None => self.hit_spec(r, i2) is None,
            },
    ;
}

} // verus!
