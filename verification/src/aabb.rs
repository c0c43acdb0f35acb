//! Axis-aligned bounding boxes over exact integer coordinates.
//!
//! A box is either the canonical empty box or a pair of corner points with
//! `min <= max` on every axis. Union and intersection work component-wise;
//! the ray test is the standard slab test carried out in exact rational
//! arithmetic.

use vstd::prelude::*;

use crate::interval::{interval_wf, Interval};
use crate::rat::{
    lemma_mul_basics, lemma_mul_bounds, lemma_mul_cancel, lemma_mul_distrib_sub, lemma_mul_le,
    lemma_mul_neg, lemma_rat_le_trans, lemma_rat_total, rat_finite, rat_le,
    rat_lt, rat_max, rat_min, rat_ok, Rat,
};
use crate::ray::{rat_small, ray_wf, Ray};
use crate::vec3::{axis_coord, vec_wf, Axis, Vec3, COORD_LIMIT};

verus! {

/// An axis-aligned box given by two corner points. A box with `min > max` on
/// any axis is empty; the canonical empty box is `AABB::new()`.
#[derive(Clone, Copy, PartialEq, Eq, Structural, Debug)]
pub struct AABB {
    pub min: Vec3,
    pub max: Vec3,
}

/// The smaller of two coordinates.
pub open spec fn imin(a: i64, b: i64) -> i64 {
    if a <= b {
        a
    } else {
        b
    }
}

/// The larger of two coordinates.
pub open spec fn imax(a: i64, b: i64) -> i64 {
    if a <= b {
        b
    } else {
        a
    }
}

/// The canonical empty box: the identity of `union`.
pub open spec fn spec_empty() -> AABB {
    AABB {
        min: Vec3 { x: COORD_LIMIT, y: COORD_LIMIT, z: COORD_LIMIT },
        max: Vec3 { x: (-COORD_LIMIT) as i64, y: (-COORD_LIMIT) as i64, z: (-COORD_LIMIT) as i64 },
    }
}

/// The whole coordinate range: the identity of `intersection`.
pub open spec fn spec_universe() -> AABB {
    AABB {
        min: Vec3 { x: (-COORD_LIMIT) as i64, y: (-COORD_LIMIT) as i64, z: (-COORD_LIMIT) as i64 },
        max: Vec3 { x: COORD_LIMIT, y: COORD_LIMIT, z: COORD_LIMIT },
    }
}

/// A box is empty when it is inverted on some axis.
pub open spec fn spec_is_empty(b: AABB) -> bool {
    b.min.x > b.max.x || b.min.y > b.max.y || b.min.z > b.max.z
}

/// A well-formed box is the canonical empty box, or has bounded coordinates
/// and `min <= max` on every axis.
pub open spec fn aabb_wf(b: AABB) -> bool {
    ||| b == spec_empty()
    ||| {
        &&& vec_wf(b.min)
        &&& vec_wf(b.max)
        &&& b.min.x <= b.max.x
        &&& b.min.y <= b.max.y
        &&& b.min.z <= b.max.z
    }
}

/// Component-wise union of two boxes.
pub open spec fn spec_union2(a: AABB, b: AABB) -> AABB {
    AABB {
        min: Vec3 { x: imin(a.min.x, b.min.x), y: imin(a.min.y, b.min.y), z: imin(
            a.min.z,
            b.min.z,
        ) },
        max: Vec3 { x: imax(a.max.x, b.max.x), y: imax(a.max.y, b.max.y), z: imax(
            a.max.z,
            b.max.z,
        ) },
    }
}

/// Component-wise intersection of two boxes.
pub open spec fn spec_inter2(a: AABB, b: AABB) -> AABB {
    AABB {
        min: Vec3 { x: imax(a.min.x, b.min.x), y: imax(a.min.y, b.min.y), z: imax(
            a.min.z,
            b.min.z,
        ) },
        max: Vec3 { x: imin(a.max.x, b.max.x), y: imin(a.max.y, b.max.y), z: imin(
            a.max.z,
            b.max.z,
        ) },
    }
}

/// The union of a sequence of boxes, folded from the empty box.
pub open spec fn spec_union_seq(s: Seq<AABB>) -> AABB
    decreases s.len(),
{
    if s.len() == 0 {
        spec_empty()
    } else {
        spec_union2(spec_union_seq(s.drop_last()), s.last())
    }
}

/// The intersection of a non-empty sequence of boxes, folded from its first
/// element.
pub open spec fn spec_inter_rest(s: Seq<AABB>) -> AABB
    decreases s.len(),
{
    if s.len() <= 1 {
        s[0]
    } else {
        spec_inter2(spec_inter_rest(s.drop_last()), s.last())
    }
}

/// The intersection of a sequence of boxes; the whole coordinate range when
/// the sequence is empty.
pub open spec fn spec_inter_seq(s: Seq<AABB>) -> AABB {
    if s.len() == 0 {
        spec_universe()
    } else {
        spec_inter_rest(s)
    }
}

/// The degenerate box holding the single point `p`.
pub open spec fn spec_point_box(p: Vec3) -> AABB {
    AABB { min: p, max: p }
}

/// The smallest box holding every point of the sequence.
pub open spec fn spec_bounding_box(s: Seq<Vec3>) -> AABB
    decreases s.len(),
{
    if s.len() == 0 {
        spec_empty()
    } else {
        spec_union2(spec_bounding_box(s.drop_last()), spec_point_box(s.last()))
    }
}

/// Every point of `a` is a point of `b`, stated over the corner coordinates.
pub open spec fn aabb_subset(a: AABB, b: AABB) -> bool {
    &&& b.min.x <= a.min.x && a.max.x <= b.max.x
    &&& b.min.y <= a.min.y && a.max.y <= b.max.y
    &&& b.min.z <= a.min.z && a.max.z <= b.max.z
}

/// Two non-empty boxes share at least a point on every axis.
pub open spec fn spec_overlap(a: AABB, b: AABB) -> bool {
    &&& a.min.x <= b.max.x && b.min.x <= a.max.x
    &&& a.min.y <= b.max.y && b.min.y <= a.max.y
    &&& a.min.z <= b.max.z && b.min.z <= a.max.z
}

/// The surface area of a box: zero when empty, else
/// `2 * (dx*dy + dx*dz + dy*dz)` over the side lengths.
pub open spec fn spec_surface_area(b: AABB) -> int {
    if spec_is_empty(b) {
        0
    } else {
        let dx = b.max.x - b.min.x;
        let dy = b.max.y - b.min.y;
        let dz = b.max.z - b.min.z;
        2 * (dx * dy + dx * dz + dy * dz)
    }
}

/// The centroid of a box, on the grid: each coordinate is the floor of the
/// midpoint of the two corner coordinates. Empty boxes have no centroid.
pub open spec fn spec_centroid(b: AABB) -> Option<Vec3> {
    if spec_is_empty(b) {
        None
    } else {
        Some(
            Vec3 {
                x: ((b.min.x + b.max.x) / 2) as i64,
                y: ((b.min.y + b.max.y) / 2) as i64,
                z: ((b.min.z + b.max.z) / 2) as i64,
            },
        )
    }
}

/// The floor of the midpoint of two bounded coordinates.
fn mid_floor(a: i64, b: i64) -> (r: i64)
    requires
        -COORD_LIMIT <= a <= COORD_LIMIT,
        -COORD_LIMIT <= b <= COORD_LIMIT,
    ensures
        r as int == (a + b) / 2,
        -COORD_LIMIT <= r <= COORD_LIMIT,
{
    let shifted: u64 = ((a + b) + 2 * COORD_LIMIT) as u64;
    let half: u64 = shifted / 2;
    let r: i64 = (half as i64) - COORD_LIMIT;
    proof {
        let s = a as int + b as int;
        vstd::arithmetic::div_mod::lemma_fundamental_div_mod(s, 2);
        vstd::arithmetic::div_mod::lemma_div_multiples_vanish_fancy(
            s / 2 + COORD_LIMIT as int,
            s % 2,
            2,
        );
        assert(2 * (s / 2 + COORD_LIMIT as int) + s % 2 == s + 2 * COORD_LIMIT as int);
    }
    r
}

impl AABB {
    /// The canonical empty box.
    pub fn new() -> (r: AABB)
        ensures
            r == spec_empty(),
            aabb_wf(r),
    {
        AABB {
            min: Vec3 { x: COORD_LIMIT, y: COORD_LIMIT, z: COORD_LIMIT },
            max: Vec3 { x: -COORD_LIMIT, y: -COORD_LIMIT, z: -COORD_LIMIT },
        }
    }

    /// The box with the given corners.
    pub fn from_corners(min: Vec3, max: Vec3) -> (r: AABB)
        ensures
            r == (AABB { min, max }),
    {
        AABB { min, max }
    }

    /// True when the box holds no point.
    pub fn is_empty(&self) -> (r: bool)
        ensures
            r == spec_is_empty(*self),
    {
        self.min.x > self.max.x || self.min.y > self.max.y || self.min.z > self.max.z
    }

    /// The side lengths, component-wise `max - min`; negative on some axis
    /// exactly when the box is empty.
    pub fn size(&self) -> (r: Vec3)
        requires
            aabb_wf(*self),
        ensures
            r.x as int == self.max.x - self.min.x,
            r.y as int == self.max.y - self.min.y,
            r.z as int == self.max.z - self.min.z,
    {
        Vec3 { x: self.max.x - self.min.x, y: self.max.y - self.min.y, z: self.max.z
            - self.min.z }
    }

    /// The centroid on the grid, or nothing for an empty box.
    pub fn centroid(&self) -> (r: Option<Vec3>)
        requires
            aabb_wf(*self),
        ensures
            r == spec_centroid(*self),
            r is Some ==> vec_wf(r->0),
    {
        if self.is_empty() {
            None
        } else {
            Some(
                Vec3 {
                    x: mid_floor(self.min.x, self.max.x),
                    y: mid_floor(self.min.y, self.max.y),
                    z: mid_floor(self.min.z, self.max.z),
                },
            )
        }
    }

    /// The surface area, exactly; zero for empty boxes.
    pub fn surface_area(&self) -> (r: i128)
        requires
            vec_wf(self.min),
            vec_wf(self.max),
        ensures
            r as int == spec_surface_area(*self),
            0 <= r <= 24_000_000_000_000_000_000,
    {
        if self.is_empty() {
            0
        } else {
            let dx: i128 = (self.max.x - self.min.x) as i128;
            let dy: i128 = (self.max.y - self.min.y) as i128;
            let dz: i128 = (self.max.z - self.min.z) as i128;
            proof {
                lemma_mul_bounds(dx as int, dy as int, 2_000_000_000, 2_000_000_000);
                lemma_mul_bounds(dx as int, dz as int, 2_000_000_000, 2_000_000_000);
                lemma_mul_bounds(dy as int, dz as int, 2_000_000_000, 2_000_000_000);
                lemma_mul_nonneg(dx as int, dy as int);
                lemma_mul_nonneg(dx as int, dz as int);
                lemma_mul_nonneg(dy as int, dz as int);
            }
            2 * (dx * dy + dx * dz + dy * dz)
        }
    }

    /// Replaces `self` with the union of `self` and `other`.
    pub fn update(&mut self, other: AABB)
        ensures
            *final(self) == spec_union2(*old(self), other),
    {
        *self = Self::union2(*self, other);
    }

    /// The component-wise union of two boxes.
    pub fn union2(a: AABB, b: AABB) -> (r: AABB)
        ensures
            r == spec_union2(a, b),
    {
        AABB {
            min: Vec3 {
                x: if a.min.x <= b.min.x {
                    a.min.x
                } else {
                    b.min.x
                },
                y: if a.min.y <= b.min.y {
                    a.min.y
                } else {
                    b.min.y
                },
                z: if a.min.z <= b.min.z {
                    a.min.z
                } else {
                    b.min.z
                },
            },
            max: Vec3 {
                x: if a.max.x <= b.max.x {
                    b.max.x
                } else {
                    a.max.x
                },
                y: if a.max.y <= b.max.y {
                    b.max.y
                } else {
                    a.max.y
                },
                z: if a.max.z <= b.max.z {
                    b.max.z
                } else {
                    a.max.z
                },
            },
        }
    }

    /// The component-wise intersection of two boxes.
    pub fn inter2(a: AABB, b: AABB) -> (r: AABB)
        ensures
            r == spec_inter2(a, b),
    {
        AABB {
            min: Vec3 {
                x: if a.min.x <= b.min.x {
                    b.min.x
                } else {
                    a.min.x
                },
                y: if a.min.y <= b.min.y {
                    b.min.y
                } else {
                    a.min.y
                },
                z: if a.min.z <= b.min.z {
                    b.min.z
                } else {
                    a.min.z
                },
            },
            max: Vec3 {
                x: if a.max.x <= b.max.x {
                    a.max.x
                } else {
                    b.max.x
                },
                y: if a.max.y <= b.max.y {
                    a.max.y
                } else {
                    b.max.y
                },
                z: if a.max.z <= b.max.z {
                    a.max.z
                } else {
                    b.max.z
                },
            },
        }
    }

    /// The union of a collection of boxes; empty for an empty collection.
    pub fn union(aabbs: &Vec<AABB>) -> (r: AABB)
        ensures
            r == spec_union_seq(aabbs@),
    {
        let mut acc = AABB::new();
        let mut i: usize = 0;
        while i < aabbs.len()
            invariant
                0 <= i <= aabbs.len(),
                acc == spec_union_seq(aabbs@.take(i as int)),
            decreases aabbs.len() - i,
        {
            acc = Self::union2(acc, aabbs[i]);
            proof {
                assert(aabbs@.take(i + 1 as int).drop_last() =~= aabbs@.take(i as int));
                assert(aabbs@.take(i + 1 as int).last() == aabbs@[i as int]);
            }
            i = i + 1;
        }
        proof {
            assert(aabbs@.take(aabbs@.len() as int) =~= aabbs@);
        }
        acc
    }

    /// The intersection of a collection of boxes; the whole coordinate range
    /// for an empty collection.
    pub fn intersection(aabbs: &Vec<AABB>) -> (r: AABB)
        ensures
            r == spec_inter_seq(aabbs@),
    {
        if aabbs.len() == 0 {
            return AABB {
                min: Vec3 { x: -COORD_LIMIT, y: -COORD_LIMIT, z: -COORD_LIMIT },
                max: Vec3 { x: COORD_LIMIT, y: COORD_LIMIT, z: COORD_LIMIT },
            };
        }
        let mut acc = aabbs[0];
        let mut i: usize = 1;
        while i < aabbs.len()
            invariant
                1 <= i <= aabbs.len(),
                aabbs.len() >= 1,
                acc == spec_inter_rest(aabbs@.take(i as int)),
            decreases aabbs.len() - i,
        {
            acc = Self::inter2(acc, aabbs[i]);
            proof {
                assert(aabbs@.take(i + 1 as int).drop_last() =~= aabbs@.take(i as int));
                assert(aabbs@.take(i + 1 as int).last() == aabbs@[i as int]);
            }
            i = i + 1;
        }
        proof {
            assert(aabbs@.take(aabbs@.len() as int) =~= aabbs@);
        }
        acc
    }

    /// The smallest box holding every point of the collection; empty for an
    /// empty collection.
    pub fn bounding_box(points: &Vec<Vec3>) -> (r: AABB)
        ensures
            r == spec_bounding_box(points@),
    {
        let mut acc = AABB::new();
        let mut i: usize = 0;
        while i < points.len()
            invariant
                0 <= i <= points.len(),
                acc == spec_bounding_box(points@.take(i as int)),
            decreases points.len() - i,
        {
            let p = points[i];
            acc = Self::union2(acc, AABB { min: p, max: p });
            proof {
                assert(points@.take(i + 1 as int).drop_last() =~= points@.take(i as int));
                assert(points@.take(i + 1 as int).last() == points@[i as int]);
            }
            i = i + 1;
        }
        proof {
            assert(points@.take(points@.len() as int) =~= points@);
        }
        acc
    }
}

/// Products of non-negative factors are non-negative.
proof fn lemma_mul_nonneg(a: int, b: int)
    by (nonlinear_arith)
    requires
        0 <= a,
        0 <= b,
    ensures
        0 <= a * b,
{
}

/// Union is commutative.
pub proof fn lemma_union2_commutative(a: AABB, b: AABB)
    ensures
        spec_union2(a, b) == spec_union2(b, a),
{
}

/// Union is idempotent.
pub proof fn lemma_union2_idempotent(a: AABB)
    ensures
        spec_union2(a, a) == a,
{
}

/// The canonical empty box is the identity of union on well-formed boxes.
pub proof fn lemma_union2_identity(a: AABB)
    requires
        aabb_wf(a),
    ensures
        spec_union2(spec_empty(), a) == a,
        spec_union2(a, spec_empty()) == a,
{
}

/// The union of a two-element collection in both orders, of a repeated box,
/// and of the empty collection.
pub proof fn lemma_union_collection_laws(a: AABB, b: AABB)
    requires
        aabb_wf(a),
        aabb_wf(b),
    ensures
        spec_union_seq(seq![a, b]) == spec_union_seq(seq![b, a]),
        spec_union_seq(seq![a, a]) == a,
        spec_union_seq(Seq::<AABB>::empty()) == spec_empty(),
{
    let sab = seq![a, b];
    let sba = seq![b, a];
    let saa = seq![a, a];
    assert(sab.drop_last() =~= seq![a]);
    assert(sba.drop_last() =~= seq![b]);
    assert(saa.drop_last() =~= seq![a]);
    let sa = seq![a];
    let sb = seq![b];
    assert(sa.drop_last() =~= Seq::<AABB>::empty());
    assert(sb.drop_last() =~= Seq::<AABB>::empty());
    lemma_union2_identity(a);
    lemma_union2_identity(b);
    assert(spec_union_seq(Seq::<AABB>::empty()) == spec_empty());
    assert(sa.last() == a && sb.last() == b);
    assert(spec_union_seq(sa) == spec_union2(spec_union_seq(sa.drop_last()), a));
    assert(spec_union_seq(sa) == a);
    assert(spec_union_seq(sb) == b);
    assert(sab.drop_last() == sa && sba.drop_last() == sb && saa.drop_last() == sa);
    assert(sab.last() == b && sba.last() == a && saa.last() == a);
    lemma_union2_commutative(a, b);
    lemma_union2_idempotent(a);
}

/// Both boxes lie inside their union.
pub proof fn lemma_union2_subset(a: AABB, b: AABB)
    ensures
        aabb_subset(a, spec_union2(a, b)),
        aabb_subset(b, spec_union2(a, b)),
{
}

/// Subset is transitive.
pub proof fn lemma_subset_trans(a: AABB, b: AABB, c: AABB)
    requires
        aabb_subset(a, b),
        aabb_subset(b, c),
    ensures
        aabb_subset(a, c),
{
}

/// The intersection of two non-empty boxes is empty exactly when the boxes
/// fail to overlap on some axis.
pub proof fn lemma_intersection_empty_iff(a: AABB, b: AABB)
    requires
        !spec_is_empty(a),
        !spec_is_empty(b),
    ensures
        spec_is_empty(spec_inter2(a, b)) <==> !spec_overlap(a, b),
        spec_inter_seq(seq![a, b]) == spec_inter2(a, b),
{
    let s = seq![a, b];
    assert(s.drop_last() =~= seq![a]);
    assert(spec_inter_rest(seq![a]) == a);
}

/// The empty box has surface area zero.
pub proof fn lemma_surface_area_empty()
    ensures
        spec_surface_area(spec_empty()) == 0,
{
}

/// Surface area does not change when the side lengths along two axes are
/// exchanged: stated for the first two axes.
pub proof fn lemma_surface_area_swap_xy(a: AABB, b: AABB)
    requires
        !spec_is_empty(a),
        !spec_is_empty(b),
        b.max.x - b.min.x == a.max.y - a.min.y,
        b.max.y - b.min.y == a.max.x - a.min.x,
        b.max.z - b.min.z == a.max.z - a.min.z,
    ensures
        spec_surface_area(b) == spec_surface_area(a),
{
    lemma_sa_symmetric(
        a.max.x - a.min.x,
        a.max.y - a.min.y,
        a.max.z - a.min.z,
    );
}

/// Surface area does not change when the side lengths along two axes are
/// exchanged: stated for the last two axes.
pub proof fn lemma_surface_area_swap_yz(a: AABB, b: AABB)
    requires
        !spec_is_empty(a),
        !spec_is_empty(b),
        b.max.x - b.min.x == a.max.x - a.min.x,
        b.max.y - b.min.y == a.max.z - a.min.z,
        b.max.z - b.min.z == a.max.y - a.min.y,
    ensures
        spec_surface_area(b) == spec_surface_area(a),
{
    lemma_sa_symmetric(
        a.max.x - a.min.x,
        a.max.y - a.min.y,
        a.max.z - a.min.z,
    );
}

proof fn lemma_sa_symmetric(x: int, y: int, z: int)
    by (nonlinear_arith)
    ensures
        2 * (x * y + x * z + y * z) == 2 * (y * x + y * z + x * z),
        2 * (x * y + x * z + y * z) == 2 * (x * z + x * y + z * y),
{
}

/// The surface area of a well-formed box is never negative.
pub proof fn lemma_surface_area_nonneg(a: AABB)
    requires
        aabb_wf(a),
    ensures
        spec_surface_area(a) >= 0,
{
    if !spec_is_empty(a) {
        lemma_mul_nonneg(a.max.x - a.min.x, a.max.y - a.min.y);
        lemma_mul_nonneg(a.max.x - a.min.x, a.max.z - a.min.z);
        lemma_mul_nonneg(a.max.y - a.min.y, a.max.z - a.min.z);
    }
}

/// The bounding box of a single point is the degenerate box at that point,
/// and its centroid is that point again.
pub proof fn lemma_point_box_centroid(p: Vec3)
    requires
        vec_wf(p),
    ensures
        spec_bounding_box(seq![p]) == spec_point_box(p),
        spec_centroid(spec_point_box(p)) == Some(p),
{
    let s = seq![p];
    assert(s.drop_last() =~= Seq::<Vec3>::empty());
    assert(spec_bounding_box(Seq::<Vec3>::empty()) == spec_empty());
    assert(s.last() == p);
    assert(spec_bounding_box(s) == spec_union2(spec_bounding_box(s.drop_last()), spec_point_box(p)));
    lemma_union2_identity(spec_point_box(p));
    vstd::arithmetic::div_mod::lemma_div_multiples_vanish(p.x as int, 2);
    vstd::arithmetic::div_mod::lemma_div_multiples_vanish(p.y as int, 2);
    vstd::arithmetic::div_mod::lemma_div_multiples_vanish(p.z as int, 2);
    assert(p.x + p.x == 2 * (p.x as int) && p.y + p.y == 2 * (p.y as int) && p.z + p.z == 2 * (
    p.z as int));
}


/// The point `origin + t * direction` lies between `lo` and `hi` along an
/// axis with direction component `d`, stated without division: all terms are
/// scaled by the positive denominator of `t`.
pub open spec fn time_in_axis(lo: int, hi: int, o: int, d: int, t: Rat) -> bool {
    lo * t.den <= o * t.den + t.num * d && o * t.den + t.num * d <= hi * t.den
}

/// The point of the ray at parameter `t` lies inside the box.
pub open spec fn time_in_box(b: AABB, r: Ray, t: Rat) -> bool {
    &&& time_in_axis(b.min.x as int, b.max.x as int, r.origin.x as int, r.direction.x as int, t)
    &&& time_in_axis(b.min.y as int, b.max.y as int, r.origin.y as int, r.direction.y as int, t)
    &&& time_in_axis(b.min.z as int, b.max.z as int, r.origin.z as int, r.direction.z as int, t)
}

/// An axis with a zero direction component passes the slab test exactly when
/// the ray origin lies inside the slab of that axis.
pub open spec fn slab_axis_pass(b: AABB, r: Ray, a: Axis) -> bool {
    axis_coord(r.direction, a) != 0 || (axis_coord(b.min, a) <= axis_coord(r.origin, a)
        && axis_coord(r.origin, a) <= axis_coord(b.max, a))
}

/// The entry parameter of the slab of axis `a`, or minus infinity when the
/// direction component is zero.
pub open spec fn slab_lo(b: AABB, r: Ray, a: Axis) -> Rat {
    let o = axis_coord(r.origin, a);
    let d = axis_coord(r.direction, a);
    let lo = axis_coord(b.min, a);
    let hi = axis_coord(b.max, a);
    if d == 0 {
        Rat { num: -1i64, den: 0i64 }
    } else if d > 0 {
        Rat { num: (lo - o) as i64, den: d as i64 }
    } else {
        Rat { num: (o - hi) as i64, den: (-d) as i64 }
    }
}

/// The exit parameter of the slab of axis `a`, or plus infinity when the
/// direction component is zero.
pub open spec fn slab_hi(b: AABB, r: Ray, a: Axis) -> Rat {
    let o = axis_coord(r.origin, a);
    let d = axis_coord(r.direction, a);
    let lo = axis_coord(b.min, a);
    let hi = axis_coord(b.max, a);
    if d == 0 {
        Rat { num: 1i64, den: 0i64 }
    } else if d > 0 {
        Rat { num: (hi - o) as i64, den: d as i64 }
    } else {
        Rat { num: (o - lo) as i64, den: (-d) as i64 }
    }
}

/// The latest slab entry over the three axes.
pub open spec fn slab_tmin(b: AABB, r: Ray) -> Rat {
    rat_max(rat_max(slab_lo(b, r, Axis::X), slab_lo(b, r, Axis::Y)), slab_lo(b, r, Axis::Z))
}

/// The earliest slab exit over the three axes.
pub open spec fn slab_tmax(b: AABB, r: Ray) -> Rat {
    rat_min(rat_min(slab_hi(b, r, Axis::X), slab_hi(b, r, Axis::Y)), slab_hi(b, r, Axis::Z))
}

/// What the slab test returns: nothing for an empty box, a ray that misses a
/// degenerate axis, separated entry and exit, or an entry-exit range that
/// misses the query interval; otherwise the entry parameter, or the exit
/// parameter when the entry lies behind the ray origin.
pub open spec fn spec_ray_intersection(b: AABB, r: Ray, ray_t: Interval) -> Option<Rat> {
    if spec_is_empty(b) {
        None
    } else if !(slab_axis_pass(b, r, Axis::X) && slab_axis_pass(b, r, Axis::Y) && slab_axis_pass(
        b,
        r,
        Axis::Z,
    )) {
        None
    } else {
        let tmin = slab_tmin(b, r);
        let tmax = slab_tmax(b, r);
        if rat_lt(tmax, tmin) || rat_lt(tmax, ray_t.min) || rat_lt(ray_t.max, tmin) {
            None
        } else if rat_lt(Rat { num: 0i64, den: 1i64 }, tmin) {
            Some(tmin)
        } else {
            Some(tmax)
        }
    }
}

impl AABB {
    /// For one axis: whether the slab test can pass at all, and the entry and
    /// exit parameters of the slab.
    pub(crate) fn axis_slab(&self, r: &Ray, a: Axis) -> (res: (bool, Rat, Rat))
        requires
            aabb_wf(*self),
            ray_wf(*r),
        ensures
            res.0 == slab_axis_pass(*self, *r, a),
            res.1 == slab_lo(*self, *r, a),
            res.2 == slab_hi(*self, *r, a),
            rat_ok(res.1),
            rat_ok(res.2),
    {
        let o = r.origin.axis(a);
        let d = r.direction.axis(a);
        let lo = self.min.axis(a);
        let hi = self.max.axis(a);
        if d == 0 {
            (lo <= o && o <= hi, Rat::neg_infinity(), Rat::infinity())
        } else if d > 0 {
            (true, Rat::new(lo - o, d), Rat::new(hi - o, d))
        } else {
            (true, Rat::new(o - hi, -d), Rat::new(o - lo, -d))
        }
    }

    /// The slab test of the box against a ray and a parameter interval.
    /// Returns the entry parameter (or the exit parameter when the entry lies
    /// behind the origin) when the box is non-empty and its slab range meets
    /// the interval; returns nothing otherwise.
    pub fn ray_intersection(&self, r: &Ray, ray_t: Interval) -> (res: Option<Rat>)
        requires
            aabb_wf(*self),
            ray_wf(*r),
            interval_wf(ray_t),
        ensures
            res == spec_ray_intersection(*self, *r, ray_t),
            res is Some ==> rat_ok(res->0),
    {
        if self.is_empty() {
            return None;
        }
        let (px, lox, hix) = self.axis_slab(r, Axis::X);
        let (py, loy, hiy) = self.axis_slab(r, Axis::Y);
        let (pz, loz, hiz) = self.axis_slab(r, Axis::Z);
        if !(px && py && pz) {
            return None;
        }
        let tmin = lox.max(loy).max(loz);
        let tmax = hix.min(hiy).min(hiz);
        if tmax.lt(tmin) || tmax.lt(ray_t.min) || ray_t.max.lt(tmin) {
            None
        } else if Rat::of_int(0).lt(tmin) {
            Some(tmin)
        } else {
            Some(tmax)
        }
    }
}

/// A parameter inside a box is inside any enclosing box.
pub proof fn lemma_time_in_box_subset(a: AABB, b: AABB, r: Ray, t: Rat)
    requires
        aabb_subset(a, b),
        time_in_box(a, r, t),
        rat_finite(t),
    ensures
        time_in_box(b, r, t),
{
    lemma_mul_le(b.min.x as int, a.min.x as int, t.den as int);
    lemma_mul_le(a.max.x as int, b.max.x as int, t.den as int);
    lemma_mul_le(b.min.y as int, a.min.y as int, t.den as int);
    lemma_mul_le(a.max.y as int, b.max.y as int, t.den as int);
    lemma_mul_le(b.min.z as int, a.min.z as int, t.den as int);
    lemma_mul_le(a.max.z as int, b.max.z as int, t.den as int);
}

/// For one axis: a parameter inside the box passes the slab test of that
/// axis and lies between the slab entry and exit.
proof fn lemma_axis_complete(b: AABB, r: Ray, a: Axis, t: Rat, lo: int, hi: int, o: int, d: int)
    requires
        aabb_wf(b),
        ray_wf(r),
        !spec_is_empty(b),
        rat_finite(t),
        lo == axis_coord(b.min, a),
        hi == axis_coord(b.max, a),
        o == axis_coord(r.origin, a),
        d == axis_coord(r.direction, a),
        time_in_axis(lo, hi, o, d, t),
    ensures
        slab_axis_pass(b, r, a),
        rat_ok(slab_lo(b, r, a)),
        rat_ok(slab_hi(b, r, a)),
        rat_le(slab_lo(b, r, a), t),
        rat_le(t, slab_hi(b, r, a)),
{
    lemma_mul_basics(t.num as int);
    lemma_mul_basics(t.den as int);
    if d == 0 {
        // The axis does not constrain the parameter; the origin must lie in
        // the slab.
        assert(lo * t.den <= o * t.den + t.num * 0);
        lemma_mul_cancel(lo, o, t.den as int);
        lemma_mul_cancel(o, hi, t.den as int);
        assert(rat_le(slab_lo(b, r, a), t));
        assert(rat_le(t, slab_hi(b, r, a)));
    } else if d > 0 {
        lemma_mul_distrib_sub(lo, o, t.den as int);
        lemma_mul_distrib_sub(hi, o, t.den as int);
        assert((lo - o) * t.den <= t.num * d);
        assert(t.num * d <= (hi - o) * t.den);
        assert(rat_le(slab_lo(b, r, a), t));
        assert(rat_le(t, slab_hi(b, r, a)));
    } else {
        lemma_mul_distrib_sub(o, hi, t.den as int);
        lemma_mul_distrib_sub(o, lo, t.den as int);
        lemma_mul_neg(t.num as int, d);
        lemma_mul_neg(t.num as int, -d);
        assert((o - hi) * t.den <= t.num * (-d));
        assert(t.num * (-d) <= (o - lo) * t.den);
        assert(rat_le(slab_lo(b, r, a), t));
        assert(rat_le(t, slab_hi(b, r, a)));
    }
}

/// Completeness of the slab test: a box holding any ray point whose
/// parameter lies in the interval is reported as hit.
pub proof fn lemma_slab_complete(b: AABB, r: Ray, ray_t: Interval, t: Rat)
    requires
        aabb_wf(b),
        ray_wf(r),
        interval_wf(ray_t),
        rat_finite(t),
        time_in_box(b, r, t),
        rat_le(ray_t.min, t),
        rat_le(t, ray_t.max),
    ensures
        spec_ray_intersection(b, r, ray_t) is Some,
{
    assert(!spec_is_empty(b)) by {
        lemma_mul_cancel(b.min.x as int, b.max.x as int, t.den as int);
        lemma_mul_cancel(b.min.y as int, b.max.y as int, t.den as int);
        lemma_mul_cancel(b.min.z as int, b.max.z as int, t.den as int);
    }
    lemma_axis_complete(b, r, Axis::X, t, b.min.x as int, b.max.x as int, r.origin.x as int,
        r.direction.x as int);
    lemma_axis_complete(b, r, Axis::Y, t, b.min.y as int, b.max.y as int, r.origin.y as int,
        r.direction.y as int);
    lemma_axis_complete(b, r, Axis::Z, t, b.min.z as int, b.max.z as int, r.origin.z as int,
        r.direction.z as int);
    let tmin = slab_tmin(b, r);
    let tmax = slab_tmax(b, r);
    assert(rat_le(tmin, t));
    assert(rat_le(t, tmax));
    lemma_rat_le_trans(tmin, t, tmax);
    lemma_rat_le_trans(ray_t.min, t, tmax);
    lemma_rat_le_trans(tmin, t, ray_t.max);
    lemma_rat_total(tmax, tmin);
    lemma_rat_total(tmax, ray_t.min);
    lemma_rat_total(ray_t.max, tmin);
}

/// For a ray directed along one axis, in either direction, through the
/// inside of a box, the slab test succeeds exactly when the query interval
/// meets the closed parameter range from the near face to the far face of
/// the box.
pub proof fn lemma_axis_ray_hit(b: AABB, r: Ray, a: Axis, ray_t: Interval)
    requires
        aabb_wf(b),
        !spec_is_empty(b),
        ray_wf(r),
        interval_wf(ray_t),
        axis_coord(r.direction, a) == 1 || axis_coord(r.direction, a) == -1,
        forall|other: Axis| other != a ==> #[trigger] axis_coord(r.direction, other) == 0,
        forall|other: Axis|
            other != a ==> axis_coord(b.min, other) <= #[trigger] axis_coord(r.origin, other)
                <= axis_coord(b.max, other),
    ensures
        spec_ray_intersection(b, r, ray_t) is Some <==> rat_le(
            ray_t.min,
            axis_ray_far(b, r, a),
        ) && rat_le(axis_ray_near(b, r, a), ray_t.max),
{
    let near = axis_ray_near(b, r, a);
    let far = axis_ray_far(b, r, a);
    assert(slab_lo(b, r, a) == near);
    assert(slab_hi(b, r, a) == far);
    assert(forall|other: Axis| other != a ==> #[trigger] slab_lo(b, r, other) == (Rat {
        num: -1i64,
        den: 0i64,
    }));
    assert(forall|other: Axis| other != a ==> #[trigger] slab_hi(b, r, other) == (Rat {
        num: 1i64,
        den: 0i64,
    }));
    match a {
        Axis::X => {
            assert(slab_lo(b, r, Axis::Y) == (Rat { num: -1i64, den: 0i64 }));
            assert(slab_lo(b, r, Axis::Z) == (Rat { num: -1i64, den: 0i64 }));
        },
        Axis::Y => {
            assert(slab_lo(b, r, Axis::X) == (Rat { num: -1i64, den: 0i64 }));
            assert(slab_lo(b, r, Axis::Z) == (Rat { num: -1i64, den: 0i64 }));
        },
        Axis::Z => {
            assert(slab_lo(b, r, Axis::X) == (Rat { num: -1i64, den: 0i64 }));
            assert(slab_lo(b, r, Axis::Y) == (Rat { num: -1i64, den: 0i64 }));
        },
    }
    assert(slab_tmin(b, r) == near);
    assert(slab_tmax(b, r) == far);
    assert(rat_le(near, far));
    lemma_rat_total(far, near);
    lemma_rat_total(far, ray_t.min);
    lemma_rat_total(ray_t.max, near);
}

/// The parameter of an axis-aligned unit ray at the near face of a box: the
/// face on the side the ray comes from.
pub open spec fn axis_ray_near(b: AABB, r: Ray, a: Axis) -> Rat {
    if axis_coord(r.direction, a) == 1 {
        Rat { num: (axis_coord(b.min, a) - axis_coord(r.origin, a)) as i64, den: 1i64 }
    } else {
        Rat { num: (axis_coord(r.origin, a) - axis_coord(b.max, a)) as i64, den: 1i64 }
    }
}

/// The parameter of an axis-aligned unit ray at the far face of a box.
pub open spec fn axis_ray_far(b: AABB, r: Ray, a: Axis) -> Rat {
    if axis_coord(r.direction, a) == 1 {
        Rat { num: (axis_coord(b.max, a) - axis_coord(r.origin, a)) as i64, den: 1i64 }
    } else {
        Rat { num: (axis_coord(r.origin, a) - axis_coord(b.min, a)) as i64, den: 1i64 }
    }
}


/// For one axis: a parameter between the slab entry and exit of a passing
/// axis lies inside the box along that axis.
pub proof fn lemma_axis_sound(b: AABB, r: Ray, a: Axis, t: Rat, lo: int, hi: int, o: int, d: int)
    requires
        aabb_wf(b),
        ray_wf(r),
        rat_finite(t),
        lo == axis_coord(b.min, a),
        hi == axis_coord(b.max, a),
        o == axis_coord(r.origin, a),
        d == axis_coord(r.direction, a),
        slab_axis_pass(b, r, a),
        rat_le(slab_lo(b, r, a), t),
        rat_le(t, slab_hi(b, r, a)),
    ensures
        time_in_axis(lo, hi, o, d, t),
{
    lemma_mul_basics(t.num as int);
    lemma_mul_basics(t.den as int);
    if d == 0 {
        lemma_mul_le(lo, o, t.den as int);
        lemma_mul_le(o, hi, t.den as int);
    } else if d > 0 {
        lemma_mul_distrib_sub(lo, o, t.den as int);
        lemma_mul_distrib_sub(hi, o, t.den as int);
        assert((lo - o) * t.den <= t.num * d);
        assert(t.num * d <= (hi - o) * t.den);
    } else {
        lemma_mul_distrib_sub(o, hi, t.den as int);
        lemma_mul_distrib_sub(o, lo, t.den as int);
        lemma_mul_neg(t.num as int, d);
        lemma_mul_neg(t.num as int, -d);
        assert((o - hi) * t.den <= t.num * (-d));
        assert(t.num * (-d) <= (o - lo) * t.den);
    }
}

/// The finite slab parameters of a well-formed box are representable slab
/// fractions, and a slab parameter with a zero denominator is one of the two
/// infinities.
pub proof fn lemma_slab_rat_small(b: AABB, r: Ray, a: Axis)
    requires
        aabb_wf(b),
        ray_wf(r),
    ensures
        rat_ok(slab_lo(b, r, a)),
        rat_ok(slab_hi(b, r, a)),
        rat_finite(slab_lo(b, r, a)) ==> rat_small(slab_lo(b, r, a)),
        rat_finite(slab_hi(b, r, a)) ==> rat_small(slab_hi(b, r, a)),
        rat_finite(slab_lo(b, r, a)) <==> axis_coord(r.direction, a) != 0,
        rat_finite(slab_hi(b, r, a)) <==> axis_coord(r.direction, a) != 0,
{
}


/// The union of two well-formed boxes is well formed.
pub proof fn lemma_union2_wf(a: AABB, b: AABB)
    requires
        aabb_wf(a),
        aabb_wf(b),
    ensures
        aabb_wf(spec_union2(a, b)),
{
}


/// A well-formed box has bounded corner coordinates.
pub proof fn lemma_wf_bounded(a: AABB)
    requires
        aabb_wf(a),
    ensures
        vec_wf(a.min),
        vec_wf(a.max),
{
}

/// The corners of the intersection of two boxes with bounded corners are
/// bounded.
pub proof fn lemma_inter2_bounded(a: AABB, b: AABB)
    requires
        vec_wf(a.min),
        vec_wf(a.max),
        vec_wf(b.min),
        vec_wf(b.max),
    ensures
        vec_wf(spec_inter2(a, b).min),
        vec_wf(spec_inter2(a, b).max),
{
}

/// The bounding box of bounded points is well formed.
pub proof fn lemma_bounding_box_wf(s: Seq<Vec3>)
    requires
        forall|i: int| 0 <= i < s.len() ==> vec_wf(#[trigger] s[i]),
    ensures
        aabb_wf(spec_bounding_box(s)),
    decreases s.len(),
{
    if s.len() > 0 {
        lemma_bounding_box_wf(s.drop_last());
        lemma_union2_wf(spec_bounding_box(s.drop_last()), spec_point_box(s.last()));
    }
}


/// The smaller of two mathematical integers.
pub open spec fn int_min(a: int, b: int) -> int {
    if a <= b {
        a
    } else {
        b
    }
}

/// The larger of two mathematical integers.
pub open spec fn int_max(a: int, b: int) -> int {
    if a <= b {
        b
    } else {
        a
    }
}

/// The range `[lo, hi]` meets the extent of the non-empty box `bb` along
/// axis `a`.
pub open spec fn clip_overlap(bb: AABB, a: Axis, lo: int, hi: int) -> bool {
    &&& !spec_is_empty(bb)
    &&& int_max(lo, axis_coord(bb.min, a)) <= int_min(hi, axis_coord(bb.max, a))
}

/// The box `bb` cut down to the range `[lo, hi]` along axis `a`: the
/// canonical empty box when the range misses it, else `bb` with its extent
/// along `a` replaced by the overlap.
pub open spec fn spec_clip_box(bb: AABB, a: Axis, lo: int, hi: int) -> AABB {
    if !clip_overlap(bb, a, lo, hi) {
        spec_empty()
    } else {
        let cmin = int_max(lo, axis_coord(bb.min, a)) as i64;
        let cmax = int_min(hi, axis_coord(bb.max, a)) as i64;
        match a {
            Axis::X => AABB {
                min: Vec3 { x: cmin, ..bb.min },
                max: Vec3 { x: cmax, ..bb.max },
            },
            Axis::Y => AABB {
                min: Vec3 { y: cmin, ..bb.min },
                max: Vec3 { y: cmax, ..bb.max },
            },
            Axis::Z => AABB {
                min: Vec3 { z: cmin, ..bb.min },
                max: Vec3 { z: cmax, ..bb.max },
            },
        }
    }
}

/// What clipping a well-formed box guarantees: a well-formed sub-box of the
/// original, canonically empty exactly when the range misses the extent, and
/// otherwise spanning exactly the overlap along the clip axis.
pub proof fn lemma_clip_box_ok(bb: AABB, a: Axis, lo: int, hi: int)
    requires
        aabb_wf(bb),
        -COORD_LIMIT <= lo <= COORD_LIMIT,
        -COORD_LIMIT <= hi <= COORD_LIMIT,
    ensures
        aabb_wf(spec_clip_box(bb, a, lo, hi)),
        aabb_subset(spec_clip_box(bb, a, lo, hi), bb),
        spec_is_empty(spec_clip_box(bb, a, lo, hi)) ==> spec_clip_box(bb, a, lo, hi)
            == spec_empty(),
        spec_is_empty(spec_clip_box(bb, a, lo, hi)) <==> !clip_overlap(bb, a, lo, hi),
        !spec_is_empty(spec_clip_box(bb, a, lo, hi)) ==> axis_coord(
            spec_clip_box(bb, a, lo, hi).min,
            a,
        ) == int_max(lo, axis_coord(bb.min, a)) && axis_coord(spec_clip_box(bb, a, lo, hi).max, a)
            == int_min(hi, axis_coord(bb.max, a)),
{
    if clip_overlap(bb, a, lo, hi) {
        match a {
            Axis::X => {},
            Axis::Y => {},
            Axis::Z => {},
        }
    } else {
        if bb == spec_empty() {
        }
    }
}


} // verus!
