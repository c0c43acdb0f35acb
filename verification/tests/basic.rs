use sbvh::boxprim::BoxPrim;
use sbvh::hit::{Hit, HitRecord};
use sbvh::interval::Interval;
use sbvh::rat::Rat;
use sbvh::ray::Ray;
use sbvh::vec3::{Axis, Vec3};

fn v(x: i64, y: i64, z: i64) -> Vec3 {
    Vec3::of(x, y, z)
}

fn rat_equal(a: Rat, b: Rat) -> bool {
    (a.num as i128) * (b.den as i128) == (b.num as i128) * (a.den as i128)
}

#[test]
fn test_rat_order() {
    let half = Rat::new(1, 2);
    let third = Rat::new(1, 3);
    let neg = Rat::new(-7, 2);
    assert!(third.lt(half));
    assert!(!half.lt(third));
    assert!(neg.lt(third));
    assert!(half.le(half));
    assert!(!half.lt(half));
    assert!(neg.lt(Rat::infinity()));
    assert!(Rat::neg_infinity().lt(neg));
    assert!(Rat::neg_infinity().lt(Rat::infinity()));
    assert!(rat_equal(Rat::new(2, 4), half));
    assert_eq!(half.max(third), half);
    assert_eq!(half.min(third), third);
}

#[test]
fn test_vec3_ops() {
    let a = v(1, 2, 3);
    let b = v(4, 5, 6);
    assert_eq!(a.dot(&b), 32);
    assert_eq!(a.length_squared(), 14);
    let c = a.cross(&b);
    assert_eq!((c.x, c.y, c.z), (-3, 6, -3));
    // Reflecting off the plane with normal y: the y component flips.
    let r = v(3, -4, 5).reflect(&v(0, 1, 0));
    assert_eq!((r.x, r.y, r.z), (3, 4, 5));
    assert!(v(0, 0, 0).near_zero());
    assert!(!v(0, 1, 0).near_zero());
    let built = Vec3::new().x(7).y(-2).z(9);
    assert_eq!(built, v(7, -2, 9));
    assert_eq!(built.axis(Axis::X), 7);
    assert_eq!(built.axis(Axis::Y), -2);
    assert_eq!(built.axis(Axis::Z), 9);
}

#[test]
fn test_interval_ops() {
    let it = Interval::new(Rat::of_int(1), Rat::of_int(5));
    assert!(it.contains(Rat::of_int(1)));
    assert!(it.contains(Rat::of_int(5)));
    assert!(!it.surrounds(Rat::of_int(1)));
    assert!(it.surrounds(Rat::new(3, 2)));
    assert!(!it.contains(Rat::of_int(6)));
    assert_eq!(it.clamp(Rat::of_int(0)), Rat::of_int(1));
    assert_eq!(it.clamp(Rat::of_int(9)), Rat::of_int(5));
    assert_eq!(it.clamp(Rat::of_int(3)), Rat::of_int(3));
}

#[test]
fn test_ray_at() {
    let ray = Ray::new(v(1, 2, 3), v(2, 0, -1));
    let p = ray.at(Rat::new(3, 2));
    // origin + (3/2) * direction == (4, 2, 3/2), over the denominator 2.
    assert_eq!(p.den, 2);
    assert_eq!((p.num.x, p.num.y, p.num.z), (8, 4, 3));
}

#[test]
fn test_hit_record_new() {
    let ray = Ray::new(v(0, 0, 0), v(1, 0, 0));
    let p = ray.at(Rat::of_int(2));
    // A normal facing against the ray: seen from the front.
    let hr = HitRecord::new(&ray, p, Rat::of_int(2), v(-1, 0, 0), 7);
    assert!(hr.front_face);
    assert_eq!(hr.normal, v(-1, 0, 0));
    assert_eq!(hr.material, 7);
    // A normal along the ray: seen from behind, stored flipped.
    let hr2 = HitRecord::new(&ray, p, Rat::of_int(2), v(1, 0, 0), 7);
    assert!(!hr2.front_face);
    assert_eq!(hr2.normal, v(-1, 0, 0));
}

#[test]
fn test_boxprim_hit() {
    let prim = BoxPrim::new(v(0, 0, 0), v(2, 2, 2), 3);
    let wide = Interval::new(Rat::new(1, 1000), Rat::infinity());
    // Entering through the x = 0 face at t = 2.
    let ray = Ray::new(v(-2, 1, 1), v(1, 0, 0));
    let hr = prim.hit(&ray, wide).expect("the ray meets the box");
    assert!(rat_equal(hr.t, Rat::of_int(2)));
    assert!(hr.front_face);
    assert_eq!(hr.normal, v(-1, 0, 0));
    assert_eq!(hr.material, 3);
    // From inside, the exit face is reported instead.
    let inside = Ray::new(v(1, 1, 1), v(1, 0, 0));
    let hr2 = inside.at(Rat::of_int(1));
    assert_eq!((hr2.num.x, hr2.num.y, hr2.num.z), (2, 1, 1));
    let exit = prim.hit(&inside, wide).expect("the exit is a hit");
    assert!(rat_equal(exit.t, Rat::of_int(1)));
    assert!(!exit.front_face);
    // A miss: the ray passes beside the box.
    let miss = Ray::new(v(-2, 5, 1), v(1, 0, 0));
    assert!(prim.hit(&miss, wide).is_none());
    // A hit beyond the interval is not reported.
    let capped = Interval::new(Rat::new(1, 1000), Rat::of_int(1));
    assert!(prim.hit(&ray, capped).is_none());
}

#[test]
fn test_boxprim_clipped_aabb() {
    let prim = BoxPrim::new(v(-5, -5, -5), v(5, 5, 5), 0);
    assert_eq!(prim.aabb(), sbvh::aabb::AABB::from_corners(v(-5, -5, -5), v(5, 5, 5)));
    // A middle slice.
    let mid = prim.clipped_aabb(Axis::X, -3, 3);
    assert_eq!(mid, sbvh::aabb::AABB::from_corners(v(-3, -5, -5), v(3, 5, 5)));
    // A slice off the right edge.
    let right = prim.clipped_aabb(Axis::X, 0, 7);
    assert_eq!(right, sbvh::aabb::AABB::from_corners(v(0, -5, -5), v(5, 5, 5)));
    // A slice beyond the box is empty.
    assert!(prim.clipped_aabb(Axis::X, 6, 7).is_empty());
    assert!(prim.clipped_aabb(Axis::X, -7, -6).is_empty());
}
