use sbvh::aabb::AABB;
use sbvh::interval::Interval;
use sbvh::rat::Rat;
use sbvh::ray::Ray;
use sbvh::vec3::Vec3;

fn v(x: i64, y: i64, z: i64) -> Vec3 {
    Vec3::of(x, y, z)
}

fn splat(c: i64) -> Vec3 {
    Vec3::of(c, c, c)
}

#[test]
fn test_aabb_intersection_empty() {
    let test = |a, b| assert!(AABB::intersection(&vec![a, b]).is_empty());
    test(AABB::new(), AABB::new());
    test(AABB::bounding_box(&vec![splat(0)]), AABB::new());
    test(
        AABB::bounding_box(&vec![splat(0)]),
        AABB::bounding_box(&vec![splat(1)]),
    );
    test(
        AABB::from_corners(splat(0), v(0, 0, -1)),
        AABB::bounding_box(&vec![splat(1)]),
    );
}

#[test]
fn test_aabb_intersection() {
    let test = |a, b, eq| assert_eq!(AABB::intersection(&vec![a, b]), eq);
    test(
        AABB::from_corners(v(0, 0, -2), v(5, 3, 3)),
        AABB::from_corners(splat(-1), splat(4)),
        AABB::from_corners(v(0, 0, -1), v(4, 3, 3)),
    )
}

#[test]
fn test_aabb_union() {
    let a = AABB::bounding_box(&vec![v(0, 0, 2), v(2, 0, 0)]);
    let b = AABB::bounding_box(&vec![splat(0), v(1, 0, 0)]);
    assert_eq!(
        AABB::union(&vec![a, b]),
        AABB::bounding_box(&vec![splat(0), v(2, 0, 2)])
    )
}

#[test]
fn test_ray_aabb_intersection() {
    let aabb = AABB::bounding_box(&vec![v(100, 100, 100), v(105, 105, 105)]);
    let ray = Ray::new(v(101, 101, 0), v(0, 0, 1));
    assert!(aabb
        .ray_intersection(&ray, Interval::new(Rat::new(1, 10), Rat::new(201, 2)))
        .is_some());
    assert!(aabb
        .ray_intersection(&ray, Interval::new(Rat::new(502, 5), Rat::new(201, 2)))
        .is_some());
    assert!(aabb
        .ray_intersection(&ray, Interval::new(Rat::new(1, 10), Rat::new(199, 2)))
        .is_none());
    assert!(aabb
        .ray_intersection(&ray, Interval::new(Rat::new(1051, 10), Rat::of_int(106)))
        .is_none());
}

#[test]
fn test_ray_aabb_intersection_angle() {
    // The diagonal from one corner to the opposite one spans one unit of the
    // ray parameter: entry at t = 1, exit at t = 2.
    let aabb = AABB::bounding_box(&vec![splat(0), splat(1)]);
    let ray = Ray::new(splat(-1), splat(1));
    assert!(aabb
        .ray_intersection(&ray, Interval::new(Rat::new(1, 10), Rat::new(9, 10)))
        .is_none());
    assert!(aabb
        .ray_intersection(&ray, Interval::new(Rat::new(1, 10), Rat::new(11, 10)))
        .is_some());
    assert!(aabb
        .ray_intersection(&ray, Interval::new(Rat::new(1, 10), Rat::new(21, 10)))
        .is_some());
    assert!(aabb
        .ray_intersection(&ray, Interval::new(Rat::new(11, 10), Rat::new(21, 10)))
        .is_some());
    assert!(aabb
        .ray_intersection(&ray, Interval::new(Rat::new(21, 10), Rat::new(31, 10)))
        .is_none());
}

#[test]
fn test_ray_aabb_intersection_failure() {
    // A near-axis ray that passes the box on the near side: the z slab is
    // entered long after the x slab is left.
    let ray = Ray::new(
        v(13, 2, 3),
        v(-999_995_814, -2_200_977, -1_878_373),
    );
    let aabb = AABB::bounding_box(&vec![v(-5, 0, -1), v(5, 2, 1)]);
    let interval = Interval::new(Rat::new(1, 1000), Rat::infinity());
    let intersection = aabb.ray_intersection(&ray, interval);
    assert_eq!(intersection, None);
}

#[test]
fn test_union_laws() {
    let a = AABB::from_corners(v(-3, 0, 2), v(4, 1, 7));
    let b = AABB::from_corners(v(1, -5, 0), v(2, 9, 3));
    assert_eq!(AABB::union(&vec![a, b]), AABB::union(&vec![b, a]));
    assert_eq!(AABB::union(&vec![a, a]), a);
    assert!(AABB::union(&vec![]).is_empty());
    assert_eq!(AABB::union(&vec![]), AABB::new());
}

#[test]
fn test_intersection_identity() {
    let a = AABB::from_corners(v(-3, 0, 2), v(4, 1, 7));
    assert_eq!(AABB::intersection(&vec![a]), a);
    // Intersecting with the intersection of nothing changes nothing.
    let universe = AABB::intersection(&vec![]);
    assert_eq!(AABB::intersection(&vec![a, universe]), a);
}

#[test]
fn test_intersection_empty_iff_no_overlap() {
    // Overlapping on every axis: non-empty intersection.
    let a = AABB::from_corners(v(0, 0, 0), v(4, 4, 4));
    let b = AABB::from_corners(v(3, 3, 3), v(6, 6, 6));
    assert!(!AABB::intersection(&vec![a, b]).is_empty());
    // Touching exactly on one face still counts as overlap.
    let c = AABB::from_corners(v(4, 0, 0), v(6, 4, 4));
    assert!(!AABB::intersection(&vec![a, c]).is_empty());
    // Separated along one axis: empty.
    let d = AABB::from_corners(v(5, 0, 0), v(6, 4, 4));
    assert!(AABB::intersection(&vec![a, d]).is_empty());
}

#[test]
fn test_surface_area() {
    assert_eq!(AABB::new().surface_area(), 0);
    let unit = AABB::from_corners(splat(0), splat(1));
    assert_eq!(unit.surface_area(), 6);
    let slab = AABB::from_corners(v(0, 0, 0), v(1, 2, 3));
    assert_eq!(slab.surface_area(), 22);
    // Invariant under axis permutation: all six orders of the side lengths.
    let dims = [1i64, 2, 3];
    let perms = [
        [0usize, 1, 2],
        [0, 2, 1],
        [1, 0, 2],
        [1, 2, 0],
        [2, 0, 1],
        [2, 1, 0],
    ];
    for p in perms {
        let b = AABB::from_corners(splat(0), v(dims[p[0]], dims[p[1]], dims[p[2]]));
        assert_eq!(b.surface_area(), 22);
    }
    // A cube in particular.
    let cube = AABB::from_corners(v(-7, 3, 0), v(-2, 8, 5));
    assert_eq!(cube.surface_area(), 150);
}

#[test]
fn test_centroid_roundtrip() {
    for p in [v(0, 0, 0), v(5, -3, 17), v(-1000, 1000, 1)] {
        let b = AABB::bounding_box(&vec![p]);
        assert_eq!(b.centroid(), Some(p));
    }
    assert_eq!(AABB::new().centroid(), None);
    let b = AABB::from_corners(v(0, 0, 0), v(4, 2, 6));
    assert_eq!(b.centroid(), Some(v(2, 1, 3)));
}

#[test]
fn test_size_and_update() {
    let mut a = AABB::from_corners(v(0, 0, 0), v(2, 3, 4));
    let s = a.size();
    assert_eq!((s.x, s.y, s.z), (2, 3, 4));
    a.update(AABB::from_corners(v(-1, 1, 1), v(1, 5, 2)));
    assert_eq!(a, AABB::from_corners(v(-1, 0, 0), v(2, 5, 4)));
}

#[test]
fn test_largest_box() {
    // The whole coordinate range is still handled exactly.
    let lim = sbvh::vec3::COORD_LIMIT;
    let b = AABB::from_corners(splat(-lim), splat(lim));
    assert_eq!(b.surface_area(), 24_000_000_000_000_000_000);
    assert_eq!(b.centroid(), Some(splat(0)));
    let ray = Ray::new(v(0, 0, -lim), v(0, 0, 1));
    assert!(b
        .ray_intersection(&ray, Interval::new(Rat::of_int(0), Rat::infinity()))
        .is_some());
}

#[test]
fn test_ray_aabb_intersection_negative_direction() {
    // The same box met from the far side, travelling along -z: the near face
    // is now at z = 105, entered at t = 95, left at t = 100.
    let aabb = AABB::bounding_box(&vec![v(100, 100, 100), v(105, 105, 105)]);
    let ray = Ray::new(v(101, 101, 200), v(0, 0, -1));
    assert!(aabb
        .ray_intersection(&ray, Interval::new(Rat::new(1, 10), Rat::new(201, 2)))
        .is_some());
    assert!(aabb
        .ray_intersection(&ray, Interval::new(Rat::new(1, 10), Rat::new(189, 2)))
        .is_none());
    assert!(aabb
        .ray_intersection(&ray, Interval::new(Rat::new(201, 2), Rat::of_int(106)))
        .is_none());
}
