use sbvh::aabb::AABB;
use sbvh::boxprim::BoxPrim;
use sbvh::bvh::{Builder, BuildConfig, Node, BVH};
use sbvh::hit_list::HitList;
use sbvh::interval::Interval;
use sbvh::rat::Rat;
use sbvh::ray::Ray;
use sbvh::vec3::Vec3;

fn v(x: i64, y: i64, z: i64) -> Vec3 {
    Vec3::of(x, y, z)
}

fn rat_equal(a: Rat, b: Rat) -> bool {
    (a.num as i128) * (b.den as i128) == (b.num as i128) * (a.den as i128)
}

fn wide() -> Interval {
    Interval::new(Rat::new(1, 1000), Rat::infinity())
}

/// A small deterministic generator, so the scene is the same on every run.
fn lcg(state: &mut u64) -> u64 {
    *state = state.wrapping_mul(6364136223846793005).wrapping_add(1442695040888963407);
    *state >> 33
}

fn random_scene(count: usize, seed: u64) -> Vec<BoxPrim> {
    let mut state = seed;
    let mut prims = Vec::new();
    for m in 0..count {
        let x = (lcg(&mut state) % 1000) as i64 - 500;
        let y = (lcg(&mut state) % 1000) as i64 - 500;
        let z = (lcg(&mut state) % 1000) as i64 - 500;
        let dx = (lcg(&mut state) % 50) as i64 + 1;
        let dy = (lcg(&mut state) % 50) as i64 + 1;
        let dz = (lcg(&mut state) % 50) as i64 + 1;
        prims.push(BoxPrim::new(v(x, y, z), v(x + dx, y + dy, z + dz), m));
    }
    prims
}

fn random_rays(count: usize, seed: u64) -> Vec<Ray> {
    let mut state = seed;
    let mut rays = Vec::new();
    while rays.len() < count {
        let ox = (lcg(&mut state) % 1600) as i64 - 800;
        let oy = (lcg(&mut state) % 1600) as i64 - 800;
        let oz = (lcg(&mut state) % 1600) as i64 - 800;
        let dx = (lcg(&mut state) % 21) as i64 - 10;
        let dy = (lcg(&mut state) % 21) as i64 - 10;
        let dz = (lcg(&mut state) % 21) as i64 - 10;
        if dx == 0 && dy == 0 && dz == 0 {
            continue;
        }
        rays.push(Ray::new(v(ox, oy, oz), v(dx, dy, dz)));
    }
    rays
}

/// The sum over all leaves of leaf box surface area times the number of
/// primitive indices the leaf tests.
fn total_leaf_cost(bvh: &BVH<BoxPrim>) -> i128 {
    let mut total: i128 = 0;
    for node in bvh.nodes().iter() {
        if let Node::Leaf { aabb, indices } = node {
            total += aabb.surface_area() * indices.len() as i128;
        }
    }
    total
}

#[test]
fn test_bvh_matches_brute_force() {
    for seed in [3u64, 17, 99] {
        let prims = random_scene(40, seed);
        let bvh = BVH::new(prims.clone(), BuildConfig::new());
        let mut list = HitList::new();
        for p in &prims {
            list.add(*p);
        }
        for ray in random_rays(60, seed ^ 0xABCD) {
            let from_bvh = bvh.hit(&ray, wide());
            let from_scan = list.hit(&ray, wide());
            match (from_bvh, from_scan) {
                (None, None) => {}
                (Some(a), Some(b)) => {
                    assert!(rat_equal(a.t, b.t), "hit distances differ");
                }
                _ => panic!("one traversal hit where the other missed"),
            }
        }
    }
}

#[test]
fn test_bvh_single_primitive() {
    let prim = BoxPrim::new(v(0, 0, 0), v(2, 2, 2), 0);
    let bvh = BVH::new(vec![prim], BuildConfig::new());
    let hit = bvh
        .hit(&Ray::new(v(-2, 1, 1), v(1, 0, 0)), wide())
        .expect("the only box is hit");
    assert!(rat_equal(hit.t, Rat::of_int(2)));
    assert!(bvh.hit(&Ray::new(v(-2, 5, 1), v(1, 0, 0)), wide()).is_none());
    assert_eq!(bvh.len(), 1);
}

#[test]
fn test_bvh_empty() {
    let bvh: BVH<BoxPrim> = BVH::new(Vec::new(), BuildConfig::new());
    assert_eq!(bvh.nodes().len(), 0, "no primitives, no nodes");
    assert!(bvh.aabb().is_empty());
    assert!(bvh.hit(&Ray::new(v(0, 0, 0), v(1, 0, 0)), wide()).is_none());
    assert!(bvh
        .hit(
            &Ray::new(v(5, -3, 2), v(0, 1, 0)),
            Interval::new(Rat::neg_infinity(), Rat::infinity())
        )
        .is_none());
    assert_eq!(bvh.len(), 0);
}

#[test]
fn test_bvh_coincident_primitives() {
    // Many identical boxes: no split can help, and the build must still
    // terminate and answer correctly.
    let prim = BoxPrim::new(v(0, 0, 0), v(1, 1, 1), 0);
    let prims = vec![prim; 20];
    let bvh = BVH::new(prims, BuildConfig::new());
    let hit = bvh
        .hit(&Ray::new(v(-3, 0, 0), v(1, 0, 0)), wide())
        .expect("the stack of boxes is hit");
    assert!(rat_equal(hit.t, Rat::of_int(3)));
}

#[test]
fn test_bvh_determinism() {
    let prims = random_scene(30, 7);
    let cfg = BuildConfig::new();
    let b1 = BVH::new(prims.clone(), cfg);
    let b2 = BVH::new(prims.clone(), cfg);
    assert!(b1.nodes() == b2.nodes(), "same input, same node array");
    for ray in random_rays(20, 55) {
        let h1 = b1.hit(&ray, wide());
        let h2 = b2.hit(&ray, wide());
        match (h1, h2) {
            (None, None) => {}
            (Some(a), Some(b)) => assert!(rat_equal(a.t, b.t)),
            _ => panic!("traversals of identical trees disagree"),
        }
    }
}

#[test]
fn test_spatial_split_beats_object_split() {
    // Clusters of small boxes at both ends and long thin boxes straddling
    // the whole extent. An object split cannot separate a straddler: its
    // centroid pins its full box to one side. A spatial split clips it into
    // both sides, and the estimated cost over the clipped boxes is lower.
    let mut prims = Vec::new();
    let mut m: usize = 0;
    for i in 0..6i64 {
        prims.push(BoxPrim::new(v(0, 3 * i, 0), v(1000, 3 * i + 4, 4), m));
        m += 1;
    }
    for i in 0..12i64 {
        prims.push(BoxPrim::new(v(0, i, 0), v(8, i + 4, 4), m));
        prims.push(BoxPrim::new(v(992, i, 0), v(1000, i + 4, 4), m + 1));
        m += 2;
    }
    let config = BuildConfig::new();
    let mut indices = Vec::new();
    for i in 0..prims.len() {
        indices.push(i);
    }
    let root_aabb = {
        let mut boxes = Vec::new();
        for p in &prims {
            boxes.push(AABB::from_corners(p.min, p.max));
        }
        AABB::union(&boxes)
    };
    let builder = Builder {
        root_aabb,
        primitives: &prims,
        config,
    };
    let object = builder.object_buckets(&indices);
    let spatial = builder.spatial_buckets(&indices, root_aabb);
    let ox = object
        .iter()
        .find(|s| s.axis == sbvh::vec3::Axis::X)
        .expect("the scene spreads along the first axis");
    let sx = spatial
        .iter()
        .find(|s| s.axis == sbvh::vec3::Axis::X)
        .expect("the scene extends along the first axis");
    // The straddlers overlap every bucket of the spatial bucketing, so any
    // split sends them to both sides; the object bucketing pins each of them
    // to the single bucket of its centroid.
    for p in 0..6 {
        assert_eq!(sx.first[p], 0);
        assert_eq!(sx.last[p], config.n_buckets - 1);
        assert_eq!(ox.first[p], ox.last[p]);
    }
    // The cheapest estimated split cost, summing side count times side
    // surface area, is materially lower with clipped boxes.
    let cost_of = |set: &sbvh::bvh::Buckets, k: usize| -> i128 {
        let mut na: i128 = 0;
        let mut nb: i128 = 0;
        for p in 0..indices.len() {
            if set.first[p] < k {
                na += 1;
            }
            if set.last[p] >= k {
                nb += 1;
            }
        }
        let sa = AABB::union(&set.aabbs[..k].to_vec()).surface_area();
        let sb = AABB::union(&set.aabbs[k..].to_vec()).surface_area();
        na * sa + nb * sb
    };
    let best = |set: &sbvh::bvh::Buckets| -> i128 {
        (1..config.n_buckets).map(|k| cost_of(set, k)).min().unwrap()
    };
    let object_cost = best(ox);
    let spatial_cost = best(sx);
    assert!(
        spatial_cost < object_cost,
        "clipped split estimate should be lower: {} vs {}",
        spatial_cost,
        object_cost
    );
    // Whatever the builder picks, the two builds answer rays alike.
    let with_spatial = BVH::new(prims.clone(), BuildConfig::new());
    let object_only = BVH::new(prims.clone(), BuildConfig::new().spatial(false));
    for ray in random_rays(40, 123) {
        let h1 = with_spatial.hit(&ray, wide());
        let h2 = object_only.hit(&ray, wide());
        match (h1, h2) {
            (None, None) => {}
            (Some(a), Some(b)) => assert!(rat_equal(a.t, b.t)),
            _ => panic!("the two builds disagree on a hit"),
        }
    }
}

#[test]
fn test_buckets_shapes() {
    let prims = random_scene(10, 42);
    let mut indices = Vec::new();
    for i in 0..prims.len() {
        indices.push(i);
    }
    let config = BuildConfig::new();
    let root_aabb = {
        let mut boxes = Vec::new();
        for p in &prims {
            boxes.push(AABB::from_corners(p.min, p.max));
        }
        AABB::union(&boxes)
    };
    let builder = Builder {
        root_aabb,
        primitives: &prims,
        config,
    };
    let object = builder.object_buckets(&indices);
    assert!(1 <= object.len() && object.len() <= 3);
    for set in &object {
        assert_eq!(set.aabbs.len(), config.n_buckets);
        assert_eq!(set.first.len(), indices.len());
        assert_eq!(set.last.len(), indices.len());
        for p in 0..indices.len() {
            assert!(set.first[p] <= set.last[p]);
            assert!(set.last[p] < config.n_buckets);
        }
    }
    let spatial = builder.spatial_buckets(&indices, root_aabb);
    assert!(1 <= spatial.len() && spatial.len() <= 3);
    for set in &spatial {
        assert_eq!(set.aabbs.len(), config.n_buckets);
        for p in 0..indices.len() {
            assert!(set.first[p] <= set.last[p]);
            assert!(set.last[p] < config.n_buckets);
        }
    }
}

#[test]
fn test_hit_list_narrows_to_nearest() {
    let mut list = HitList::new();
    list.add(BoxPrim::new(v(10, -1, -1), v(12, 1, 1), 0));
    list.add(BoxPrim::new(v(4, -1, -1), v(6, 1, 1), 1));
    list.add(BoxPrim::new(v(20, -1, -1), v(22, 1, 1), 2));
    let ray = Ray::new(v(0, 0, 0), v(1, 0, 0));
    let hit = list.hit(&ray, wide()).expect("three boxes ahead");
    assert!(rat_equal(hit.t, Rat::of_int(4)));
    assert_eq!(hit.material, 1);
    let mut cleared = list;
    cleared.clear();
    assert!(cleared.hit(&ray, wide()).is_none());
}

#[test]
fn test_bvh_over_compound_lists() {
    // A list of primitives is itself a primitive: group the scene into
    // compound lists, build the hierarchy over the groups, and check it
    // against a flat scan over all the boxes.
    let prims = random_scene(24, 5);
    let mut groups: Vec<HitList<BoxPrim>> = Vec::new();
    for chunk in prims.chunks(6) {
        let mut group = HitList::new();
        for p in chunk {
            group.add(*p);
        }
        groups.push(group);
    }
    let bvh = BVH::new(groups, BuildConfig::new());
    let mut flat = HitList::new();
    for p in &prims {
        flat.add(*p);
    }
    for ray in random_rays(40, 77) {
        let h1 = bvh.hit(&ray, wide());
        let h2 = flat.hit(&ray, wide());
        match (h1, h2) {
            (None, None) => {}
            (Some(a), Some(b)) => assert!(rat_equal(a.t, b.t)),
            _ => panic!("grouping the scene changed a hit"),
        }
    }
}
