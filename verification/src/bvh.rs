//! The bounding volume hierarchy: a surface-area-heuristic builder with
//! object and spatial splits, and a stack-based traversal proved to return
//! the nearest hit.

use vstd::prelude::*;

use crate::aabb::{
    aabb_subset, aabb_wf, lemma_subset_trans, lemma_time_in_box_subset,
    lemma_union2_subset, lemma_union2_wf, lemma_slab_complete, spec_empty, spec_union2, AABB,
};
use crate::hit::{Hit, HitRecord};
use crate::hit_list::{best_hit, genuine_hit, lemma_best_hit_unique, lemma_scan_spec_best,
    prims_inv, scan_spec};
use crate::interval::{interval_wf, spec_surrounds, Interval};
use crate::rat::{
    lemma_mul_bounds, lemma_rat_lt_le_trans, lemma_rat_total, rat_eq,
    rat_finite, rat_le, rat_lt,
};
use crate::ray::{ray_wf, Ray};
use crate::vec3::{axis_coord, vec_wf, Axis, Vec3, COORD_LIMIT};

verus! {

/// The most primitives a hierarchy may be built over; keeps every cost
/// product inside its machine type.
pub const MAX_PRIMS: usize = 1_000_000_000;

/// The most buckets a build configuration may ask for.
pub const MAX_BUCKETS: usize = 65536;

/// An axis-aligned plane: a split candidate during spatial splitting.
#[derive(Clone, Copy, PartialEq, Eq, Structural, Debug)]
pub struct Plane {
    pub axis: Axis,
    pub pos: i64,
}

/// The tunable constants of the builder. The cost model is fixed: a split
/// step costs one eighth of one primitive test. A spatial split is attempted
/// when the two object-split children overlap by more than `alpha_num /
/// alpha_den` of the root surface area, and only when `spatial` is set.
#[derive(Clone, Copy, PartialEq, Eq, Structural, Debug)]
pub struct BuildConfig {
    pub n_buckets: usize,
    pub spatial: bool,
    pub alpha_num: u64,
    pub alpha_den: u64,
}

/// Bucket count and overlap threshold are in range.
pub open spec fn config_wf(c: BuildConfig) -> bool {
    &&& 2 <= c.n_buckets <= MAX_BUCKETS
    &&& 1 <= c.alpha_den <= 1_000_000_000
    &&& c.alpha_num <= 1_000_000_000
}

impl BuildConfig {
    /// The default configuration: 32 buckets, spatial splits on, overlap
    /// threshold one millionth of the root surface area.
    pub fn new() -> (r: BuildConfig)
        ensures
            r == (BuildConfig {
                n_buckets: 32usize,
                spatial: true,
                alpha_num: 1u64,
                alpha_den: 1_000_000u64,
            }),
            config_wf(r),
    {
        BuildConfig { n_buckets: 32, spatial: true, alpha_num: 1, alpha_den: 1_000_000 }
    }

    /// This configuration with spatial splits switched on or off.
    pub fn spatial(self, spatial: bool) -> (r: BuildConfig)
        ensures
            r == (BuildConfig { spatial, ..self }),
    {
        BuildConfig { spatial, ..self }
    }
}

/// One node of the flattened hierarchy. The children of a `Split` at
/// position `i` are at `i + 1` and `i + skip`.
#[derive(Debug, PartialEq)]
pub enum Node {
    Split { aabb: AABB, axis: Axis, skip: usize },
    Leaf { aabb: AABB, indices: Vec<usize> },
}

/// The bounding box stored in a node.
pub open spec fn node_aabb(n: Node) -> AABB {
    match n {
        Node::Split { aabb, .. } => aabb,
        Node::Leaf { aabb, .. } => aabb,
    }
}

impl Node {
    /// The bounding box stored in this node.
    pub fn aabb(&self) -> (b: AABB)
        ensures
            b == node_aabb(*self),
    {
        match self {
            Node::Split { aabb, .. } => *aabb,
            Node::Leaf { aabb, .. } => *aabb,
        }
    }
}

/// The set of primitive indices a sequence of position indices names.
pub open spec fn idx_set(s: Seq<usize>) -> Set<int> {
    Set::new(|p: int| exists|k: int| 0 <= k < s.len() && (#[trigger] s[k]) as int == p)
}

/// The nodes from `i` up to `end` form one well-laid-out subtree: a leaf
/// fills exactly one slot and names only real primitives, and a split node's
/// two children tile the rest of the range, the near one starting right
/// after it and the far one at offset `skip`.
pub open spec fn wf_at(nodes: Seq<Node>, nprims: int, i: int, end: int) -> bool
    decreases end - i,
{
    &&& 0 <= i < end <= nodes.len()
    &&& match nodes[i] {
        Node::Leaf { aabb, indices } => {
            &&& end == i + 1
            &&& aabb_wf(aabb)
            &&& forall|k: int| 0 <= k < indices@.len() ==> (#[trigger] indices@[k]) < nprims
        },
        Node::Split { aabb, axis, skip } => {
            &&& aabb_wf(aabb)
            &&& 2 <= skip
            &&& i + skip < end
            &&& wf_at(nodes, nprims, i + 1, i + skip)
            &&& wf_at(nodes, nprims, i + skip, end)
        },
    }
}

/// The primitive indices named anywhere in the subtree at `[i, end)`.
pub open spec fn tree_prims(nodes: Seq<Node>, i: int, end: int) -> Set<int>
    decreases end - i,
{
    if !(0 <= i < end <= nodes.len()) {
        Set::empty()
    } else {
        match nodes[i] {
            Node::Leaf { indices, .. } => idx_set(indices@),
            Node::Split { skip, .. } => if i + 1 < i + skip < end {
                tree_prims(nodes, i + 1, i + skip).union(tree_prims(nodes, i + skip, end))
            } else {
                Set::empty()
            },
        }
    }
}

/// The box `b` encloses the boxes of all the primitives in `s`.
pub open spec fn covers<P: Hit>(prims: Seq<P>, b: AABB, s: Set<int>) -> bool {
    forall|j: int|
        #[trigger] s.contains(j) ==> 0 <= j < prims.len() && aabb_subset(prims[j].aabb_spec(), b)
}

/// Every node's box encloses the boxes of all the primitives in its subtree.
pub open spec fn tree_bounds_ok<P: Hit>(prims: Seq<P>, nodes: Seq<Node>, i: int, end: int) -> bool
    decreases end - i,
{
    &&& 0 <= i < end <= nodes.len()
    &&& covers(prims, node_aabb(nodes[i]), tree_prims(nodes, i, end))
    &&& match nodes[i] {
        Node::Leaf { .. } => true,
        Node::Split { skip, .. } => if i + 1 < i + skip < end {
            tree_bounds_ok(prims, nodes, i + 1, i + skip) && tree_bounds_ok(
                prims,
                nodes,
                i + skip,
                end,
            )
        } else {
            false
        },
    }
}

/// A subtree's layout, primitive set and coverage read the same wherever the
/// same run of nodes sits in an array.
proof fn lemma_tree_local<P: Hit>(
    prims: Seq<P>,
    s1: Seq<Node>,
    s2: Seq<Node>,
    nprims: int,
    i1: int,
    i2: int,
    len: int,
)
    requires
        1 <= len,
        0 <= i1,
        i1 + len <= s1.len(),
        0 <= i2,
        i2 + len <= s2.len(),
        forall|k: int| 0 <= k < len ==> #[trigger] s1[i1 + k] == s2[i2 + k],
        wf_at(s1, nprims, i1, i1 + len),
    ensures
        wf_at(s2, nprims, i2, i2 + len),
        tree_prims(s2, i2, i2 + len) == tree_prims(s1, i1, i1 + len),
        tree_bounds_ok(prims, s1, i1, i1 + len) ==> tree_bounds_ok(prims, s2, i2, i2 + len),
    decreases len,
{
    assert(s1[i1 + 0] == s2[i2 + 0]);
    match s1[i1] {
        Node::Leaf { .. } => {
        },
        Node::Split { skip, .. } => {
            let skip = skip as int;
            assert forall|k: int| 0 <= k < skip - 1 implies #[trigger] s1[(i1 + 1) + k] == s2[(i2
                + 1) + k] by {
                assert(s1[i1 + (k + 1)] == s2[i2 + (k + 1)]);
            }
            assert forall|k: int| 0 <= k < len - skip implies #[trigger] s1[(i1 + skip) + k]
                == s2[(i2 + skip) + k] by {
                assert(s1[i1 + (skip + k)] == s2[i2 + (skip + k)]);
            }
            lemma_tree_local(prims, s1, s2, nprims, i1 + 1, i2 + 1, skip - 1);
            lemma_tree_local(prims, s1, s2, nprims, i1 + skip, i2 + skip, len - skip);
        },
    }
}

/// A per-axis bucketing of one index set: one union box per bucket, and for
/// each position of the index list the first and last bucket it belongs to.
pub struct Buckets {
    pub axis: Axis,
    pub aabbs: Vec<AABB>,
    pub first: Vec<usize>,
    pub last: Vec<usize>,
}

/// The bucket boxes are well formed, the membership arrays run parallel to
/// the index list, and each membership range is an in-range bucket interval.
pub open spec fn buckets_wf(bk: Buckets, n_idx: int, nb: int) -> bool {
    &&& bk.aabbs@.len() == nb
    &&& bk.first@.len() == n_idx
    &&& bk.last@.len() == n_idx
    &&& forall|p: int|
        0 <= p < n_idx ==> (#[trigger] bk.first@[p]) <= bk.last@[p] && bk.last@[p] < nb
    &&& forall|q: int| 0 <= q < nb ==> aabb_wf(#[trigger] bk.aabbs@[q])
}

/// The centroid a primitive is bucketed by: the centroid of its bounding
/// box, or the origin for a primitive whose box is empty.
pub open spec fn cent_of<P: Hit>(prims: Seq<P>, idx: int) -> Vec3 {
    match crate::aabb::spec_centroid(prims[idx].aabb_spec()) {
        Some(c) => c,
        None => Vec3 { x: 0i64, y: 0i64, z: 0i64 },
    }
}

/// The centroids of the primitives an index list names, in list order.
pub open spec fn cents_of<P: Hit>(prims: Seq<P>, indices: Seq<usize>) -> Seq<Vec3> {
    Seq::new(indices.len(), |p: int| cent_of(prims, indices[p] as int))
}

/// The bounds of the centroids of the primitives an index list names: the
/// region an object bucketing divides.
pub open spec fn cent_bounds<P: Hit>(prims: Seq<P>, indices: Seq<usize>) -> AABB {
    crate::aabb::spec_bounding_box(cents_of(prims, indices))
}

/// The box of object bucket `q`: the union, in list order, of the full boxes
/// of the indices whose centroid falls into that bucket.
pub open spec fn object_bucket_box<P: Hit>(
    prims: Seq<P>,
    indices: Seq<usize>,
    a: Axis,
    n: int,
    lo: int,
    hi: int,
    q: int,
) -> AABB
    decreases indices.len(),
{
    if indices.len() == 0 {
        spec_empty()
    } else {
        let rest = object_bucket_box(prims, indices.drop_last(), a, n, lo, hi, q);
        let idx = indices.last() as int;
        if spec_choose_bucket(n, lo, hi, axis_coord(cent_of(prims, idx), a)) == q {
            spec_union2(rest, prims[idx].aabb_spec())
        } else {
            rest
        }
    }
}

/// What an object bucketing promises: the axis extent of the centroid bounds
/// is not degenerate, every index sits in exactly the bucket of its centroid,
/// and every bucket box is the union of its members' full boxes.
pub open spec fn object_set_ok<P: Hit>(
    prims: Seq<P>,
    indices: Seq<usize>,
    set: Buckets,
    n: int,
) -> bool {
    let cb = cent_bounds(prims, indices);
    let lo = axis_coord(cb.min, set.axis);
    let hi = axis_coord(cb.max, set.axis);
    &&& lo < hi
    &&& forall|p: int|
        0 <= p < indices.len() ==> (#[trigger] set.first@[p]) == set.last@[p]
            && set.first@[p] as int == spec_choose_bucket(
            n,
            lo,
            hi,
            axis_coord(cent_of(prims, indices[p] as int), set.axis),
        )
    &&& forall|q: int|
        0 <= q < n ==> (#[trigger] set.aabbs@[q]) == object_bucket_box(prims, indices, set.axis,
            n, lo, hi, q)
}

/// The bucket range of one primitive in a spatial bucketing along one axis:
/// from the bucket of the box's low coordinate to the bucket of its high
/// coordinate, never backwards.
pub open spec fn spec_spatial_range<P: Hit>(
    prims: Seq<P>,
    idx: int,
    a: Axis,
    n: int,
    lo: int,
    hi: int,
) -> (int, int) {
    let pa = prims[idx].aabb_spec();
    let f = spec_choose_bucket(n, lo, hi, axis_coord(pa.min, a));
    let l = spec_choose_bucket(n, lo, hi, axis_coord(pa.max, a));
    if l < f {
        (f, f)
    } else {
        (f, l)
    }
}

/// Cutting `[lo, hi]` into `n` parts: the position of the boundary between
/// bucket `b - 1` and bucket `b`.
pub open spec fn spec_bucket_boundary(n: int, lo: int, hi: int, b: int) -> int {
    lo + ((hi - lo) * b) / n
}

/// The box of spatial bucket `q`: the union, in list order, over the indices
/// whose bucket range reaches `q`, of each one's box clipped to bucket `q`'s
/// boundaries.
pub open spec fn spatial_bucket_box<P: Hit>(
    prims: Seq<P>,
    indices: Seq<usize>,
    a: Axis,
    n: int,
    lo: int,
    hi: int,
    q: int,
) -> AABB
    decreases indices.len(),
{
    if indices.len() == 0 {
        spec_empty()
    } else {
        let rest = spatial_bucket_box(prims, indices.drop_last(), a, n, lo, hi, q);
        let idx = indices.last() as int;
        let range = spec_spatial_range(prims, idx, a, n, lo, hi);
        if range.0 <= q <= range.1 {
            spec_union2(
                rest,
                prims[idx].clipped_spec(
                    a,
                    spec_bucket_boundary(n, lo, hi, q),
                    spec_bucket_boundary(n, lo, hi, q + 1),
                ),
            )
        } else {
            rest
        }
    }
}

/// What a spatial bucketing promises: the axis extent of the bounds is not
/// degenerate, every index covers exactly the buckets its box extent reaches,
/// and every bucket box is the union of its members' boxes clipped to the
/// bucket's boundaries.
pub open spec fn spatial_set_ok<P: Hit>(
    prims: Seq<P>,
    indices: Seq<usize>,
    bounds: AABB,
    set: Buckets,
    n: int,
) -> bool {
    let lo = axis_coord(bounds.min, set.axis);
    let hi = axis_coord(bounds.max, set.axis);
    &&& lo < hi
    &&& forall|p: int|
        0 <= p < indices.len() ==> ((#[trigger] set.first@[p]) as int, set.last@[p] as int)
            == spec_spatial_range(prims, indices[p] as int, set.axis, n, lo, hi)
    &&& forall|q: int|
        0 <= q < n ==> (#[trigger] set.aabbs@[q]) == spatial_bucket_box(prims, indices, set.axis,
            n, lo, hi, q)
}

/// The bucket that position `t` falls into when `[lo, hi]` is cut into `n`
/// equal parts, clamped to the ends.
pub open spec fn spec_choose_bucket(n: int, lo: int, hi: int, t: int) -> int {
    if t <= lo {
        0
    } else if t >= hi {
        n - 1
    } else {
        let i = (n * (t - lo)) / (hi - lo);
        if i >= n {
            n - 1
        } else {
            i
        }
    }
}

/// The bucket that position `t` falls into.
fn choose_bucket(n: usize, lo: i64, hi: i64, t: i64) -> (b: usize)
    requires
        2 <= n <= MAX_BUCKETS,
        -COORD_LIMIT <= lo <= COORD_LIMIT,
        -COORD_LIMIT <= hi <= COORD_LIMIT,
        -COORD_LIMIT <= t <= COORD_LIMIT,
        lo < hi,
    ensures
        b as int == spec_choose_bucket(n as int, lo as int, hi as int, t as int),
        b < n,
{
    if t <= lo {
        0
    } else if t >= hi {
        n - 1
    } else {
        proof {
            lemma_mul_bounds(n as int, (t - lo) as int, MAX_BUCKETS as int, 2 * COORD_LIMIT
                as int);
        }
        let num: u64 = (n as u64) * ((t - lo) as u64);
        let den: u64 = (hi - lo) as u64;
        let i: u64 = num / den;
        proof {
            vstd::arithmetic::div_mod::lemma_div_nonincreasing(num as int, den as int);
            vstd::arithmetic::div_mod::lemma_div_pos_is_pos(num as int, den as int);
        }
        if i >= n as u64 {
            n - 1
        } else {
            i as usize
        }
    }
}

/// Cutting `[lo, hi]` into `n` parts: the boundary between bucket `b - 1`
/// and bucket `b`.
fn bucket_boundary(n: usize, lo: i64, hi: i64, b: usize) -> (r: i64)
    requires
        2 <= n <= MAX_BUCKETS,
        -COORD_LIMIT <= lo <= COORD_LIMIT,
        -COORD_LIMIT <= hi <= COORD_LIMIT,
        lo < hi,
        b <= n,
    ensures
        lo <= r <= hi,
        r as int == spec_bucket_boundary(n as int, lo as int, hi as int, b as int),
{
    proof {
        lemma_mul_bounds((hi - lo) as int, b as int, 2 * COORD_LIMIT as int, MAX_BUCKETS as int);
    }
    let num: u64 = ((hi - lo) as u64) * (b as u64);
    let den: u64 = n as u64;
    let step: u64 = num / den;
    proof {
        vstd::arithmetic::div_mod::lemma_div_pos_is_pos(num as int, den as int);
        // The step stays within the range: (hi - lo) * b <= (hi - lo) * n.
        crate::rat::lemma_mul_le(b as int, n as int, (hi - lo) as int);
        assert(b * ((hi - lo) as int) == ((hi - lo) as int) * b) by {
            crate::rat::lemma_mul_basics(0);
            vstd::arithmetic::mul::lemma_mul_is_commutative(b as int, (hi - lo) as int);
        }
        assert(num as int <= (hi - lo) * n) by {
            vstd::arithmetic::mul::lemma_mul_is_commutative(n as int, (hi - lo) as int);
        }
        vstd::arithmetic::div_mod::lemma_div_multiples_vanish(
            (hi - lo) as int,
            n as int,
        );
        vstd::arithmetic::div_mod::lemma_div_is_ordered(num as int, (hi - lo) * (n as int), n
            as int);
        assert((n as int) * ((hi - lo) as int) == ((hi - lo) as int) * (n as int)) by {
            vstd::arithmetic::mul::lemma_mul_is_commutative(n as int, (hi - lo) as int);
        }
    }
    lo + (step as i64)
}

/// The union of the boxes of the primitives that `indices` names; it
/// encloses each of them.
fn subset_aabb<P: Hit>(prims: &Vec<P>, indices: &Vec<usize>) -> (r: AABB)
    requires
        prims_inv(prims@),
        forall|k: int| 0 <= k < indices@.len() ==> (#[trigger] indices@[k]) < prims@.len(),
    ensures
        aabb_wf(r),
        forall|k: int|
            0 <= k < indices@.len() ==> aabb_subset(
                prims@[#[trigger] indices@[k] as int].aabb_spec(),
                r,
            ),
        indices@.len() == 0 ==> r == spec_empty(),
{
    let mut acc = AABB::new();
    let mut i: usize = 0;
    while i < indices.len()
        invariant
            prims_inv(prims@),
            forall|k: int| 0 <= k < indices@.len() ==> (#[trigger] indices@[k]) < prims@.len(),
            0 <= i <= indices.len(),
            aabb_wf(acc),
            indices@.len() == 0 ==> acc == spec_empty(),
            forall|k: int|
                0 <= k < i ==> aabb_subset(prims@[#[trigger] indices@[k] as int].aabb_spec(), acc),
        decreases indices.len() - i,
    {
        let idx = indices[i];
        let b = prims[idx].aabb();
        proof {
            prims@[idx as int].lemma_aabb_wf();
            lemma_union2_wf(acc, b);
            lemma_union2_subset(acc, b);
            assert forall|k: int| 0 <= k < i implies aabb_subset(
                prims@[#[trigger] indices@[k] as int].aabb_spec(),
                spec_union2(acc, b),
            ) by {
                lemma_subset_trans(prims@[indices@[k] as int].aabb_spec(), acc, spec_union2(acc,
                    b));
            }
        }
        acc = AABB::union2(acc, b);
        i = i + 1;
    }
    acc
}

/// The left side of a split at bucket `k`: the indices, in list order,
/// whose membership range starts below `k`.
pub open spec fn side_below(indices: Seq<usize>, first: Seq<usize>, k: int) -> Seq<usize>
    decreases indices.len(),
{
    if indices.len() == 0 {
        Seq::empty()
    } else {
        let rest = side_below(indices.drop_last(), first.drop_last(), k);
        if (first.last() as int) < k {
            rest.push(indices.last())
        } else {
            rest
        }
    }
}

/// The right side of a split at bucket `k`: the indices, in list order,
/// whose membership range reaches `k`.
pub open spec fn side_from(indices: Seq<usize>, last: Seq<usize>, k: int) -> Seq<usize>
    decreases indices.len(),
{
    if indices.len() == 0 {
        Seq::empty()
    } else {
        let rest = side_from(indices.drop_last(), last.drop_last(), k);
        if (last.last() as int) >= k {
            rest.push(indices.last())
        } else {
            rest
        }
    }
}

/// Splits the index list at bucket `k`: the left side is every index whose
/// membership starts below `k`, the right side every index whose membership
/// reaches `k`. Together the two sides cover the list.
fn split_indices(indices: &Vec<usize>, first: &Vec<usize>, last: &Vec<usize>, k: usize) -> (res: (
    Vec<usize>,
    Vec<usize>,
))
    requires
        first@.len() == indices@.len(),
        last@.len() == indices@.len(),
        forall|p: int| 0 <= p < indices@.len() ==> (#[trigger] first@[p]) <= last@[p],
    ensures
        res.0@ == side_below(indices@, first@, k as int),
        res.1@ == side_from(indices@, last@, k as int),
        forall|v: usize| res.0@.contains(v) ==> indices@.contains(v),
        forall|v: usize| res.1@.contains(v) ==> indices@.contains(v),
        forall|p: int|
            0 <= p < indices@.len() ==> res.0@.contains(#[trigger] indices@[p])
                || res.1@.contains(indices@[p]),
{
    let mut lhs: Vec<usize> = Vec::new();
    let mut rhs: Vec<usize> = Vec::new();
    let mut i: usize = 0;
    while i < indices.len()
        invariant
            first@.len() == indices@.len(),
            last@.len() == indices@.len(),
            forall|p: int| 0 <= p < indices@.len() ==> (#[trigger] first@[p]) <= last@[p],
            0 <= i <= indices.len(),
            forall|v: usize| lhs@.contains(v) ==> indices@.contains(v),
            forall|v: usize| rhs@.contains(v) ==> indices@.contains(v),
            forall|p: int|
                0 <= p < i ==> lhs@.contains(#[trigger] indices@[p]) || rhs@.contains(
                    indices@[p],
                ),
            lhs@ == side_below(indices@.take(i as int), first@.take(i as int), k as int),
            rhs@ == side_from(indices@.take(i as int), last@.take(i as int), k as int),
        decreases indices.len() - i,
    {
        let v = indices[i];
        proof {
            assert(indices@[i as int] == v);
            assert(indices@.contains(v));
            assert(indices@.take(i + 1 as int).drop_last() =~= indices@.take(i as int));
            assert(first@.take(i + 1 as int).drop_last() =~= first@.take(i as int));
            assert(last@.take(i + 1 as int).drop_last() =~= last@.take(i as int));
            assert(indices@.take(i + 1 as int).last() == v);
            assert(first@.take(i + 1 as int).last() == first@[i as int]);
            assert(last@.take(i + 1 as int).last() == last@[i as int]);
        }
        let ghost old_l = lhs@;
        let ghost old_r = rhs@;
        if first[i] < k {
            lhs.push(v);
            proof {
                assert(lhs@.last() == v);
                assert(lhs@.contains(v));
            }
        }
        if last[i] >= k {
            rhs.push(v);
            proof {
                assert(rhs@.last() == v);
                assert(rhs@.contains(v));
            }
        }
        proof {
            assert forall|x: usize| old_l.contains(x) implies lhs@.contains(x) by {
                let kk = choose|kk: int| 0 <= kk < old_l.len() && old_l[kk] == x;
                assert(lhs@[kk] == x);
            }
            assert forall|x: usize| old_r.contains(x) implies rhs@.contains(x) by {
                let kk = choose|kk: int| 0 <= kk < old_r.len() && old_r[kk] == x;
                assert(rhs@[kk] == x);
            }
            assert forall|v2: usize| lhs@.contains(v2) implies indices@.contains(v2) by {
                let kk = choose|kk: int| 0 <= kk < lhs@.len() && lhs@[kk] == v2;
                if kk < old_l.len() {
                    assert(old_l[kk] == v2);
                    assert(old_l.contains(v2));
                }
            }
            assert forall|v2: usize| rhs@.contains(v2) implies indices@.contains(v2) by {
                let kk = choose|kk: int| 0 <= kk < rhs@.len() && rhs@[kk] == v2;
                if kk < old_r.len() {
                    assert(old_r[kk] == v2);
                    assert(old_r.contains(v2));
                }
            }
            assert(first@[i as int] < k || last@[i as int] >= k);
        }
        i = i + 1;
    }
    proof {
        assert(indices@.take(indices@.len() as int) =~= indices@);
        assert(first@.take(first@.len() as int) =~= first@);
        assert(last@.take(last@.len() as int) =~= last@);
    }
    (lhs, rhs)
}

/// Counts the indices on each side of a split at bucket `k`.
fn count_sides(first: &Vec<usize>, last: &Vec<usize>, k: usize) -> (res: (usize, usize))
    requires
        first@.len() == last@.len(),
    ensures
        res.0 <= first@.len(),
        res.1 <= first@.len(),
        res.0 as int == count_below(first@, k as int),
        res.1 as int == count_from(last@, k as int),
{
    let mut na: usize = 0;
    let mut nb: usize = 0;
    let mut i: usize = 0;
    while i < first.len()
        invariant
            first@.len() == last@.len(),
            0 <= i <= first@.len(),
            na <= i,
            nb <= i,
            na as int == count_below(first@.take(i as int), k as int),
            nb as int == count_from(last@.take(i as int), k as int),
        decreases first@.len() - i,
    {
        proof {
            assert(first@.take(i + 1 as int).drop_last() =~= first@.take(i as int));
            assert(first@.take(i + 1 as int).last() == first@[i as int]);
            assert(last@.take(i + 1 as int).drop_last() =~= last@.take(i as int));
            assert(last@.take(i + 1 as int).last() == last@[i as int]);
        }
        if first[i] < k {
            na = na + 1;
        }
        if last[i] >= k {
            nb = nb + 1;
        }
        i = i + 1;
    }
    proof {
        assert(first@.take(first@.len() as int) =~= first@);
        assert(last@.take(last@.len() as int) =~= last@);
    }
    (na, nb)
}


/// The union of the bucket boxes from position `from` up to `to`.
pub open spec fn spec_union_range(aabbs: Seq<AABB>, from: int, to: int) -> AABB
    decreases to - from,
{
    if from >= to {
        spec_empty()
    } else {
        spec_union2(spec_union_range(aabbs, from, to - 1), aabbs[to - 1])
    }
}

/// How many membership ranges start below bucket `k`: the size of the left
/// side of a split at `k`.
pub open spec fn count_below(first: Seq<usize>, k: int) -> int
    decreases first.len(),
{
    if first.len() == 0 {
        0
    } else {
        count_below(first.drop_last(), k) + if (first.last() as int) < k {
            1int
        } else {
            0int
        }
    }
}

/// How many membership ranges reach bucket `k`: the size of the right side
/// of a split at `k`.
pub open spec fn count_from(last: Seq<usize>, k: int) -> int
    decreases last.len(),
{
    if last.len() == 0 {
        0
    } else {
        count_from(last.drop_last(), k) + if (last.last() as int) >= k {
            1int
        } else {
            0int
        }
    }
}

/// The cost numerator of splitting a bucketing of `nb` buckets at bucket
/// `k`: each side's membership count times the surface area of the union of
/// its bucket boxes.
pub open spec fn spec_split_cost(set: Buckets, k: int, nb: int) -> int {
    count_below(set.first@, k) * crate::aabb::spec_surface_area(
        spec_union_range(set.aabbs@, 0, k),
    ) + count_from(set.last@, k) * crate::aabb::spec_surface_area(
        spec_union_range(set.aabbs@, k, nb),
    )
}

/// The union of a contiguous run of bucket boxes.
fn union_range(aabbs: &Vec<AABB>, from: usize, to: usize) -> (r: AABB)
    requires
        from <= to <= aabbs@.len(),
        forall|q: int| 0 <= q < aabbs@.len() ==> aabb_wf(#[trigger] aabbs@[q]),
    ensures
        aabb_wf(r),
        r == spec_union_range(aabbs@, from as int, to as int),
{
    let mut acc = AABB::new();
    let mut i: usize = from;
    while i < to
        invariant
            from <= i <= to <= aabbs@.len(),
            forall|q: int| 0 <= q < aabbs@.len() ==> aabb_wf(#[trigger] aabbs@[q]),
            aabb_wf(acc),
            acc == spec_union_range(aabbs@, from as int, i as int),
        decreases to - i,
    {
        proof {
            lemma_union2_wf(acc, aabbs@[i as int]);
        }
        acc = AABB::union2(acc, aabbs[i]);
        i = i + 1;
    }
    acc
}

/// The candidate `(si, k)` is a real split point of the offered bucketings,
/// and `cost`, `la` and `ra` are exactly its cost numerator and side boxes.
pub open spec fn split_candidate_ok(
    sets: Seq<Buckets>,
    nb: int,
    si: int,
    k: int,
    cost: int,
    la: AABB,
    ra: AABB,
) -> bool {
    &&& 0 <= si < sets.len()
    &&& 1 <= k < nb
    &&& la == spec_union_range(sets[si].aabbs@, 0, k)
    &&& ra == spec_union_range(sets[si].aabbs@, k, nb)
    &&& cost == spec_split_cost(sets[si], k, nb)
}

/// Finds the cheapest split point over all offered bucketings: the bucketing
/// it belongs to, the split bucket, the cost numerator
/// `nA * area(A) + nB * area(B)`, and the two sides' boxes. The returned
/// cost is least over every bucketing and split point offered.
fn best_split(indices: &Vec<usize>, sets: &Vec<Buckets>, nb: usize) -> (res: Option<
    (usize, usize, i128, AABB, AABB),
>)
    requires
        indices@.len() <= MAX_PRIMS,
        2 <= nb <= MAX_BUCKETS,
        forall|s: int|
            0 <= s < sets@.len() ==> buckets_wf(#[trigger] sets@[s], indices@.len() as int,
                nb as int),
    ensures
        match res {
            None => sets@.len() == 0,
            Some((si, k, cost, la, ra)) => {
                &&& split_candidate_ok(sets@, nb as int, si as int, k as int, cost as int, la, ra)
                &&& aabb_wf(la)
                &&& aabb_wf(ra)
                &&& 0 <= cost <= 48_000_000_000_000_000_000_000_000_000
                &&& forall|s2: int, k2: int|
                    0 <= s2 < sets@.len() && 1 <= k2 < nb ==> cost as int
                        <= #[trigger] spec_split_cost(sets@[s2], k2, nb as int)
            },
        },
{
    let mut best: Option<(usize, usize, i128, AABB, AABB)> = None;
    let mut si: usize = 0;
    while si < sets.len()
        invariant
            indices@.len() <= MAX_PRIMS,
            2 <= nb <= MAX_BUCKETS,
            forall|s: int|
                0 <= s < sets@.len() ==> buckets_wf(#[trigger] sets@[s], indices@.len() as int,
                    nb as int),
            0 <= si <= sets@.len(),
            si > 0 ==> best is Some,
            match best {
                None => true,
                Some((bsi, bk, bcost, bla, bra)) => {
                    &&& split_candidate_ok(sets@, nb as int, bsi as int, bk as int, bcost as int,
                        bla, bra)
                    &&& aabb_wf(bla)
                    &&& aabb_wf(bra)
                    &&& 0 <= bcost <= 48_000_000_000_000_000_000_000_000_000
                    &&& forall|s2: int, k2: int|
                        0 <= s2 < si && 1 <= k2 < nb ==> bcost as int
                            <= #[trigger] spec_split_cost(sets@[s2], k2, nb as int)
                },
            },
        decreases sets@.len() - si,
    {
        let set = &sets[si];
        let mut k: usize = 1;
        while k < nb
            invariant
                indices@.len() <= MAX_PRIMS,
                2 <= nb <= MAX_BUCKETS,
                forall|s: int|
                    0 <= s < sets@.len() ==> buckets_wf(#[trigger] sets@[s], indices@.len() as int,
                        nb as int),
                0 <= si < sets@.len(),
                set == &sets[si as int],
                1 <= k <= nb,
                k > 1 ==> best is Some,
                si > 0 ==> best is Some,
                match best {
                    None => true,
                    Some((bsi, bk, bcost, bla, bra)) => {
                        &&& split_candidate_ok(sets@, nb as int, bsi as int, bk as int,
                            bcost as int, bla, bra)
                        &&& aabb_wf(bla)
                        &&& aabb_wf(bra)
                        &&& 0 <= bcost <= 48_000_000_000_000_000_000_000_000_000
                        &&& forall|s2: int, k2: int|
                            0 <= s2 < si && 1 <= k2 < nb ==> bcost as int
                                <= #[trigger] spec_split_cost(sets@[s2], k2, nb as int)
                        &&& forall|k2: int|
                            1 <= k2 < k ==> bcost as int <= #[trigger] spec_split_cost(
                                sets@[si as int],
                                k2,
                                nb as int,
                            )
                    },
                },
            decreases nb - k,
        {
            let (na, nbn) = count_sides(&set.first, &set.last, k);
            let la = union_range(&set.aabbs, 0, k);
            let ra = union_range(&set.aabbs, k, set.aabbs.len());
            proof {
                crate::aabb::lemma_wf_bounded(la);
                crate::aabb::lemma_wf_bounded(ra);
            }
            let sa = la.surface_area();
            let sb = ra.surface_area();
            proof {
                lemma_mul_bounds(na as int, sa as int, MAX_PRIMS as int,
                    24_000_000_000_000_000_000);
                lemma_mul_bounds(nbn as int, sb as int, MAX_PRIMS as int,
                    24_000_000_000_000_000_000);
                crate::rat::lemma_mul_nonneg(na as int, sa as int);
                crate::rat::lemma_mul_nonneg(nbn as int, sb as int);
            }
            let cost: i128 = (na as i128) * sa + (nbn as i128) * sb;
            proof {
                assert(cost as int == spec_split_cost(sets@[si as int], k as int, nb as int));
            }
            let ghost old_best = best;
            let better = match best {
                None => true,
                Some((_, _, bcost, _, _)) => cost < bcost,
            };
            if better {
                best = Some((si, k, cost, la, ra));
            }
            proof {
                let (bsi, bk, bcost, bla, bra) = best->0;
                assert(split_candidate_ok(sets@, nb as int, bsi as int, bk as int, bcost as int,
                    bla, bra));
                assert forall|s2: int, k2: int| 0 <= s2 < si && 1 <= k2 < nb implies bcost as int
                    <= #[trigger] spec_split_cost(sets@[s2], k2, nb as int) by {
                    match old_best {
                        Some((osi, ok2, ocost, ola, ora)) => {
                            assert(ocost as int <= spec_split_cost(sets@[s2], k2, nb as int));
                            assert(bcost <= ocost);
                        },
                        None => {},
                    }
                }
                assert forall|k2: int| 1 <= k2 < k + 1 implies bcost as int
                    <= #[trigger] spec_split_cost(sets@[si as int], k2, nb as int) by {
                    if k2 == k as int {
                        assert(bcost <= cost);
                    } else {
                        match old_best {
                            Some((osi, ok2, ocost, ola, ora)) => {
                                assert(ocost as int <= spec_split_cost(sets@[si as int], k2,
                                    nb as int));
                                assert(bcost <= ocost);
                            },
                            None => {
                                assert(false);
                            },
                        }
                    }
                }
            }
            k = k + 1;
        }
        si = si + 1;
    }
    best
}

/// Recursively partitions index sets into the flattened node array.
pub struct Builder<'p, P> {
    pub root_aabb: AABB,
    pub primitives: &'p Vec<P>,
    pub config: BuildConfig,
}

/// The builder's own invariant: sound primitives, a bounded count, a sane
/// configuration, and a well-formed root box.
pub open spec fn builder_wf<P: Hit>(b: Builder<P>) -> bool {
    &&& prims_inv(b.primitives@)
    &&& b.primitives@.len() <= MAX_PRIMS
    &&& config_wf(b.config)
    &&& aabb_wf(b.root_aabb)
}

impl<'p, P: Hit> Builder<'p, P> {
    /// A builder over the given primitives: the root box is the union of all
    /// their boxes.
    fn new(primitives: &'p Vec<P>, config: BuildConfig, indices: &Vec<usize>) -> (r: Builder<
        'p,
        P,
    >)
        requires
            prims_inv(primitives@),
            primitives@.len() <= MAX_PRIMS,
            config_wf(config),
            forall|k: int| 0 <= k < indices@.len() ==> (#[trigger] indices@[k]) < primitives@.len(),
        ensures
            builder_wf(r),
            r.primitives == primitives,
            r.config == config,
    {
        let root_aabb = subset_aabb(primitives, indices);
        Builder { root_aabb, primitives, config }
    }

    /// Buckets the indices by the centroids of their boxes, once per
    /// non-degenerate axis of the centroid bounds.
    pub fn object_buckets(&self, indices: &Vec<usize>) -> (res: Vec<Buckets>)
        requires
            builder_wf(*self),
            forall|k: int|
                0 <= k < indices@.len() ==> (#[trigger] indices@[k]) < self.primitives@.len(),
        ensures
            res@.len() <= 3,
            forall|s: int|
                0 <= s < res@.len() ==> buckets_wf(#[trigger] res@[s], indices@.len() as int,
                    self.config.n_buckets as int),
            forall|s: int|
                0 <= s < res@.len() ==> object_set_ok(self.primitives@, indices@,
                    #[trigger] res@[s], self.config.n_buckets as int),
            forall|a: Axis|
                #[trigger] axis_coord(cent_bounds(self.primitives@, indices@).min, a) < axis_coord(
                    cent_bounds(self.primitives@, indices@).max,
                    a,
                ) <==> exists|s: int| 0 <= s < res@.len() && (#[trigger] res@[s]).axis == a,
    {
        let mut cents: Vec<Vec3> = Vec::new();
        let mut i: usize = 0;
        while i < indices.len()
            invariant
                builder_wf(*self),
                forall|k: int|
                    0 <= k < indices@.len() ==> (#[trigger] indices@[k]) < self.primitives@.len(),
                0 <= i <= indices@.len(),
                cents@.len() == i,
                forall|p: int| 0 <= p < i ==> vec_wf(#[trigger] cents@[p]),
                forall|p: int|
                    0 <= p < i ==> #[trigger] cents@[p] == cent_of(self.primitives@,
                        indices@[p] as int),
            decreases indices@.len() - i,
        {
            let idx = indices[i];
            proof {
                self.primitives@[idx as int].lemma_aabb_wf();
                crate::aabb::lemma_wf_bounded(self.primitives@[idx as int].aabb_spec());
            }
            let c = match self.primitives[idx].aabb().centroid() {
                Some(c) => c,
                None => Vec3 { x: 0, y: 0, z: 0 },
            };
            cents.push(c);
            i = i + 1;
        }
        proof {
            assert(cents@ =~= cents_of(self.primitives@, indices@));
        }
        let cb = AABB::bounding_box(&cents);
        proof {
            crate::aabb::lemma_bounding_box_wf(cents@);
            crate::aabb::lemma_wf_bounded(cb);
        }
        let mut out: Vec<Buckets> = Vec::new();
        let ghost mut xi: int = -1;
        let ghost mut yi: int = -1;
        let ghost mut zi: int = -1;
        let ox = self.object_axis(indices, &cents, cb, Axis::X);
        let oy = self.object_axis(indices, &cents, cb, Axis::Y);
        let oz = self.object_axis(indices, &cents, cb, Axis::Z);
        if let Some(bk) = ox {
            proof {
                xi = out@.len() as int;
            }
            out.push(bk);
        }
        if let Some(bk) = oy {
            proof {
                yi = out@.len() as int;
            }
            out.push(bk);
        }
        if let Some(bk) = oz {
            proof {
                zi = out@.len() as int;
            }
            out.push(bk);
        }
        proof {
            assert(cb == cent_bounds(self.primitives@, indices@));
            assert forall|a: Axis| #[trigger] axis_coord(cent_bounds(self.primitives@,
                indices@).min, a) < axis_coord(cent_bounds(self.primitives@, indices@).max, a)
                implies exists|s: int| 0 <= s < out@.len() && (#[trigger] out@[s]).axis == a by {
                match a {
                    Axis::X => {
                        assert(out@[xi].axis == Axis::X);
                    },
                    Axis::Y => {
                        assert(out@[yi].axis == Axis::Y);
                    },
                    Axis::Z => {
                        assert(out@[zi].axis == Axis::Z);
                    },
                }
            }
            assert forall|a: Axis| (exists|s: int|
                0 <= s < out@.len() && (#[trigger] out@[s]).axis == a) implies #[trigger]
            axis_coord(cent_bounds(self.primitives@, indices@).min, a) < axis_coord(
                cent_bounds(self.primitives@, indices@).max,
                a,
            ) by {
                let s = choose|s: int| 0 <= s < out@.len() && (#[trigger] out@[s]).axis == a;
                assert(object_set_ok(self.primitives@, indices@, out@[s],
                    self.config.n_buckets as int));
            }
        }
        out
    }

    /// One axis of the object bucketing: nothing when the centroid extent is
    /// degenerate along it.
    #[verifier::rlimit(30)]
    fn object_axis(&self, indices: &Vec<usize>, cents: &Vec<Vec3>, cb: AABB, a: Axis) -> (res:
        Option<Buckets>)
        requires
            builder_wf(*self),
            forall|k: int|
                0 <= k < indices@.len() ==> (#[trigger] indices@[k]) < self.primitives@.len(),
            cents@.len() == indices@.len(),
            forall|p: int| 0 <= p < cents@.len() ==> vec_wf(#[trigger] cents@[p]),
            cents@ == cents_of(self.primitives@, indices@),
            cb == crate::aabb::spec_bounding_box(cents@),
            vec_wf(cb.min),
            vec_wf(cb.max),
        ensures
            res is Some ==> buckets_wf(res->0, indices@.len() as int,
                self.config.n_buckets as int),
            res is Some ==> res->0.axis == a && object_set_ok(self.primitives@, indices@, res->0,
                self.config.n_buckets as int),
            res is None ==> !(axis_coord(cb.min, a) < axis_coord(cb.max, a)),
    {
        let n = self.config.n_buckets;
        let lo = cb.min.axis(a);
        let hi = cb.max.axis(a);
        if lo >= hi {
            return None;
        }
        let mut aabbs: Vec<AABB> = Vec::new();
        let mut q: usize = 0;
        while q < n
            invariant
                0 <= q <= n,
                aabbs@.len() == q,
                forall|w: int| 0 <= w < q ==> (#[trigger] aabbs@[w]) == spec_empty(),
            decreases n - q,
        {
            aabbs.push(AABB::new());
            q = q + 1;
        }
        proof {
            assert(indices@.take(0) =~= Seq::<usize>::empty());
            assert forall|w: int| 0 <= w < n implies (#[trigger] aabbs@[w]) == object_bucket_box(
                self.primitives@,
                indices@.take(0),
                a,
                n as int,
                lo as int,
                hi as int,
                w,
            ) by {}
        }
        let mut first: Vec<usize> = Vec::new();
        let mut last: Vec<usize> = Vec::new();
        let mut p: usize = 0;
        while p < indices.len()
            invariant
                builder_wf(*self),
                forall|k: int|
                    0 <= k < indices@.len() ==> (#[trigger] indices@[k]) < self.primitives@.len(),
                cents@.len() == indices@.len(),
                forall|w: int| 0 <= w < cents@.len() ==> vec_wf(#[trigger] cents@[w]),
                vec_wf(cb.min),
                vec_wf(cb.max),
                lo == axis_coord(cb.min, a),
                hi == axis_coord(cb.max, a),
                lo < hi,
                n == self.config.n_buckets,
                2 <= n <= MAX_BUCKETS,
                0 <= p <= indices@.len(),
                aabbs@.len() == n,
                forall|w: int| 0 <= w < n ==> aabb_wf(#[trigger] aabbs@[w]),
                first@.len() == p,
                last@.len() == p,
                forall|w: int|
                    0 <= w < p ==> (#[trigger] first@[w]) <= last@[w] && last@[w] < n,
                cents@ == cents_of(self.primitives@, indices@),
                forall|w: int|
                    0 <= w < p ==> (#[trigger] first@[w]) == last@[w] && first@[w] as int
                        == spec_choose_bucket(n as int, lo as int, hi as int, axis_coord(
                        cent_of(self.primitives@, indices@[w] as int),
                        a,
                    )),
                forall|q: int|
                    0 <= q < n ==> (#[trigger] aabbs@[q]) == object_bucket_box(self.primitives@,
                        indices@.take(p as int), a, n as int, lo as int, hi as int, q),
            decreases indices@.len() - p,
        {
            let idx = indices[p];
            let t = cents[p].axis(a);
            let b = choose_bucket(n, lo, hi, t);
            proof {
                self.primitives@[idx as int].lemma_aabb_wf();
                lemma_union2_wf(aabbs@[b as int], self.primitives@[idx as int].aabb_spec());
            }
            let pa = self.primitives[idx].aabb();
            let merged = AABB::union2(aabbs[b], pa);
            let ghost old_boxes = aabbs@;
            aabbs[b] = merged;
            proof {
                assert(indices@.take(p + 1 as int).drop_last() =~= indices@.take(p as int));
                assert(indices@.take(p + 1 as int).last() == indices@[p as int]);
                assert forall|q: int| 0 <= q < n implies (#[trigger] aabbs@[q])
                    == object_bucket_box(self.primitives@, indices@.take(p + 1 as int), a,
                    n as int, lo as int, hi as int, q) by {
                    if q == b as int {
                        assert(aabbs@[q] == spec_union2(old_boxes[q],
                            self.primitives@[idx as int].aabb_spec()));
                    } else {
                        assert(aabbs@[q] == old_boxes[q]);
                    }
                }
            }
            let ghost old_first = first@;
            let ghost old_last = last@;
            first.push(b);
            last.push(b);
            proof {
                assert(first@ == old_first.push(b) && last@ == old_last.push(b));
                assert(t as int == axis_coord(cent_of(self.primitives@, indices@[p as int] as int),
                    a));
                assert forall|w: int| 0 <= w < p + 1 implies (#[trigger] first@[w]) <= last@[w]
                    && last@[w] < n by {
                    if w < p {
                        assert(first@[w] == old_first[w] && last@[w] == old_last[w]);
                    } else {
                        assert(first@[w] == b && last@[w] == b);
                    }
                }
            }
            p = p + 1;
        }
        proof {
            assert(indices@.take(indices@.len() as int) =~= indices@);
        }
        Some(Buckets { axis: a, aabbs, first, last })
    }

    /// Buckets the indices by the clipped extents of their boxes, once per
    /// non-degenerate axis of the given bounds; a primitive lands in every
    /// bucket its extent overlaps, with its box clipped to each bucket.
    pub fn spatial_buckets(&self, indices: &Vec<usize>, bounds: AABB) -> (res: Vec<Buckets>)
        requires
            builder_wf(*self),
            forall|k: int|
                0 <= k < indices@.len() ==> (#[trigger] indices@[k]) < self.primitives@.len(),
            aabb_wf(bounds),
        ensures
            res@.len() <= 3,
            forall|s: int|
                0 <= s < res@.len() ==> buckets_wf(#[trigger] res@[s], indices@.len() as int,
                    self.config.n_buckets as int),
            forall|s: int|
                0 <= s < res@.len() ==> spatial_set_ok(self.primitives@, indices@, bounds,
                    #[trigger] res@[s], self.config.n_buckets as int),
            forall|a: Axis|
                #[trigger] axis_coord(bounds.min, a) < axis_coord(bounds.max, a) <==> exists|
                    s: int,
                | 0 <= s < res@.len() && (#[trigger] res@[s]).axis == a,
    {
        let mut out: Vec<Buckets> = Vec::new();
        let ghost mut xi: int = -1;
        let ghost mut yi: int = -1;
        let ghost mut zi: int = -1;
        let ox = self.spatial_axis(indices, bounds, Axis::X);
        let oy = self.spatial_axis(indices, bounds, Axis::Y);
        let oz = self.spatial_axis(indices, bounds, Axis::Z);
        if let Some(bk) = ox {
            proof {
                xi = out@.len() as int;
            }
            out.push(bk);
        }
        if let Some(bk) = oy {
            proof {
                yi = out@.len() as int;
            }
            out.push(bk);
        }
        if let Some(bk) = oz {
            proof {
                zi = out@.len() as int;
            }
            out.push(bk);
        }
        proof {
            assert forall|a: Axis| #[trigger] axis_coord(bounds.min, a) < axis_coord(bounds.max, a)
                implies exists|s: int| 0 <= s < out@.len() && (#[trigger] out@[s]).axis == a by {
                match a {
                    Axis::X => {
                        assert(out@[xi].axis == Axis::X);
                    },
                    Axis::Y => {
                        assert(out@[yi].axis == Axis::Y);
                    },
                    Axis::Z => {
                        assert(out@[zi].axis == Axis::Z);
                    },
                }
            }
            assert forall|a: Axis| (exists|s: int|
                0 <= s < out@.len() && (#[trigger] out@[s]).axis == a) implies #[trigger]
            axis_coord(bounds.min, a) < axis_coord(bounds.max, a) by {
                let s = choose|s: int| 0 <= s < out@.len() && (#[trigger] out@[s]).axis == a;
                assert(spatial_set_ok(self.primitives@, indices@, bounds, out@[s],
                    self.config.n_buckets as int));
            }
        }
        out
    }

    /// One axis of the spatial bucketing: nothing when the bounds are
    /// degenerate along it.
    #[verifier::rlimit(50)]
    #[verifier::loop_isolation(false)]
    fn spatial_axis(&self, indices: &Vec<usize>, bounds: AABB, a: Axis) -> (res: Option<Buckets>)
        requires
            builder_wf(*self),
            forall|k: int|
                0 <= k < indices@.len() ==> (#[trigger] indices@[k]) < self.primitives@.len(),
            aabb_wf(bounds),
        ensures
            res is Some ==> buckets_wf(res->0, indices@.len() as int,
                self.config.n_buckets as int),
            res is Some ==> res->0.axis == a && spatial_set_ok(self.primitives@, indices@, bounds,
                res->0, self.config.n_buckets as int),
            res is None ==> !(axis_coord(bounds.min, a) < axis_coord(bounds.max, a)),
    {
        let n = self.config.n_buckets;
        proof {
            crate::aabb::lemma_wf_bounded(bounds);
        }
        let lo = bounds.min.axis(a);
        let hi = bounds.max.axis(a);
        if lo >= hi {
            return None;
        }
        let mut aabbs: Vec<AABB> = Vec::new();
        let mut q: usize = 0;
        while q < n
            invariant
                0 <= q <= n,
                aabbs@.len() == q,
                forall|w: int| 0 <= w < q ==> (#[trigger] aabbs@[w]) == spec_empty(),
            decreases n - q,
        {
            aabbs.push(AABB::new());
            q = q + 1;
        }
        proof {
            assert(indices@.take(0) =~= Seq::<usize>::empty());
            assert forall|w: int| 0 <= w < n implies (#[trigger] aabbs@[w]) == spatial_bucket_box(
                self.primitives@,
                indices@.take(0),
                a,
                n as int,
                lo as int,
                hi as int,
                w,
            ) by {}
        }
        let mut first: Vec<usize> = Vec::new();
        let mut last: Vec<usize> = Vec::new();
        let mut p: usize = 0;
        while p < indices.len()
            invariant
                0 <= p <= indices@.len(),
                aabbs@.len() == n,
                first@.len() == p,
                last@.len() == p,
                forall|w: int|
                    0 <= w < p ==> (#[trigger] first@[w]) <= last@[w] && last@[w] < n,
                forall|w: int|
                    0 <= w < p ==> ((#[trigger] first@[w]) as int, last@[w] as int)
                        == spec_spatial_range(self.primitives@, indices@[w] as int, a, n as int,
                        lo as int, hi as int),
                forall|w: int| 0 <= w < n ==> aabb_wf(#[trigger] aabbs@[w]),
                forall|w: int|
                    0 <= w < n ==> (#[trigger] aabbs@[w]) == spatial_bucket_box(self.primitives@,
                        indices@.take(p as int), a, n as int, lo as int, hi as int, w),
            decreases indices@.len() - p,
        {
            let idx = indices[p];
            proof {
                self.primitives@[idx as int].lemma_aabb_wf();
                crate::aabb::lemma_wf_bounded(self.primitives@[idx as int].aabb_spec());
            }
            let pa = self.primitives[idx].aabb();
            let f = choose_bucket(n, lo, hi, pa.min.axis(a));
            let mut l = choose_bucket(n, lo, hi, pa.max.axis(a));
            if l < f {
                l = f;
            }
            proof {
                assert((f as int, l as int) == spec_spatial_range(self.primitives@, idx as int, a,
                    n as int, lo as int, hi as int));
            }
            // Accumulate the clipped box of this primitive into every bucket
            // its extent overlaps.
            let ghost before = aabbs@;
            let mut b: usize = f;
            while b <= l
                invariant
                    f <= b,
                    b <= l + 1,
                    aabbs@.len() == n,
                    forall|w: int| 0 <= w < n ==> aabb_wf(#[trigger] aabbs@[w]),
                    forall|w: int|
                        0 <= w < n ==> (#[trigger] aabbs@[w]) == if f as int <= w < b as int {
                            spec_union2(
                                spatial_bucket_box(self.primitives@, indices@.take(p as int), a,
                                    n as int, lo as int, hi as int, w),
                                self.primitives@[idx as int].clipped_spec(
                                    a,
                                    spec_bucket_boundary(n as int, lo as int, hi as int, w),
                                    spec_bucket_boundary(n as int, lo as int, hi as int, w + 1),
                                ),
                            )
                        } else {
                            spatial_bucket_box(self.primitives@, indices@.take(p as int), a,
                                n as int, lo as int, hi as int, w)
                        },
                decreases l + 1 - b,
            {
                let blo = bucket_boundary(n, lo, hi, b);
                let bhi = bucket_boundary(n, lo, hi, b + 1);
                let clip = self.primitives[idx].clipped_aabb(a, blo, bhi);
                proof {
                    self.primitives@[idx as int].lemma_clipped_ok(a, blo as int, bhi as int);
                    lemma_union2_wf(aabbs@[b as int], clip);
                }
                let merged = AABB::union2(aabbs[b], clip);
                let ghost old_boxes = aabbs@;
                aabbs[b] = merged;
                proof {
                    assert forall|w: int| 0 <= w < n implies (#[trigger] aabbs@[w]) == if f as int
                        <= w < b + 1 {
                        spec_union2(
                            spatial_bucket_box(self.primitives@, indices@.take(p as int), a,
                                n as int, lo as int, hi as int, w),
                            self.primitives@[idx as int].clipped_spec(
                                a,
                                spec_bucket_boundary(n as int, lo as int, hi as int, w),
                                spec_bucket_boundary(n as int, lo as int, hi as int, w + 1),
                            ),
                        )
                    } else {
                        spatial_bucket_box(self.primitives@, indices@.take(p as int), a, n as int,
                            lo as int, hi as int, w)
                    } by {
                        if w != b as int {
                            assert(aabbs@[w] == old_boxes[w]);
                        }
                    }
                }
                b = b + 1;
            }
            proof {
                assert(indices@.take(p + 1 as int).drop_last() =~= indices@.take(p as int));
                assert(indices@.take(p + 1 as int).last() == indices@[p as int]);
                assert forall|w: int| 0 <= w < n implies (#[trigger] aabbs@[w])
                    == spatial_bucket_box(self.primitives@, indices@.take(p + 1 as int), a,
                    n as int, lo as int, hi as int, w) by {}
            }
            let ghost old_first = first@;
            let ghost old_last = last@;
            first.push(f);
            last.push(l);
            proof {
                assert(first@ == old_first.push(f) && last@ == old_last.push(l));
                assert forall|w: int| 0 <= w < p + 1 implies (#[trigger] first@[w]) <= last@[w]
                    && last@[w] < n && (first@[w] as int, last@[w] as int) == spec_spatial_range(
                    self.primitives@,
                    indices@[w] as int,
                    a,
                    n as int,
                    lo as int,
                    hi as int,
                ) by {
                    if w < p {
                        assert(first@[w] == old_first[w] && last@[w] == old_last[w]);
                    } else {
                        assert(first@[w] == f && last@[w] == l);
                    }
                }
            }
            p = p + 1;
        }
        proof {
            assert(indices@.take(indices@.len() as int) =~= indices@);
        }
        Some(Buckets { axis: a, aabbs, first, last })
    }
}


/// A one-node tree: a leaf holding the given indices under the given box.
fn leaf_node<P: Hit>(prims: &Vec<P>, aabb: AABB, indices: Vec<usize>) -> (nodes: Vec<Node>)
    requires
        aabb_wf(aabb),
        forall|k: int| 0 <= k < indices@.len() ==> (#[trigger] indices@[k]) < prims@.len(),
        forall|k: int|
            0 <= k < indices@.len() ==> aabb_subset(
                prims@[#[trigger] indices@[k] as int].aabb_spec(),
                aabb,
            ),
    ensures
        nodes@.len() == 1,
        wf_at(nodes@, prims@.len() as int, 0, 1),
        tree_bounds_ok(prims@, nodes@, 0, 1),
        tree_prims(nodes@, 0, 1) == idx_set(indices@),
        node_aabb(nodes@[0]) == aabb,
{
    let ghost gi = indices@;
    let mut nodes: Vec<Node> = Vec::new();
    nodes.push(Node::Leaf { aabb, indices });
    proof {
        assert(nodes@.len() == 1);
        assert(nodes@[0] is Leaf);
        assert(nodes@[0]->Leaf_indices@ == gi);
        assert(node_aabb(nodes@[0]) == aabb);
        assert(tree_prims(nodes@, 0, 1) == idx_set(gi));
        assert forall|j: int| #[trigger] idx_set(gi).contains(j) implies 0 <= j < prims@.len()
            && aabb_subset(prims@[j].aabb_spec(), aabb) by {
            let k = choose|k: int| 0 <= k < gi.len() && (#[trigger] gi[k]) as int == j;
            assert(gi[k] < prims@.len());
        }
        assert(covers(prims@, aabb, tree_prims(nodes@, 0, 1)));
    }
    nodes
}

impl<'p, P: Hit> Builder<'p, P> {
    /// Builds the subtree over one index set: a leaf when the best split is
    /// no cheaper than testing every primitive directly, or when a split
    /// fails to shrink both sides; else a split node followed by the two
    /// recursively built children.
    #[verifier::rlimit(30)]
    fn build(&self, indices: Vec<usize>) -> (nodes: Vec<Node>)
        requires
            builder_wf(*self),
            indices@.len() <= MAX_PRIMS,
            forall|k: int|
                0 <= k < indices@.len() ==> (#[trigger] indices@[k]) < self.primitives@.len(),
        ensures
            1 <= nodes@.len(),
            wf_at(nodes@, self.primitives@.len() as int, 0, nodes@.len() as int),
            tree_bounds_ok(self.primitives@, nodes@, 0, nodes@.len() as int),
            tree_prims(nodes@, 0, nodes@.len() as int) == idx_set(indices@),
            indices@.len() == 0 ==> node_aabb(nodes@[0]) == spec_empty(),
        decreases indices@.len(),
    {
        let aabb = subset_aabb(self.primitives, &indices);
        if indices.len() <= 1 {
            return leaf_node(self.primitives, aabb, indices);
        }
        let nb = self.config.n_buckets;
        let obj_sets = self.object_buckets(&indices);
        let best_obj = best_split(&indices, &obj_sets, nb);
        match best_obj {
            None => leaf_node(self.primitives, aabb, indices),
            Some((osi, obk, ocost, ola, ora)) => {
                let mut sets = obj_sets;
                let mut wsi = osi;
                let mut wk = obk;
                let mut wcost = ocost;
                // When the object-split children overlap enough relative to
                // the root box, also try a spatial split and keep the
                // cheaper of the two.
                if self.config.spatial {
                    proof {
                        crate::aabb::lemma_wf_bounded(ola);
                        crate::aabb::lemma_wf_bounded(ora);
                        crate::aabb::lemma_inter2_bounded(ola, ora);
                        crate::aabb::lemma_wf_bounded(self.root_aabb);
                    }
                    let overlap = AABB::inter2(ola, ora).surface_area();
                    let root_sa = self.root_aabb.surface_area();
                    proof {
                        lemma_mul_bounds(overlap as int, self.config.alpha_den as int,
                            24_000_000_000_000_000_000, 1_000_000_000);
                        lemma_mul_bounds(root_sa as int, self.config.alpha_num as int,
                            24_000_000_000_000_000_000, 1_000_000_000);
                    }
                    if overlap * (self.config.alpha_den as i128) > root_sa * (self.config.alpha_num
                        as i128) {
                        let spa_sets = self.spatial_buckets(&indices, aabb);
                        match best_split(&indices, &spa_sets, nb) {
                            Some((ssi, sk, scost, _, _)) => {
                                if scost < wcost {
                                    sets = spa_sets;
                                    wsi = ssi;
                                    wk = sk;
                                    wcost = scost;
                                }
                            },
                            None => {},
                        }
                    }
                }
                // The split must be strictly cheaper than a leaf that tests
                // all primitives: one eighth of a step plus the normalized
                // child cost against one unit per primitive.
                let parent_sa = aabb.surface_area();
                proof {
                    crate::aabb::lemma_wf_bounded(aabb);
                    lemma_mul_bounds(indices@.len() as int, parent_sa as int, MAX_PRIMS as int,
                        24_000_000_000_000_000_000);
                }
                let n128: i128 = indices.len() as i128;
                let accept = parent_sa > 0 && parent_sa + 8 * wcost < 8 * (n128 * parent_sa);
                if !accept {
                    return leaf_node(self.primitives, aabb, indices);
                }
                let axis = sets[wsi].axis;
                let (lhs, rhs) = split_indices(&indices, &sets[wsi].first, &sets[wsi].last, wk);
                // Both sides must strictly shrink, or the recursion would
                // not terminate; spatial splits may duplicate indices, so
                // this is checked outright.
                if lhs.len() == 0 || rhs.len() == 0 || lhs.len() >= indices.len() || rhs.len()
                    >= indices.len() {
                    return leaf_node(self.primitives, aabb, indices);
                }
                proof {
                    assert forall|k2: int| 0 <= k2 < lhs@.len() implies (#[trigger] lhs@[k2])
                        < self.primitives@.len() by {
                        let v = lhs@[k2];
                        assert(lhs@.contains(v));
                        assert(indices@.contains(v));
                        let m = choose|m: int| 0 <= m < indices@.len() && indices@[m] == v;
                        assert(indices@[m] < self.primitives@.len());
                    }
                    assert forall|k2: int| 0 <= k2 < rhs@.len() implies (#[trigger] rhs@[k2])
                        < self.primitives@.len() by {
                        let v = rhs@[k2];
                        assert(rhs@.contains(v));
                        assert(indices@.contains(v));
                        let m = choose|m: int| 0 <= m < indices@.len() && indices@[m] == v;
                        assert(indices@[m] < self.primitives@.len());
                    }
                }
                let ghost glhs = lhs@;
                let ghost grhs = rhs@;
                let mut left = self.build(lhs);
                let mut right = self.build(rhs);
                if left.len() >= 0x3fff_ffff || right.len() >= 0x3fff_ffff {
                    return leaf_node(self.primitives, aabb, indices);
                }
                let skip = left.len() + 1;
                let ghost l = left@;
                let ghost rr = right@;
                let mut nodes: Vec<Node> = Vec::new();
                nodes.push(Node::Split { aabb, axis, skip });
                nodes.append(&mut left);
                nodes.append(&mut right);
                proof {
                    let np = self.primitives@.len() as int;
                    let total = nodes@.len() as int;
                    assert(total == 1 + l.len() + rr.len());
                    assert forall|k2: int| 0 <= k2 < l.len() implies #[trigger] l[k2] == nodes@[1
                        + k2] by {}
                    assert forall|k2: int| 0 <= k2 < rr.len() implies #[trigger] rr[k2]
                        == nodes@[1 + l.len() + k2] by {}
                    lemma_tree_local(self.primitives@, l, nodes@, np, 0, 1, l.len() as int);
                    lemma_tree_local(self.primitives@, rr, nodes@, np, 0, 1 + l.len() as int,
                        rr.len() as int);
                    assert(wf_at(nodes@, np, 1, 1 + l.len() as int));
                    assert(wf_at(nodes@, np, 1 + l.len() as int, total));
                    assert(nodes@[0] == (Node::Split { aabb, axis, skip }));
                    assert(wf_at(nodes@, np, 0, total));
                    assert(tree_prims(nodes@, 0, total) == idx_set(glhs).union(idx_set(grhs)));
                    assert(tree_prims(nodes@, 0, total) =~= idx_set(indices@)) by {
                        assert forall|pp: int| idx_set(glhs).union(idx_set(grhs)).contains(pp)
                            implies idx_set(indices@).contains(pp) by {
                            if idx_set(glhs).contains(pp) {
                                let k2 = choose|k2: int|
                                    0 <= k2 < glhs.len() && (#[trigger] glhs[k2]) as int == pp;
                                assert(glhs.contains(glhs[k2]));
                                assert(indices@.contains(glhs[k2]));
                                let m = choose|m: int|
                                    0 <= m < indices@.len() && indices@[m] == glhs[k2];
                                assert((#[trigger] indices@[m]) as int == pp);
                            } else {
                                let k2 = choose|k2: int|
                                    0 <= k2 < grhs.len() && (#[trigger] grhs[k2]) as int == pp;
                                assert(grhs.contains(grhs[k2]));
                                assert(indices@.contains(grhs[k2]));
                                let m = choose|m: int|
                                    0 <= m < indices@.len() && indices@[m] == grhs[k2];
                                assert((#[trigger] indices@[m]) as int == pp);
                            }
                        }
                        assert forall|pp: int| idx_set(indices@).contains(pp) implies idx_set(
                            glhs,
                        ).union(idx_set(grhs)).contains(pp) by {
                            let k2 = choose|k2: int|
                                0 <= k2 < indices@.len() && (#[trigger] indices@[k2]) as int == pp;
                            assert(glhs.contains(indices@[k2]) || grhs.contains(indices@[k2]));
                            if glhs.contains(indices@[k2]) {
                                let m = choose|m: int|
                                    0 <= m < glhs.len() && glhs[m] == indices@[k2];
                                assert((#[trigger] glhs[m]) as int == pp);
                                assert(idx_set(glhs).contains(pp));
                            } else {
                                let m = choose|m: int|
                                    0 <= m < grhs.len() && grhs[m] == indices@[k2];
                                assert((#[trigger] grhs[m]) as int == pp);
                                assert(idx_set(grhs).contains(pp));
                            }
                        }
                    }
                    assert forall|j: int| #[trigger] tree_prims(nodes@, 0, total).contains(j)
                        implies 0 <= j < np && aabb_subset(self.primitives@[j].aabb_spec(),
                        aabb) by {
                        let k2 = choose|k2: int|
                            0 <= k2 < indices@.len() && (#[trigger] indices@[k2]) as int == j;
                    }
                    assert(covers(self.primitives@, aabb, tree_prims(nodes@, 0, total)));
                    assert(tree_bounds_ok(self.primitives@, nodes@, 0, total));
                }
                nodes
            },
        }
    }
}


/// The hit parameter either hits some primitive covered by the ghost stack,
/// or the stack owes it nothing.
pub open spec fn covered_by(nodes: Seq<Node>, gs: Seq<(int, int)>, j: int) -> bool {
    exists|p: int|
        0 <= p < gs.len() && #[trigger] tree_prims(nodes, gs[p].0, gs[p].1).contains(j)
}

/// The ghost stack mirrors the executable stack: same positions, and every
/// entry is a well-laid-out subtree whose boxes enclose its primitives.
pub open spec fn stack_ok<P: Hit>(
    prims: Seq<P>,
    nodes: Seq<Node>,
    stack: Seq<usize>,
    gs: Seq<(int, int)>,
) -> bool {
    &&& gs.len() == stack.len()
    &&& forall|p: int| 0 <= p < gs.len() ==> (#[trigger] gs[p]).0 == stack[p] as int
    &&& forall|p: int|
        0 <= p < gs.len() ==> wf_at(nodes, prims.len() as int, (#[trigger] gs[p]).0, gs[p].1)
    &&& forall|p: int|
        0 <= p < gs.len() ==> tree_bounds_ok(prims, nodes, (#[trigger] gs[p]).0, gs[p].1)
}

/// How much subtree remains on the ghost stack: the traversal's termination
/// measure.
pub open spec fn stack_weight(gs: Seq<(int, int)>) -> int
    decreases gs.len(),
{
    if gs.len() == 0 {
        0
    } else {
        stack_weight(gs.drop_last()) + (gs.last().1 - gs.last().0)
    }
}

proof fn lemma_weight_nonneg(gs: Seq<(int, int)>)
    requires
        forall|p: int| 0 <= p < gs.len() ==> (#[trigger] gs[p]).0 <= gs[p].1,
    ensures
        stack_weight(gs) >= 0,
    decreases gs.len(),
{
    if gs.len() > 0 {
        assert forall|p: int| 0 <= p < gs.drop_last().len() implies (
        #[trigger] gs.drop_last()[p]).0 <= gs.drop_last()[p].1 by {
            assert(gs[p].0 <= gs[p].1);
        }
        lemma_weight_nonneg(gs.drop_last());
    }
}

proof fn lemma_weight_push(gs: Seq<(int, int)>, x: (int, int))
    ensures
        stack_weight(gs.push(x)) == stack_weight(gs) + (x.1 - x.0),
{
    assert(gs.push(x).drop_last() =~= gs);
    assert(gs.push(x).last() == x);
}

/// The hierarchy: a flattened node array over an owned primitive array.
pub struct BVH<P> {
    nodes: Vec<Node>,
    primitives: Vec<P>,
}

impl<P: Hit> BVH<P> {
    /// The primitives the hierarchy was built over, in their given order.
    pub closed spec fn prims(&self) -> Seq<P> {
        self.primitives@
    }

    /// The flattened node array.
    pub closed spec fn nodes_seq(&self) -> Seq<Node> {
        self.nodes@
    }

    /// The hierarchy's invariant: sound primitives, a well-laid-out node
    /// array whose boxes enclose their subtrees' primitives, and a root
    /// subtree that names exactly the primitive indices.
    pub closed spec fn wf(&self) -> bool {
        &&& prims_inv(self.primitives@)
        &&& self.primitives@.len() <= MAX_PRIMS
        &&& (self.nodes@.len() == 0 ==> self.primitives@.len() == 0)
        &&& (1 <= self.nodes@.len() ==> {
            &&& wf_at(self.nodes@, self.primitives@.len() as int, 0, self.nodes@.len() as int)
            &&& tree_bounds_ok(self.primitives@, self.nodes@, 0, self.nodes@.len() as int)
            &&& tree_prims(self.nodes@, 0, self.nodes@.len() as int) == Set::new(
                |p: int| 0 <= p < self.primitives@.len(),
            )
        })
    }

    /// Builds a hierarchy over the given primitives.
    pub fn new(primitives: Vec<P>, config: BuildConfig) -> (r: BVH<P>)
        requires
            prims_inv(primitives@),
            primitives@.len() <= MAX_PRIMS,
            config_wf(config),
        ensures
            r.wf(),
            r.prims() == primitives@,
            primitives@.len() == 0 <==> r.nodes_seq().len() == 0,
    {
        if primitives.len() == 0 {
            return BVH { nodes: Vec::new(), primitives };
        }
        let mut idxs: Vec<usize> = Vec::new();
        let mut i: usize = 0;
        while i < primitives.len()
            invariant
                0 <= i <= primitives@.len(),
                idxs@.len() == i,
                forall|k: int| 0 <= k < i ==> (#[trigger] idxs@[k]) == k,
            decreases primitives@.len() - i,
        {
            idxs.push(i);
            i = i + 1;
        }
        proof {
            assert forall|k: int| 0 <= k < idxs@.len() implies (#[trigger] idxs@[k])
                < primitives@.len() by {}
        }
        let builder = Builder::new(&primitives, config, &idxs);
        let ghost gidxs = idxs@;
        let nodes = builder.build(idxs);
        proof {
            assert(idx_set(gidxs) =~= Set::new(|p: int| 0 <= p < primitives@.len())) by {
                assert forall|pp: int| idx_set(gidxs).contains(pp) implies 0 <= pp
                    < primitives@.len() by {
                    let k = choose|k: int|
                        0 <= k < gidxs.len() && (#[trigger] gidxs[k]) as int == pp;
                }
                assert forall|pp: int| 0 <= pp < primitives@.len() implies idx_set(
                    gidxs,
                ).contains(pp) by {
                    assert((#[trigger] gidxs[pp]) as int == pp);
                }
            }
        }
        BVH { nodes, primitives }
    }

    /// The node array; two builds over the same primitives and configuration
    /// can be compared through it.
    pub fn nodes(&self) -> (r: &Vec<Node>)
        ensures
            r@ == self.nodes_seq(),
    {
        &self.nodes
    }

    /// How many primitives the hierarchy owns.
    pub fn len(&self) -> (r: usize)
        ensures
            r == self.prims().len(),
    {
        self.primitives.len()
    }

    /// The root bounding box; the canonical empty box for a hierarchy over
    /// no primitives.
    pub fn aabb(&self) -> (b: AABB)
        requires
            self.wf(),
        ensures
            b == if self.nodes_seq().len() == 0 {
                spec_empty()
            } else {
                node_aabb(self.nodes_seq()[0])
            },
            aabb_wf(b),
    {
        if self.nodes.len() == 0 {
            return AABB::new();
        }
        proof {
            assert(wf_at(self.nodes@, self.primitives@.len() as int, 0, self.nodes@.len() as int));
        }
        self.nodes[0].aabb()
    }

    /// The nearest hit over all owned primitives: the traversal tests a
    /// node's box against the interval as narrowed so far, skips the subtree
    /// on a miss, walks split children near side first, and tests the
    /// primitives of each reached leaf. The result is exactly the best hit
    /// that a brute-force scan would find.
    #[verifier::loop_isolation(false)]
    #[verifier::rlimit(30)]
    pub fn hit(&self, r: &Ray, ray_t: Interval) -> (res: Option<HitRecord>)
        requires
            self.wf(),
            ray_wf(*r),
            interval_wf(ray_t),
        ensures
            best_hit(self.prims(), *r, ray_t, res),
            res is Some <==> scan_spec(self.prims(), *r, ray_t) is Some,
            (res is Some && scan_spec(self.prims(), *r, ray_t) is Some) ==> rat_eq(
                res->0.t,
                scan_spec(self.prims(), *r, ray_t)->0.t,
            ),
    {
        let ghost np = self.primitives@.len() as int;
        if self.nodes.len() == 0 {
            return None;
        }
        let mut stack: Vec<usize> = Vec::new();
        stack.push(0);
        let ghost mut gstack: Seq<(int, int)> = seq![(0int, self.nodes@.len() as int)];
        let mut best: Option<HitRecord> = None;
        let mut cur = ray_t;
        proof {
            assert(stack_ok(self.primitives@, self.nodes@, stack@, gstack));
            assert forall|j: int|
                0 <= j < np && (#[trigger] self.primitives@[j].hit_spec(*r, cur)) is Some implies
                covered_by(self.nodes@, gstack, j) by {
                assert(tree_prims(self.nodes@, gstack[0].0, gstack[0].1).contains(j));
            }
        }
        while stack.len() > 0
            invariant
                stack_ok(self.primitives@, self.nodes@, stack@, gstack),
                interval_wf(cur),
                cur.min == ray_t.min,
                rat_le(cur.max, ray_t.max),
                match best {
                    None => cur == ray_t,
                    Some(h) => cur.max == h.t && rat_finite(h.t) && spec_surrounds(ray_t, h.t)
                        && genuine_hit(self.primitives@, *r, ray_t, h),
                },
                forall|j: int|
                    0 <= j < np && (#[trigger] self.primitives@[j].hit_spec(*r, cur)) is Some
                        ==> covered_by(self.nodes@, gstack, j),
            decreases stack_weight(gstack),
        {
            let i = stack.pop().unwrap();
            let ghost oldg = gstack;
            let ghost entry = gstack.last();
            proof {
                gstack = gstack.drop_last();
                assert(entry.0 == i as int);
                assert(wf_at(self.nodes@, np, entry.0, entry.1));
                assert(tree_bounds_ok(self.primitives@, self.nodes@, entry.0, entry.1));
                assert(stack_ok(self.primitives@, self.nodes@, stack@, gstack));
            }
            let node = &self.nodes[i];
            let node_box = node.aabb();
            proof {
                assert(aabb_wf(node_box)) by {
                    assert(wf_at(self.nodes@, np, entry.0, entry.1));
                }
            }
            let probe = node_box.ray_intersection(r, cur);
            if probe.is_none() {
                // Pruning: a primitive of this subtree with a hit still
                // inside the narrowed interval would force this very slab
                // test to succeed.
                proof {
                    assert forall|j: int|
                        0 <= j < np && (#[trigger] self.primitives@[j].hit_spec(*r, cur)) is Some
                            implies covered_by(self.nodes@, gstack, j) by {
                        let p = choose|p: int|
                            0 <= p < oldg.len() && #[trigger] tree_prims(self.nodes@, oldg[p].0,
                                oldg[p].1).contains(j);
                        if p < oldg.len() - 1 {
                            assert(gstack[p] == oldg[p]);
                            assert(tree_prims(self.nodes@, gstack[p].0, gstack[p].1).contains(j));
                        } else {
                            // The popped subtree: impossible, its box misses.
                            let h = self.primitives@[j].hit_spec(*r, cur)->0;
                            self.primitives@[j].lemma_hit_in_bounds(*r, cur);
                            assert(aabb_subset(self.primitives@[j].aabb_spec(), node_box));
                            lemma_time_in_box_subset(self.primitives@[j].aabb_spec(), node_box,
                                *r, h.t);
                            lemma_rat_total(cur.min, h.t);
                            lemma_rat_total(h.t, cur.max);
                            lemma_slab_complete(node_box, *r, cur, h.t);
                            assert(false);
                        }
                    }
                    assert(stack_weight(oldg) == stack_weight(gstack) + (entry.1 - entry.0));
                    assert(entry.1 - entry.0 >= 1);
                    assert forall|p: int| 0 <= p < gstack.len() implies (
                    #[trigger] gstack[p]).0 <= gstack[p].1 by {
                        assert(wf_at(self.nodes@, np, gstack[p].0, gstack[p].1));
                    }
                    lemma_weight_nonneg(gstack);
                }
                continue;
            }
            match node {
                Node::Split { axis, skip, .. } => {
                    let c1 = i + 1;
                    let c2 = i + *skip;
                    if r.direction.axis(*axis) < 0 {
                        stack.push(c1);
                        stack.push(c2);
                        proof {
                            gstack = gstack.push((entry.0 + 1, entry.0 + *skip as int));
                            gstack = gstack.push((entry.0 + *skip as int, entry.1));
                        }
                    } else {
                        stack.push(c2);
                        stack.push(c1);
                        proof {
                            gstack = gstack.push((entry.0 + *skip as int, entry.1));
                            gstack = gstack.push((entry.0 + 1, entry.0 + *skip as int));
                        }
                    }
                    proof {
                        let g2 = gstack;
                        assert(stack_ok(self.primitives@, self.nodes@, stack@, gstack)) by {
                            assert forall|p: int| 0 <= p < g2.len() implies (#[trigger] g2[p]).0
                                == stack@[p] as int && wf_at(self.nodes@, np, g2[p].0, g2[p].1)
                                && tree_bounds_ok(self.primitives@, self.nodes@, g2[p].0,
                                g2[p].1) by {
                                if p < g2.len() - 2 {
                                    assert(g2[p] == oldg[p]);
                                }
                            }
                        }
                        assert(tree_prims(self.nodes@, entry.0, entry.1) == tree_prims(
                            self.nodes@,
                            entry.0 + 1,
                            entry.0 + *skip as int,
                        ).union(tree_prims(self.nodes@, entry.0 + *skip as int, entry.1)));
                        assert forall|j: int|
                            0 <= j < np && (#[trigger] self.primitives@[j].hit_spec(*r, cur))
                                is Some implies covered_by(self.nodes@, gstack, j) by {
                            let p = choose|p: int|
                                0 <= p < oldg.len() && #[trigger] tree_prims(self.nodes@,
                                oldg[p].0, oldg[p].1).contains(j);
                            if p < oldg.len() - 1 {
                                assert(gstack[p] == oldg[p]);
                                assert(tree_prims(self.nodes@, gstack[p].0,
                                    gstack[p].1).contains(j));
                            } else {
                                let pa = gstack.len() - 2;
                                let pb = gstack.len() - 1;
                                if tree_prims(self.nodes@, gstack[pa].0,
                                    gstack[pa].1).contains(j) {
                                } else {
                                    assert(tree_prims(self.nodes@, gstack[pb].0,
                                        gstack[pb].1).contains(j));
                                }
                            }
                        }
                        lemma_weight_push(oldg.drop_last(), gstack[gstack.len() - 2]);
                        lemma_weight_push(oldg.drop_last().push(gstack[gstack.len() - 2]),
                            gstack[gstack.len() - 1]);
                        assert(gstack =~= oldg.drop_last().push(gstack[gstack.len() - 2]).push(
                            gstack[gstack.len() - 1],
                        ));
                        assert(stack_weight(gstack) < stack_weight(oldg));
                        assert forall|p: int| 0 <= p < gstack.len() implies (
                        #[trigger] gstack[p]).0 <= gstack[p].1 by {
                            assert(wf_at(self.nodes@, np, gstack[p].0, gstack[p].1));
                        }
                        lemma_weight_nonneg(gstack);
                    }
                },
                Node::Leaf { indices, .. } => {
                    proof {
                        assert(self.nodes@[entry.0] is Leaf);
                        assert(indices@ == self.nodes@[entry.0]->Leaf_indices@);
                        assert(tree_prims(self.nodes@, entry.0, entry.1) == idx_set(indices@));
                        assert forall|j: int|
                            0 <= j < np && (#[trigger] self.primitives@[j].hit_spec(*r, cur))
                                is Some implies covered_by(self.nodes@, gstack, j) || exists|
                                kk: int,
                            |
                                0 <= kk < indices@.len() && (#[trigger] indices@[kk]) as int
                                    == j by {
                            let p = choose|p: int|
                                0 <= p < oldg.len() && #[trigger] tree_prims(self.nodes@,
                                oldg[p].0, oldg[p].1).contains(j);
                            if p < oldg.len() - 1 {
                                assert(gstack[p] == oldg[p]);
                                assert(tree_prims(self.nodes@, gstack[p].0,
                                    gstack[p].1).contains(j));
                            } else {
                                assert(idx_set(indices@).contains(j));
                                let kk = choose|kk: int|
                                    0 <= kk < indices@.len() && (#[trigger] indices@[kk]) as int
                                        == j;
                            }
                        }
                    }
                    let mut k: usize = 0;
                    while k < indices.len()
                        invariant
                            interval_wf(cur),
                            cur.min == ray_t.min,
                            rat_le(cur.max, ray_t.max),
                            0 <= k <= indices@.len(),
                            match best {
                                None => cur == ray_t,
                                Some(h) => cur.max == h.t && rat_finite(h.t) && spec_surrounds(
                                    ray_t,
                                    h.t,
                                ) && genuine_hit(self.primitives@, *r, ray_t, h),
                            },
                            forall|j: int|
                                0 <= j < np && (#[trigger] self.primitives@[j].hit_spec(*r, cur))
                                    is Some ==> covered_by(self.nodes@, gstack, j) || exists|
                                    kk: int,
                                |
                                    k <= kk < indices@.len() && (#[trigger] indices@[kk]) as int
                                        == j,
                        decreases indices@.len() - k,
                    {
                        let idx = indices[k];
                        proof {
                            assert(wf_at(self.nodes@, np, entry.0, entry.1));
                            assert(idx < self.primitives@.len());
                            assert(self.primitives@[idx as int].inv());
                        }
                        let ghost oldcur = cur;
                        let stepped = self.primitives[idx].hit(r, cur);
                        if stepped.is_some() {
                            let h = stepped.unwrap();
                            proof {
                                self.primitives@[idx as int].lemma_hit_in_bounds(*r, cur);
                                self.primitives@[idx as int].lemma_hit_narrow(*r, ray_t, cur);
                                // The record is genuine at the full interval.
                                match self.primitives@[idx as int].hit_spec(*r, ray_t) {
                                    Some(hw) => {
                                        if !rat_lt(hw.t, cur.max) {
                                            assert(false);
                                        }
                                    },
                                    None => {
                                        assert(false);
                                    },
                                }
                                assert(self.primitives@[idx as int].hit_spec(*r, ray_t) == Some(
                                    h,
                                ));
                                assert(genuine_hit(self.primitives@, *r, ray_t, h));
                                lemma_rat_lt_le_trans(h.t, cur.max, ray_t.max);
                                lemma_rat_total(h.t, ray_t.max);
                            }
                            cur = Interval { min: ray_t.min, max: h.t };
                            best = Some(h);
                            proof {
                                assert forall|j: int|
                                    0 <= j < np && (#[trigger] self.primitives@[j].hit_spec(*r,
                                    cur)) is Some implies covered_by(self.nodes@, gstack, j)
                                    || exists|kk: int|
                                    k + 1 <= kk < indices@.len() && (#[trigger] indices@[kk])
                                        as int == j by {
                                    self.primitives@[j].lemma_hit_narrow(*r, oldcur, cur);
                                    assert(self.primitives@[j].hit_spec(*r, oldcur) is Some);
                                    if covered_by(self.nodes@, gstack, j) {
                                    } else {
                                        let kk = choose|kk: int|
                                            k <= kk < indices@.len() && (#[trigger] indices@[kk])
                                                as int == j;
                                        if kk == k {
                                            assert(j == idx as int);
                                            assert(self.primitives@[j].hit_spec(*r, cur)
                                                is None);
                                            assert(false);
                                        } else {
                                            assert(k + 1 <= kk < indices@.len() && indices@[kk]
                                                as int == j);
                                        }
                                    }
                                }
                            }
                        } else {
                            proof {
                                assert forall|j: int|
                                    0 <= j < np && (#[trigger] self.primitives@[j].hit_spec(*r,
                                    cur)) is Some implies covered_by(self.nodes@, gstack, j)
                                    || exists|kk: int|
                                    k + 1 <= kk < indices@.len() && (#[trigger] indices@[kk])
                                        as int == j by {
                                    if covered_by(self.nodes@, gstack, j) {
                                    } else {
                                        let kk = choose|kk: int|
                                            k <= kk < indices@.len() && (#[trigger] indices@[kk])
                                                as int == j;
                                        if kk == k {
                                            assert(j == idx as int);
                                            assert(false);
                                        } else {
                                            assert(k + 1 <= kk < indices@.len() && indices@[kk]
                                                as int == j);
                                        }
                                    }
                                }
                            }
                        }
                        k = k + 1;
                    }
                    proof {
                        assert(stack_weight(oldg) == stack_weight(gstack) + (entry.1 - entry.0));
                        assert(entry.1 - entry.0 >= 1);
                        assert forall|p: int| 0 <= p < gstack.len() implies (
                        #[trigger] gstack[p]).0 <= gstack[p].1 by {
                            assert(wf_at(self.nodes@, np, gstack[p].0, gstack[p].1));
                        }
                        lemma_weight_nonneg(gstack);
                    }
                },
            }
        }
        proof {
            match best {
                None => {
                    assert(Interval { min: ray_t.min, max: ray_t.max } == ray_t);
                    assert forall|j: int| 0 <= j < np implies (
                    #[trigger] self.primitives@[j]).hit_spec(
                        *r,
                        Interval { min: ray_t.min, max: ray_t.max },
                    ) is None by {
                        if self.primitives@[j].hit_spec(*r, cur) is Some {
                            assert(covered_by(self.nodes@, gstack, j));
                            let p = choose|p: int|
                                0 <= p < gstack.len() && #[trigger] tree_prims(self.nodes@,
                                gstack[p].0, gstack[p].1).contains(j);
                            assert(false);
                        }
                    }
                },
                Some(h) => {
                    assert(Interval { min: ray_t.min, max: h.t } == cur);
                    assert forall|j: int| 0 <= j < np implies (
                    #[trigger] self.primitives@[j]).hit_spec(
                        *r,
                        Interval { min: ray_t.min, max: h.t },
                    ) is None by {
                        if self.primitives@[j].hit_spec(*r, cur) is Some {
                            assert(covered_by(self.nodes@, gstack, j));
                            let p = choose|p: int|
                                0 <= p < gstack.len() && #[trigger] tree_prims(self.nodes@,
                                gstack[p].0, gstack[p].1).contains(j);
                            assert(false);
                        }
                    }
                },
            }
            assert(best_hit(self.primitives@, *r, ray_t, best));
            lemma_bvh_agrees_with_scan(self.primitives@, *r, ray_t, best);
        }
        best
    }
}

/// The hierarchy agrees with the brute-force scan: over the same primitives,
/// ray and interval, both miss together or hit at the same parameter value.
pub proof fn lemma_bvh_agrees_with_scan<P: Hit>(
    prims: Seq<P>,
    r: Ray,
    ray_t: Interval,
    res: Option<HitRecord>,
)
    requires
        prims_inv(prims),
        ray_wf(r),
        interval_wf(ray_t),
        best_hit(prims, r, ray_t, res),
    ensures
        res is Some <==> scan_spec(prims, r, ray_t) is Some,
        (res is Some && scan_spec(prims, r, ray_t) is Some) ==> rat_eq(
            res->0.t,
            scan_spec(prims, r, ray_t)->0.t,
        ),
{
    lemma_scan_spec_best(prims, r, ray_t);
    lemma_best_hit_unique(prims, r, ray_t, res, scan_spec(prims, r, ray_t));
}

/// A hierarchy over no primitives reports no hit.
pub proof fn lemma_empty_scene_misses<P: Hit>(
    prims: Seq<P>,
    r: Ray,
    ray_t: Interval,
    res: Option<HitRecord>,
)
    requires
        prims.len() == 0,
        best_hit(prims, r, ray_t, res),
    ensures
        res is None,
{
    if res is Some {
        let h = res->0;
        let j = choose|j: int|
            0 <= j < prims.len() && (#[trigger] prims[j]).hit_spec(r, ray_t) == Some(h);
        assert(false);
    }
}

} // verus!
