//! A flat list of primitives scanned one by one: the brute-force reference
//! that the hierarchy is proved against.

use vstd::prelude::*;

use crate::aabb::{
    aabb_subset, aabb_wf, lemma_clip_box_ok, lemma_subset_trans, lemma_time_in_box_subset,
    lemma_union2_subset, lemma_union2_wf, spec_clip_box, spec_empty, spec_union2, AABB,
};
use crate::hit::{Hit, HitRecord};
use crate::interval::{interval_wf, spec_surrounds, Interval};
use crate::rat::{lemma_rat_le_trans, lemma_rat_lt_le_trans, lemma_rat_total, rat_eq, rat_finite, rat_le, rat_lt, Rat};
use crate::ray::{ray_wf, Ray};
use crate::vec3::Axis;

verus! {

/// Every primitive of the sequence satisfies its own invariant.
pub open spec fn prims_inv<P: Hit>(prims: Seq<P>) -> bool {
    forall|j: int| 0 <= j < prims.len() ==> (#[trigger] prims[j]).inv()
}

/// The result of testing the primitives one by one in order, narrowing the
/// far end of the interval to the best hit found so far.
pub open spec fn scan_spec<P: Hit>(prims: Seq<P>, r: Ray, ray_t: Interval) -> Option<HitRecord>
    decreases prims.len(),
{
    if prims.len() == 0 {
        None
    } else {
        let prev = scan_spec(prims.drop_last(), r, ray_t);
        let cur = match prev {
            Some(h) => Interval { min: ray_t.min, max: h.t },
            None => ray_t,
        };
        match prims.last().hit_spec(r, cur) {
            Some(h2) => Some(h2),
            None => prev,
        }
    }
}

/// Some primitive of the sequence reports exactly this hit at the full
/// interval.
pub open spec fn genuine_hit<P: Hit>(prims: Seq<P>, r: Ray, ray_t: Interval, h: HitRecord) -> bool {
    exists|j: int|
        0 <= j < prims.len() && (#[trigger] prims[j]).hit_spec(r, ray_t) == Some(h)
}

/// No primitive of the sequence reports a hit when the far end of the
/// interval is drawn in to `cap`.
pub open spec fn no_hit_below<P: Hit>(prims: Seq<P>, r: Ray, min: Rat, cap: Rat) -> bool {
    forall|j: int|
        0 <= j < prims.len() ==> (#[trigger] prims[j]).hit_spec(
            r,
            Interval { min, max: cap },
        ) is None
}

/// What it means for `res` to be the nearest hit of a set of primitives over
/// the interval `ray_t`: a miss means no primitive hits at all, and a hit is
/// reported by some primitive, lies strictly inside the interval, and no
/// primitive hits strictly before it.
pub open spec fn best_hit<P: Hit>(
    prims: Seq<P>,
    r: Ray,
    ray_t: Interval,
    res: Option<HitRecord>,
) -> bool {
    match res {
        None => no_hit_below(prims, r, ray_t.min, ray_t.max),
        Some(h) => genuine_hit(prims, r, ray_t, h) && rat_finite(h.t) && spec_surrounds(ray_t, h.t)
            && no_hit_below(prims, r, ray_t.min, h.t),
    }
}

/// The ordered scan returns the nearest hit.
#[verifier::rlimit(30)]
pub proof fn lemma_scan_spec_best<P: Hit>(prims: Seq<P>, r: Ray, ray_t: Interval)
    requires
        prims_inv(prims),
        ray_wf(r),
        interval_wf(ray_t),
    ensures
        best_hit(prims, r, ray_t, scan_spec(prims, r, ray_t)),
    decreases prims.len(),
{
    if prims.len() == 0 {
    } else {
        let pre = prims.drop_last();
        let last = prims.last();
        let n = prims.len() - 1;
        assert(forall|j: int| 0 <= j < n ==> pre[j] == prims[j]);
        lemma_scan_spec_best(pre, r, ray_t);
        let prev = scan_spec(pre, r, ray_t);
        let cur = match prev {
            Some(h) => Interval { min: ray_t.min, max: h.t },
            None => ray_t,
        };
        assert(interval_wf(cur)) by {
            if prev is Some {
                last.lemma_hit_in_bounds(r, ray_t);
            }
        }
        if prev is Some {
            let hp = prev->0;
            lemma_rat_total(hp.t, ray_t.max);
        }
        match last.hit_spec(r, cur) {
            Some(h2) => {
                last.lemma_hit_in_bounds(r, cur);
                assert(rat_finite(h2.t) && spec_surrounds(cur, h2.t));
                // The new hit lies strictly inside the full interval too.
                if prev is Some {
                    let hp = prev->0;
                    lemma_rat_lt_le_trans(h2.t, hp.t, ray_t.max);
                }
                assert(spec_surrounds(ray_t, h2.t));
                // It is genuine: widening the interval back keeps it.
                last.lemma_hit_narrow(r, ray_t, cur);
                assert(last.hit_spec(r, ray_t) == Some(h2)) by {
                    match last.hit_spec(r, ray_t) {
                        Some(hw) => {
                            if !rat_lt(hw.t, cur.max) {
                                assert(last.hit_spec(r, cur) is None);
                                assert(false);
                            }
                        },
                        None => {
                            assert(last.hit_spec(r, cur) is None);
                            assert(false);
                        },
                    }
                }
                assert(genuine_hit(prims, r, ray_t, h2)) by {
                    assert(prims[n] == last);
                    assert(prims[n].hit_spec(r, ray_t) == Some(h2));
                }
                // Nothing hits strictly before it.
                assert forall|j: int| 0 <= j < prims.len() implies (#[trigger] prims[j]).hit_spec(
                    r,
                    Interval { min: ray_t.min, max: h2.t },
                ) is None by {
                    lemma_rat_total(h2.t, cur.max);
                    if j < n {
                        assert(pre[j] == prims[j]);
                        assert(pre[j].hit_spec(r, Interval { min: ray_t.min, max: cur.max })
                            is None) by {
                            if prev is Some {
                            } else {
                                assert(Interval { min: ray_t.min, max: cur.max } == ray_t);
                            }
                        }
                        prims[j].lemma_hit_narrow(
                            r,
                            Interval { min: ray_t.min, max: cur.max },
                            Interval { min: ray_t.min, max: h2.t },
                        );
                    } else {
                        last.lemma_hit_narrow(r, cur, Interval { min: ray_t.min, max: h2.t });
                    }
                }
            },
            None => {
                match prev {
                    Some(hp) => {
                        assert(genuine_hit(pre, r, ray_t, hp));
                        let j0 = choose|j: int|
                            0 <= j < pre.len() && (#[trigger] pre[j]).hit_spec(r, ray_t) == Some(
                                hp,
                            );
                        assert(prims[j0] == pre[j0]);
                        assert(genuine_hit(prims, r, ray_t, hp));
                        assert forall|j: int| 0 <= j < prims.len() implies (
                        #[trigger] prims[j]).hit_spec(
                            r,
                            Interval { min: ray_t.min, max: hp.t },
                        ) is None by {
                            if j < n {
                                assert(pre[j] == prims[j]);
                            } else {
                                assert(Interval { min: ray_t.min, max: hp.t } == cur);
                            }
                        }
                    },
                    None => {
                        assert forall|j: int| 0 <= j < prims.len() implies (
                        #[trigger] prims[j]).hit_spec(
                            r,
                            Interval { min: ray_t.min, max: ray_t.max },
                        ) is None by {
                            if j < n {
                                assert(pre[j] == prims[j]);
                                assert(Interval { min: ray_t.min, max: ray_t.max } == ray_t);
                            } else {
                                assert(Interval { min: ray_t.min, max: ray_t.max } == cur);
                            }
                        }
                    },
                }
            },
        }
    }
}

/// Two nearest-hit results over the same primitives, ray and interval agree:
/// both miss, or both hit at the same parameter value.
pub proof fn lemma_best_hit_unique<P: Hit>(
    prims: Seq<P>,
    r: Ray,
    ray_t: Interval,
    r1: Option<HitRecord>,
    r2: Option<HitRecord>,
)
    requires
        prims_inv(prims),
        ray_wf(r),
        interval_wf(ray_t),
        best_hit(prims, r, ray_t, r1),
        best_hit(prims, r, ray_t, r2),
    ensures
        r1 is Some <==> r2 is Some,
        (r1 is Some && r2 is Some) ==> rat_eq(r1->0.t, r2->0.t),
{
    match (r1, r2) {
        (None, None) => {},
        (None, Some(b)) => {
            let j = choose|j: int|
                0 <= j < prims.len() && (#[trigger] prims[j]).hit_spec(r, ray_t) == Some(b);
            assert(Interval { min: ray_t.min, max: ray_t.max } == ray_t);
            assert(prims[j].hit_spec(r, ray_t) is None);
            assert(false);
        },
        (Some(a), None) => {
            let j = choose|j: int|
                0 <= j < prims.len() && (#[trigger] prims[j]).hit_spec(r, ray_t) == Some(a);
            assert(Interval { min: ray_t.min, max: ray_t.max } == ray_t);
            assert(prims[j].hit_spec(r, ray_t) is None);
            assert(false);
        },
        (Some(a), Some(b)) => {
            lemma_rat_total(a.t, b.t);
            if rat_lt(a.t, b.t) {
                let j = choose|j: int|
                    0 <= j < prims.len() && (#[trigger] prims[j]).hit_spec(r, ray_t) == Some(a);
                lemma_rat_total(b.t, ray_t.max);
                prims[j].lemma_hit_narrow(r, ray_t, Interval { min: ray_t.min, max: b.t });
                assert(prims[j].hit_spec(r, Interval { min: ray_t.min, max: b.t }) == Some(a));
                assert(false);
            }
            if rat_lt(b.t, a.t) {
                let j = choose|j: int|
                    0 <= j < prims.len() && (#[trigger] prims[j]).hit_spec(r, ray_t) == Some(b);
                lemma_rat_total(a.t, ray_t.max);
                prims[j].lemma_hit_narrow(r, ray_t, Interval { min: ray_t.min, max: a.t });
                assert(prims[j].hit_spec(r, Interval { min: ray_t.min, max: a.t }) == Some(b));
                assert(false);
            }
        },
    }
}

/// A growable list of primitives answering hit queries by a linear scan.
pub struct HitList<P> {
    pub objects: Vec<P>,
}

impl<P: Hit> HitList<P> {
    /// An empty list.
    pub fn new() -> (r: Self)
        ensures
            r.objects@.len() == 0,
    {
        HitList { objects: Vec::new() }
    }

    /// Removes every object.
    pub fn clear(&mut self)
        ensures
            final (self).objects@.len() == 0,
    {
        self.objects.clear();
    }

    /// Appends one object.
    pub fn add(&mut self, object: P)
        ensures
            final (self).objects@ == old(self).objects@.push(object),
    {
        self.objects.push(object);
    }

    /// The nearest hit over all objects, by scanning them in order and
    /// narrowing the interval at each hit.
    pub fn hit(&self, r: &Ray, ray_t: Interval) -> (h: Option<HitRecord>)
        requires
            prims_inv(self.objects@),
            ray_wf(*r),
            interval_wf(ray_t),
        ensures
            h == scan_spec(self.objects@, *r, ray_t),
            best_hit(self.objects@, *r, ray_t, h),
    {
        let mut best: Option<HitRecord> = None;
        let mut cur = ray_t;
        let mut i: usize = 0;
        while i < self.objects.len()
            invariant
                prims_inv(self.objects@),
                ray_wf(*r),
                interval_wf(ray_t),
                0 <= i <= self.objects.len(),
                best == scan_spec(self.objects@.take(i as int), *r, ray_t),
                cur == match best {
                    Some(h) => Interval { min: ray_t.min, max: h.t },
                    None => ray_t,
                },
                interval_wf(cur),
            decreases self.objects.len() - i,
        {
            proof {
                assert(self.objects@.take(i + 1 as int).drop_last() =~= self.objects@.take(
                    i as int,
                ));
                assert(self.objects@.take(i + 1 as int).last() == self.objects@[i as int]);
                assert(self.objects@[i as int].inv());
            }
            let stepped = self.objects[i].hit(r, cur);
            if stepped.is_some() {
                let h = stepped.unwrap();
                proof {
                    self.objects@[i as int].lemma_hit_in_bounds(*r, cur);
                }
                cur = Interval { min: ray_t.min, max: h.t };
                best = Some(h);
            }
            i = i + 1;
        }
        proof {
            assert(self.objects@.take(self.objects@.len() as int) =~= self.objects@);
            lemma_scan_spec_best(self.objects@, *r, ray_t);
        }
        best
    }
}


/// The union of the bounding boxes of a sequence of primitives.
pub open spec fn list_aabb<P: Hit>(objs: Seq<P>) -> AABB
    decreases objs.len(),
{
    if objs.len() == 0 {
        spec_empty()
    } else {
        spec_union2(list_aabb(objs.drop_last()), objs.last().aabb_spec())
    }
}

/// The union of the members' boxes is well formed and encloses each of them.
pub proof fn lemma_list_aabb_covers<P: Hit>(objs: Seq<P>)
    requires
        prims_inv(objs),
    ensures
        aabb_wf(list_aabb(objs)),
        forall|i: int|
            0 <= i < objs.len() ==> aabb_subset(
                (#[trigger] objs[i]).aabb_spec(),
                list_aabb(objs),
            ),
    decreases objs.len(),
{
    if objs.len() > 0 {
        let pre = objs.drop_last();
        assert(forall|j: int| 0 <= j < pre.len() ==> pre[j] == objs[j]);
        lemma_list_aabb_covers(pre);
        objs.last().lemma_aabb_wf();
        lemma_union2_wf(list_aabb(pre), objs.last().aabb_spec());
        lemma_union2_subset(list_aabb(pre), objs.last().aabb_spec());
        assert forall|i: int| 0 <= i < objs.len() implies aabb_subset(
            (#[trigger] objs[i]).aabb_spec(),
            list_aabb(objs),
        ) by {
            if i < objs.len() - 1 {
                lemma_subset_trans(objs[i].aabb_spec(), list_aabb(pre), list_aabb(objs));
            }
        }
    }
}

/// Narrowing the far end of the interval keeps the scan's hit when it is
/// still strictly inside and drops everything else; a miss stays a miss.
#[verifier::rlimit(30)]
pub proof fn lemma_scan_narrow<P: Hit>(prims: Seq<P>, r: Ray, i1: Interval, i2: Interval)
    requires
        prims_inv(prims),
        ray_wf(r),
        interval_wf(i1),
        interval_wf(i2),
        i1.min == i2.min,
        rat_le(i2.max, i1.max),
    ensures
        match scan_spec(prims, r, i1) {
            Some(h) => scan_spec(prims, r, i2) == if rat_lt(h.t, i2.max) {
                Some(h)
            } else {
                None::<HitRecord>
            },
            None => scan_spec(prims, r, i2) is None,
        },
    decreases prims.len(),
{
    if prims.len() == 0 {
    } else {
        let pre = prims.drop_last();
        let last = prims.last();
        assert(forall|j: int| 0 <= j < pre.len() ==> pre[j] == prims[j]);
        lemma_scan_narrow(pre, r, i1, i2);
        let p1 = scan_spec(pre, r, i1);
        let p2 = scan_spec(pre, r, i2);
        let cur1 = match p1 {
            Some(h) => Interval { min: i1.min, max: h.t },
            None => i1,
        };
        let cur2 = match p2 {
            Some(h) => Interval { min: i2.min, max: h.t },
            None => i2,
        };
        lemma_scan_spec_best(pre, r, i1);
        lemma_scan_spec_best(pre, r, i2);
        assert(interval_wf(cur1) && interval_wf(cur2));
        match p1 {
            None => {
                // Nothing found yet on either side: the last member decides,
                // and its own narrowing law is exactly the goal.
                last.lemma_hit_narrow(r, i1, i2);
            },
            Some(hp) => {
                lemma_rat_total(hp.t, i2.max);
                if rat_lt(hp.t, i2.max) {
                    // The previous hit survives the narrowing, so both scans
                    // test the last member with the same narrowed interval.
                    assert(p2 == Some(hp));
                    assert(cur2 == cur1);
                    match last.hit_spec(r, cur1) {
                        Some(h2) => {
                            last.lemma_hit_in_bounds(r, cur1);
                            lemma_rat_lt_le_trans(h2.t, hp.t, i2.max);
                        },
                        None => {},
                    }
                } else {
                    // The previous hit falls outside the narrowed interval,
                    // and with it everything the narrowed scan could keep.
                    assert(p2 is None);
                    assert(cur2 == i2);
                    lemma_rat_le_trans(i2.max, hp.t, i1.max);
                    last.lemma_hit_narrow(r, cur1, i2);
                    match last.hit_spec(r, cur1) {
                        Some(h2) => {},
                        None => {},
                    }
                }
            },
        }
    }
}

impl<P: Hit> Hit for HitList<P> {
    /// Every member satisfies its own invariant.
    open spec fn inv(&self) -> bool {
        prims_inv(self.objects@)
    }

    /// The union of the members' boxes.
    open spec fn aabb_spec(&self) -> AABB {
        list_aabb(self.objects@)
    }

    /// The scan over the members.
    open spec fn hit_spec(&self, r: Ray, ray_t: Interval) -> Option<HitRecord> {
        scan_spec(self.objects@, r, ray_t)
    }

    /// The members' union box cut down to the range along the clip axis.
    open spec fn clipped_spec(&self, axis: Axis, lo: int, hi: int) -> AABB {
        spec_clip_box(list_aabb(self.objects@), axis, lo, hi)
    }

    fn aabb(&self) -> (b: AABB) {
        let mut acc = AABB::new();
        let mut i: usize = 0;
        while i < self.objects.len()
            invariant
                prims_inv(self.objects@),
                0 <= i <= self.objects@.len(),
                acc == list_aabb(self.objects@.take(i as int)),
            decreases self.objects@.len() - i,
        {
            proof {
                assert(self.objects@[i as int].inv());
                assert(self.objects@.take(i + 1 as int).drop_last() =~= self.objects@.take(
                    i as int,
                ));
                assert(self.objects@.take(i + 1 as int).last() == self.objects@[i as int]);
            }
            let b = self.objects[i].aabb();
            acc = AABB::union2(acc, b);
            i = i + 1;
        }
        proof {
            assert(self.objects@.take(self.objects@.len() as int) =~= self.objects@);
        }
        acc
    }

    /// The whole union box clamped to the given range along `axis`; the
    /// canonical empty box when the range misses it.
    fn clipped_aabb(&self, axis: Axis, lo: i64, hi: i64) -> (b: AABB) {
        let full = Hit::aabb(self);
        let mut bmin = full.min;
        let mut bmax = full.max;
        match axis {
            Axis::X => {
                if lo > bmin.x {
                    bmin.x = lo;
                }
                if hi < bmax.x {
                    bmax.x = hi;
                }
            },
            Axis::Y => {
                if lo > bmin.y {
                    bmin.y = lo;
                }
                if hi < bmax.y {
                    bmax.y = hi;
                }
            },
            Axis::Z => {
                if lo > bmin.z {
                    bmin.z = lo;
                }
                if hi < bmax.z {
                    bmax.z = hi;
                }
            },
        }
        proof {
            lemma_list_aabb_covers(self.objects@);
            match axis {
                Axis::X => {},
                Axis::Y => {},
                Axis::Z => {},
            }
        }
        if bmin.x > bmax.x || bmin.y > bmax.y || bmin.z > bmax.z {
            AABB::new()
        } else {
            AABB { min: bmin, max: bmax }
        }
    }

    fn hit(&self, r: &Ray, ray_t: Interval) -> (h: Option<HitRecord>) {
        HitList::hit(self, r, ray_t)
    }

    proof fn lemma_aabb_wf(&self) {
        lemma_list_aabb_covers(self.objects@);
    }

    proof fn lemma_clipped_ok(&self, axis: Axis, lo: int, hi: int) {
        lemma_list_aabb_covers(self.objects@);
        lemma_clip_box_ok(list_aabb(self.objects@), axis, lo, hi);
    }

    proof fn lemma_hit_in_bounds(&self, r: Ray, ray_t: Interval) {
        lemma_scan_spec_best(self.objects@, r, ray_t);
        lemma_list_aabb_covers(self.objects@);
        match scan_spec(self.objects@, r, ray_t) {
            Some(h) => {
                let j = choose|j: int|
                    0 <= j < self.objects@.len() && (#[trigger] self.objects@[j]).hit_spec(
                        r,
                        ray_t,
                    ) == Some(h);
                self.objects@[j].lemma_hit_in_bounds(r, ray_t);
                lemma_time_in_box_subset(self.objects@[j].aabb_spec(), list_aabb(self.objects@),
                    r, h.t);
            },
            None => {},
        }
    }

    proof fn lemma_hit_narrow(&self, r: Ray, i1: Interval, i2: Interval) {
        lemma_scan_narrow(self.objects@, r, i1, i2);
    }
}

} // verus!
