//! Parameter intervals along a ray.

use vstd::prelude::*;

use crate::rat::{rat_le, rat_lt, rat_max, rat_min, rat_ok, Rat};

verus! {

/// A closed-or-open range of ray parameters. `min` and `max` may be the
/// infinite `Rat` values, so the whole line is representable.
#[derive(Clone, Copy, PartialEq, Eq, Structural, Debug)]
pub struct Interval {
    pub min: Rat,
    pub max: Rat,
}

/// Both endpoints satisfy the rational representation invariant.
pub open spec fn interval_wf(it: Interval) -> bool {
    rat_ok(it.min) && rat_ok(it.max)
}

/// `x` lies strictly between the endpoints.
pub open spec fn spec_surrounds(it: Interval, x: Rat) -> bool {
    rat_lt(it.min, x) && rat_lt(x, it.max)
}

/// `x` lies between the endpoints, inclusive.
pub open spec fn spec_contains(it: Interval, x: Rat) -> bool {
    rat_le(it.min, x) && rat_le(x, it.max)
}

impl Interval {
    /// The interval with the given endpoints.
    pub fn new(min: Rat, max: Rat) -> (r: Interval)
        ensures
            r == (Interval { min, max }),
    {
        Interval { min, max }
    }

    /// True when `x` lies between the endpoints, inclusive.
    pub fn contains(&self, x: Rat) -> (r: bool)
        requires
            interval_wf(*self),
            rat_ok(x),
        ensures
            r == spec_contains(*self, x),
    {
        self.min.le(x) && x.le(self.max)
    }

    /// True when `x` lies strictly between the endpoints.
    pub fn surrounds(&self, x: Rat) -> (r: bool)
        requires
            interval_wf(*self),
            rat_ok(x),
        ensures
            r == spec_surrounds(*self, x),
    {
        self.min.lt(x) && x.lt(self.max)
    }

    /// `x` forced into the interval: values below `min` become `min`, values
    /// above `max` become `max`.
    pub fn clamp(&self, x: Rat) -> (r: Rat)
        requires
            interval_wf(*self),
            rat_ok(x),
        ensures
            r == rat_min(rat_max(x, self.min), self.max),
    {
        x.max(self.min).min(self.max)
    }
}

} // verus!
