//! Closed intervals `[min, max]` of scalars.
use vstd::prelude::*;
use crate::scalar::Scalar;

verus! {

#[derive(Clone, Copy, Debug)]
pub struct Interval {
    pub min: Scalar,
    pub max: Scalar,
}

impl Interval {
    /// Neither bound is NaN.
    pub open spec fn valid(self) -> bool {
        !self.min.nan() && !self.max.nan()
    }

    /// `self` holds every number that `o` holds (bounds compared by rank).
    pub open spec fn encloses(self, o: Interval) -> bool {
        self.min.rank() <= o.min.rank() && o.max.rank() <= self.max.rank()
    }

    pub open spec fn empty_spec() -> Interval {
        Interval {
            min: Scalar { bits: crate::scalar::INFINITY_BITS },
            max: Scalar { bits: crate::scalar::NEG_INFINITY_BITS },
        }
    }

    pub open spec fn spec_to_contain(self, o: Interval) -> Interval {
        Interval { min: self.min.spec_min(o.min), max: self.max.spec_max(o.max) }
    }

    pub fn new(min: Scalar, max: Scalar) -> (r: Interval)
        ensures
            r.min == min,
            r.max == max,
    {
        Interval { min, max }
    }

    /// `min <= n <= max`.
    pub fn contains(&self, n: Scalar) -> (r: bool)
        ensures
            r == (self.min.spec_le(n) && n.spec_le(self.max)),
    {
        self.min.le(n) && n.le(self.max)
    }

    /// `min < n < max`.
    pub fn surrounds(&self, n: Scalar) -> (r: bool)
        ensures
            r == (self.min.spec_lt(n) && n.spec_lt(self.max)),
    {
        self.min.lt(n) && n.lt(self.max)
    }

    /// The empty interval `[+inf, -inf]`, the identity of `to_contain`.
    pub fn empty() -> (r: Interval)
        ensures
            r == Interval::empty_spec(),
            r.valid(),
            forall|o: Interval| o.valid() ==> #[trigger] r.spec_to_contain(o) == o,
    {
        Interval { min: Scalar::infinity(), max: Scalar::neg_infinity() }
    }

    /// The interval between the most negative and the largest finite values.
    pub fn universe() -> (r: Interval)
        ensures
            r.min.bits == crate::scalar::MIN_BITS,
            r.max.bits == crate::scalar::MAX_BITS,
    {
        Interval { min: Scalar::min_value(), max: Scalar::max_value() }
    }

    /// The two intervals share more than one point:
    /// `max(self.min, o.min) < min(self.max, o.max)`.
    pub fn overlaps(&self, o: &Interval) -> (r: bool)
        ensures
            r == self.min.spec_max(o.min).spec_lt(self.max.spec_min(o.max)),
    {
        let t_min = self.min.max(o.min);
        let t_max = self.max.min(o.max);
        t_min.lt(t_max)
    }

    /// The smallest interval holding both: the lesser minimum and the greater
    /// maximum.
    pub fn to_contain(&self, o: &Interval) -> (r: Interval)
        ensures
            r == self.spec_to_contain(*o),
            self.valid() && o.valid() ==> r.valid() && r.encloses(*self) && r.encloses(*o),
    {
        Interval { min: self.min.min(o.min), max: self.max.max(o.max) }
    }

    /// Raises the lower bound to `c` if it is below.
    pub fn clamp_min(&mut self, c: Scalar)
        ensures
            final(self).min == old(self).min.spec_max(c),
            final(self).max == old(self).max,
    {
        self.min = self.min.max(c);
    }

    /// Lowers the upper bound to `c` if it is above.
    pub fn clamp_max(&mut self, c: Scalar)
        ensures
            final(self).max == old(self).max.spec_min(c),
            final(self).min == old(self).min,
    {
        self.max = self.max.min(c);
    }

    /// Lowers the lower bound to `s` if it is above.
    pub fn stretch_min(&mut self, s: Scalar)
        ensures
            final(self).min == old(self).min.spec_min(s),
            final(self).max == old(self).max,
    {
        self.min = self.min.min(s);
    }

    /// Raises the upper bound to `s` if it is below.
    pub fn stretch_max(&mut self, s: Scalar)
        ensures
            final(self).max == old(self).max.spec_max(s),
            final(self).min == old(self).min,
    {
        self.max = self.max.max(s);
    }
}

impl Default for Interval {
    /// The empty interval.
    fn default() -> (r: Interval)
        ensures
            r == Interval::empty_spec(),
    {
        Interval::empty()
    }
}

} // verus!
