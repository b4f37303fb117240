//! Axis-aligned bounding boxes: one interval per axis.
use vstd::prelude::*;
use crate::interval::Interval;
use crate::scalar::Scalar;

verus! {

/// A point or a vector with scalar coordinates.
#[derive(Clone, Copy, Debug)]
pub struct Point3 {
    pub x: Scalar,
    pub y: Scalar,
    pub z: Scalar,
}

/// One of the three coordinate axes.
#[derive(Clone, Copy, Debug, PartialEq, Eq, Structural)]
pub enum Axis {
    X,
    Y,
    Z,
}

impl Point3 {
    pub fn new(x: Scalar, y: Scalar, z: Scalar) -> (r: Point3)
        ensures
            r.x == x,
            r.y == y,
            r.z == z,
    {
        Point3 { x, y, z }
    }
}

#[derive(Clone, Copy, Debug)]
pub struct AABB {
    pub x: Interval,
    pub y: Interval,
    pub z: Interval,
}

/// The interval that a slab test leaves after crossing one slab whose
/// entry and exit parameters are `t0` and `t1`, in either order.
pub open spec fn clip_spec(ray_t: Interval, t0: Scalar, t1: Scalar) -> Interval {
    let near = if t0.spec_lt(t1) { t0 } else { t1 };
    let far = if t0.spec_lt(t1) { t1 } else { t0 };
    Interval {
        min: if ray_t.min.spec_lt(near) { near } else { ray_t.min },
        max: if far.spec_lt(ray_t.max) { far } else { ray_t.max },
    }
}

/// The slab test over the first `k` axes of `slabs` leaves a non-empty
/// interval (`max > min`) after every axis.
pub open spec fn slabs_pass(ray_t: Interval, slabs: Seq<(Scalar, Scalar)>, k: nat) -> bool
    decreases k,
{
    if k == 0 {
        true
    } else {
        let prev = slabs_left(ray_t, slabs, (k - 1) as nat);
        slabs_pass(ray_t, slabs, (k - 1) as nat) && {
            let next = clip_spec(prev, slabs[k - 1].0, slabs[k - 1].1);
            !next.max.spec_le(next.min)
        }
    }
}

/// The interval left after clipping `ray_t` by the first `k` slabs.
pub open spec fn slabs_left(ray_t: Interval, slabs: Seq<(Scalar, Scalar)>, k: nat) -> Interval
    decreases k,
{
    if k == 0 {
        ray_t
    } else {
        let prev = slabs_left(ray_t, slabs, (k - 1) as nat);
        clip_spec(prev, slabs[k - 1].0, slabs[k - 1].1)
    }
}

/// No coordinate of the point is NaN.
pub open spec fn point_valid(p: Point3) -> bool {
    !p.x.nan() && !p.y.nan() && !p.z.nan()
}

/// The box that stretching the empty box by the first `k` points gives.
pub open spec fn points_box(points: Seq<Point3>, k: nat) -> AABB
    decreases k,
{
    if k == 0 {
        AABB {
            x: Interval::empty_spec(),
            y: Interval::empty_spec(),
            z: Interval::empty_spec(),
        }
    } else {
        let b = points_box(points, (k - 1) as nat);
        let p = points[k - 1];
        AABB {
            x: Interval { min: b.x.min.spec_min(p.x), max: b.x.max.spec_max(p.x) },
            y: Interval { min: b.y.min.spec_min(p.y), max: b.y.max.spec_max(p.y) },
            z: Interval { min: b.z.min.spec_min(p.z), max: b.z.max.spec_max(p.z) },
        }
    }
}

impl AABB {
    /// The point lies in the box (bounds compared by rank).
    pub open spec fn holds(self, p: Point3) -> bool {
        self.x.min.rank() <= p.x.rank() <= self.x.max.rank()
        && self.y.min.rank() <= p.y.rank() <= self.y.max.rank()
        && self.z.min.rank() <= p.z.rank() <= self.z.max.rank()
    }

    /// No bound of any axis is NaN.
    pub open spec fn valid(self) -> bool {
        self.x.valid() && self.y.valid() && self.z.valid()
    }

    /// `self` holds every point that `o` holds, axis by axis.
    pub open spec fn encloses(self, o: AABB) -> bool {
        self.x.encloses(o.x) && self.y.encloses(o.y) && self.z.encloses(o.z)
    }

    /// Both boxes have the same bounds as numbers (the two zeros are equal).
    pub open spec fn same_extent(self, o: AABB) -> bool {
        self.encloses(o) && o.encloses(self)
    }

    pub open spec fn spec_to_contain(self, o: AABB) -> AABB {
        AABB {
            x: self.x.spec_to_contain(o.x),
            y: self.y.spec_to_contain(o.y),
            z: self.z.spec_to_contain(o.z),
        }
    }

    pub open spec fn spec_axis(self, a: Axis) -> Interval {
        match a {
            Axis::X => self.x,
            Axis::Y => self.y,
            Axis::Z => self.z,
        }
    }

    pub fn new(x: Interval, y: Interval, z: Interval) -> (r: AABB)
        ensures
            r.x == x,
            r.y == y,
            r.z == z,
    {
        AABB { x, y, z }
    }

    /// The empty box, the identity of `to_contain`.
    pub fn empty() -> (r: AABB)
        ensures
            r.x == Interval::empty_spec(),
            r.y == Interval::empty_spec(),
            r.z == Interval::empty_spec(),
            forall|o: AABB| o.valid() ==> #[trigger] r.spec_to_contain(o) == o,
    {
        AABB { x: Interval::empty(), y: Interval::empty(), z: Interval::empty() }
    }

    /// The box with opposite corners `a` and `b`, given in any order.
    pub fn from_extrema(a: Point3, b: Point3) -> (r: AABB)
        ensures
            r.x == (if a.x.spec_le(b.x) { Interval { min: a.x, max: b.x } } else { Interval { min: b.x, max: a.x } }),
            r.y == (if a.y.spec_le(b.y) { Interval { min: a.y, max: b.y } } else { Interval { min: b.y, max: a.y } }),
            r.z == (if a.z.spec_le(b.z) { Interval { min: a.z, max: b.z } } else { Interval { min: b.z, max: a.z } }),
    {
        AABB {
            x: if a.x.le(b.x) { Interval::new(a.x, b.x) } else { Interval::new(b.x, a.x) },
            y: if a.y.le(b.y) { Interval::new(a.y, b.y) } else { Interval::new(b.y, a.y) },
            z: if a.z.le(b.z) { Interval::new(a.z, b.z) } else { Interval::new(b.z, a.z) },
        }
    }

    /// No bound is NaN.
    pub fn is_valid(&self) -> (r: bool)
        ensures
            r == self.valid(),
    {
        !self.x.min.is_nan() && !self.x.max.is_nan() && !self.y.min.is_nan()
            && !self.y.max.is_nan() && !self.z.min.is_nan() && !self.z.max.is_nan()
    }

    /// The interval of one axis.
    pub fn axis(&self, a: Axis) -> (r: Interval)
        ensures
            r == self.spec_axis(a),
    {
        match a {
            Axis::X => self.x,
            Axis::Y => self.y,
            Axis::Z => self.z,
        }
    }

    /// The slab test, given for each axis the ray parameters `t0`, `t1` at
    /// which it crosses the two planes of that axis (`(bound - origin) /
    /// direction`). The running interval starts at `ray_t`, is narrowed to
    /// each slab in turn, and the test fails as soon as it is empty
    /// (`max <= min`).
    pub fn hit_slabs(ray_t: Interval, slabs: &[(Scalar, Scalar); 3]) -> (r: bool)
        ensures
            r == slabs_pass(ray_t, slabs@, 3),
    {
        let mut t = ray_t;
        let mut i: usize = 0;
        while i < 3
            invariant
                i <= 3,
                slabs_pass(ray_t, slabs@, i as nat),
                t == slabs_left(ray_t, slabs@, i as nat),
            decreases 3 - i,
        {
            let (t0, t1) = slabs[i];
            if t0.lt(t1) {
                if t.min.lt(t0) {
                    t.min = t0;
                }
                if t1.lt(t.max) {
                    t.max = t1;
                }
            } else {
                if t.min.lt(t1) {
                    t.min = t1;
                }
                if t0.lt(t.max) {
                    t.max = t0;
                }
            }
            assert(t == slabs_left(ray_t, slabs@, (i + 1) as nat));
            if t.max.le(t.min) {
                assert(!slabs_pass(ray_t, slabs@, (i + 1) as nat));
                proof { lemma_slabs_fail_stays(ray_t, slabs@, (i + 1) as nat, 3); }
                return false;
            }
            i = i + 1;
        }
        true
    }

    /// The smallest box holding both boxes, axis by axis.
    pub fn to_contain(&self, o: &AABB) -> (r: AABB)
        ensures
            r == self.spec_to_contain(*o),
    {
        AABB { x: self.x.to_contain(&o.x), y: self.y.to_contain(&o.y), z: self.z.to_contain(&o.z) }
    }

    /// The eight corners, in the order least corner, then by `x`, `y`, `z`
    /// bits of the corner index counted from the greatest.
    pub fn get_points(&self) -> (r: [Point3; 8])
        ensures
            r@.len() == 8,
            forall|i: int| 0 <= i < 8 ==> {
                let p = #[trigger] r@[i];
                (p.x == self.x.min || p.x == self.x.max)
                && (p.y == self.y.min || p.y == self.y.max)
                && (p.z == self.z.min || p.z == self.z.max)
            },
            r@[0] == (Point3 { x: self.x.min, y: self.y.min, z: self.z.min }),
            r@[7] == (Point3 { x: self.x.max, y: self.y.max, z: self.z.max }),
    {
        [
            self.min(),
            Point3::new(self.x.min, self.y.min, self.z.max),
            Point3::new(self.x.min, self.y.max, self.z.max),
            Point3::new(self.x.min, self.y.max, self.z.min),
            Point3::new(self.x.max, self.y.min, self.z.min),
            Point3::new(self.x.max, self.y.min, self.z.max),
            Point3::new(self.x.max, self.y.max, self.z.min),
            self.max(),
        ]
    }

    /// The smallest box holding every given point: the empty box stretched
    /// by each point in turn.
    pub fn from_points(points: &[Point3; 8]) -> (r: AABB)
        ensures
            r == points_box(points@, 8),
            forall|i: int| 0 <= i < 8 && point_valid(#[trigger] points@[i]) ==> r.holds(points@[i]),
    {
        let mut res = AABB::empty();
        let mut i: usize = 0;
        while i < 8
            invariant
                i <= 8,
                points@.len() == 8,
                res == points_box(points@, i as nat),
                res.valid(),
                forall|j: int| 0 <= j < i && point_valid(#[trigger] points@[j]) ==> res.holds(points@[j]),
            decreases 8 - i,
        {
            let p = points[i];
            res.x.stretch_min(p.x);
            res.x.stretch_max(p.x);
            res.y.stretch_min(p.y);
            res.y.stretch_max(p.y);
            res.z.stretch_min(p.z);
            res.z.stretch_max(p.z);
            i = i + 1;
        }
        res
    }

    /// The corner with the least coordinates.
    pub fn min(&self) -> (r: Point3)
        ensures
            r.x == self.x.min,
            r.y == self.y.min,
            r.z == self.z.min,
    {
        Point3 { x: self.x.min, y: self.y.min, z: self.z.min }
    }

    /// The corner with the greatest coordinates.
    pub fn max(&self) -> (r: Point3)
        ensures
            r.x == self.x.max,
            r.y == self.y.max,
            r.z == self.z.max,
    {
        Point3 { x: self.x.max, y: self.y.max, z: self.z.max }
    }
}

/// The union of two valid boxes holds both, and any valid box that holds
/// both holds the union: it is the smallest box that holds both.
pub proof fn lemma_union_smallest(a: AABB, b: AABB, c: AABB)
    requires
        a.valid(),
        b.valid(),
        c.valid(),
    ensures
        a.spec_to_contain(b).valid(),
        a.spec_to_contain(b).encloses(a),
        a.spec_to_contain(b).encloses(b),
        c.encloses(a) && c.encloses(b) ==> c.encloses(a.spec_to_contain(b)),
{
}

/// Taking the union is commutative and associative, as far as the bounds'
/// values go.
pub proof fn lemma_union_order_free(a: AABB, b: AABB, c: AABB)
    requires
        a.valid(),
        b.valid(),
        c.valid(),
    ensures
        a.spec_to_contain(b).same_extent(b.spec_to_contain(a)),
        a.spec_to_contain(b).spec_to_contain(c).same_extent(a.spec_to_contain(b.spec_to_contain(c))),
{
}

proof fn lemma_slabs_fail_stays(ray_t: Interval, slabs: Seq<(Scalar, Scalar)>, k: nat, m: nat)
    requires
        k <= m,
        !slabs_pass(ray_t, slabs, k),
    ensures
        !slabs_pass(ray_t, slabs, m),
    decreases m - k,
{
    if k < m {
        lemma_slabs_fail_stays(ray_t, slabs, k, (m - 1) as nat);
    }
}

} // verus!
