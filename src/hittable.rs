//! A flat list of objects, each known by its index and bounding box, and
//! the linear closest-hit search over it.
use vstd::prelude::*;
use crate::aabb::AABB;
use crate::bvh::Hit;
use crate::interval::Interval;

verus! {

pub struct HittableList {
    pub boxes: Vec<AABB>,
    pub aabb: AABB,
}

/// The union of the first `k` boxes, starting from the empty box.
pub open spec fn union_of(boxes: Seq<AABB>, k: nat) -> AABB
    decreases k,
{
    if k == 0 {
        AABB { x: Interval::empty_spec(), y: Interval::empty_spec(), z: Interval::empty_spec() }
    } else {
        union_of(boxes, (k - 1) as nat).spec_to_contain(boxes[k - 1])
    }
}

/// The value that `f` returns on `(a, b)`, for a function that returns one
/// value for each pair of arguments.
pub open spec fn answer2<A, B, R, F: Fn(A, B) -> R>(f: F, a: A, b: B) -> R {
    choose|r: R| call_ensures(f, (a, b), r)
}

/// `f` can be called on every pair of arguments and returns the same value
/// each time.
pub open spec fn well_behaved2<A, B, R, F: Fn(A, B) -> R>(f: F) -> bool {
    &&& forall|a: A, b: B| call_requires(f, (a, b))
    &&& forall|a: A, b: B, r1: R, r2: R| call_ensures(f, (a, b), r1) && call_ensures(f, (a, b), r2) ==> r1 == r2
}

/// The search over the first `k` objects: each object is asked over
/// `[ray_t.min, closest]`, where `closest` is the `t` of the last hit so
/// far (at first `ray_t.max`), and a hit replaces the one kept. Returns the
/// hit kept and the final `closest`.
pub open spec fn scan<D, G: Fn(usize, Interval) -> Option<Hit<D>>>(
    oh: G,
    ray_t: Interval,
    k: nat,
) -> (Option<(usize, Hit<D>)>, crate::scalar::Scalar)
    decreases k,
{
    if k == 0 {
        (None, ray_t.max)
    } else {
        let prev = scan(oh, ray_t, (k - 1) as nat);
        let i = (k - 1) as usize;
        match answer2(oh, i, Interval { min: ray_t.min, max: prev.1 }) {
            Some(h) => (Some((i, h)), h.t),
            None => prev,
        }
    }
}

impl HittableList {
    /// The list's box is the union of its members' boxes.
    pub open spec fn wf(&self) -> bool {
        self.aabb == union_of(self.boxes@, self.boxes@.len())
    }

    /// The list over objects with the given boxes; its box is their union
    /// (the empty box for no object).
    pub fn new(boxes: Vec<AABB>) -> (r: HittableList)
        ensures
            r.boxes@ == boxes@,
            r.wf(),
            crate::bvh::boxes_valid(boxes@) ==> forall|i: int| 0 <= i < boxes@.len() ==> r.aabb.encloses(#[trigger] boxes@[i]),
    {
        let mut bb = AABB::empty();
        let mut i: usize = 0;
        while i < boxes.len()
            invariant
                i <= boxes@.len(),
                bb == union_of(boxes@, i as nat),
                crate::bvh::boxes_valid(boxes@) ==> bb.valid(),
                crate::bvh::boxes_valid(boxes@) ==> forall|j: int| 0 <= j < i ==> bb.encloses(#[trigger] boxes@[j]),
            decreases boxes@.len() - i,
        {
            bb = bb.to_contain(&boxes[i]);
            i = i + 1;
        }
        HittableList { boxes, aabb: bb }
    }

    pub fn bounding_box(&self) -> (r: AABB)
        ensures
            r == self.aabb,
    {
        self.aabb
    }

    /// The closest hit by a linear search: objects are asked in order, each
    /// over `[ray_t.min, t of the last hit]`, and the last hit found is
    /// returned.
    pub fn hit<D, G: Fn(usize, Interval) -> Option<Hit<D>>>(&self, ray_t: Interval, obj_hit: &G) -> (r: Option<(usize, Hit<D>)>)
        requires
            well_behaved2(*obj_hit),
        ensures
            r == scan(*obj_hit, ray_t, self.boxes@.len()).0,
    {
        let mut rec: Option<(usize, Hit<D>)> = None;
        let mut closest = ray_t.max;
        let n = self.boxes.len();
        let mut i: usize = 0;
        while i < n
            invariant
                i <= n,
                n == self.boxes@.len(),
                well_behaved2(*obj_hit),
                (rec, closest) == scan(*obj_hit, ray_t, i as nat),
            decreases n - i,
        {
            let iv = Interval { min: ray_t.min, max: closest };
            let h = obj_hit(i, iv);
            proof {
                assert(answer2(*obj_hit, i, iv) == h);
            }
            match h {
                Some(h) => {
                    closest = h.t;
                    rec = Some((i, h));
                },
                None => {},
            }
            i = i + 1;
        }
        rec
    }
}

} // verus!
