use bitray::aabb::{Axis, Point3, AABB};
use bitray::bvh::{BvhError, Hit, BVH};
use bitray::hittable::HittableList;
use bitray::interval::Interval;
use bitray::scalar::Scalar;
use std::cell::Cell;

fn s(x: f32) -> Scalar {
    Scalar::from_bits(x.to_bits())
}

fn f(x: Scalar) -> f32 {
    f32::from_bits(x.to_bits())
}

fn cube(lo: [f32; 3], hi: [f32; 3]) -> AABB {
    AABB::from_extrema(
        Point3::new(s(lo[0]), s(lo[1]), s(lo[2])),
        Point3::new(s(hi[0]), s(hi[1]), s(hi[2])),
    )
}

fn slabs(b: &AABB, o: [f32; 3], d: [f32; 3]) -> [(Scalar, Scalar); 3] {
    let lo = [f(b.x.min), f(b.y.min), f(b.z.min)];
    let hi = [f(b.x.max), f(b.y.max), f(b.z.max)];
    let mut r = [(s(0.0), s(0.0)); 3];
    for i in 0..3 {
        let inv = 1.0 / d[i];
        r[i] = (s((lo[i] - o[i]) * inv), s((hi[i] - o[i]) * inv));
    }
    r
}

/// Where a ray enters a solid box within `(lo, hi)`, if it does.
fn enter(b: &AABB, o: [f32; 3], d: [f32; 3], lo: f32, hi: f32) -> Option<f32> {
    let sl = slabs(b, o, d);
    let mut near = f32::NEG_INFINITY;
    let mut far = f32::INFINITY;
    for (a, c) in sl {
        let (a, c) = (f(a), f(c));
        near = near.max(a.min(c));
        far = far.min(a.max(c));
    }
    if near > far {
        return None;
    }
    if lo < near && near < hi {
        Some(near)
    } else if lo < far && far < hi {
        Some(far)
    } else {
        None
    }
}

struct Lcg(u64);

impl Lcg {
    fn next(&mut self) -> f32 {
        self.0 = self.0.wrapping_mul(6364136223846793005).wrapping_add(1442695040888963407);
        ((self.0 >> 40) as f32) / ((1u64 << 24) as f32)
    }
}

const T_MIN: f32 = 0.001;

fn bvh_t(bvh: &BVH, boxes: &[AABB], o: [f32; 3], d: [f32; 3]) -> Option<(usize, f32)> {
    let range = Interval::new(s(T_MIN), Scalar::max_value());
    let box_hit = |b: AABB| AABB::hit_slabs(range, &slabs(&b, o, d));
    let obj_hit = |i: usize| enter(&boxes[i], o, d, T_MIN, f32::MAX).map(|t| Hit { t: s(t), record: i });
    bvh.hit(&box_hit, &obj_hit).map(|(i, h)| (i, f(h.t)))
}

fn brute_t(boxes: &[AABB], o: [f32; 3], d: [f32; 3]) -> Option<f32> {
    let mut best: Option<f32> = None;
    for b in boxes {
        if let Some(t) = enter(b, o, d, T_MIN, f32::MAX) {
            if best.map_or(true, |c| t < c) {
                best = Some(t);
            }
        }
    }
    best
}

fn random_scene(rng: &mut Lcg, n: usize) -> Vec<AABB> {
    let mut boxes = Vec::new();
    for _ in 0..n {
        let c = [rng.next() * 20.0 - 10.0, rng.next() * 20.0 - 10.0, rng.next() * 20.0 - 10.0];
        let h = [rng.next() + 0.1, rng.next() + 0.1, rng.next() + 0.1];
        boxes.push(cube([c[0] - h[0], c[1] - h[1], c[2] - h[2]], [c[0] + h[0], c[1] + h[1], c[2] + h[2]]));
    }
    boxes
}

fn random_ray(rng: &mut Lcg) -> ([f32; 3], [f32; 3]) {
    let o = [rng.next() * 30.0 - 15.0, rng.next() * 30.0 - 15.0, rng.next() * 30.0 - 15.0];
    let target = [rng.next() * 10.0 - 5.0, rng.next() * 10.0 - 5.0, rng.next() * 10.0 - 5.0];
    (o, [target[0] - o[0], target[1] - o[1], target[2] - o[2]])
}

#[test]
fn empty_list_is_refused() {
    assert_eq!(BVH::new(vec![]).err(), Some(BvhError::Empty));
    assert_eq!(BVH::with_axis(vec![], Axis::Y).err(), Some(BvhError::Empty));
}

#[test]
fn nan_box_is_refused() {
    let good = cube([0.0, 0.0, 0.0], [1.0, 1.0, 1.0]);
    let bad = cube([0.0, f32::NAN, 0.0], [1.0, 1.0, 1.0]);
    assert_eq!(BVH::new(vec![good, good, bad, bad]).err(), Some(BvhError::InvalidBox(2)));
}

#[test]
fn single_object_tree() {
    let b = cube([0.0, 0.0, 0.0], [1.0, 1.0, 1.0]);
    let bvh = BVH::new(vec![b]).unwrap();
    assert_eq!(bvh.nodes.len(), 1);
    assert_eq!(bvh.nodes[0].left, bvh.nodes[0].right);
    let hit = bvh_t(&bvh, &[b], [0.5, 0.5, -3.0], [0.0, 0.0, 1.0]);
    assert_eq!(hit, Some((0, 3.0)));
    let miss = bvh_t(&bvh, &[b], [5.5, 0.5, -3.0], [0.0, 0.0, 1.0]);
    assert_eq!(miss, None);
}

#[test]
fn root_box_holds_every_object() {
    let mut rng = Lcg(7);
    let boxes = random_scene(&mut rng, 13);
    let bvh = BVH::new(boxes.clone()).unwrap();
    let root = bvh.bounding_box();
    let list = HittableList::new(boxes.clone());
    let lb = list.bounding_box();
    for b in &boxes {
        assert!(f(root.x.min) <= f(b.x.min) && f(b.x.max) <= f(root.x.max));
        assert!(f(root.y.min) <= f(b.y.min) && f(b.y.max) <= f(root.y.max));
        assert!(f(root.z.min) <= f(b.z.min) && f(b.z.max) <= f(root.z.max));
    }
    assert_eq!(f(root.x.min), f(lb.x.min));
    assert_eq!(f(root.z.max), f(lb.z.max));
}

#[test]
fn bvh_matches_linear_search() {
    let mut rng = Lcg(42);
    for scene in 0..20 {
        let boxes = random_scene(&mut rng, 1 + scene * 3);
        let random_tree = BVH::new(boxes.clone()).unwrap();
        let x_tree = BVH::with_axis(boxes.clone(), Axis::X).unwrap();
        let z_tree = BVH::with_axis(boxes.clone(), Axis::Z).unwrap();
        let list = HittableList::new(boxes.clone());
        for _ in 0..50 {
            let (o, d) = random_ray(&mut rng);
            let expected = brute_t(&boxes, o, d);
            for tree in [&random_tree, &x_tree, &z_tree] {
                let got = bvh_t(tree, &boxes, o, d);
                assert_eq!(got.map(|g| g.1), expected);
                if let Some((i, t)) = got {
                    assert_eq!(enter(&boxes[i], o, d, T_MIN, f32::MAX), Some(t));
                }
            }
            let range = Interval::new(s(T_MIN), Scalar::max_value());
            let obj_hit = |i: usize, iv: Interval| {
                enter(&boxes[i], o, d, f(iv.min), f(iv.max)).map(|t| Hit { t: s(t), record: () })
            };
            let linear = list.hit(range, &obj_hit).map(|(_, h)| f(h.t));
            assert_eq!(linear, expected);
        }
    }
}

#[test]
fn split_axis_changes_shape_not_result() {
    let mut rng = Lcg(3);
    let boxes = random_scene(&mut rng, 9);
    let x_tree = BVH::with_axis(boxes.clone(), Axis::X).unwrap();
    let y_tree = BVH::with_axis(boxes.clone(), Axis::Y).unwrap();
    let x_leaves: Vec<_> = x_tree.nodes.iter().map(|n| (n.left, n.right)).collect();
    let y_leaves: Vec<_> = y_tree.nodes.iter().map(|n| (n.left, n.right)).collect();
    assert_ne!(x_leaves, y_leaves);
    for _ in 0..200 {
        let (o, d) = random_ray(&mut rng);
        assert_eq!(bvh_t(&x_tree, &boxes, o, d).map(|g| g.1), bvh_t(&y_tree, &boxes, o, d).map(|g| g.1));
    }
}

#[test]
fn seven_boxes_prune_sibling_subtrees() {
    let boxes: Vec<AABB> = (0..7)
        .map(|k| {
            let x = 2.0 * k as f32;
            cube([x, 0.0, 0.0], [x + 1.0, 1.0, 1.0])
        })
        .collect();
    let bvh = BVH::with_axis(boxes.clone(), Axis::X).unwrap();
    let o = [4.5, -5.0, 0.5];
    let d = [0.0, 1.0, 0.0];
    let range = Interval::new(s(T_MIN), Scalar::max_value());
    let box_tests = Cell::new(0usize);
    let obj_tests = Cell::new(0usize);
    let box_hit = |b: AABB| {
        box_tests.set(box_tests.get() + 1);
        AABB::hit_slabs(range, &slabs(&b, o, d))
    };
    let obj_hit = |i: usize| {
        obj_tests.set(obj_tests.get() + 1);
        enter(&boxes[i], o, d, T_MIN, f32::MAX).map(|t| Hit { t: s(t), record: i })
    };
    let (i, h) = bvh.hit(&box_hit, &obj_hit).unwrap();
    assert_eq!(i, 2);
    assert_eq!(f(h.t), 5.0);
    assert_eq!(h.record, 2);
    // Only the leaf holding box 2 tests objects; depth of a 7-object tree is 3.
    assert!(obj_tests.get() <= 2, "{} object tests", obj_tests.get());
    assert!(box_tests.get() <= 5, "{} box tests", box_tests.get());
}

#[test]
fn linear_search_narrows_to_closest() {
    let boxes = vec![
        cube([0.0, 0.0, 5.0], [1.0, 1.0, 6.0]),
        cube([0.0, 0.0, 2.0], [1.0, 1.0, 3.0]),
        cube([0.0, 0.0, 8.0], [1.0, 1.0, 9.0]),
    ];
    let list = HittableList::new(boxes.clone());
    let o = [0.5, 0.5, 0.0];
    let d = [0.0, 0.0, 1.0];
    let asked = std::cell::RefCell::new(Vec::new());
    let obj_hit = |i: usize, iv: Interval| {
        asked.borrow_mut().push((i, f(iv.max)));
        enter(&boxes[i], o, d, f(iv.min), f(iv.max)).map(|t| Hit { t: s(t), record: i })
    };
    let range = Interval::new(s(T_MIN), Scalar::max_value());
    let (i, h) = list.hit(range, &obj_hit).unwrap();
    assert_eq!((i, f(h.t)), (1, 2.0));
    assert_eq!(*asked.borrow(), vec![(0, f32::MAX), (1, 5.0), (2, 2.0)]);
    let empty = HittableList::new(vec![]);
    assert!(empty.hit(range, &obj_hit).is_none());
    assert_eq!(f(empty.bounding_box().x.min), f32::INFINITY);
}
