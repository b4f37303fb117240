use bitray::aabb::{Axis, Point3, AABB};
use bitray::integrator::{deeper, next_bounce, Bounce};
use bitray::interval::Interval;
use bitray::quad::is_interior;
use bitray::scalar::Scalar;
use bitray::sphere::nearest_root;

fn s(x: f32) -> Scalar {
    Scalar::from_bits(x.to_bits())
}

fn f(x: Scalar) -> f32 {
    f32::from_bits(x.to_bits())
}

fn p(x: f32, y: f32, z: f32) -> Point3 {
    Point3::new(s(x), s(y), s(z))
}

fn bounds(b: &AABB) -> [f32; 6] {
    [f(b.x.min), f(b.x.max), f(b.y.min), f(b.y.max), f(b.z.min), f(b.z.max)]
}

fn slabs(b: &AABB, o: [f32; 3], d: [f32; 3]) -> [(Scalar, Scalar); 3] {
    let bb = bounds(b);
    let mut r = [(s(0.0), s(0.0)); 3];
    for i in 0..3 {
        let inv = 1.0 / d[i];
        r[i] = (s((bb[2 * i] - o[i]) * inv), s((bb[2 * i + 1] - o[i]) * inv));
    }
    r
}

#[test]
fn from_extrema_orders_each_axis() {
    let b = AABB::from_extrema(p(1.0, -2.0, 3.0), p(-1.0, 2.0, 0.0));
    assert_eq!(bounds(&b), [-1.0, 1.0, -2.0, 2.0, 0.0, 3.0]);
    assert_eq!(f(b.axis(Axis::Y).max), 2.0);
}

#[test]
fn union_holds_both_boxes_and_no_more() {
    let a = AABB::from_extrema(p(0.0, 0.0, 0.0), p(1.0, 1.0, 1.0));
    let b = AABB::from_extrema(p(2.0, -1.0, 0.5), p(3.0, 0.5, 4.0));
    let u = a.to_contain(&b);
    assert_eq!(bounds(&u), [0.0, 3.0, -1.0, 1.0, 0.0, 4.0]);
    assert_eq!(bounds(&b.to_contain(&a)), bounds(&u));
    let e = AABB::empty();
    assert_eq!(bounds(&e.to_contain(&a)), bounds(&a));
}

#[test]
fn corners_rebuild_the_box() {
    let a = AABB::from_extrema(p(-1.0, 2.0, 0.0), p(1.0, 5.0, 0.5));
    let pts = a.get_points();
    assert_eq!(f(pts[0].x), -1.0);
    assert_eq!(f(pts[7].z), 0.5);
    let back = AABB::from_points(&pts);
    assert_eq!(bounds(&back), bounds(&a));
    assert_eq!(f(a.min().y), 2.0);
    assert_eq!(f(a.max().y), 5.0);
}

#[test]
fn slab_test_hits_and_misses() {
    let b = AABB::from_extrema(p(-1.0, -1.0, -1.0), p(1.0, 1.0, 1.0));
    let t = Interval::new(s(0.0), Scalar::max_value());
    // Straight along -z from z = 5: the direction has zero x and y parts.
    assert!(AABB::hit_slabs(t, &slabs(&b, [0.0, 0.0, 5.0], [0.0, 0.0, -1.0])));
    // Same direction, but beside the box.
    assert!(!AABB::hit_slabs(t, &slabs(&b, [2.0, 0.0, 5.0], [0.0, 0.0, -1.0])));
    // Pointing away from the box.
    assert!(!AABB::hit_slabs(t, &slabs(&b, [0.0, 0.0, 5.0], [0.0, 0.0, 1.0])));
    // A diagonal ray through the box.
    assert!(AABB::hit_slabs(t, &slabs(&b, [-5.0, -5.0, -5.0], [1.0, 1.0, 1.0])));
    // Box behind the end of the parameter range.
    let short = Interval::new(s(0.0), s(2.0));
    assert!(!AABB::hit_slabs(short, &slabs(&b, [0.0, 0.0, 5.0], [0.0, 0.0, -1.0])));
}

#[test]
fn box_validity() {
    let ok = AABB::from_extrema(p(0.0, 0.0, 0.0), p(1.0, 1.0, 1.0));
    assert!(ok.is_valid());
    let bad = AABB::new(Interval::new(s(f32::NAN), s(1.0)), ok.y, ok.z);
    assert!(!bad.is_valid());
}

#[test]
fn bounce_decisions() {
    assert_eq!(next_bounce(0, true, true, true), Bounce::Exhausted);
    assert_eq!(next_bounce(-1, false, false, false), Bounce::Exhausted);
    assert_eq!(next_bounce(3, false, true, true), Bounce::Background);
    assert_eq!(next_bounce(3, true, false, true), Bounce::Emit);
    assert_eq!(next_bounce(3, true, true, false), Bounce::Specular);
    assert_eq!(next_bounce(1, true, true, true), Bounce::Mixture);
    assert_eq!(deeper(5), 4);
}

#[test]
fn quad_interior_test() {
    let r = is_interior(s(0.25), s(1.0)).unwrap();
    assert_eq!((f(r.0), f(r.1)), (0.25, 1.0));
    assert!(is_interior(s(0.0), s(0.0)).is_some());
    assert!(is_interior(s(-0.01), s(0.5)).is_none());
    assert!(is_interior(s(0.5), s(1.01)).is_none());
    assert!(is_interior(s(f32::NAN), s(0.5)).is_none());
}

#[test]
fn sphere_root_choice() {
    let t = Interval::new(s(0.001), Scalar::max_value());
    assert_eq!(nearest_root(t, s(2.0), s(4.0)).map(f), Some(2.0));
    assert_eq!(nearest_root(t, s(-1.0), s(4.0)).map(f), Some(4.0));
    assert_eq!(nearest_root(t, s(-3.0), s(-1.0)).map(f), None);
    let short = Interval::new(s(0.001), s(3.0));
    assert_eq!(nearest_root(short, s(3.0), s(5.0)).map(f), None);
}
