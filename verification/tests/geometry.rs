//! Fixed-point arithmetic, vectors, boxes and the slab test.

use raytrace::num::{fdiv64, mul_fx, div_fx, sqrt_fx, SCALE};
use raytrace::vec3::Vec3;
use raytrace::ray::Ray;
use raytrace::aabb::{AABB, surrounding_box};

fn v(x: i64, y: i64, z: i64) -> Vec3 {
    Vec3 { x: x * SCALE, y: y * SCALE, z: z * SCALE }
}

#[test]
fn fixed_point_division_rounds_down() {
    assert_eq!(fdiv64(7, 2), 3);
    assert_eq!(fdiv64(-7, 2), -4);
    assert_eq!(mul_fx(3 * SCALE, 2 * SCALE), 6 * SCALE);
    assert_eq!(div_fx(SCALE, 2 * SCALE), SCALE / 2);
}

#[test]
fn sqrt_is_exact_on_squares() {
    assert_eq!(sqrt_fx(4 * SCALE), 2 * SCALE);
    assert_eq!(sqrt_fx(9 * SCALE), 3 * SCALE);
    assert_eq!(sqrt_fx(0), 0);
}

#[test]
fn vector_algebra() {
    let a = v(1, 2, 3);
    let b = v(4, 5, 6);
    let s = a.add(&b);
    assert_eq!((s.x, s.y, s.z), (5 * SCALE, 7 * SCALE, 9 * SCALE));
    assert_eq!(a.dot(&b), 32 * SCALE);
    assert_eq!(a.length(), 14 * SCALE);
    let c = v(1, 0, 0).cross(&v(0, 1, 0));
    assert_eq!((c.x, c.y, c.z), (0, 0, SCALE));
}

#[test]
fn normalize_three_four_five() {
    let n = v(3, 4, 0).norm();
    // 3/5 and 4/5, rounded down by one quantum at most.
    assert_eq!(n.x, 39321);
    assert_eq!(n.y, 52428);
    assert_eq!(n.z, 0);
    let z = Vec3 { x: 0, y: 0, z: 0 }.norm();
    assert_eq!((z.x, z.y, z.z), (0, 0, 0));
}

#[test]
fn reflect_mirror_bounce() {
    let d = Vec3 { x: SCALE, y: -SCALE, z: 0 };
    let n = Vec3 { x: 0, y: SCALE, z: 0 };
    let r = d.reflect(&n);
    assert_eq!((r.x, r.y, r.z), (SCALE, SCALE, 0));
}

#[test]
fn surrounding_box_covers_both() {
    let a = AABB { min: v(-1, -1, -1), max: v(1, 1, 1) };
    let b = AABB { min: v(0, -2, 0), max: v(3, 0, 0) };
    let u = surrounding_box(&a, &b);
    assert_eq!(u.min.x, -SCALE);
    assert_eq!(u.min.y, -2 * SCALE);
    assert_eq!(u.max.x, 3 * SCALE);
    assert_eq!(u.max.z, SCALE);
}

#[test]
fn slab_hit_straight_through() {
    let bx = AABB { min: v(-1, -1, -1), max: v(1, 1, 1) };
    let r = Ray { origin: v(0, 0, -3), direction: v(0, 0, 1) };
    assert!(bx.hit(&r, 0, 10 * SCALE));
    // The box lies at parameters [2, 4]; an interval ending before it misses.
    assert!(!bx.hit(&r, 0, SCALE));
}

#[test]
fn slab_parallel_axis_uses_origin() {
    let bx = AABB { min: v(-1, -1, -1), max: v(1, 1, 1) };
    // Direction has a zero x component; origin x inside the slab: hit.
    let inside = Ray { origin: v(0, 0, -3), direction: v(0, 0, 1) };
    assert!(bx.hit(&inside, 0, 10 * SCALE));
    // Origin x outside the slab: always a miss.
    let outside = Ray { origin: v(2, 0, -3), direction: v(0, 0, 1) };
    assert!(!bx.hit(&outside, 0, 10 * SCALE));
    // Exactly on the boundary counts as inside.
    let edge = Ray { origin: v(1, 0, -3), direction: v(0, 0, 1) };
    assert!(bx.hit(&edge, 0, 10 * SCALE));
}
