//! Random direction sampling for diffuse bounce and lens offsets.
//!
//! Points are drawn uniformly from the cube (or square) inscribed in the
//! unit ball (or disk): component samples in `[-1/2, 1/2)` always satisfy
//! the ball bound, which keeps the sampling free of rejection loops and
//! makes each draw an exact function of the generator state.

use vstd::prelude::*;
use crate::num::SCALE;
use crate::vec3::{Vec3, vec_within, dot_num};
use crate::rng::{Rng, rng_next, rand_val};

verus! {

/// Mirror of `rand_in_ball`: the sample and the generator state after it.
pub open spec fn spec_ball(s: u64) -> (Vec3, u64) {
    let s1 = rng_next(s);
    let s2 = rng_next(s1);
    let s3 = rng_next(s2);
    (
        Vec3 {
            x: (rand_val(s) - 32768) as i64,
            y: (rand_val(s1) - 32768) as i64,
            z: (rand_val(s2) - 32768) as i64,
        },
        s3,
    )
}

/// A point of the cube inscribed in the unit ball.
pub fn rand_in_ball(rng: &mut Rng) -> (v: Vec3)
    ensures
        v == spec_ball(old(rng).state).0,
        final(rng).state == spec_ball(old(rng).state).1,
        vec_within(v, 32768),
{
    let x = rng.next_unit() - 32768;
    let y = rng.next_unit() - 32768;
    let z = rng.next_unit() - 32768;
    Vec3 { x, y, z }
}

/// Mirror of `rand_hemisphere`: the ball sample, flipped into the
/// hemisphere of the normal.
pub open spec fn spec_hemisphere(n: Vec3, s: u64) -> (Vec3, u64) {
    let (v, s1) = spec_ball(s);
    if dot_num(n, v) >= 0 {
        (v, s1)
    } else {
        (Vec3 { x: (-v.x) as i64, y: (-v.y) as i64, z: (-v.z) as i64 }, s1)
    }
}

/// A point of the unit ball on the normal's side (dot product at least 0).
pub fn rand_hemisphere(rng: &mut Rng, n: &Vec3) -> (v: Vec3)
    requires
        vec_within(*n, SCALE as int),
    ensures
        v == spec_hemisphere(*n, old(rng).state).0,
        final(rng).state == spec_hemisphere(*n, old(rng).state).1,
        vec_within(v, 32768),
        dot_num(*n, v) >= 0,
{
    let v = rand_in_ball(rng);
    proof {
        crate::num::lemma_mul_bound(n.x as int, v.x as int, SCALE as int, 32768);
        crate::num::lemma_mul_bound(n.y as int, v.y as int, SCALE as int, 32768);
        crate::num::lemma_mul_bound(n.z as int, v.z as int, SCALE as int, 32768);
    }
    let num: i128 = (n.x as i128) * (v.x as i128) + (n.y as i128) * (v.y as i128)
        + (n.z as i128) * (v.z as i128);
    if num >= 0 {
        v
    } else {
        let w = Vec3 { x: -v.x, y: -v.y, z: -v.z };
        proof {
            assert(dot_num(*n, w) == -dot_num(*n, v)) by (nonlinear_arith)
                requires
                    w.x == -v.x && w.y == -v.y && w.z == -v.z,
            ;
        }
        w
    }
}

/// Mirror of `rand_in_disk`: a lens offset in the square inscribed in the
/// unit disk, and the state after drawing it.
pub open spec fn spec_disk(s: u64) -> (Vec3, u64) {
    let s1 = rng_next(s);
    let s2 = rng_next(s1);
    (
        Vec3 { x: (rand_val(s) - 32768) as i64, y: (rand_val(s1) - 32768) as i64, z: 0 },
        s2,
    )
}

/// A point of the square inscribed in the unit disk (z is 0).
pub fn rand_in_disk(rng: &mut Rng) -> (v: Vec3)
    ensures
        v == spec_disk(old(rng).state).0,
        final(rng).state == spec_disk(old(rng).state).1,
        vec_within(v, 32768),
        v.z == 0,
{
    let x = rng.next_unit() - 32768;
    let y = rng.next_unit() - 32768;
    Vec3 { x, y, z: 0 }
}

} // verus!
