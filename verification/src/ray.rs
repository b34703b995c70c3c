//! Rays: an origin, a direction, and parametric point evaluation.

use vstd::prelude::*;
use crate::num::{fx_ok, fxmul, fdiv128, SCALE, FX_BOUND};
use crate::vec3::{Vec3, vec_ok};

verus! {

#[derive(Clone, Copy, Debug, PartialEq, Eq, Structural)]
pub struct Ray {
    pub origin: Vec3,
    pub direction: Vec3,
}

/// Mirror of `point_at`: the point `origin + direction * t`.
pub open spec fn spec_at(r: Ray, t: int) -> Vec3 {
    Vec3 {
        x: (r.origin.x + fxmul(t, r.direction.x as int)) as i64,
        y: (r.origin.y + fxmul(t, r.direction.y as int)) as i64,
        z: (r.origin.z + fxmul(t, r.direction.z as int)) as i64,
    }
}

impl Ray {
    pub fn new(origin: Vec3, direction: Vec3) -> (r: Ray)
        ensures
            r == (Ray { origin, direction }),
    {
        Ray { origin, direction }
    }

    /// The point at parameter `t` along the ray.
    pub fn point_at(&self, t: i64) -> (r: Vec3)
        requires
            vec_ok(self.origin),
            vec_ok(self.direction),
            fx_ok(t),
        ensures
            r == spec_at(*self, t as int),
    {
        proof {
            crate::num::lemma_mul_bound(t as int, self.direction.x as int, FX_BOUND as int, FX_BOUND as int);
            crate::num::lemma_mul_bound(t as int, self.direction.y as int, FX_BOUND as int, FX_BOUND as int);
            crate::num::lemma_mul_bound(t as int, self.direction.z as int, FX_BOUND as int, FX_BOUND as int);
            crate::vec3::lemma_div_range(t * self.direction.x, FX_BOUND as int * FX_BOUND as int, SCALE as int);
            crate::vec3::lemma_div_range(t * self.direction.y, FX_BOUND as int * FX_BOUND as int, SCALE as int);
            crate::vec3::lemma_div_range(t * self.direction.z, FX_BOUND as int * FX_BOUND as int, SCALE as int);
        }
        let px = self.origin.x + fdiv128((t as i128) * (self.direction.x as i128), SCALE as i128) as i64;
        let py = self.origin.y + fdiv128((t as i128) * (self.direction.y as i128), SCALE as i128) as i64;
        let pz = self.origin.z + fdiv128((t as i128) * (self.direction.z as i128), SCALE as i128) as i64;
        Vec3 { x: px, y: py, z: pz }
    }
}

} // verus!
