//! The thin-lens camera: an orthonormal-ish basis from look vectors, a
//! viewport at the focus distance, and per-sample lens jitter.
//!
//! The vertical field of view is taken in degrees (fixed point, at most
//! 90): the half-angle tangent is evaluated by the odd Taylor polynomial
//! up to the seventh power, which on `(0, 45]` degrees is within a fraction
//! of a percent of the true tangent; the contract pins the exact
//! polynomial value.  The image origin is the top-left corner: the `t`
//! screen coordinate runs downward.

use vstd::prelude::*;
use crate::num::{fxmul, fdiv64, fdiv128, mul_fx, SCALE, lemma_mul_bound};
use crate::vec3::{Vec3, vec_ok, vec_within, spec_norm, spec_cross, lemma_div_range};
use crate::ray::Ray;
use crate::texture::PI_FX;
use crate::rng::Rng;
use crate::sample::{spec_disk, rand_in_disk};

verus! {

/// Bound on camera input coordinates (16 world units).
pub const CAM_IN: i64 = 1048576;

/// Bound on derived camera vectors.
pub const CAM_OUT: i64 = 33554432;

pub struct Camera {
    pub origin: Vec3,
    pub upper_left_corner: Vec3,
    pub horizontal: Vec3,
    pub vertical: Vec3,
    pub lens_radius: i64,
    pub u: Vec3,
    pub v: Vec3,
    pub w: Vec3,
}

pub open spec fn camera_wf(c: Camera) -> bool {
    vec_within(c.origin, CAM_IN as int) && vec_within(c.upper_left_corner, 3 * CAM_OUT as int)
        && vec_within(c.horizontal, CAM_OUT as int) && vec_within(c.vertical, CAM_OUT as int)
        && vec_within(c.u, 2 * SCALE as int) && vec_within(c.v, 2 * SCALE as int)
        && vec_within(c.w, 2 * SCALE as int) && 0 <= c.lens_radius <= SCALE
}

/// The half-angle tangent polynomial `x + x^3/3 + 2 x^5/15 + 17 x^7/315`,
/// with fixed-point rounding at each step.
pub open spec fn spec_tan_half(x: int) -> int {
    let x2 = fxmul(x, x);
    let x3 = fxmul(x2, x);
    let x5 = fxmul(x3, x2);
    let x7 = fxmul(x5, x2);
    x + x3 / 3 + (2 * x5) / 15 + (17 * x7) / 315
}

/// The half angle, in fixed-point radians, of a field of view in degrees.
pub open spec fn spec_half_rad(vfov: int) -> int {
    (vfov * PI_FX as int) / (360 * SCALE as int)
}

/// Half-angle tangent of a field of view given in degrees.
fn tan_half_deg(vfov: i64) -> (r: i64)
    requires
        0 < vfov <= 90 * SCALE as int,
    ensures
        r == spec_tan_half(spec_half_rad(vfov as int)),
        0 <= r <= 2 * SCALE as int,
    {
    proof {
        lemma_mul_bound(vfov as int, PI_FX as int, 90 * SCALE as int, PI_FX as int);
        assert((90 * SCALE as int) * PI_FX as int <= SCALE as int * (360 * SCALE as int))
            by (nonlinear_arith);
        lemma_div_range(vfov * PI_FX, SCALE as int, 360 * SCALE as int);
        vstd::arithmetic::div_mod::lemma_div_pos_is_pos(vfov * PI_FX, 360 * SCALE as int);
        assert(vfov * PI_FX >= 0) by (nonlinear_arith)
            requires vfov > 0,
        ;
    }
    let x = fdiv128((vfov as i128) * (PI_FX as i128), 360 * (SCALE as i128)) as i64;
    proof {
        lemma_mul_bound(x as int, x as int, SCALE as int, SCALE as int);
        assert(SCALE as int * SCALE as int == SCALE as int * SCALE as int);
        lemma_div_range(x * x, SCALE as int, SCALE as int);
        vstd::arithmetic::div_mod::lemma_div_pos_is_pos(x * x, SCALE as int);
    }
    let x2 = mul_fx(x, x);
    proof {
        lemma_mul_bound(x2 as int, x as int, SCALE as int, SCALE as int);
        lemma_div_range(x2 * x, SCALE as int, SCALE as int);
        vstd::arithmetic::div_mod::lemma_div_pos_is_pos(x2 * x, SCALE as int);
    }
    let x3 = mul_fx(x2, x);
    proof {
        lemma_mul_bound(x3 as int, x2 as int, SCALE as int, SCALE as int);
        lemma_div_range(x3 * x2, SCALE as int, SCALE as int);
        vstd::arithmetic::div_mod::lemma_div_pos_is_pos(x3 * x2, SCALE as int);
    }
    let x5 = mul_fx(x3, x2);
    proof {
        lemma_mul_bound(x5 as int, x2 as int, SCALE as int, SCALE as int);
        lemma_div_range(x5 * x2, SCALE as int, SCALE as int);
        vstd::arithmetic::div_mod::lemma_div_pos_is_pos(x5 * x2, SCALE as int);
    }
    let x7 = mul_fx(x5, x2);
    proof {
        lemma_div_range(x3 as int, SCALE as int, 3);
        lemma_div_range(2 * x5 as int, 2 * SCALE as int, 15);
        lemma_div_range(17 * x7 as int, 17 * SCALE as int, 315);
        vstd::arithmetic::div_mod::lemma_div_pos_is_pos(x3 as int, 3);
        vstd::arithmetic::div_mod::lemma_div_pos_is_pos(2 * x5 as int, 15);
        vstd::arithmetic::div_mod::lemma_div_pos_is_pos(17 * x7 as int, 315);
    }
    let t3 = fdiv64(x3, 3);
    let t5 = fdiv64(2 * x5, 15);
    let t7 = fdiv64(17 * x7, 315);
    let r = x + t3 + t5 + t7;
    proof {
        assert(x <= 51472) by {
            assert((51473 as int) * (360 * SCALE as int) > 90 * SCALE as int * PI_FX as int)
                by (nonlinear_arith);
            vstd::arithmetic::div_mod::lemma_fundamental_div_mod(vfov * PI_FX, 360 * SCALE as int);
            assert(vfov * PI_FX <= 90 * SCALE as int * PI_FX as int) by (nonlinear_arith)
                requires 0 < vfov <= 90 * SCALE as int,
            ;
            assert(x as int == (vfov * PI_FX) / (360 * SCALE as int));
            vstd::arithmetic::div_mod::lemma_div_is_ordered(
                vfov * PI_FX,
                90 * SCALE as int * PI_FX as int,
                360 * SCALE as int,
            );
            assert((90 * SCALE as int * PI_FX as int) / (360 * SCALE as int) <= 51472)
                by (nonlinear_arith);
        };
    }
    r
}

/// Mirror of `Camera::new`.
pub open spec fn spec_camera_new(
    lookfrom: Vec3,
    lookat: Vec3,
    vup: Vec3,
    vfov: int,
    aspect_ratio: int,
    aperture: int,
    focus_dist: int,
) -> Camera {
    let h = spec_tan_half(spec_half_rad(vfov));
    let viewport_height = 2 * h;
    let viewport_width = fxmul(aspect_ratio, viewport_height);
    let w = spec_norm(Vec3 {
        x: (lookfrom.x - lookat.x) as i64,
        y: (lookfrom.y - lookat.y) as i64,
        z: (lookfrom.z - lookat.z) as i64,
    });
    let u = spec_norm(spec_cross(vup, w));
    let v = spec_cross(w, u);
    let horizontal = Vec3 {
        x: fxmul(fxmul(u.x as int, focus_dist), viewport_width) as i64,
        y: fxmul(fxmul(u.y as int, focus_dist), viewport_width) as i64,
        z: fxmul(fxmul(u.z as int, focus_dist), viewport_width) as i64,
    };
    let vertical = Vec3 {
        x: fxmul(fxmul(v.x as int, focus_dist), viewport_height) as i64,
        y: fxmul(fxmul(v.y as int, focus_dist), viewport_height) as i64,
        z: fxmul(fxmul(v.z as int, focus_dist), viewport_height) as i64,
    };
    let wf = Vec3 {
        x: fxmul(w.x as int, focus_dist) as i64,
        y: fxmul(w.y as int, focus_dist) as i64,
        z: fxmul(w.z as int, focus_dist) as i64,
    };
    let upper_left_corner = Vec3 {
        x: (lookfrom.x - horizontal.x / 2 + vertical.x / 2 - wf.x) as i64,
        y: (lookfrom.y - horizontal.y / 2 + vertical.y / 2 - wf.y) as i64,
        z: (lookfrom.z - horizontal.z / 2 + vertical.z / 2 - wf.z) as i64,
    };
    Camera {
        origin: lookfrom,
        upper_left_corner,
        horizontal,
        vertical,
        lens_radius: (aperture / 2) as i64,
        u,
        v,
        w,
    }
}

/// Mirror of `Camera::get_ray`.
pub open spec fn spec_get_ray(c: Camera, s: int, t: int, st: u64) -> (Ray, u64) {
    let (d, st1) = spec_disk(st);
    let rdx = fxmul(d.x as int, c.lens_radius as int);
    let rdy = fxmul(d.y as int, c.lens_radius as int);
    let offset = Vec3 {
        x: (fxmul(c.u.x as int, rdx) + fxmul(c.v.x as int, rdy)) as i64,
        y: (fxmul(c.u.y as int, rdx) + fxmul(c.v.y as int, rdy)) as i64,
        z: (fxmul(c.u.z as int, rdx) + fxmul(c.v.z as int, rdy)) as i64,
    };
    let dir = Vec3 {
        x: (c.upper_left_corner.x + fxmul(c.horizontal.x as int, s) - fxmul(c.vertical.x as int, t)
            - c.origin.x - offset.x) as i64,
        y: (c.upper_left_corner.y + fxmul(c.horizontal.y as int, s) - fxmul(c.vertical.y as int, t)
            - c.origin.y - offset.y) as i64,
        z: (c.upper_left_corner.z + fxmul(c.horizontal.z as int, s) - fxmul(c.vertical.z as int, t)
            - c.origin.z - offset.z) as i64,
    };
    (
        Ray {
            origin: Vec3 {
                x: (c.origin.x + offset.x) as i64,
                y: (c.origin.y + offset.y) as i64,
                z: (c.origin.z + offset.z) as i64,
            },
            direction: dir,
        },
        st1,
    )
}

impl Camera {
    /// Build the camera from look vectors, field of view, aspect ratio,
    /// aperture and focus distance.  A view direction parallel to `vup`
    /// degenerates to a zero basis vector rather than failing.
    pub fn new(
        lookfrom: Vec3,
        lookat: Vec3,
        vup: Vec3,
        vfov: i64,
        aspect_ratio: i64,
        aperture: i64,
        focus_dist: i64,
    ) -> (c: Camera)
        requires
            vec_within(lookfrom, CAM_IN as int),
            vec_within(lookat, CAM_IN as int),
            vec_within(vup, CAM_IN as int),
            0 < vfov <= 90 * SCALE as int,
            0 < aspect_ratio <= 4 * SCALE as int,
            0 <= aperture <= 2 * SCALE as int,
            0 < focus_dist <= CAM_IN as int,
        ensures
            c == spec_camera_new(lookfrom, lookat, vup, vfov as int, aspect_ratio as int,
                aperture as int, focus_dist as int),
            camera_wf(c),
    {
        let h = tan_half_deg(vfov);
        let viewport_height = 2 * h;
        proof {
            lemma_mul_bound(aspect_ratio as int, viewport_height as int, 4 * SCALE as int,
                4 * SCALE as int);
            assert((4 * SCALE as int) * (4 * SCALE as int) == 16 * SCALE as int * SCALE as int)
                by (nonlinear_arith);
            lemma_div_range(aspect_ratio * viewport_height, 16 * SCALE as int, SCALE as int);
        }
        proof {
            assert(aspect_ratio * viewport_height >= 0) by (nonlinear_arith)
                requires aspect_ratio > 0, viewport_height >= 0,
            ;
            vstd::arithmetic::div_mod::lemma_div_pos_is_pos(aspect_ratio * viewport_height,
                SCALE as int);
        }
        let viewport_width = mul_fx(aspect_ratio, viewport_height);
        let diff = Vec3 { x: lookfrom.x - lookat.x, y: lookfrom.y - lookat.y, z: lookfrom.z - lookat.z };
        let w = diff.norm();
        let u = vup.cross(&w).norm();
        let v = w.cross(&u);
        proof {
            lemma_cross_small(w, u);
        }
        let horizontal = scale_two(&u, focus_dist, viewport_width);
        let vertical = scale_two(&v, focus_dist, viewport_height);
        let wf = scale_one(&w, focus_dist);
        proof {
            vstd::arithmetic::div_mod::lemma_div_pos_is_pos(aperture as int, 2);
            lemma_div_range(aperture as int, SCALE as int, 2);
            lemma_div_range(horizontal.x as int, CAM_OUT as int, 2);
            lemma_div_range(horizontal.y as int, CAM_OUT as int, 2);
            lemma_div_range(horizontal.z as int, CAM_OUT as int, 2);
            lemma_div_range(vertical.x as int, CAM_OUT as int, 2);
            lemma_div_range(vertical.y as int, CAM_OUT as int, 2);
            lemma_div_range(vertical.z as int, CAM_OUT as int, 2);
        }
        let upper_left_corner = Vec3 {
            x: lookfrom.x - fdiv64(horizontal.x, 2) + fdiv64(vertical.x, 2) - wf.x,
            y: lookfrom.y - fdiv64(horizontal.y, 2) + fdiv64(vertical.y, 2) - wf.y,
            z: lookfrom.z - fdiv64(horizontal.z, 2) + fdiv64(vertical.z, 2) - wf.z,
        };
        Camera {
            origin: lookfrom,
            upper_left_corner,
            horizontal,
            vertical,
            lens_radius: fdiv64(aperture, 2),
            u,
            v,
            w,
        }
    }

    /// One camera ray through screen coordinates `(s, t)` in `[0, 1]^2`,
    /// jittered on the lens disk; `t = 0` is the top row.
    pub fn get_ray(&self, s: i64, t: i64, rng: &mut Rng) -> (r: Ray)
        requires
            camera_wf(*self),
            0 <= s <= SCALE as int,
            0 <= t <= SCALE as int,
        ensures
            (r, final(rng).state) == spec_get_ray(*self, s as int, t as int, old(rng).state),
            vec_ok(r.origin),
            vec_ok(r.direction),
    {
        let d = rand_in_disk(rng);
        proof {
            lemma_mul_bound(d.x as int, self.lens_radius as int, 32768, SCALE as int);
            lemma_mul_bound(d.y as int, self.lens_radius as int, 32768, SCALE as int);
            lemma_div_range(d.x * self.lens_radius, 32768, SCALE as int);
            lemma_div_range(d.y * self.lens_radius, 32768, SCALE as int);
        }
        let rdx = mul_fx(d.x, self.lens_radius);
        let rdy = mul_fx(d.y, self.lens_radius);
        proof {
            lemma_uv_offset_bounds(*self, rdx as int, rdy as int);
        }
        let offset = Vec3 {
            x: mul_fx(self.u.x, rdx) + mul_fx(self.v.x, rdy),
            y: mul_fx(self.u.y, rdx) + mul_fx(self.v.y, rdy),
            z: mul_fx(self.u.z, rdx) + mul_fx(self.v.z, rdy),
        };
        proof {
            lemma_screen_bounds(*self, s as int, t as int);
        }
        let dir = Vec3 {
            x: self.upper_left_corner.x + mul_fx(self.horizontal.x, s) - mul_fx(self.vertical.x, t)
                - self.origin.x - offset.x,
            y: self.upper_left_corner.y + mul_fx(self.horizontal.y, s) - mul_fx(self.vertical.y, t)
                - self.origin.y - offset.y,
            z: self.upper_left_corner.z + mul_fx(self.horizontal.z, s) - mul_fx(self.vertical.z, t)
                - self.origin.z - offset.z,
        };
        Ray {
            origin: Vec3 {
                x: self.origin.x + offset.x,
                y: self.origin.y + offset.y,
                z: self.origin.z + offset.z,
            },
            direction: dir,
        }
    }
}

/// The cross of two unit-bounded vectors is bounded by two units.
proof fn lemma_cross_small(a: Vec3, b: Vec3)
    requires
        vec_within(a, SCALE as int),
        vec_within(b, SCALE as int),
    ensures
        vec_within(spec_cross(a, b), 2 * SCALE as int),
{
    lemma_mul_bound(a.y as int, b.z as int, SCALE as int, SCALE as int);
    lemma_mul_bound(a.z as int, b.y as int, SCALE as int, SCALE as int);
    lemma_mul_bound(a.z as int, b.x as int, SCALE as int, SCALE as int);
    lemma_mul_bound(a.x as int, b.z as int, SCALE as int, SCALE as int);
    lemma_mul_bound(a.x as int, b.y as int, SCALE as int, SCALE as int);
    lemma_mul_bound(a.y as int, b.x as int, SCALE as int, SCALE as int);
    lemma_div_range(a.y * b.z, SCALE as int, SCALE as int);
    lemma_div_range(a.z * b.y, SCALE as int, SCALE as int);
    lemma_div_range(a.z * b.x, SCALE as int, SCALE as int);
    lemma_div_range(a.x * b.z, SCALE as int, SCALE as int);
    lemma_div_range(a.x * b.y, SCALE as int, SCALE as int);
    lemma_div_range(a.y * b.x, SCALE as int, SCALE as int);
}

/// Scale a basis vector by two fixed-point factors in turn.
fn scale_two(a: &Vec3, f1: i64, f2: i64) -> (r: Vec3)
    requires
        vec_within(*a, 2 * SCALE as int),
        0 < f1 <= CAM_IN as int,
        0 <= f2 <= 16 * SCALE as int,
    ensures
        r.x == fxmul(fxmul(a.x as int, f1 as int), f2 as int),
        r.y == fxmul(fxmul(a.y as int, f1 as int), f2 as int),
        r.z == fxmul(fxmul(a.z as int, f1 as int), f2 as int),
        vec_within(r, CAM_OUT as int),
{
    proof {
        lemma_scale_two_bounds(*a, f1 as int, f2 as int);
    }
    Vec3 {
        x: mul_fx(mul_fx(a.x, f1), f2),
        y: mul_fx(mul_fx(a.y, f1), f2),
        z: mul_fx(mul_fx(a.z, f1), f2),
    }
}

proof fn lemma_scale_two_bounds(a: Vec3, f1: int, f2: int)
    requires
        vec_within(a, 2 * SCALE as int),
        0 < f1 <= CAM_IN as int,
        0 <= f2 <= 16 * SCALE as int,
    ensures
        -(2 * CAM_IN as int) <= fxmul(a.x as int, f1) <= 2 * CAM_IN as int,
        -(2 * CAM_IN as int) <= fxmul(a.y as int, f1) <= 2 * CAM_IN as int,
        -(2 * CAM_IN as int) <= fxmul(a.z as int, f1) <= 2 * CAM_IN as int,
        -(CAM_OUT as int) <= fxmul(fxmul(a.x as int, f1), f2) <= CAM_OUT as int,
        -(CAM_OUT as int) <= fxmul(fxmul(a.y as int, f1), f2) <= CAM_OUT as int,
        -(CAM_OUT as int) <= fxmul(fxmul(a.z as int, f1), f2) <= CAM_OUT as int,
{
    lemma_mul_bound(a.x as int, f1, 2 * SCALE as int, CAM_IN as int);
    lemma_mul_bound(a.y as int, f1, 2 * SCALE as int, CAM_IN as int);
    lemma_mul_bound(a.z as int, f1, 2 * SCALE as int, CAM_IN as int);
    assert((2 * SCALE as int) * CAM_IN as int == (2 * CAM_IN as int) * SCALE as int)
        by (nonlinear_arith);
    lemma_div_range(a.x * f1, 2 * CAM_IN as int, SCALE as int);
    lemma_div_range(a.y * f1, 2 * CAM_IN as int, SCALE as int);
    lemma_div_range(a.z * f1, 2 * CAM_IN as int, SCALE as int);
    lemma_mul_bound(fxmul(a.x as int, f1), f2, 2 * CAM_IN as int, 16 * SCALE as int);
    lemma_mul_bound(fxmul(a.y as int, f1), f2, 2 * CAM_IN as int, 16 * SCALE as int);
    lemma_mul_bound(fxmul(a.z as int, f1), f2, 2 * CAM_IN as int, 16 * SCALE as int);
    assert((2 * CAM_IN as int) * (16 * SCALE as int) == (32 * CAM_IN as int) * SCALE as int)
        by (nonlinear_arith);
    lemma_div_range(fxmul(a.x as int, f1) * f2, 32 * CAM_IN as int, SCALE as int);
    lemma_div_range(fxmul(a.y as int, f1) * f2, 32 * CAM_IN as int, SCALE as int);
    lemma_div_range(fxmul(a.z as int, f1) * f2, 32 * CAM_IN as int, SCALE as int);
    assert(32 * CAM_IN as int <= CAM_OUT as int);
}

/// Scale a basis vector by one fixed-point factor.
fn scale_one(a: &Vec3, f1: i64) -> (r: Vec3)
    requires
        vec_within(*a, 2 * SCALE as int),
        0 < f1 <= CAM_IN as int,
    ensures
        r.x == fxmul(a.x as int, f1 as int),
        r.y == fxmul(a.y as int, f1 as int),
        r.z == fxmul(a.z as int, f1 as int),
        vec_within(r, CAM_OUT as int),
{
    proof {
        lemma_mul_bound(a.x as int, f1 as int, 2 * SCALE as int, CAM_IN as int);
        lemma_mul_bound(a.y as int, f1 as int, 2 * SCALE as int, CAM_IN as int);
        lemma_mul_bound(a.z as int, f1 as int, 2 * SCALE as int, CAM_IN as int);
        assert((2 * SCALE as int) * CAM_IN as int == (2 * CAM_IN as int) * SCALE as int)
            by (nonlinear_arith);
        lemma_div_range(a.x * f1, 2 * CAM_IN as int, SCALE as int);
        lemma_div_range(a.y * f1, 2 * CAM_IN as int, SCALE as int);
        lemma_div_range(a.z * f1, 2 * CAM_IN as int, SCALE as int);
    }
    Vec3 { x: mul_fx(a.x, f1), y: mul_fx(a.y, f1), z: mul_fx(a.z, f1) }
}

proof fn lemma_uv_offset_bounds(c: Camera, rdx: int, rdy: int)
    requires
        camera_wf(c),
        -32768 <= rdx <= 32768,
        -32768 <= rdy <= 32768,
    ensures
        -(2 * SCALE as int) <= fxmul(c.u.x as int, rdx) <= 2 * SCALE as int,
        -(2 * SCALE as int) <= fxmul(c.u.y as int, rdx) <= 2 * SCALE as int,
        -(2 * SCALE as int) <= fxmul(c.u.z as int, rdx) <= 2 * SCALE as int,
        -(2 * SCALE as int) <= fxmul(c.v.x as int, rdy) <= 2 * SCALE as int,
        -(2 * SCALE as int) <= fxmul(c.v.y as int, rdy) <= 2 * SCALE as int,
        -(2 * SCALE as int) <= fxmul(c.v.z as int, rdy) <= 2 * SCALE as int,
{
    lemma_mul_bound(c.u.x as int, rdx, 2 * SCALE as int, 32768);
    lemma_mul_bound(c.u.y as int, rdx, 2 * SCALE as int, 32768);
    lemma_mul_bound(c.u.z as int, rdx, 2 * SCALE as int, 32768);
    lemma_mul_bound(c.v.x as int, rdy, 2 * SCALE as int, 32768);
    lemma_mul_bound(c.v.y as int, rdy, 2 * SCALE as int, 32768);
    lemma_mul_bound(c.v.z as int, rdy, 2 * SCALE as int, 32768);
    assert((2 * SCALE as int) * 32768 == SCALE as int * SCALE as int) by (nonlinear_arith);
    lemma_div_range(c.u.x * rdx, SCALE as int, SCALE as int);
    lemma_div_range(c.u.y * rdx, SCALE as int, SCALE as int);
    lemma_div_range(c.u.z * rdx, SCALE as int, SCALE as int);
    lemma_div_range(c.v.x * rdy, SCALE as int, SCALE as int);
    lemma_div_range(c.v.y * rdy, SCALE as int, SCALE as int);
    lemma_div_range(c.v.z * rdy, SCALE as int, SCALE as int);
}

proof fn lemma_screen_bounds(c: Camera, s: int, t: int)
    requires
        camera_wf(c),
        0 <= s <= SCALE as int,
        0 <= t <= SCALE as int,
    ensures
        -(CAM_OUT as int) <= fxmul(c.horizontal.x as int, s) <= CAM_OUT as int,
        -(CAM_OUT as int) <= fxmul(c.horizontal.y as int, s) <= CAM_OUT as int,
        -(CAM_OUT as int) <= fxmul(c.horizontal.z as int, s) <= CAM_OUT as int,
        -(CAM_OUT as int) <= fxmul(c.vertical.x as int, t) <= CAM_OUT as int,
        -(CAM_OUT as int) <= fxmul(c.vertical.y as int, t) <= CAM_OUT as int,
        -(CAM_OUT as int) <= fxmul(c.vertical.z as int, t) <= CAM_OUT as int,
{
    lemma_mul_bound(c.horizontal.x as int, s, CAM_OUT as int, SCALE as int);
    lemma_mul_bound(c.horizontal.y as int, s, CAM_OUT as int, SCALE as int);
    lemma_mul_bound(c.horizontal.z as int, s, CAM_OUT as int, SCALE as int);
    lemma_mul_bound(c.vertical.x as int, t, CAM_OUT as int, SCALE as int);
    lemma_mul_bound(c.vertical.y as int, t, CAM_OUT as int, SCALE as int);
    lemma_mul_bound(c.vertical.z as int, t, CAM_OUT as int, SCALE as int);
    lemma_div_range(c.horizontal.x * s, CAM_OUT as int, SCALE as int);
    lemma_div_range(c.horizontal.y * s, CAM_OUT as int, SCALE as int);
    lemma_div_range(c.horizontal.z * s, CAM_OUT as int, SCALE as int);
    lemma_div_range(c.vertical.x * t, CAM_OUT as int, SCALE as int);
    lemma_div_range(c.vertical.y * t, CAM_OUT as int, SCALE as int);
    lemma_div_range(c.vertical.z * t, CAM_OUT as int, SCALE as int);
}

} // verus!
