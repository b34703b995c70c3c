//! Scattering: how each material turns an incoming ray and a hit into an
//! outgoing ray and an attenuation.
//!
//! Directions handed to the reflection and refraction formulas are always
//! normalized first (one consistent discipline), and every returned
//! direction is a bounded, well-formed vector: in this integer model that
//! is the counterpart of "never NaN, never infinite".

use vstd::prelude::*;
use crate::num::{fxmul, fxdiv, mul_fx, div_fx, fdiv128, isqrt128, sqrt_floor, is_sqrt,
    lemma_sqrt_unique, lemma_sqrt_exists, lemma_mul_bound, SCALE, FX_BOUND};
use crate::vec3::{Vec3, vec_ok, vec_within, dot_num, spec_dot, spec_norm, spec_reflect,
    lemma_dot_within, lemma_div_range};
use crate::ray::Ray;
use crate::texture::spec_tex_value;
use crate::material::{Material, Lambertian, Metal, Dielectric, ScatterInfo, mat_wf, spec_schlick, pow5};
use crate::shape::{HitRecord, hit_wf};
use crate::rng::{Rng, rng_next, rand_val, lemma_rand_val_bounds};
use crate::sample::{spec_hemisphere, rand_hemisphere};

verus! {

/// What every scattered ray satisfies: bounded origin and direction, and a
/// physical (at most 1) attenuation.
pub open spec fn scatter_ok(sc: ScatterInfo) -> bool {
    vec_ok(sc.ray.origin) && vec_ok(sc.ray.direction)
        && 0 <= sc.albedo.x <= SCALE && 0 <= sc.albedo.y <= SCALE && 0 <= sc.albedo.z <= SCALE
}

/// Mirror of `refract`: Snell's law for a unit incoming direction `v`
/// pointing into the surface and the outward normal `n` facing against it.
pub open spec fn spec_refract(v: Vec3, n: Vec3, ni: int) -> Option<Vec3> {
    let dt = spec_dot(v, n);
    let disc2 = SCALE as int * SCALE as int
        - (ni * ni * (SCALE as int * SCALE as int - dt * dt)) / (SCALE as int * SCALE as int);
    if disc2 > 0 {
        let sq = sqrt_floor(disc2);
        Some(Vec3 {
            x: (fxmul(ni, v.x as int) - fxmul(n.x as int, fxmul(ni, dt) + sq)) as i64,
            y: (fxmul(ni, v.y as int) - fxmul(n.y as int, fxmul(ni, dt) + sq)) as i64,
            z: (fxmul(ni, v.z as int) - fxmul(n.z as int, fxmul(ni, dt) + sq)) as i64,
        })
    } else {
        None
    }
}

/// Refraction of the unit direction `v` about the outward normal `n` with
/// index ratio `ni`; `None` on total internal reflection.
pub fn refract(v: &Vec3, n: &Vec3, ni: i64) -> (r: Option<Vec3>)
    requires
        vec_within(*v, 2 * SCALE as int),
        vec_within(*n, 2 * SCALE as int),
        0 < ni <= 8 * SCALE as int,
    ensures
        r == spec_refract(*v, *n, ni as int),
        r matches Some(w) ==> vec_within(w, 512 * SCALE as int),
{
    proof {
        lemma_dot_within(*v, *n, 2 * SCALE as int, 2 * SCALE as int);
        assert(3 * (2 * SCALE as int) * (2 * SCALE as int) == (12 * SCALE as int) * SCALE as int)
            by (nonlinear_arith);
        lemma_div_range(dot_num(*v, *n), 12 * SCALE as int, SCALE as int);
    }
    let dt = v.dot(n);
    proof {
        lemma_mul_bound(dt as int, dt as int, 12 * SCALE as int, 12 * SCALE as int);
        lemma_mul_bound(ni as int, ni as int, 8 * SCALE as int, 8 * SCALE as int);
        assert((12 * SCALE as int) * (12 * SCALE as int) == (144 * SCALE as int) * SCALE as int)
            by (nonlinear_arith);
        assert((8 * SCALE as int) * (8 * SCALE as int) == (64 * SCALE as int) * SCALE as int)
            by (nonlinear_arith);
        lemma_mul_bound(
            ni as int * ni as int,
            SCALE as int * SCALE as int - dt as int * dt as int,
            64 * SCALE as int * SCALE as int,
            145 * SCALE as int * SCALE as int,
        );
        assert((64 * SCALE as int * SCALE as int) * (145 * SCALE as int * SCALE as int)
            == (9280 * SCALE as int * SCALE as int) * (SCALE as int * SCALE as int))
            by (nonlinear_arith);
        lemma_div_range(
            ni * ni * (SCALE as int * SCALE as int - dt * dt),
            9280 * SCALE as int * SCALE as int,
            SCALE as int * SCALE as int,
        );
    }
    let q: i128 = fdiv128(
        (ni as i128) * (ni as i128) * ((SCALE as i128) * (SCALE as i128) - (dt as i128) * (dt as i128)),
        (SCALE as i128) * (SCALE as i128),
    );
    let disc2: i128 = (SCALE as i128) * (SCALE as i128) - q;
    if disc2 > 0 {
        let sq128 = isqrt128(disc2 as u128);
        proof {
            assert((sq128 as int) * (sq128 as int) <= disc2 as int);
            assert(sq128 as int <= 97 * SCALE as int) by (nonlinear_arith)
                requires
                    (sq128 as int) * (sq128 as int) <= disc2 as int,
                    disc2 as int <= 9281 * SCALE as int * SCALE as int,
                    0 <= sq128 as int,
                    SCALE == 65536,
            ;
        }
        let sq = sq128 as i64;
        proof {
            lemma_mul_bound(ni as int, dt as int, 8 * SCALE as int, 12 * SCALE as int);
            assert((8 * SCALE as int) * (12 * SCALE as int) == (96 * SCALE as int) * SCALE as int)
                by (nonlinear_arith);
            lemma_div_range(ni * dt, 96 * SCALE as int, SCALE as int);
        }
        let inner = mul_fx(ni, dt) + sq;
        proof {
            lemma_mul_bound(ni as int, v.x as int, 8 * SCALE as int, 2 * SCALE as int);
            lemma_mul_bound(ni as int, v.y as int, 8 * SCALE as int, 2 * SCALE as int);
            lemma_mul_bound(ni as int, v.z as int, 8 * SCALE as int, 2 * SCALE as int);
            assert((8 * SCALE as int) * (2 * SCALE as int) == (16 * SCALE as int) * SCALE as int)
                by (nonlinear_arith);
            lemma_div_range(ni * v.x, 16 * SCALE as int, SCALE as int);
            lemma_div_range(ni * v.y, 16 * SCALE as int, SCALE as int);
            lemma_div_range(ni * v.z, 16 * SCALE as int, SCALE as int);
            lemma_mul_bound(n.x as int, inner as int, 2 * SCALE as int, 193 * SCALE as int);
            lemma_mul_bound(n.y as int, inner as int, 2 * SCALE as int, 193 * SCALE as int);
            lemma_mul_bound(n.z as int, inner as int, 2 * SCALE as int, 193 * SCALE as int);
            assert((2 * SCALE as int) * (193 * SCALE as int) == (386 * SCALE as int) * SCALE as int)
                by (nonlinear_arith);
            lemma_div_range(n.x * inner, 386 * SCALE as int, SCALE as int);
            lemma_div_range(n.y * inner, 386 * SCALE as int, SCALE as int);
            lemma_div_range(n.z * inner, 386 * SCALE as int, SCALE as int);
        }
        let rx = mul_fx(ni, v.x) - mul_fx(n.x, inner);
        let ry = mul_fx(ni, v.y) - mul_fx(n.y, inner);
        let rz = mul_fx(ni, v.z) - mul_fx(n.z, inner);
        Some(Vec3 { x: rx, y: ry, z: rz })
    } else {
        None
    }
}

/// With an index ratio of exactly one and a direction genuinely entering
/// the surface, refraction is exact straight-through transmission: the
/// transmitted direction equals the incoming one, with no bend.
pub proof fn lemma_refract_identity(v: Vec3, n: Vec3)
    requires
        spec_dot(v, n) < 0,
    ensures
        spec_refract(v, n, SCALE as int) == Some(v),
{
    let s = SCALE as int;
    let dt = spec_dot(v, n);
    vstd::arithmetic::div_mod::lemma_div_multiples_vanish(s * s - dt * dt, s * s);
    assert(s * s * (s * s - dt * dt) == (s * s) * (s * s - dt * dt));
    let disc2 = s * s - (s * s * (s * s - dt * dt)) / (s * s);
    assert(disc2 == dt * dt);
    assert(dt * dt > 0) by (nonlinear_arith)
        requires dt < 0,
    ;
    assert(is_sqrt(dt * dt, -dt)) by (nonlinear_arith)
        requires dt < 0,
    ;
    lemma_sqrt_exists(dt * dt);
    lemma_sqrt_unique(dt * dt, -dt, sqrt_floor(dt * dt));
    vstd::arithmetic::div_mod::lemma_div_multiples_vanish(dt, s);
    assert(fxmul(s, dt) == dt);
    assert(fxmul(s, dt) + sqrt_floor(disc2) == 0);
    vstd::arithmetic::div_mod::lemma_div_multiples_vanish(v.x as int, s);
    vstd::arithmetic::div_mod::lemma_div_multiples_vanish(v.y as int, s);
    vstd::arithmetic::div_mod::lemma_div_multiples_vanish(v.z as int, s);
    assert(fxmul(s, v.x as int) == v.x);
    assert(fxmul(s, v.y as int) == v.y);
    assert(fxmul(s, v.z as int) == v.z);
    assert(fxmul(n.x as int, 0) == 0) by {
        assert(n.x * 0 == 0) by (nonlinear_arith);
        vstd::arithmetic::div_mod::lemma_div_of0(s);
    };
    assert(fxmul(n.y as int, 0) == 0) by {
        assert(n.y * 0 == 0) by (nonlinear_arith);
        vstd::arithmetic::div_mod::lemma_div_of0(s);
    };
    assert(fxmul(n.z as int, 0) == 0) by {
        assert(n.z * 0 == 0) by (nonlinear_arith);
        vstd::arithmetic::div_mod::lemma_div_of0(s);
    };
}

/// The Schlick polynomial itself, at an index ratio of exactly one, is
/// zero at normal incidence (elsewhere it keeps its `(1 - cos)^5` tail,
/// which is why the scattering rule pins the ratio-one reflectance to zero
/// separately).
pub proof fn lemma_schlick_unit_ratio_normal()
    ensures
        spec_schlick(SCALE as int, SCALE as int) == 0,
{
    let s = SCALE as int;
    vstd::arithmetic::div_mod::lemma_div_of0(2 * s);
    assert(fxdiv(s - s, s + s) == 0) by {
        assert((s - s) * s == 0) by (nonlinear_arith);
        vstd::arithmetic::div_mod::lemma_div_of0(2 * s);
    };
    assert(fxmul(0, 0) == 0) by {
        vstd::arithmetic::div_mod::lemma_div_of0(s);
    };
    assert(pow5(0) == 0) by {
        vstd::arithmetic::div_mod::lemma_div_of0(s);
        assert(0int * 0int == 0) by (nonlinear_arith);
    };
    assert(fxmul(s - 0, 0) == 0) by {
        assert(s * 0 == 0) by (nonlinear_arith);
        vstd::arithmetic::div_mod::lemma_div_of0(s);
    };
}

/// Mirror of `Lambertian::scatter`.
pub open spec fn spec_scatter_lambertian(l: Lambertian, h: HitRecord, s: u64) -> (Option<ScatterInfo>, u64) {
    let (rnd, s1) = spec_hemisphere(h.n, s);
    let dir = Vec3 {
        x: (h.n.x + rnd.x) as i64,
        y: (h.n.y + rnd.y) as i64,
        z: (h.n.z + rnd.z) as i64,
    };
    (
        Some(ScatterInfo {
            ray: Ray { origin: h.p, direction: dir },
            albedo: spec_tex_value(l.albedo, h.u as int, h.v as int, h.p),
        }),
        s1,
    )
}

/// Mirror of `Metal::scatter`.
pub open spec fn spec_scatter_metal(m: Metal, r: Ray, h: HitRecord, s: u64) -> (Option<ScatterInfo>, u64) {
    let unit = spec_norm(r.direction);
    let refl = spec_reflect(unit, h.n);
    let (rnd, s1) = spec_hemisphere(h.n, s);
    let dir = Vec3 {
        x: (refl.x + fxmul(rnd.x as int, m.fuzz as int)) as i64,
        y: (refl.y + fxmul(rnd.y as int, m.fuzz as int)) as i64,
        z: (refl.z + fxmul(rnd.z as int, m.fuzz as int)) as i64,
    };
    if spec_dot(dir, h.n) > 0 {
        (
            Some(ScatterInfo {
                ray: Ray { origin: h.p, direction: dir },
                albedo: spec_tex_value(m.albedo, h.u as int, h.v as int, h.p),
            }),
            s1,
        )
    } else {
        (None, s1)
    }
}

/// Mirror of `Dielectric::scatter`.
pub open spec fn spec_scatter_dielectric(d: Dielectric, r: Ray, h: HitRecord, s: u64) -> (Option<ScatterInfo>, u64) {
    let unit = spec_norm(r.direction);
    let dt0 = spec_dot(unit, h.n);
    let outward = if dt0 > 0 {
        Vec3 { x: (-h.n.x) as i64, y: (-h.n.y) as i64, z: (-h.n.z) as i64 }
    } else {
        h.n
    };
    let ni = if dt0 > 0 { d.ri as int } else { fxdiv(SCALE as int, d.ri as int) };
    let cosine = if dt0 > 0 { fxmul(d.ri as int, dt0) } else { -fxmul(d.ri as int, dt0) };
    let white = Vec3 { x: SCALE, y: SCALE, z: SCALE };
    let reflectance = if d.ri == SCALE { 0 } else { spec_schlick(cosine, d.ri as int) };
    match spec_refract(unit, outward, ni) {
        Some(dir) => if rand_val(s) >= reflectance {
            (Some(ScatterInfo { ray: Ray { origin: h.p, direction: dir }, albedo: white }), rng_next(s))
        } else {
            (
                Some(ScatterInfo {
                    ray: Ray { origin: h.p, direction: spec_reflect(unit, h.n) },
                    albedo: white,
                }),
                rng_next(s),
            )
        },
        None => (
            Some(ScatterInfo {
                ray: Ray { origin: h.p, direction: spec_reflect(unit, h.n) },
                albedo: white,
            }),
            s,
        ),
    }
}

/// Mirror of `Material::scatter`.
pub open spec fn spec_scatter(m: Material, r: Ray, h: HitRecord, s: u64) -> (Option<ScatterInfo>, u64) {
    match m {
        Material::Lambertian(l) => spec_scatter_lambertian(l, h, s),
        Material::Metal(mt) => spec_scatter_metal(mt, r, h, s),
        Material::Dielectric(d) => spec_scatter_dielectric(d, r, h, s),
        Material::Emissive(_) => (None, s),
    }
}

/// A dielectric with an index ratio of exactly one always transmits an
/// entering ray straight through with no bend and zero reflection
/// probability, whatever the draw: the scattered direction is the
/// normalized incoming direction itself, with neutral attenuation.  Only a
/// tangential ray (zero dot product with the normal) falls outside this:
/// its refraction discriminant is zero, the total-internal-reflection
/// branch, and it reflects.
pub proof fn lemma_dielectric_unit_ratio(d: Dielectric, r: Ray, h: HitRecord, s: u64)
    requires
        d.ri == SCALE,
        spec_dot(spec_norm(r.direction), h.n) < 0,
    ensures
        spec_scatter_dielectric(d, r, h, s) == (
            Some(ScatterInfo {
                ray: Ray { origin: h.p, direction: spec_norm(r.direction) },
                albedo: Vec3 { x: SCALE, y: SCALE, z: SCALE },
            }),
            rng_next(s),
        ),
{
    let unit = spec_norm(r.direction);
    let dt0 = spec_dot(unit, h.n);
    // With ratio one the transmitted index is one and refraction is exact
    // straight-through transmission; the reflectance is pinned to zero, so
    // every draw clears it.
    vstd::arithmetic::div_mod::lemma_div_multiples_vanish(SCALE as int, SCALE as int);
    assert(fxdiv(SCALE as int, SCALE as int) == SCALE as int);
    lemma_refract_identity(unit, h.n);
    lemma_rand_val_bounds(s);
}

impl Lambertian {
    /// Diffuse bounce: the normal plus a hemisphere sample.
    pub fn scatter(&self, hit: &HitRecord, rng: &mut Rng) -> (res: Option<ScatterInfo>)
        requires
            crate::texture::tex_wf(self.albedo),
            hit_wf(*hit),
        ensures
            (res, final(rng).state) == spec_scatter_lambertian(*self, *hit, old(rng).state),
            res matches Some(sc) ==> scatter_ok(sc) && vec_within(sc.ray.direction, 2 * SCALE as int),
    {
        let rnd = rand_hemisphere(rng, &hit.n);
        let dir = Vec3 { x: hit.n.x + rnd.x, y: hit.n.y + rnd.y, z: hit.n.z + rnd.z };
        let albedo = self.albedo.value(hit.u, hit.v, hit.p);
        Some(ScatterInfo { ray: Ray { origin: hit.p, direction: dir }, albedo })
    }
}

impl Metal {
    /// Specular bounce with roughness; absorbed when the perturbed
    /// reflection grazes back into the surface.
    pub fn scatter(&self, ray: &Ray, hit: &HitRecord, rng: &mut Rng) -> (res: Option<ScatterInfo>)
        requires
            crate::texture::tex_wf(self.albedo),
            0 <= self.fuzz <= SCALE,
            hit_wf(*hit),
            vec_ok(ray.direction),
        ensures
            (res, final(rng).state) == spec_scatter_metal(*self, *ray, *hit, old(rng).state),
            res matches Some(sc) ==> scatter_ok(sc) && vec_within(sc.ray.direction, 130 * SCALE as int),
    {
        let unit = ray.direction.norm();
        let refl = unit.reflect(&hit.n);
        let rnd = rand_hemisphere(rng, &hit.n);
        proof {
            lemma_mul_bound(rnd.x as int, self.fuzz as int, 32768, SCALE as int);
            lemma_mul_bound(rnd.y as int, self.fuzz as int, 32768, SCALE as int);
            lemma_mul_bound(rnd.z as int, self.fuzz as int, 32768, SCALE as int);
            lemma_div_range(rnd.x * self.fuzz, 32768, SCALE as int);
            lemma_div_range(rnd.y * self.fuzz, 32768, SCALE as int);
            lemma_div_range(rnd.z * self.fuzz, 32768, SCALE as int);
        }
        let dir = Vec3 {
            x: refl.x + mul_fx(rnd.x, self.fuzz),
            y: refl.y + mul_fx(rnd.y, self.fuzz),
            z: refl.z + mul_fx(rnd.z, self.fuzz),
        };
        if dir.dot(&hit.n) > 0 {
            let albedo = self.albedo.value(hit.u, hit.v, hit.p);
            Some(ScatterInfo { ray: Ray { origin: hit.p, direction: dir }, albedo })
        } else {
            None
        }
    }
}

impl Dielectric {
    /// Refract or reflect: a uniform draw below the reflection probability
    /// reflects; attenuation is neutral.  The probability is the Schlick
    /// reflectance, except at an index ratio of exactly one, where the
    /// interface is optically absent and the probability is zero — the
    /// Schlick polynomial is only an approximation and would not vanish
    /// there away from normal incidence.
    pub fn scatter(&self, ray: &Ray, hit: &HitRecord, rng: &mut Rng) -> (res: Option<ScatterInfo>)
        requires
            SCALE as int / 4 <= self.ri <= 8 * SCALE as int,
            hit_wf(*hit),
            vec_ok(ray.direction),
        ensures
            (res, final(rng).state) == spec_scatter_dielectric(*self, *ray, *hit, old(rng).state),
            res matches Some(sc) ==> scatter_ok(sc) && vec_within(sc.ray.direction, 512 * SCALE as int),
    {
        let unit = ray.direction.norm();
        proof {
            lemma_dot_within(unit, hit.n, SCALE as int, SCALE as int);
            assert(3 * SCALE as int * SCALE as int == (3 * SCALE as int) * SCALE as int)
                by (nonlinear_arith);
            lemma_div_range(dot_num(unit, hit.n), 3 * SCALE as int, SCALE as int);
        }
        let dt0 = unit.dot(&hit.n);
        let white = Vec3 { x: SCALE, y: SCALE, z: SCALE };
        proof {
            lemma_mul_bound(self.ri as int, dt0 as int, 8 * SCALE as int, 3 * SCALE as int);
            assert((8 * SCALE as int) * (3 * SCALE as int) == (24 * SCALE as int) * SCALE as int)
                by (nonlinear_arith);
            lemma_div_range(self.ri * dt0, 24 * SCALE as int, SCALE as int);
            assert(-((4 * SCALE as int) * self.ri) <= SCALE as int * SCALE as int
                && SCALE as int * SCALE as int <= (4 * SCALE as int) * self.ri) by (nonlinear_arith)
                requires SCALE as int / 4 <= self.ri <= 8 * SCALE as int, SCALE == 65536,
            ;
            lemma_div_range(SCALE as int * SCALE as int, 4 * SCALE as int, self.ri as int);
            vstd::arithmetic::div_mod::lemma_div_pos_is_pos(SCALE as int * SCALE as int, self.ri as int);
            assert(SCALE as int * SCALE as int / self.ri as int >= 1) by (nonlinear_arith)
                requires 0 < self.ri <= 8 * SCALE as int, SCALE == 65536,
            ;
        }
        let (outward, ni, cosine): (Vec3, i64, i64) = if dt0 > 0 {
            (Vec3 { x: -hit.n.x, y: -hit.n.y, z: -hit.n.z }, self.ri, mul_fx(self.ri, dt0))
        } else {
            (hit.n, div_fx(SCALE, self.ri), -mul_fx(self.ri, dt0))
        };
        let refr = refract(&unit, &outward, ni);
        match refr {
            Some(dir) => {
                let rnd = rng.next_unit();
                let sch: i64 = if self.ri == SCALE { 0 } else { Dielectric::schlick(cosine, self.ri) };
                if rnd >= sch {
                    Some(ScatterInfo { ray: Ray { origin: hit.p, direction: dir }, albedo: white })
                } else {
                    let refl = unit.reflect(&hit.n);
                    Some(ScatterInfo { ray: Ray { origin: hit.p, direction: refl }, albedo: white })
                }
            },
            None => {
                let refl = unit.reflect(&hit.n);
                Some(ScatterInfo { ray: Ray { origin: hit.p, direction: refl }, albedo: white })
            },
        }
    }
}

impl Material {
    /// Dispatch to the concrete material's scattering rule; emissive
    /// surfaces absorb the path.
    pub fn scatter(&self, ray: &Ray, hit: &HitRecord, rng: &mut Rng) -> (res: Option<ScatterInfo>)
        requires
            mat_wf(*self),
            hit_wf(*hit),
            vec_ok(ray.direction),
        ensures
            (res, final(rng).state) == spec_scatter(*self, *ray, *hit, old(rng).state),
            res matches Some(sc) ==> scatter_ok(sc) && vec_within(sc.ray.direction, 512 * SCALE as int),
    {
        match self {
            Material::Lambertian(l) => l.scatter(hit, rng),
            Material::Metal(m) => m.scatter(ray, hit, rng),
            Material::Dielectric(d) => d.scatter(ray, hit, rng),
            Material::Emissive(_) => None,
        }
    }
}

} // verus!
