//! Materials: diffuse, specular, refractive and emissive shading records.
//!
//! Materials are small immutable records held by value in each primitive;
//! their scattering behaviour lives in `scatter.rs`.

use vstd::prelude::*;
use crate::num::{fxmul, fxdiv, mul_fx, div_fx, SCALE};
use crate::vec3::Vec3;
use crate::ray::Ray;
use crate::texture::{Texture, tex_wf};

verus! {

/// Emitted radiance is bounded by four units of brightness.
pub const EMIT_BOUND: i64 = 262144;

pub struct Lambertian {
    pub albedo: Texture,
}

pub struct Metal {
    pub albedo: Texture,
    pub fuzz: i64,
}

#[derive(Clone, Copy)]
pub struct Dielectric {
    pub ri: i64,
}

#[derive(Clone, Copy)]
pub struct Emissive {
    pub color: Vec3,
}

pub enum Material {
    Lambertian(Lambertian),
    Metal(Metal),
    Dielectric(Dielectric),
    Emissive(Emissive),
}

impl Clone for Material {
    /// Cloning a material keeps its value.
    fn clone(&self) -> (r: Material)
        ensures
            r == *self,
    {
        match self {
            Material::Lambertian(l) => Material::Lambertian(Lambertian { albedo: l.albedo.clone() }),
            Material::Metal(m) => Material::Metal(Metal { albedo: m.albedo.clone(), fuzz: m.fuzz }),
            Material::Dielectric(d) => Material::Dielectric(Dielectric { ri: d.ri }),
            Material::Emissive(e) => Material::Emissive(Emissive { color: e.color }),
        }
    }
}

pub open spec fn mat_wf(m: Material) -> bool {
    match m {
        Material::Lambertian(l) => tex_wf(l.albedo),
        Material::Metal(mt) => tex_wf(mt.albedo) && 0 <= mt.fuzz <= SCALE,
        Material::Dielectric(d) => SCALE / 4 <= d.ri <= 8 * SCALE,
        Material::Emissive(e) => 0 <= e.color.x <= EMIT_BOUND && 0 <= e.color.y <= EMIT_BOUND
            && 0 <= e.color.z <= EMIT_BOUND,
    }
}

/// A scattering result: the outgoing ray and the attenuation to apply.
#[derive(Clone, Copy)]
pub struct ScatterInfo {
    pub ray: Ray,
    pub albedo: Vec3,
}

impl ScatterInfo {
    pub fn new(ray: Ray, albedo: Vec3) -> (r: ScatterInfo)
        ensures
            r == (ScatterInfo { ray, albedo }),
    {
        ScatterInfo { ray, albedo }
    }
}

impl Lambertian {
    pub fn new(albedo: Texture) -> (r: Lambertian)
        ensures
            r == (Lambertian { albedo }),
    {
        Lambertian { albedo }
    }
}

impl Metal {
    pub fn new(albedo: Texture, fuzz: i64) -> (r: Metal)
        ensures
            r == (Metal { albedo, fuzz }),
    {
        Metal { albedo, fuzz }
    }
}

/// Mirror of `Dielectric::schlick`.
pub open spec fn spec_schlick(cosine: int, ri: int) -> int {
    let r0 = fxmul(fxdiv(SCALE as int - ri, SCALE as int + ri), fxdiv(SCALE as int - ri, SCALE as int + ri));
    r0 + fxmul(SCALE as int - r0, pow5(SCALE as int - cosine))
}

/// The fifth power of a fixed-point value, rounding after each product.
pub open spec fn pow5(x: int) -> int {
    fxmul(fxmul(fxmul(fxmul(x, x), x), x), x)
}

impl Dielectric {
    pub fn new(ri: i64) -> (r: Dielectric)
        ensures
            r == (Dielectric { ri }),
    {
        Dielectric { ri }
    }

    /// The Schlick approximation of Fresnel reflectance.
    pub fn schlick(cosine: i64, ri: i64) -> (r: i64)
        requires
            0 < ri <= 8 * SCALE as int,
            -256 * SCALE as int <= cosine <= 256 * SCALE as int,
        ensures
            r == spec_schlick(cosine as int, ri as int),
    {
        proof {
            assert(-((8 * SCALE as int) * (SCALE as int + ri)) <= (SCALE as int - ri) * SCALE as int
                <= (8 * SCALE as int) * (SCALE as int + ri)) by (nonlinear_arith)
                requires 0 < ri <= 8 * SCALE as int, SCALE == 65536,
            ;
            crate::vec3::lemma_div_range((SCALE as int - ri) * SCALE as int, 8 * SCALE as int, SCALE as int + ri);
        }
        let s0 = div_fx(SCALE - ri, SCALE + ri);
        proof {
            crate::num::lemma_mul_bound(s0 as int, s0 as int, 8 * SCALE as int, 8 * SCALE as int);
            assert(s0 * s0 >= 0) by (nonlinear_arith);
            assert((8 * SCALE as int) * (8 * SCALE as int) == (64 * SCALE as int) * SCALE as int) by (nonlinear_arith);
            crate::vec3::lemma_div_range(s0 * s0, 64 * SCALE as int, SCALE as int);
            vstd::arithmetic::div_mod::lemma_div_pos_is_pos(s0 * s0, SCALE as int);
        }
        let r0 = mul_fx(s0, s0);
        let p = Self::pow5_fx(SCALE - cosine);
        proof {
            crate::num::lemma_mul_bound(SCALE as int - r0, p as int, 65 * SCALE as int,
                1121154893057 * SCALE as int);
            assert((65 * SCALE as int) * (1121154893057 * SCALE as int)
                == (72875068048705 * SCALE as int) * SCALE as int) by (nonlinear_arith);
            crate::vec3::lemma_div_range((SCALE as int - r0) * p, 72875068048705 * SCALE as int,
                SCALE as int);
        }
        r0 + mul_fx(SCALE - r0, p)
    }

    /// The fifth power used by `schlick`.
    fn pow5_fx(x: i64) -> (r: i64)
        requires
            -257 * SCALE as int <= x <= 257 * SCALE as int,
        ensures
            r == pow5(x as int),
            -1121154893057 * SCALE as int <= r <= 1121154893057 * SCALE as int,
    {
        proof {
            crate::num::lemma_mul_bound(x as int, x as int, 257 * SCALE as int, 257 * SCALE as int);
            assert((257 * SCALE as int) * (257 * SCALE as int)
                == (66049 * SCALE as int) * SCALE as int) by (nonlinear_arith);
            crate::vec3::lemma_div_range(x * x, 66049 * SCALE as int, SCALE as int);
        }
        let x2 = mul_fx(x, x);
        proof {
            crate::num::lemma_mul_bound(x2 as int, x as int, 66049 * SCALE as int, 257 * SCALE as int);
            assert((66049 * SCALE as int) * (257 * SCALE as int)
                == (16974593 * SCALE as int) * SCALE as int) by (nonlinear_arith);
            crate::vec3::lemma_div_range(x2 * x, 16974593 * SCALE as int, SCALE as int);
        }
        let x3 = mul_fx(x2, x);
        proof {
            crate::num::lemma_mul_bound(x3 as int, x as int, 16974593 * SCALE as int, 257 * SCALE as int);
            assert((16974593 * SCALE as int) * (257 * SCALE as int)
                == (4362470401 * SCALE as int) * SCALE as int) by (nonlinear_arith);
            crate::vec3::lemma_div_range(x3 * x, 4362470401 * SCALE as int, SCALE as int);
        }
        let x4 = mul_fx(x3, x);
        proof {
            crate::num::lemma_mul_bound(x4 as int, x as int, 4362470401 * SCALE as int, 257 * SCALE as int);
            assert((4362470401 * SCALE as int) * (257 * SCALE as int)
                == (1121154893057 * SCALE as int) * SCALE as int) by (nonlinear_arith);
            crate::vec3::lemma_div_range(x4 * x, 1121154893057 * SCALE as int, SCALE as int);
        }
        mul_fx(x4, x)
    }
}

impl Emissive {
    pub fn new(color: Vec3) -> (r: Emissive)
        ensures
            r == (Emissive { color }),
    {
        Emissive { color }
    }
}

/// Mirror of `Material::emitted`.
pub open spec fn spec_emitted(m: Material) -> Vec3 {
    match m {
        Material::Emissive(e) => e.color,
        _ => Vec3 { x: 0, y: 0, z: 0 },
    }
}

impl Material {
    /// The radiance a material emits on its own; zero except for lights.
    pub fn emitted(&self) -> (r: Vec3)
        ensures
            r == spec_emitted(*self),
    {
        match self {
            Material::Emissive(e) => e.color,
            _ => Vec3 { x: 0, y: 0, z: 0 },
        }
    }
}

} // verus!
