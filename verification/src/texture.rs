//! Textures: constant colors and a three-dimensional checker pattern.
//!
//! The checker selects its sub-texture from the sign of
//! `sin(freq*x) * sin(freq*y) * sin(freq*z)`.  The sign of `sin(w)` is fixed
//! by which half-period `floor(w / pi)` the argument lies in, so the pattern
//! is computed exactly from half-period counts, with `pi` represented by the
//! fixed-point constant `PI_FX`.  A coordinate that lands exactly on a cell
//! boundary counts into the half-period above it.

use vstd::prelude::*;
use crate::num::{fdiv128, SCALE, FX_BOUND, lemma_prod_i64};
use crate::vec3::{Vec3, vec_within};

verus! {

/// The fixed-point representation of pi: `round(pi * SCALE)`.
pub const PI_FX: i64 = 205887;

/// A color whose components lie in `[0, 1]`: a physical albedo.
pub open spec fn color_albedo(v: Vec3) -> bool {
    0 <= v.x <= SCALE && 0 <= v.y <= SCALE && 0 <= v.z <= SCALE
}

#[derive(Clone, Copy)]
pub struct ColorTexture {
    pub color: Vec3,
}

pub enum Texture {
    Color(ColorTexture),
    Checker(Box<Texture>, Box<Texture>, i64),
}

impl Clone for Texture {
    /// Cloning a texture keeps its value.
    fn clone(&self) -> (r: Texture)
        ensures
            r == *self,
        decreases *self,
    {
        match self {
            Texture::Color(c) => Texture::Color(ColorTexture { color: c.color }),
            Texture::Checker(odd, even, freq) => Texture::Checker(
                Box::new((**odd).clone()),
                Box::new((**even).clone()),
                *freq,
            ),
        }
    }
}

/// Well-formed texture: albedo colors and a bounded positive frequency.
pub open spec fn tex_wf(t: Texture) -> bool
    decreases t,
{
    match t {
        Texture::Color(c) => color_albedo(c.color),
        Texture::Checker(odd, even, freq) => 0 < freq <= 16 * SCALE && tex_wf(*odd) && tex_wf(*even),
    }
}

/// Which half-period of the sine the scaled coordinate `freq * p / SCALE^2`
/// falls in: `floor(freq * p / (SCALE * PI_FX))`.
pub open spec fn half_periods(freq: int, p: int) -> int {
    (freq * p) / (SCALE as int * PI_FX as int)
}

/// Mirror of `Texture::value`.
pub open spec fn spec_tex_value(t: Texture, u: int, v: int, p: Vec3) -> Vec3
    decreases t,
{
    match t {
        Texture::Color(c) => c.color,
        Texture::Checker(odd, even, freq) => {
            let k = half_periods(freq as int, p.x as int) + half_periods(freq as int, p.y as int)
                + half_periods(freq as int, p.z as int);
            if k % 2 != 0 {
                spec_tex_value(*odd, u, v, p)
            } else {
                spec_tex_value(*even, u, v, p)
            }
        },
    }
}

/// A well-formed texture only ever yields albedo colors.
pub proof fn lemma_tex_value_albedo(t: Texture, u: int, v: int, p: Vec3)
    requires
        tex_wf(t),
    ensures
        color_albedo(spec_tex_value(t, u, v, p)),
    decreases t,
{
    match t {
        Texture::Color(_) => {},
        Texture::Checker(odd, even, freq) => {
            lemma_tex_value_albedo(*odd, u, v, p);
            lemma_tex_value_albedo(*even, u, v, p);
        },
    }
}

impl ColorTexture {
    pub fn new(color: Vec3) -> (r: ColorTexture)
        ensures
            r == (ColorTexture { color }),
    {
        ColorTexture { color }
    }
}

/// A checker texture alternating between two sub-textures.
pub fn checker_texture(odd: Box<Texture>, even: Box<Texture>, freq: i64) -> (r: Texture)
    ensures
        r == Texture::Checker(odd, even, freq),
{
    Texture::Checker(odd, even, freq)
}

impl Texture {
    /// Sample the texture at coordinates `(u, v)` and point `p`.
    pub fn value(&self, u: i64, v: i64, p: Vec3) -> (r: Vec3)
        requires
            tex_wf(*self),
            vec_within(p, 2 * FX_BOUND as int),
        ensures
            r == spec_tex_value(*self, u as int, v as int, p),
            color_albedo(r),
        decreases *self,
    {
        match self {
            Texture::Color(c) => c.color,
            Texture::Checker(odd, even, freq) => {
                let kx = half_period_count(*freq, p.x);
                let ky = half_period_count(*freq, p.y);
                let kz = half_period_count(*freq, p.z);
                let k = kx + ky + kz;
                let m = k - 2 * fdiv128(k as i128, 2) as i64;
                proof {
                    vstd::arithmetic::div_mod::lemma_fundamental_div_mod(k as int, 2);
                }
                if m != 0 {
                    odd.value(u, v, p)
                } else {
                    even.value(u, v, p)
                }
            },
        }
    }
}

/// The half-period count of one coordinate, bounded so sums stay in `i64`.
fn half_period_count(freq: i64, p: i64) -> (r: i64)
    requires
        0 < freq <= 16 * SCALE as int,
        -2 * FX_BOUND as int <= p <= 2 * FX_BOUND as int,
    ensures
        r == half_periods(freq as int, p as int),
        -FX_BOUND <= r <= FX_BOUND,
{
    proof {
        lemma_prod_i64(freq, p);
        crate::num::lemma_mul_bound(freq as int, p as int, 16 * SCALE as int, 2 * FX_BOUND as int);
        assert(-(FX_BOUND as int * (SCALE as int * PI_FX as int)) <= freq * p
            <= FX_BOUND as int * (SCALE as int * PI_FX as int)) by (nonlinear_arith)
            requires
                -(16 * SCALE as int * (2 * FX_BOUND as int)) <= freq * p
                    <= 16 * SCALE as int * (2 * FX_BOUND as int),
                SCALE == 65536,
                FX_BOUND == 268435456,
                PI_FX == 205887,
        ;
        crate::vec3::lemma_div_range(
            freq * p,
            FX_BOUND as int,
            SCALE as int * PI_FX as int,
        );
    }
    fdiv128((freq as i128) * (p as i128), (SCALE as i128) * (PI_FX as i128)) as i64
}

} // verus!
