//! The sphere primitive and its exact intersection record.
//!
//! The quadratic `a t^2 + 2 hb t + c = 0` is evaluated on raw integers with
//! no rounding; the roots are then fixed-point numbers obtained through the
//! integer square root of the discriminant.  A root is accepted when it lies
//! strictly inside `(t_min, t_max)` and the (rounded) hit point lies inside
//! the sphere's coordinate box — which makes the pruning argument of the
//! bounding-volume hierarchy exact rather than approximate.

use vstd::prelude::*;
use crate::num::{
    fx_ok, fxmul, fdiv128, isqrt128, sqrt_floor, is_sqrt, lemma_sqrt_exists, lemma_sqrt_unique,
    lemma_prod_i64, lemma_mul_bound, SCALE, FX_BOUND,
};
use crate::vec3::{Vec3, vec_ok, vec_within, dot_num, lemma_div_range};
use crate::ray::{Ray, spec_at};
use crate::aabb::{AABB, aabb_ok, slab_hit, lemma_slab_witness};
use crate::material::{Material, mat_wf};

verus! {

/// Everything the integrator needs to know about one intersection.
pub struct HitRecord {
    pub t: i64,
    pub p: Vec3,
    pub n: Vec3,
    pub u: i64,
    pub v: i64,
    pub mat: Material,
}

/// Bounds that every record handed out by `Sphere::hit` satisfies.
pub open spec fn hit_wf(h: HitRecord) -> bool {
    fx_ok(h.t) && vec_within(h.p, FX_BOUND as int) && vec_within(h.n, SCALE as int)
        && 0 <= h.u <= SCALE && 0 <= h.v <= SCALE && mat_wf(h.mat)
}

pub struct Sphere {
    pub center: Vec3,
    pub radius: i64,
    pub mat: Material,
}

/// Well-formed sphere: positive radius and a padded box inside the world bound.
pub open spec fn sphere_wf(s: Sphere) -> bool {
    vec_ok(s.center) && 0 < s.radius
        && -FX_BOUND <= s.center.x - s.radius - 1 && s.center.x + s.radius + 1 <= FX_BOUND
        && -FX_BOUND <= s.center.y - s.radius - 1 && s.center.y + s.radius + 1 <= FX_BOUND
        && -FX_BOUND <= s.center.z - s.radius - 1 && s.center.z + s.radius + 1 <= FX_BOUND
        && mat_wf(s.mat)
}

/// The sphere's bounding box, padded by one quantum so that rounded hit
/// points stay inside it.
pub open spec fn spec_sphere_box(s: Sphere) -> AABB {
    AABB {
        min: Vec3 {
            x: (s.center.x - s.radius - 1) as i64,
            y: (s.center.y - s.radius - 1) as i64,
            z: (s.center.z - s.radius - 1) as i64,
        },
        max: Vec3 {
            x: (s.center.x + s.radius + 1) as i64,
            y: (s.center.y + s.radius + 1) as i64,
            z: (s.center.z + s.radius + 1) as i64,
        },
    }
}

/// Quadratic coefficients of the ray-sphere intersection, on raw integers.
pub open spec fn sph_a(r: Ray) -> int {
    dot_num(r.direction, r.direction)
}

pub open spec fn sph_hb(s: Sphere, r: Ray) -> int {
    (r.origin.x - s.center.x) * r.direction.x + (r.origin.y - s.center.y) * r.direction.y
        + (r.origin.z - s.center.z) * r.direction.z
}

pub open spec fn sph_c2(s: Sphere, r: Ray) -> int {
    (r.origin.x - s.center.x) * (r.origin.x - s.center.x)
        + (r.origin.y - s.center.y) * (r.origin.y - s.center.y)
        + (r.origin.z - s.center.z) * (r.origin.z - s.center.z) - s.radius * s.radius
}

pub open spec fn sph_disc(s: Sphere, r: Ray) -> int {
    sph_hb(s, r) * sph_hb(s, r) - sph_a(r) * sph_c2(s, r)
}

/// The near and far roots, as fixed-point parameters (floor rounding).
pub open spec fn sph_near(s: Sphere, r: Ray) -> int {
    (SCALE as int * (-sph_hb(s, r) - sqrt_floor(sph_disc(s, r)))) / sph_a(r)
}

pub open spec fn sph_far(s: Sphere, r: Ray) -> int {
    (SCALE as int * (-sph_hb(s, r) + sqrt_floor(sph_disc(s, r)))) / sph_a(r)
}

/// The rounded ray point at `t` lies inside the sphere's coordinate box.
pub open spec fn point_in_box(s: Sphere, r: Ray, t: int) -> bool {
    let p = spec_at(r, t);
    s.center.x - s.radius <= p.x <= s.center.x + s.radius
        && s.center.y - s.radius <= p.y <= s.center.y + s.radius
        && s.center.z - s.radius <= p.z <= s.center.z + s.radius
}

/// A root is accepted when it lies strictly inside the interval and its hit
/// point lies inside the sphere's box.
pub open spec fn sph_acc(s: Sphere, r: Ray, t0: int, t1: int, t: int) -> bool {
    t0 < t < t1 && point_in_box(s, r, t)
}

/// `t` is a root candidate of the sphere for this ray, independent of any
/// query interval.
pub open spec fn sph_qual(s: Sphere, r: Ray, t: int) -> bool {
    sph_a(r) > 0 && sph_disc(s, r) >= 0 && (t == sph_near(s, r) || t == sph_far(s, r))
        && point_in_box(s, r, t)
}

/// Mirror of `Sphere::hit`, at the level of the accepted parameter.
pub open spec fn spec_sphere_hit_t(s: Sphere, r: Ray, t0: int, t1: int) -> Option<int> {
    if sph_a(r) <= 0 {
        None
    } else if sph_disc(s, r) < 0 {
        None
    } else if sph_acc(s, r, t0, t1, sph_near(s, r)) {
        Some(sph_near(s, r))
    } else if sph_acc(s, r, t0, t1, sph_far(s, r)) {
        Some(sph_far(s, r))
    } else {
        None
    }
}

/// Mirror of `Sphere::hit` at the record level.
pub open spec fn spec_sphere_hit_rec(s: Sphere, r: Ray, t0: int, t1: int) -> Option<HitRecord> {
    match spec_sphere_hit_t(s, r, t0, t1) {
        Some(t) => Some(spec_record(s, r, t)),
        None => None,
    }
}

/// Longitude by the diamond-angle parameterization of `(x, z)`, an exact
/// rational stand-in for the spherical angle; `0` at the poles.
pub open spec fn spec_sphere_u(n: Vec3) -> int {
    if n.x == 0 && n.z == 0 {
        0
    } else {
        let ax = if n.x >= 0 { n.x as int } else { -n.x as int };
        let az = if n.z >= 0 { n.z as int } else { -n.z as int };
        let tau = if n.z >= 0 && n.x >= 0 {
            (az * SCALE as int) / (ax + az)
        } else if n.z >= 0 {
            SCALE as int + (ax * SCALE as int) / (ax + az)
        } else if n.x < 0 {
            2 * SCALE as int + (az * SCALE as int) / (ax + az)
        } else {
            3 * SCALE as int + (ax * SCALE as int) / (ax + az)
        };
        tau / 4
    }
}

/// Latitude as the sine of the elevation, mapped to `[0, 1]`.
pub open spec fn spec_sphere_v(n: Vec3) -> int {
    (n.y + SCALE as int) / 2
}

/// The outward unit normal at a point of the sphere's surface.
pub open spec fn spec_normal(s: Sphere, p: Vec3) -> Vec3 {
    Vec3 {
        x: (((p.x - s.center.x) * SCALE as int) / s.radius as int) as i64,
        y: (((p.y - s.center.y) * SCALE as int) / s.radius as int) as i64,
        z: (((p.z - s.center.z) * SCALE as int) / s.radius as int) as i64,
    }
}

/// Mirror of the full record built for an accepted parameter.
pub open spec fn spec_record(s: Sphere, r: Ray, t: int) -> HitRecord {
    let p = spec_at(r, t);
    let n = spec_normal(s, p);
    HitRecord {
        t: t as i64,
        p,
        n,
        u: spec_sphere_u(n) as i64,
        v: spec_sphere_v(n) as i64,
        mat: s.mat,
    }
}

impl Sphere {
    pub fn new(center: Vec3, radius: i64, mat: Material) -> (r: Sphere)
        ensures
            r == (Sphere { center, radius, mat }),
    {
        Sphere { center, radius, mat }
    }

    /// The padded coordinate box of the sphere.
    pub fn bounding_box(&self) -> (r: AABB)
        requires
            sphere_wf(*self),
        ensures
            r == spec_sphere_box(*self),
            aabb_ok(r),
    {
        AABB {
            min: Vec3 {
                x: self.center.x - self.radius - 1,
                y: self.center.y - self.radius - 1,
                z: self.center.z - self.radius - 1,
            },
            max: Vec3 {
                x: self.center.x + self.radius + 1,
                y: self.center.y + self.radius + 1,
                z: self.center.z + self.radius + 1,
            },
        }
    }

    /// The nearest accepted intersection in `(t_min, t_max)`, or nothing.
    /// A ray with zero direction hits nothing, by policy.
    pub fn hit(&self, ray: &Ray, t_min: i64, t_max: i64) -> (res: Option<HitRecord>)
        requires
            sphere_wf(*self),
            vec_ok(ray.origin),
            vec_ok(ray.direction),
            fx_ok(t_min),
            fx_ok(t_max),
        ensures
            res == spec_sphere_hit_rec(*self, *ray, t_min as int, t_max as int),
            res is Some <==> spec_sphere_hit_t(*self, *ray, t_min as int, t_max as int) is Some,
            res matches Some(h) ==> {
                &&& spec_sphere_hit_t(*self, *ray, t_min as int, t_max as int) == Some(h.t as int)
                &&& h == spec_record(*self, *ray, h.t as int)
                &&& t_min < h.t < t_max
                &&& hit_wf(h)
                &&& h.mat == self.mat
            },
    {
        let o = ray.origin;
        let d = ray.direction;
        let c = self.center;
        proof {
            lemma_prod_i64(d.x, d.x);
            lemma_prod_i64(d.y, d.y);
            lemma_prod_i64(d.z, d.z);
            lemma_mul_bound(d.x as int, d.x as int, FX_BOUND as int, FX_BOUND as int);
            lemma_mul_bound(d.y as int, d.y as int, FX_BOUND as int, FX_BOUND as int);
            lemma_mul_bound(d.z as int, d.z as int, FX_BOUND as int, FX_BOUND as int);
        }
        let a2: i128 = (d.x as i128) * (d.x as i128) + (d.y as i128) * (d.y as i128)
            + (d.z as i128) * (d.z as i128);
        if a2 == 0 {
            return None;
        }
        proof {
            crate::vec3::lemma_self_dot_nonneg(d);
        }
        let ocx = o.x - c.x;
        let ocy = o.y - c.y;
        let ocz = o.z - c.z;
        proof {
            lemma_mul_bound(ocx as int, d.x as int, 2 * FX_BOUND as int, FX_BOUND as int);
            lemma_mul_bound(ocy as int, d.y as int, 2 * FX_BOUND as int, FX_BOUND as int);
            lemma_mul_bound(ocz as int, d.z as int, 2 * FX_BOUND as int, FX_BOUND as int);
            lemma_mul_bound(ocx as int, ocx as int, 2 * FX_BOUND as int, 2 * FX_BOUND as int);
            lemma_mul_bound(ocy as int, ocy as int, 2 * FX_BOUND as int, 2 * FX_BOUND as int);
            lemma_mul_bound(ocz as int, ocz as int, 2 * FX_BOUND as int, 2 * FX_BOUND as int);
            lemma_mul_bound(self.radius as int, self.radius as int, FX_BOUND as int, FX_BOUND as int);
        }
        let hb: i128 = (ocx as i128) * (d.x as i128) + (ocy as i128) * (d.y as i128)
            + (ocz as i128) * (d.z as i128);
        let c2: i128 = (ocx as i128) * (ocx as i128) + (ocy as i128) * (ocy as i128)
            + (ocz as i128) * (ocz as i128) - (self.radius as i128) * (self.radius as i128);
        proof {
            lemma_mul_bound(hb as int, hb as int, 0x800_0000_0000_0000, 0x800_0000_0000_0000);
            lemma_mul_bound(a2 as int, c2 as int, 0x400_0000_0000_0000, 0x2000_0000_0000_0000);
        }
        let disc: i128 = hb * hb - a2 * c2;
        if disc < 0 {
            return None;
        }
        let sq128 = isqrt128(disc as u128);
        proof {
            assert((sq128 as int) * (sq128 as int) <= disc as int);
            assert(sq128 as int <= 0x2000_0000_0000_0000) by (nonlinear_arith)
                requires
                    (sq128 as int) * (sq128 as int) <= disc as int,
                    (disc as int) < 0x200_0000_0000_0000_0000_0000_0000_0000,
                    0 <= sq128 as int,
            ;
        }
        let sq: i128 = sq128 as i128;
        let num1: i128 = (SCALE as i128) * (-hb - sq);
        let t1 = fdiv128(num1, a2);
        proof {
            assert(t1 == sph_near(*self, *ray));
        }
        if (t_min as i128) < t1 && t1 < (t_max as i128) {
            let tt = t1 as i64;
            let rec = self.make_record(ray, tt);
            if rec.is_some() {
                return rec;
            }
        }
        let num2: i128 = (SCALE as i128) * (-hb + sq);
        let t2 = fdiv128(num2, a2);
        proof {
            assert(t2 == sph_far(*self, *ray));
        }
        if (t_min as i128) < t2 && t2 < (t_max as i128) {
            let tt = t2 as i64;
            let rec = self.make_record(ray, tt);
            if rec.is_some() {
                return rec;
            }
        }
        None
    }

    /// Check the rounded hit point against the sphere's box and build the
    /// record for an accepted parameter.
    fn make_record(&self, ray: &Ray, t: i64) -> (res: Option<HitRecord>)
        requires
            sphere_wf(*self),
            vec_ok(ray.origin),
            vec_ok(ray.direction),
            fx_ok(t),
        ensures
            res is Some <==> point_in_box(*self, *ray, t as int),
            res matches Some(h) ==> h == spec_record(*self, *ray, t as int) && h.t == t && hit_wf(h),
    {
        let p = ray.point_at(t);
        let c = self.center;
        let rad = self.radius;
        if p.x < c.x - rad || p.x > c.x + rad || p.y < c.y - rad || p.y > c.y + rad
            || p.z < c.z - rad || p.z > c.z + rad {
            return None;
        }
        proof {
            lemma_mul_bound((p.x - c.x) as int, SCALE as int, FX_BOUND as int, SCALE as int);
            lemma_mul_bound((p.y - c.y) as int, SCALE as int, FX_BOUND as int, SCALE as int);
            lemma_mul_bound((p.z - c.z) as int, SCALE as int, FX_BOUND as int, SCALE as int);
            lemma_div_range((p.x - c.x) * SCALE as int, SCALE as int, rad as int);
            lemma_div_range((p.y - c.y) * SCALE as int, SCALE as int, rad as int);
            lemma_div_range((p.z - c.z) * SCALE as int, SCALE as int, rad as int);
        }
        let n = Vec3 {
            x: fdiv128(((p.x - c.x) as i128) * (SCALE as i128), rad as i128) as i64,
            y: fdiv128(((p.y - c.y) as i128) * (SCALE as i128), rad as i128) as i64,
            z: fdiv128(((p.z - c.z) as i128) * (SCALE as i128), rad as i128) as i64,
        };
        let (u, v) = sphere_uv(n);
        Some(HitRecord { t, p, n, u, v, mat: self.mat.clone() })
    }
}

/// Texture coordinates from the unit normal: diamond longitude and sine
/// latitude, both exact rationals.
fn sphere_uv(n: Vec3) -> (r: (i64, i64))
    requires
        vec_within(n, SCALE as int),
    ensures
        r.0 == spec_sphere_u(n),
        r.1 == spec_sphere_v(n),
        0 <= r.0 <= SCALE,
        0 <= r.1 <= SCALE,
{
    let u: i64 = if n.x == 0 && n.z == 0 {
        0
    } else {
        let ax = if n.x >= 0 { n.x } else { -n.x };
        let az = if n.z >= 0 { n.z } else { -n.z };
        proof {
            lemma_mul_bound(az as int, SCALE as int, SCALE as int, SCALE as int);
            lemma_mul_bound(ax as int, SCALE as int, SCALE as int, SCALE as int);
            assert(ax + az >= 1);
            lemma_frac_part_le(az as int, ax as int + az as int);
            lemma_frac_part_le(ax as int, ax as int + az as int);
        }
        let tau: i64 = if n.z >= 0 && n.x >= 0 {
            fdiv128((az as i128) * (SCALE as i128), (ax + az) as i128) as i64
        } else if n.z >= 0 {
            SCALE + fdiv128((ax as i128) * (SCALE as i128), (ax + az) as i128) as i64
        } else if n.x < 0 {
            2 * SCALE + fdiv128((az as i128) * (SCALE as i128), (ax + az) as i128) as i64
        } else {
            3 * SCALE + fdiv128((ax as i128) * (SCALE as i128), (ax + az) as i128) as i64
        };
        proof {
            vstd::arithmetic::div_mod::lemma_div_pos_is_pos(tau as int, 4);
            crate::vec3::lemma_div_range(tau as int, SCALE as int, 4);
        }
        crate::num::fdiv64(tau, 4)
    };
    let v = crate::num::fdiv64(n.y + SCALE, 2);
    proof {
        crate::vec3::lemma_div_range(n.y + SCALE as int, SCALE as int, 2);
        vstd::arithmetic::div_mod::lemma_div_pos_is_pos(n.y + SCALE as int, 2);
    }
    (u, v)
}

/// `0 <= a <= b` makes the fixed-point quotient `a * SCALE / b` land in `[0, SCALE]`.
proof fn lemma_frac_part_le(a: int, b: int)
    requires
        0 <= a <= b,
        1 <= b,
    ensures
        0 <= (a * SCALE as int) / b <= SCALE as int,
{
    vstd::arithmetic::div_mod::lemma_div_pos_is_pos(a * SCALE as int, b);
    assert(a * SCALE as int >= 0) by (nonlinear_arith)
        requires 0 <= a,
    ;
    assert(-(SCALE as int * b) <= a * SCALE as int <= SCALE as int * b) by (nonlinear_arith)
        requires 0 <= a <= b, SCALE == 65536,
    ;
    lemma_div_range(a * SCALE as int, SCALE as int, b);
}

/// The roots come out ordered: the near root is at most the far root.
pub proof fn lemma_sphere_cands_ordered(s: Sphere, r: Ray)
    requires
        sph_a(r) > 0,
        sph_disc(s, r) >= 0,
    ensures
        sph_near(s, r) <= sph_far(s, r),
{
    lemma_sqrt_exists(sph_disc(s, r));
    let sq = sqrt_floor(sph_disc(s, r));
    assert(SCALE as int * (-sph_hb(s, r) - sq) <= SCALE as int * (-sph_hb(s, r) + sq)) by (nonlinear_arith)
        requires sq >= 0, SCALE == 65536,
    ;
    vstd::arithmetic::div_mod::lemma_div_is_ordered(
        SCALE as int * (-sph_hb(s, r) - sq),
        SCALE as int * (-sph_hb(s, r) + sq),
        sph_a(r),
    );
}

/// Whatever `Sphere::hit` accepts is a hit of the sphere's padded box over
/// the same interval: the pruning argument of the hierarchy.
pub proof fn lemma_sphere_hit_in_slab(s: Sphere, r: Ray, t0: int, t1: int, t: int)
    requires
        sphere_wf(s),
        vec_ok(r.origin),
        vec_ok(r.direction),
        t0 < t < t1,
        -FX_BOUND <= t0,
        t1 <= FX_BOUND,
        point_in_box(s, r, t),
    ensures
        slab_hit(spec_sphere_box(s), r, t0, t1),
{
    let bx = spec_sphere_box(s);
    let px = r.origin.x + fxmul(t, r.direction.x as int);
    let py = r.origin.y + fxmul(t, r.direction.y as int);
    let pz = r.origin.z + fxmul(t, r.direction.z as int);
    lemma_mul_bound(t, r.direction.x as int, FX_BOUND as int, FX_BOUND as int);
    lemma_mul_bound(t, r.direction.y as int, FX_BOUND as int, FX_BOUND as int);
    lemma_mul_bound(t, r.direction.z as int, FX_BOUND as int, FX_BOUND as int);
    lemma_div_range(t * r.direction.x, FX_BOUND as int * FX_BOUND as int, SCALE as int);
    // The rounded point coordinates are genuine i64 values.
    lemma_div_range(t * r.direction.y, FX_BOUND as int * FX_BOUND as int, SCALE as int);
    lemma_div_range(t * r.direction.z, FX_BOUND as int * FX_BOUND as int, SCALE as int);
    vstd::arithmetic::div_mod::lemma_fundamental_div_mod(t * r.direction.x, SCALE as int);
    vstd::arithmetic::div_mod::lemma_fundamental_div_mod(t * r.direction.y, SCALE as int);
    vstd::arithmetic::div_mod::lemma_fundamental_div_mod(t * r.direction.z, SCALE as int);
    assert(bx.min.x * SCALE as int <= r.origin.x * SCALE as int + t * r.direction.x
        && r.origin.x * SCALE as int + t * r.direction.x <= bx.max.x * SCALE as int) by (nonlinear_arith)
        requires
            s.center.x - s.radius <= px <= s.center.x + s.radius,
            bx.min.x == s.center.x - s.radius - 1,
            bx.max.x == s.center.x + s.radius + 1,
            px == r.origin.x + (t * r.direction.x) / SCALE as int,
            t * r.direction.x == SCALE as int * ((t * r.direction.x) / SCALE as int)
                + (t * r.direction.x) % SCALE as int,
            0 <= (t * r.direction.x) % SCALE as int,
            ((t * r.direction.x) % SCALE as int) < SCALE as int,
            SCALE == 65536,
    ;
    assert(bx.min.y * SCALE as int <= r.origin.y * SCALE as int + t * r.direction.y
        && r.origin.y * SCALE as int + t * r.direction.y <= bx.max.y * SCALE as int) by (nonlinear_arith)
        requires
            s.center.y - s.radius <= py <= s.center.y + s.radius,
            bx.min.y == s.center.y - s.radius - 1,
            bx.max.y == s.center.y + s.radius + 1,
            py == r.origin.y + (t * r.direction.y) / SCALE as int,
            t * r.direction.y == SCALE as int * ((t * r.direction.y) / SCALE as int)
                + (t * r.direction.y) % SCALE as int,
            0 <= (t * r.direction.y) % SCALE as int,
            ((t * r.direction.y) % SCALE as int) < SCALE as int,
            SCALE == 65536,
    ;
    assert(bx.min.z * SCALE as int <= r.origin.z * SCALE as int + t * r.direction.z
        && r.origin.z * SCALE as int + t * r.direction.z <= bx.max.z * SCALE as int) by (nonlinear_arith)
        requires
            s.center.z - s.radius <= pz <= s.center.z + s.radius,
            bx.min.z == s.center.z - s.radius - 1,
            bx.max.z == s.center.z + s.radius + 1,
            pz == r.origin.z + (t * r.direction.z) / SCALE as int,
            t * r.direction.z == SCALE as int * ((t * r.direction.z) / SCALE as int)
                + (t * r.direction.z) % SCALE as int,
            0 <= (t * r.direction.z) % SCALE as int,
            ((t * r.direction.z) % SCALE as int) < SCALE as int,
            SCALE == 65536,
    ;
    lemma_slab_witness(bx, r, t, t0, t1);
}

/// The accepted parameter is the least qualifying root inside the interval.
pub proof fn lemma_sphere_hit_char(s: Sphere, r: Ray, t0: int, t1: int)
    ensures
        match spec_sphere_hit_t(s, r, t0, t1) {
            None => forall|t: int| #[trigger] sph_qual(s, r, t) ==> !(t0 < t < t1),
            Some(tb) => sph_qual(s, r, tb) && t0 < tb < t1
                && forall|t: int| #[trigger] sph_qual(s, r, t) && t0 < t < t1 ==> tb <= t,
        },
{
    if sph_a(r) > 0 && sph_disc(s, r) >= 0 {
        lemma_sphere_cands_ordered(s, r);
    }
    if spec_sphere_hit_t(s, r, t0, t1) is None {
        assert forall|t: int| #[trigger] sph_qual(s, r, t) implies !(t0 < t < t1) by {}
    } else {
        let tb = spec_sphere_hit_t(s, r, t0, t1)->0;
        assert forall|t: int| #[trigger] sph_qual(s, r, t) && t0 < t < t1 implies tb <= t by {}
    }
}

} // verus!
