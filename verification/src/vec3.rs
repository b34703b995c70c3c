//! Three-component fixed-point vectors, used both for geometry and for color.

use vstd::prelude::*;
use crate::num::{fx_ok, fxmul, sqrt_floor, is_sqrt, fdiv128, mul_fx, isqrt128, SCALE, FX_BOUND};

verus! {

#[derive(Clone, Copy, Debug, PartialEq, Eq, Structural)]
pub struct Vec3 {
    pub x: i64,
    pub y: i64,
    pub z: i64,
}

/// Every component is a well-formed scalar.
pub open spec fn vec_ok(v: Vec3) -> bool {
    fx_ok(v.x) && fx_ok(v.y) && fx_ok(v.z)
}

/// Every component is bounded by `m`; unit vectors satisfy `vec_within(v, SCALE)`.
pub open spec fn vec_within(v: Vec3, m: int) -> bool {
    -m <= v.x <= m && -m <= v.y <= m && -m <= v.z <= m
}

/// The un-divided dot product `a.x*b.x + a.y*b.y + a.z*b.z`.
pub open spec fn dot_num(a: Vec3, b: Vec3) -> int {
    a.x * b.x + a.y * b.y + a.z * b.z
}

/// The fixed-point dot product.
pub open spec fn spec_dot(a: Vec3, b: Vec3) -> int {
    dot_num(a, b) / SCALE as int
}

/// A quotient by a positive `d` of a value within `m * d` lies within `m`.
pub proof fn lemma_div_range(n: int, m: int, d: int)
    requires
        d > 0,
        0 <= m,
        -(m * d) <= n <= m * d,
    ensures
        -m <= n / d <= m,
{
    vstd::arithmetic::div_mod::lemma_fundamental_div_mod(n, d);
    assert(-m <= n / d <= m) by (nonlinear_arith)
        requires
            n == d * (n / d) + (n % d),
            0 <= n % d < d,
            d > 0,
            0 <= m,
            -(m * d) <= n <= m * d,
    ;
}

/// A dot product of component-wise bounded vectors is bounded.
pub proof fn lemma_dot_within(u: Vec3, v: Vec3, a: int, b: int)
    requires
        vec_within(u, a),
        vec_within(v, b),
        0 <= a,
        0 <= b,
    ensures
        -(3 * a * b) <= dot_num(u, v) <= 3 * a * b,
        -(a * b) <= u.x * v.x <= a * b,
        -(a * b) <= u.y * v.y <= a * b,
        -(a * b) <= u.z * v.z <= a * b,
{
    crate::num::lemma_mul_bound(u.x as int, v.x as int, a, b);
    crate::num::lemma_mul_bound(u.y as int, v.y as int, a, b);
    crate::num::lemma_mul_bound(u.z as int, v.z as int, a, b);
    assert(-(3 * a * b) <= dot_num(u, v) <= 3 * a * b) by (nonlinear_arith)
        requires
            -(a * b) <= u.x * v.x <= a * b,
            -(a * b) <= u.y * v.y <= a * b,
            -(a * b) <= u.z * v.z <= a * b,
    ;
}

/// Each coordinate is bounded by the integer length of the triple.
pub proof fn lemma_component_le_len(v: Vec3, len: int)
    requires
        is_sqrt(dot_num(v, v), len),
    ensures
        -len <= v.x <= len,
        -len <= v.y <= len,
        -len <= v.z <= len,
{
    assert(-len <= v.x <= len && -len <= v.y <= len && -len <= v.z <= len) by (nonlinear_arith)
        requires
            0 <= len,
            v.x * v.x + v.y * v.y + v.z * v.z < (len + 1) * (len + 1),
    ;
}

/// Squares are non-negative, so a vector's dot product with itself is.
pub proof fn lemma_self_dot_nonneg(v: Vec3)
    ensures
        dot_num(v, v) >= 0,
        v.x * v.x >= 0 && v.y * v.y >= 0 && v.z * v.z >= 0,
{
    assert(v.x * v.x >= 0 && v.y * v.y >= 0 && v.z * v.z >= 0) by (nonlinear_arith);
}

/// Mirror of `norm`.
pub open spec fn spec_norm(v: Vec3) -> Vec3 {
    if dot_num(v, v) == 0 {
        Vec3 { x: 0, y: 0, z: 0 }
    } else {
        let len = sqrt_floor(dot_num(v, v));
        Vec3 {
            x: ((v.x * SCALE as int) / len) as i64,
            y: ((v.y * SCALE as int) / len) as i64,
            z: ((v.z * SCALE as int) / len) as i64,
        }
    }
}

/// Mirror of `cross`.
pub open spec fn spec_cross(a: Vec3, b: Vec3) -> Vec3 {
    Vec3 {
        x: (fxmul(a.y as int, b.z as int) - fxmul(a.z as int, b.y as int)) as i64,
        y: (fxmul(a.z as int, b.x as int) - fxmul(a.x as int, b.z as int)) as i64,
        z: (fxmul(a.x as int, b.y as int) - fxmul(a.y as int, b.x as int)) as i64,
    }
}

/// Bounds for the six products of a cross of vectors within `2^20`.
proof fn lemma_cross_bounds(a: Vec3, b: Vec3)
    requires
        vec_within(a, 1048576),
        vec_within(b, 1048576),
    ensures
        -16777216 <= fxmul(a.y as int, b.z as int) <= 16777216,
        -16777216 <= fxmul(a.z as int, b.y as int) <= 16777216,
        -16777216 <= fxmul(a.z as int, b.x as int) <= 16777216,
        -16777216 <= fxmul(a.x as int, b.z as int) <= 16777216,
        -16777216 <= fxmul(a.x as int, b.y as int) <= 16777216,
        -16777216 <= fxmul(a.y as int, b.x as int) <= 16777216,
{
    crate::num::lemma_mul_bound(a.y as int, b.z as int, 1048576, 1048576);
    crate::num::lemma_mul_bound(a.z as int, b.y as int, 1048576, 1048576);
    crate::num::lemma_mul_bound(a.z as int, b.x as int, 1048576, 1048576);
    crate::num::lemma_mul_bound(a.x as int, b.z as int, 1048576, 1048576);
    crate::num::lemma_mul_bound(a.x as int, b.y as int, 1048576, 1048576);
    crate::num::lemma_mul_bound(a.y as int, b.x as int, 1048576, 1048576);
    assert(1048576 * 1048576 == 16777216 * 65536) by (nonlinear_arith);
    lemma_div_range(a.y * b.z, 16777216, SCALE as int);
    lemma_div_range(a.z * b.y, 16777216, SCALE as int);
    lemma_div_range(a.z * b.x, 16777216, SCALE as int);
    lemma_div_range(a.x * b.z, 16777216, SCALE as int);
    lemma_div_range(a.x * b.y, 16777216, SCALE as int);
    lemma_div_range(a.y * b.x, 16777216, SCALE as int);
}

/// Mirror of `reflect`.
pub open spec fn spec_reflect(v: Vec3, n: Vec3) -> Vec3 {
    let d = spec_dot(v, n);
    Vec3 {
        x: (v.x - fxmul(2 * d, n.x as int)) as i64,
        y: (v.y - fxmul(2 * d, n.y as int)) as i64,
        z: (v.z - fxmul(2 * d, n.z as int)) as i64,
    }
}

impl Vec3 {
    pub fn new(x: i64, y: i64, z: i64) -> (r: Vec3)
        ensures
            r == (Vec3 { x, y, z }),
    {
        Vec3 { x, y, z }
    }

    pub fn zero() -> (r: Vec3)
        ensures
            r == (Vec3 { x: 0, y: 0, z: 0 }),
    {
        Vec3 { x: 0, y: 0, z: 0 }
    }

    pub fn add(&self, o: &Vec3) -> (r: Vec3)
        requires
            i64::MIN <= self.x + o.x <= i64::MAX,
            i64::MIN <= self.y + o.y <= i64::MAX,
            i64::MIN <= self.z + o.z <= i64::MAX,
        ensures
            r.x == self.x + o.x,
            r.y == self.y + o.y,
            r.z == self.z + o.z,
    {
        Vec3 { x: self.x + o.x, y: self.y + o.y, z: self.z + o.z }
    }

    pub fn sub(&self, o: &Vec3) -> (r: Vec3)
        requires
            i64::MIN <= self.x - o.x <= i64::MAX,
            i64::MIN <= self.y - o.y <= i64::MAX,
            i64::MIN <= self.z - o.z <= i64::MAX,
        ensures
            r.x == self.x - o.x,
            r.y == self.y - o.y,
            r.z == self.z - o.z,
    {
        Vec3 { x: self.x - o.x, y: self.y - o.y, z: self.z - o.z }
    }

    pub fn neg(&self) -> (r: Vec3)
        requires
            self.x > i64::MIN,
            self.y > i64::MIN,
            self.z > i64::MIN,
        ensures
            r.x == -self.x,
            r.y == -self.y,
            r.z == -self.z,
    {
        Vec3 { x: -self.x, y: -self.y, z: -self.z }
    }

    /// Scale by a fixed-point factor `k`.
    pub fn scale(&self, k: i64) -> (r: Vec3)
        requires
            i64::MIN <= fxmul(self.x as int, k as int) <= i64::MAX,
            i64::MIN <= fxmul(self.y as int, k as int) <= i64::MAX,
            i64::MIN <= fxmul(self.z as int, k as int) <= i64::MAX,
        ensures
            r.x == fxmul(self.x as int, k as int),
            r.y == fxmul(self.y as int, k as int),
            r.z == fxmul(self.z as int, k as int),
    {
        Vec3 { x: mul_fx(self.x, k), y: mul_fx(self.y, k), z: mul_fx(self.z, k) }
    }

    /// Component-wise product, used to attenuate a color by an albedo.
    pub fn mult(&self, o: &Vec3) -> (r: Vec3)
        requires
            i64::MIN <= fxmul(self.x as int, o.x as int) <= i64::MAX,
            i64::MIN <= fxmul(self.y as int, o.y as int) <= i64::MAX,
            i64::MIN <= fxmul(self.z as int, o.z as int) <= i64::MAX,
        ensures
            r.x == fxmul(self.x as int, o.x as int),
            r.y == fxmul(self.y as int, o.y as int),
            r.z == fxmul(self.z as int, o.z as int),
    {
        Vec3 { x: mul_fx(self.x, o.x), y: mul_fx(self.y, o.y), z: mul_fx(self.z, o.z) }
    }

    pub fn dot(&self, o: &Vec3) -> (r: i64)
        requires
            vec_ok(*self),
            vec_ok(*o),
        ensures
            r == spec_dot(*self, *o),
    {
        proof {
            lemma_dot_within(*self, *o, FX_BOUND as int, FX_BOUND as int);
            lemma_div_range(
                dot_num(*self, *o),
                3 * FX_BOUND as int * FX_BOUND as int,
                SCALE as int,
            );
            assert((3 * FX_BOUND as int * FX_BOUND as int * SCALE as int)
                < 0x4000_0000_0000_0000_0000_0000_0000_0000) by (nonlinear_arith);
        }
        let n: i128 = (self.x as i128) * (o.x as i128) + (self.y as i128) * (o.y as i128)
            + (self.z as i128) * (o.z as i128);
        fdiv128(n, SCALE as i128) as i64
    }

    /// The squared geometric length, as a fixed-point scalar.
    pub fn length(&self) -> (r: i64)
        requires
            vec_ok(*self),
        ensures
            r == spec_dot(*self, *self),
            r >= 0,
    {
        proof {
            lemma_self_dot_nonneg(*self);
            vstd::arithmetic::div_mod::lemma_div_pos_is_pos(dot_num(*self, *self), SCALE as int);
        }
        self.dot(self)
    }

    /// Normalize to (approximately) unit length; the zero vector stays zero,
    /// so a degenerate direction is handled by policy rather than a crash.
    pub fn norm(&self) -> (r: Vec3)
        requires
            vec_ok(*self),
        ensures
            r == spec_norm(*self),
            vec_within(r, SCALE as int),
    {
        proof {
            lemma_self_dot_nonneg(*self);
            crate::num::lemma_mul_bound(self.x as int, self.x as int, FX_BOUND as int, FX_BOUND as int);
            crate::num::lemma_mul_bound(self.y as int, self.y as int, FX_BOUND as int, FX_BOUND as int);
            crate::num::lemma_mul_bound(self.z as int, self.z as int, FX_BOUND as int, FX_BOUND as int);
        }
        let n: i128 = (self.x as i128) * (self.x as i128) + (self.y as i128) * (self.y as i128)
            + (self.z as i128) * (self.z as i128);
        if n == 0 {
            Vec3 { x: 0, y: 0, z: 0 }
        } else {
            let len = isqrt128(n as u128);
            proof {
                lemma_component_le_len(*self, len as int);
                assert(len >= 1) by {
                    if len as int == 0 {
                        assert((0int + 1) * (0int + 1) == 1);
                    }
                };
                assert((len as int) <= 0x1_0000_0000_0000_0000) by (nonlinear_arith)
                    requires
                        (len as int) * (len as int) <= n as int,
                        (n as int) <= 0x1_0000_0000_0000_0000_0000_0000_0000_0000,
                        0 <= len as int,
                ;
                crate::num::lemma_mul_bound(self.x as int, SCALE as int, len as int, SCALE as int);
                lemma_div_range(self.x * SCALE as int, SCALE as int, len as int);
                crate::num::lemma_mul_bound(self.y as int, SCALE as int, len as int, SCALE as int);
                lemma_div_range(self.y * SCALE as int, SCALE as int, len as int);
                crate::num::lemma_mul_bound(self.z as int, SCALE as int, len as int, SCALE as int);
                lemma_div_range(self.z * SCALE as int, SCALE as int, len as int);
            }
            let rx = fdiv128((self.x as i128) * (SCALE as i128), len as i128) as i64;
            let ry = fdiv128((self.y as i128) * (SCALE as i128), len as i128) as i64;
            let rz = fdiv128((self.z as i128) * (SCALE as i128), len as i128) as i64;
            Vec3 { x: rx, y: ry, z: rz }
        }
    }

    /// The cross product, with fixed-point rounding per component.
    pub fn cross(&self, o: &Vec3) -> (r: Vec3)
        requires
            vec_within(*self, 1048576),
            vec_within(*o, 1048576),
        ensures
            r == spec_cross(*self, *o),
            vec_within(r, 33554432),
    {
        proof {
            lemma_cross_bounds(*self, *o);
        }
        Vec3 {
            x: mul_fx(self.y, o.z) - mul_fx(self.z, o.y),
            y: mul_fx(self.z, o.x) - mul_fx(self.x, o.z),
            z: mul_fx(self.x, o.y) - mul_fx(self.y, o.x),
        }
    }

    /// Reflect about the (approximately unit) normal `n`: `v - 2 (v.n) n`.
    pub fn reflect(&self, n: &Vec3) -> (r: Vec3)
        requires
            vec_within(*self, 4 * SCALE as int),
            vec_within(*n, 2 * SCALE as int),
        ensures
            r == spec_reflect(*self, *n),
            vec_within(r, 128 * SCALE as int),
    {
        proof {
            lemma_dot_within(*self, *n, 4 * SCALE as int, 2 * SCALE as int);
            assert(3 * (4 * SCALE as int) * (2 * SCALE as int)
                == 24 * SCALE as int * SCALE as int) by (nonlinear_arith);
            lemma_div_range(dot_num(*self, *n), 24 * SCALE as int, SCALE as int);
        }
        let d = self.dot(n);
        proof {
            crate::num::lemma_mul_bound(2 * d as int, n.x as int, 48 * SCALE as int, 2 * SCALE as int);
            crate::num::lemma_mul_bound(2 * d as int, n.y as int, 48 * SCALE as int, 2 * SCALE as int);
            crate::num::lemma_mul_bound(2 * d as int, n.z as int, 48 * SCALE as int, 2 * SCALE as int);
            lemma_div_range(2 * d * n.x, 96 * SCALE as int, SCALE as int);
            lemma_div_range(2 * d * n.y, 96 * SCALE as int, SCALE as int);
            lemma_div_range(2 * d * n.z, 96 * SCALE as int, SCALE as int);
        }
        let dx = mul_fx(2 * d, n.x);
        let dy = mul_fx(2 * d, n.y);
        let dz = mul_fx(2 * d, n.z);
        Vec3 { x: self.x - dx, y: self.y - dy, z: self.z - dz }
    }
}

} // verus!
