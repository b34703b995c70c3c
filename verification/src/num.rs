//! Fixed-point scalars and the exact integer primitives they are built on.
//!
//! A scalar holds `value * SCALE` in an `i64`.  Division always rounds toward
//! negative infinity (the rounding of spec-level `/`), and square roots are
//! integer square roots, so every operation has an exact contract.

use vstd::prelude::*;

verus! {

/// One unit, in raw fixed-point form: scalars hold `value * SCALE`.
pub const SCALE: i64 = 65536;

/// Bound on the raw form of every coordinate, direction component and ray
/// parameter the renderer works with (about 4096 world units).  Keeping all
/// inputs under this bound keeps every intermediate product inside `i128`.
pub const FX_BOUND: i64 = 268435456;

/// The raw value is a well-formed scalar: bounded so arithmetic cannot overflow.
pub open spec fn fx_ok(v: i64) -> bool {
    -FX_BOUND <= v && v <= FX_BOUND
}

/// Floor division of `a` by a positive `b`, i.e. the `/` of spec arithmetic.
pub fn fdiv128(a: i128, b: i128) -> (q: i128)
    requires
        0 < b <= 0x1_0000_0000_0000_0000_0000_0000,
        -0x4000_0000_0000_0000_0000_0000_0000_0000 <= a <= 0x4000_0000_0000_0000_0000_0000_0000_0000,
    ensures
        q == a as int / b as int,
{
    if a >= 0 {
        let qu = (a as u128) / (b as u128);
        proof {
            vstd::arithmetic::div_mod::lemma_div_pos_is_pos(a as int, b as int);
            vstd::arithmetic::div_mod::lemma_div_is_ordered_by_denominator(a as int, 1, b as int);
            vstd::arithmetic::div_mod::lemma_div_basics(a as int);
        }
        qu as i128
    } else {
        let n = (-a) as u128;
        let bu = b as u128;
        let q0 = (n + bu - 1) / bu;
        proof {
            let ni = n as int;
            let bi = b as int;
            let q0i = q0 as int;
            vstd::arithmetic::div_mod::lemma_div_pos_is_pos(ni + bi - 1, bi);
            vstd::arithmetic::div_mod::lemma_div_is_ordered_by_denominator(ni + bi - 1, 1, bi);
            vstd::arithmetic::div_mod::lemma_div_basics(ni + bi - 1);
            vstd::arithmetic::div_mod::lemma_fundamental_div_mod((ni + bi - 1) as int, bi);
            vstd::arithmetic::div_mod::lemma_fundamental_div_mod(a as int, bi);
            assert(a as int / bi == -q0i) by (nonlinear_arith)
                requires
                    ni + bi - 1 == bi * q0i + ((ni + bi - 1) % bi),
                    0 <= (ni + bi - 1) % bi < bi,
                    a as int == bi * (a as int / bi) + (a as int % bi),
                    0 <= a as int % bi < bi,
                    a as int == -ni,
                    bi > 0,
                    ni > 0,
            ;
        }
        -(q0 as i128)
    }
}

/// Floor division on `i64`, through `i128` so nothing overflows.
pub fn fdiv64(a: i64, b: i64) -> (q: i64)
    requires
        b > 0,
        i64::MIN <= a as int / b as int <= i64::MAX,
    ensures
        q == a as int / b as int,
{
    let q = fdiv128(a as i128, b as i128);
    q as i64
}

/// `r` is the integer square root of `n`.
pub open spec fn is_sqrt(n: int, r: int) -> bool {
    0 <= r && r * r <= n && n < (r + 1) * (r + 1)
}

/// The integer square root, for use in specifications.
pub open spec fn sqrt_floor(n: int) -> int {
    choose|r: int| is_sqrt(n, r)
}

pub proof fn lemma_sqrt_unique(n: int, r1: int, r2: int)
    requires
        is_sqrt(n, r1),
        is_sqrt(n, r2),
    ensures
        r1 == r2,
{
    if r1 < r2 {
        assert((r1 + 1) * (r1 + 1) <= r2 * r2) by (nonlinear_arith)
            requires 0 <= r1, r1 < r2,
        ;
    }
    if r2 < r1 {
        assert((r2 + 1) * (r2 + 1) <= r1 * r1) by (nonlinear_arith)
            requires 0 <= r2, r2 < r1,
        ;
    }
}

pub proof fn lemma_sqrt_exists(n: int)
    requires
        n >= 0,
    ensures
        is_sqrt(n, sqrt_floor(n)),
    decreases n,
{
    if n == 0 {
        assert(is_sqrt(0, 0));
    } else {
        lemma_sqrt_exists(n - 1);
        let r = sqrt_floor(n - 1);
        assert(is_sqrt(n - 1, r));
        if (r + 1) * (r + 1) <= n {
            assert(is_sqrt(n, r + 1)) by (nonlinear_arith)
                requires 0 <= r, r * r <= n - 1, n - 1 < (r + 1) * (r + 1), (r + 1) * (r + 1) <= n,
            ;
        } else {
            assert(is_sqrt(n, r));
        }
    }
    let w = choose|w: int| is_sqrt(n, w);
    assert(is_sqrt(n, w));
    lemma_sqrt_unique(n, w, sqrt_floor(n));
}

/// Integer square root of `n`, by binary search.
pub fn isqrt128(n: u128) -> (r: u128)
    requires
        n < 0x4000_0000_0000_0000_0000_0000_0000_0000,
    ensures
        is_sqrt(n as int, r as int),
        r as int == sqrt_floor(n as int),
{
    let mut lo: u128 = 0;
    let mut hi: u128 = 0x8000_0000_0000_0000;
    proof {
        assert((hi as int) * (hi as int) > n as int) by (nonlinear_arith)
            requires hi == 0x8000_0000_0000_0000u128, n < 0x4000_0000_0000_0000_0000_0000_0000_0000,
        ;
    }
    while lo + 1 < hi
        invariant
            0 <= lo < hi <= 0x8000_0000_0000_0000,
            (lo as int) * (lo as int) <= n as int,
            (n as int) < (hi as int) * (hi as int),
        decreases hi - lo,
    {
        let mid = lo + (hi - lo) / 2;
        proof {
            assert((mid as int) * (mid as int) <= 0x4000_0000_0000_0000_0000_0000_0000_0000) by (nonlinear_arith)
                requires 0 <= mid as int <= 0x8000_0000_0000_0000,
            ;
        }
        if mid * mid <= n {
            lo = mid;
        } else {
            hi = mid;
        }
    }
    proof {
        lemma_sqrt_exists(n as int);
        lemma_sqrt_unique(n as int, lo as int, sqrt_floor(n as int));
    }
    lo
}

/// Fixed-point product, for use in specifications: `(a * b) / SCALE`.
pub open spec fn fxmul(a: int, b: int) -> int {
    (a * b) / (SCALE as int)
}

/// Fixed-point quotient, for use in specifications: `(a * SCALE) / b`.
pub open spec fn fxdiv(a: int, b: int) -> int {
    (a * SCALE as int) / b
}

pub proof fn lemma_mul_bound(a: int, b: int, aa: int, bb: int)
    requires
        -aa <= a <= aa,
        -bb <= b <= bb,
        0 <= aa,
        0 <= bb,
    ensures
        -(aa * bb) <= a * b <= aa * bb,
{
    assert(-(aa * bb) <= a * b <= aa * bb) by (nonlinear_arith)
        requires -aa <= a <= aa, -bb <= b <= bb, 0 <= aa, 0 <= bb,
    ;
}

/// Division by a positive divisor keeps order and sign; bounds the quotient.
pub proof fn lemma_div_bound(a: int, b: int, aa: int)
    requires
        b > 0,
        -aa <= a <= aa,
        0 <= aa,
    ensures
        -aa <= a / b <= aa,
        a >= 0 ==> 0 <= a / b <= a,
{
    vstd::arithmetic::div_mod::lemma_fundamental_div_mod(a, b);
    assert(-aa <= a / b <= aa && (a >= 0 ==> 0 <= a / b <= a)) by (nonlinear_arith)
        requires
            a == b * (a / b) + (a % b),
            0 <= a % b < b,
            b > 0,
            -aa <= a <= aa,
            0 <= aa,
    ;
}

/// Fixed-point multiplication: exact floor of `a * b / SCALE`.
pub fn mul_fx(a: i64, b: i64) -> (r: i64)
    requires
        i64::MIN <= fxmul(a as int, b as int) <= i64::MAX,
    ensures
        r == fxmul(a as int, b as int),
{
    let p: i128 = (a as i128) * (b as i128);
    let q = fdiv128(p, SCALE as i128);
    q as i64
}

/// Fixed-point division: exact floor of `a * SCALE / b`, for positive `b`.
pub fn div_fx(a: i64, b: i64) -> (r: i64)
    requires
        b > 0,
        i64::MIN <= fxdiv(a as int, b as int) <= i64::MAX,
    ensures
        r == fxdiv(a as int, b as int),
{
    let p: i128 = (a as i128) * (SCALE as i128);
    let q = fdiv128(p, b as i128);
    q as i64
}

/// Fixed-point square root, for use in specifications: the integer square
/// root of `v * SCALE`, so that `sqrt_fx` of `x * SCALE` is near
/// `sqrt(x) * SCALE`.
pub open spec fn fxsqrt(v: int) -> int {
    sqrt_floor(v * SCALE as int)
}

/// Fixed-point square root of a non-negative scalar.
pub fn sqrt_fx(v: i64) -> (r: i64)
    requires
        0 <= v,
    ensures
        r == fxsqrt(v as int),
        0 <= r,
        r * r <= v * SCALE as int,
{
    let n: u128 = (v as u128) * 65536u128;
    proof {
        assert((n as int) < 0x1_0000_0000_0000_0000_0000) by (nonlinear_arith)
            requires
                n == (v as int) * (SCALE as int),
                0 <= v as int,
                (v as int) < 0x8000_0000_0000_0000,
                SCALE == 65536,
        ;
    }
    let r = isqrt128(n);
    proof {
        let ri = r as int;
        assert(ri < 0x1_0000_0000_0000) by (nonlinear_arith)
            requires
                ri * ri <= n as int,
                (n as int) < 0x1_0000_0000_0000_0000_0000,
                0 <= ri,
        ;
    }
    r as i64
}

/// Any product of two `i64` values fits comfortably inside `i128`.
pub proof fn lemma_prod_i64(a: i64, b: i64)
    ensures
        -0x4000_0000_0000_0000_0000_0000_0000_0000 <= (a as int) * (b as int)
            <= 0x4000_0000_0000_0000_0000_0000_0000_0000,
{
    lemma_mul_bound(a as int, b as int, 0x8000_0000_0000_0000, 0x8000_0000_0000_0000);
}

} // verus!
