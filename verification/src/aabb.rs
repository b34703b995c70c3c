//! Axis-aligned bounding boxes and the slab intersection test.
//!
//! The slab test is exact: entry and exit parameters are kept as integer
//! fractions and compared by cross-multiplication, so `hit` returns true
//! exactly when some ray parameter `t` in the closed interval
//! `[t_min, t_max]` puts the ray inside the box on every axis.  Boundary
//! contact counts as a hit, and a ray parallel to a slab intersects that
//! axis exactly when its origin lies inside the slab (ends included).

use vstd::prelude::*;
use crate::num::{fx_ok, SCALE, lemma_prod_i64};
use crate::vec3::{Vec3, vec_ok};
use crate::ray::Ray;

verus! {

#[derive(Clone, Copy, Debug, PartialEq, Eq, Structural)]
pub struct AABB {
    pub min: Vec3,
    pub max: Vec3,
}

pub open spec fn aabb_ok(b: AABB) -> bool {
    vec_ok(b.min) && vec_ok(b.max)
}

/// `outer` contains `inner`, component-wise.
pub open spec fn contains(outer: AABB, inner: AABB) -> bool {
    outer.min.x <= inner.min.x && outer.min.y <= inner.min.y && outer.min.z <= inner.min.z
        && inner.max.x <= outer.max.x && inner.max.y <= outer.max.y && inner.max.z <= outer.max.z
}

/// `a/b <= c/d` for fractions with positive denominators.
pub open spec fn fle(an: int, ad: int, bn: int, bd: int) -> bool {
    an * bd <= bn * ad
}

/// At the rational parameter `tn/td`, the ray coordinate on an axis with
/// origin `o` and direction `d` lies between `mn` and `mx` (inclusive).
pub open spec fn axis_between(mn: int, o: int, d: int, mx: int, tn: int, td: int) -> bool {
    mn * td <= o * td + tn * d && o * td + tn * d <= mx * td
}

/// Some ray parameter `t` in `[t0/SCALE, t1/SCALE]` puts the ray inside the
/// box on all three axes; `t` ranges over the rationals `tn/td`.
pub open spec fn slab_hit(b: AABB, r: Ray, t0: int, t1: int) -> bool {
    exists|tn: int, td: int|
        td > 0 && t0 * td <= SCALE as int * tn && SCALE as int * tn <= t1 * td
            && #[trigger] axis_between(b.min.x as int, r.origin.x as int, r.direction.x as int, b.max.x as int, tn, td)
            && axis_between(b.min.y as int, r.origin.y as int, r.direction.y as int, b.max.y as int, tn, td)
            && axis_between(b.min.z as int, r.origin.z as int, r.direction.z as int, b.max.z as int, tn, td)
}

/// The component-wise union of two boxes: the smallest box containing both.
pub open spec fn box_union(a: AABB, b: AABB) -> AABB {
    AABB {
        min: Vec3 {
            x: if a.min.x <= b.min.x { a.min.x } else { b.min.x },
            y: if a.min.y <= b.min.y { a.min.y } else { b.min.y },
            z: if a.min.z <= b.min.z { a.min.z } else { b.min.z },
        },
        max: Vec3 {
            x: if a.max.x >= b.max.x { a.max.x } else { b.max.x },
            y: if a.max.y >= b.max.y { a.max.y } else { b.max.y },
            z: if a.max.z >= b.max.z { a.max.z } else { b.max.z },
        },
    }
}

/// The union contains both of its parts.
pub proof fn lemma_union_contains(a: AABB, b: AABB)
    ensures
        contains(box_union(a, b), a),
        contains(box_union(a, b), b),
{
}

/// The smallest box containing two boxes.
pub fn surrounding_box(box0: &AABB, box1: &AABB) -> (r: AABB)
    ensures
        r == box_union(*box0, *box1),
        contains(r, *box0),
        contains(r, *box1),
        aabb_ok(*box0) && aabb_ok(*box1) ==> aabb_ok(r),
{
    let min = Vec3 {
        x: if box0.min.x <= box1.min.x { box0.min.x } else { box1.min.x },
        y: if box0.min.y <= box1.min.y { box0.min.y } else { box1.min.y },
        z: if box0.min.z <= box1.min.z { box0.min.z } else { box1.min.z },
    };
    let max = Vec3 {
        x: if box0.max.x >= box1.max.x { box0.max.x } else { box1.max.x },
        y: if box0.max.y >= box1.max.y { box0.max.y } else { box1.max.y },
        z: if box0.max.z >= box1.max.z { box0.max.z } else { box1.max.z },
    };
    AABB { min, max }
}

/// Fraction comparison by cross-multiplication.
fn ffle(an: i64, ad: i64, bn: i64, bd: i64) -> (r: bool)
    requires
        ad > 0,
        bd > 0,
    ensures
        r == fle(an as int, ad as int, bn as int, bd as int),
{
    proof {
        lemma_prod_i64(an, bd);
        lemma_prod_i64(bn, ad);
    }
    (an as i128) * (bd as i128) <= (bn as i128) * (ad as i128)
}

pub proof fn lemma_fle_trans(an: int, ad: int, bn: int, bd: int, cn: int, cd: int)
    requires
        ad > 0,
        bd > 0,
        cd > 0,
        fle(an, ad, bn, bd),
        fle(bn, bd, cn, cd),
    ensures
        fle(an, ad, cn, cd),
{
    assert(an * cd <= cn * ad) by (nonlinear_arith)
        requires
            an * bd <= bn * ad,
            bn * cd <= cn * bd,
            ad > 0,
            bd > 0,
            cd > 0,
    ;
}

/// Fraction bounds by the entry and exit fractions of an axis are the same
/// as the axis slab condition, for a non-degenerate axis.
proof fn lemma_axis_iff(mn: int, o: int, d: int, mx: int, en: int, ed: int, xn: int, xd: int, tn: int, td: int)
    requires
        d != 0,
        td > 0,
        d > 0 ==> en == mn - o && ed == d && xn == mx - o && xd == d,
        d < 0 ==> en == o - mx && ed == -d && xn == o - mn && xd == -d,
    ensures
        axis_between(mn, o, d, mx, tn, td) <==> (fle(en, ed, tn, td) && fle(tn, td, xn, xd)),
{
    if d > 0 {
        assert((mn * td <= o * td + tn * d && o * td + tn * d <= mx * td)
            <==> ((mn - o) * td <= tn * d && tn * d <= (mx - o) * td)) by (nonlinear_arith);
    } else {
        assert((mn * td <= o * td + tn * d && o * td + tn * d <= mx * td)
            <==> ((o - mx) * td <= tn * (-d) && tn * (-d) <= (o - mn) * td)) by (nonlinear_arith);
    }
}

/// On an axis with zero direction, the slab condition forces the origin
/// inside the slab.
proof fn lemma_axis_zero(mn: int, o: int, mx: int, tn: int, td: int)
    requires
        td > 0,
        axis_between(mn, o, 0, mx, tn, td),
    ensures
        mn <= o <= mx,
{
    assert(mn <= o <= mx) by (nonlinear_arith)
        requires
            mn * td <= o * td + tn * 0,
            o * td + tn * 0 <= mx * td,
            td > 0,
    ;
}

/// And conversely, an origin inside the slab satisfies the condition at
/// every parameter.
proof fn lemma_axis_zero_conv(mn: int, o: int, mx: int, tn: int, td: int)
    requires
        td > 0,
        mn <= o <= mx,
    ensures
        axis_between(mn, o, 0, mx, tn, td),
{
    assert(mn * td <= o * td + tn * 0 && o * td + tn * 0 <= mx * td) by (nonlinear_arith)
        requires td > 0, mn <= o <= mx,
    ;
}

/// A box that contains a hit box is hit over the same interval.
pub proof fn lemma_slab_contains(outer: AABB, inner: AABB, r: Ray, t0: int, t1: int)
    requires
        contains(outer, inner),
        slab_hit(inner, r, t0, t1),
    ensures
        slab_hit(outer, r, t0, t1),
{
    let (tn, td) = choose|tn: int, td: int|
        td > 0 && t0 * td <= SCALE as int * tn && SCALE as int * tn <= t1 * td
            && #[trigger] axis_between(inner.min.x as int, r.origin.x as int, r.direction.x as int, inner.max.x as int, tn, td)
            && axis_between(inner.min.y as int, r.origin.y as int, r.direction.y as int, inner.max.y as int, tn, td)
            && axis_between(inner.min.z as int, r.origin.z as int, r.direction.z as int, inner.max.z as int, tn, td);
    assert(axis_between(outer.min.x as int, r.origin.x as int, r.direction.x as int, outer.max.x as int, tn, td)) by (nonlinear_arith)
        requires
            td > 0,
            outer.min.x <= inner.min.x,
            inner.max.x <= outer.max.x,
            axis_between(inner.min.x as int, r.origin.x as int, r.direction.x as int, inner.max.x as int, tn, td),
    ;
    assert(axis_between(outer.min.y as int, r.origin.y as int, r.direction.y as int, outer.max.y as int, tn, td)) by (nonlinear_arith)
        requires
            td > 0,
            outer.min.y <= inner.min.y,
            inner.max.y <= outer.max.y,
            axis_between(inner.min.y as int, r.origin.y as int, r.direction.y as int, inner.max.y as int, tn, td),
    ;
    assert(axis_between(outer.min.z as int, r.origin.z as int, r.direction.z as int, outer.max.z as int, tn, td)) by (nonlinear_arith)
        requires
            td > 0,
            outer.min.z <= inner.min.z,
            inner.max.z <= outer.max.z,
            axis_between(inner.min.z as int, r.origin.z as int, r.direction.z as int, inner.max.z as int, tn, td),
    ;
}

/// A ray whose (exactly scaled) point at parameter `t` lies inside the box
/// hits the box over any interval containing `t`.  The scaled coordinates
/// avoid naming the rounded point: the hypothesis is
/// `min*SCALE <= origin*SCALE + t*dir <= max*SCALE` per axis.
pub proof fn lemma_slab_witness(b: AABB, r: Ray, t: int, t0: int, t1: int)
    requires
        t0 <= t <= t1,
        b.min.x * SCALE as int <= r.origin.x * SCALE as int + t * r.direction.x,
        r.origin.x * SCALE as int + t * r.direction.x <= b.max.x * SCALE as int,
        b.min.y * SCALE as int <= r.origin.y * SCALE as int + t * r.direction.y,
        r.origin.y * SCALE as int + t * r.direction.y <= b.max.y * SCALE as int,
        b.min.z * SCALE as int <= r.origin.z * SCALE as int + t * r.direction.z,
        r.origin.z * SCALE as int + t * r.direction.z <= b.max.z * SCALE as int,
    ensures
        slab_hit(b, r, t0, t1),
{
    assert(axis_between(b.min.x as int, r.origin.x as int, r.direction.x as int, b.max.x as int, t, SCALE as int));
    assert(axis_between(b.min.y as int, r.origin.y as int, r.direction.y as int, b.max.y as int, t, SCALE as int));
    assert(axis_between(b.min.z as int, r.origin.z as int, r.direction.z as int, b.max.z as int, t, SCALE as int));
    assert(t0 * SCALE as int <= SCALE as int * t) by (nonlinear_arith)
        requires t0 <= t,
    ;
    assert(SCALE as int * t <= t1 * SCALE as int) by (nonlinear_arith)
        requires t <= t1,
    ;
}

impl AABB {
    pub fn new(min: Vec3, max: Vec3) -> (r: AABB)
        ensures
            r == (AABB { min, max }),
    {
        AABB { min, max }
    }

    /// The slab test: true exactly when some parameter in
    /// `[t_min, t_max]` puts the ray inside the box on every axis.
    pub fn hit(&self, ray: &Ray, t_min: i64, t_max: i64) -> (res: bool)
        requires
            aabb_ok(*self),
            vec_ok(ray.origin),
            vec_ok(ray.direction),
            fx_ok(t_min),
            fx_ok(t_max),
        ensures
            res == slab_hit(*self, *ray, t_min as int, t_max as int),
    {
        let o = ray.origin;
        let d = ray.direction;
        let mn = self.min;
        let mx = self.max;
        // Degenerate axes: the origin must lie inside the slab.
        if d.x == 0 && (o.x < mn.x || o.x > mx.x) {
            proof {
                assert(!slab_hit(*self, *ray, t_min as int, t_max as int)) by {
                    if slab_hit(*self, *ray, t_min as int, t_max as int) {
                        let (tn, td) = choose|tn: int, td: int|
                            td > 0 && t_min as int * td <= SCALE as int * tn
                                && SCALE as int * tn <= t_max as int * td
                                && #[trigger] axis_between(mn.x as int, o.x as int, d.x as int, mx.x as int, tn, td)
                                && axis_between(mn.y as int, o.y as int, d.y as int, mx.y as int, tn, td)
                                && axis_between(mn.z as int, o.z as int, d.z as int, mx.z as int, tn, td);
                        lemma_axis_zero(mn.x as int, o.x as int, mx.x as int, tn, td);
                    }
                };
            }
            return false;
        }
        if d.y == 0 && (o.y < mn.y || o.y > mx.y) {
            proof {
                assert(!slab_hit(*self, *ray, t_min as int, t_max as int)) by {
                    if slab_hit(*self, *ray, t_min as int, t_max as int) {
                        let (tn, td) = choose|tn: int, td: int|
                            td > 0 && t_min as int * td <= SCALE as int * tn
                                && SCALE as int * tn <= t_max as int * td
                                && #[trigger] axis_between(mn.x as int, o.x as int, d.x as int, mx.x as int, tn, td)
                                && axis_between(mn.y as int, o.y as int, d.y as int, mx.y as int, tn, td)
                                && axis_between(mn.z as int, o.z as int, d.z as int, mx.z as int, tn, td);
                        lemma_axis_zero(mn.y as int, o.y as int, mx.y as int, tn, td);
                    }
                };
            }
            return false;
        }
        if d.z == 0 && (o.z < mn.z || o.z > mx.z) {
            proof {
                assert(!slab_hit(*self, *ray, t_min as int, t_max as int)) by {
                    if slab_hit(*self, *ray, t_min as int, t_max as int) {
                        let (tn, td) = choose|tn: int, td: int|
                            td > 0 && t_min as int * td <= SCALE as int * tn
                                && SCALE as int * tn <= t_max as int * td
                                && #[trigger] axis_between(mn.x as int, o.x as int, d.x as int, mx.x as int, tn, td)
                                && axis_between(mn.y as int, o.y as int, d.y as int, mx.y as int, tn, td)
                                && axis_between(mn.z as int, o.z as int, d.z as int, mx.z as int, tn, td);
                        lemma_axis_zero(mn.z as int, o.z as int, mx.z as int, tn, td);
                    }
                };
            }
            return false;
        }
        // Entry and exit fractions per non-degenerate axis, denominators positive.
        let (exn, exd, xxn, xxd): (i64, i64, i64, i64) = if d.x > 0 {
            (mn.x - o.x, d.x, mx.x - o.x, d.x)
        } else {
            (o.x - mx.x, -d.x, o.x - mn.x, -d.x)
        };
        let (eyn, eyd, xyn, xyd): (i64, i64, i64, i64) = if d.y > 0 {
            (mn.y - o.y, d.y, mx.y - o.y, d.y)
        } else {
            (o.y - mx.y, -d.y, o.y - mn.y, -d.y)
        };
        let (ezn, ezd, xzn, xzd): (i64, i64, i64, i64) = if d.z > 0 {
            (mn.z - o.z, d.z, mx.z - o.z, d.z)
        } else {
            (o.z - mx.z, -d.z, o.z - mn.z, -d.z)
        };
        // Running maximum of the lower fractions, then running minimum of
        // the upper fractions; facts about both are carried along inline.
        let ghost t0 = t_min as int;
        let ghost t1 = t_max as int;
        let ghost s = SCALE as int;
        let mut ln: i64 = t_min;
        let mut ld: i64 = SCALE;
        if d.x != 0 {
            if ffle(ln, ld, exn, exd) {
                ln = exn;
                ld = exd;
            }
            assert(fle(t0, s, ln as int, ld as int));
            assert(fle(exn as int, exd as int, ln as int, ld as int));
        }
        if d.y != 0 {
            if ffle(ln, ld, eyn, eyd) {
                proof {
                    lemma_fle_trans(t0, s, ln as int, ld as int, eyn as int, eyd as int);
                    if d.x != 0 {
                        lemma_fle_trans(exn as int, exd as int, ln as int, ld as int, eyn as int, eyd as int);
                    }
                }
                ln = eyn;
                ld = eyd;
            }
            assert(fle(t0, s, ln as int, ld as int));
            assert(fle(eyn as int, eyd as int, ln as int, ld as int));
            assert(d.x != 0 ==> fle(exn as int, exd as int, ln as int, ld as int));
        }
        if d.z != 0 {
            if ffle(ln, ld, ezn, ezd) {
                proof {
                    lemma_fle_trans(t0, s, ln as int, ld as int, ezn as int, ezd as int);
                    if d.x != 0 {
                        lemma_fle_trans(exn as int, exd as int, ln as int, ld as int, ezn as int, ezd as int);
                    }
                    if d.y != 0 {
                        lemma_fle_trans(eyn as int, eyd as int, ln as int, ld as int, ezn as int, ezd as int);
                    }
                }
                ln = ezn;
                ld = ezd;
            }
            assert(fle(t0, s, ln as int, ld as int));
            assert(fle(ezn as int, ezd as int, ln as int, ld as int));
            assert(d.x != 0 ==> fle(exn as int, exd as int, ln as int, ld as int));
            assert(d.y != 0 ==> fle(eyn as int, eyd as int, ln as int, ld as int));
        }
        assert((ln == t_min && ld == SCALE)
            || (d.x != 0 && ln == exn && ld == exd)
            || (d.y != 0 && ln == eyn && ld == eyd)
            || (d.z != 0 && ln == ezn && ld == ezd));
        let mut un: i64 = t_max;
        let mut ud: i64 = SCALE;
        if d.x != 0 {
            if ffle(xxn, xxd, un, ud) {
                un = xxn;
                ud = xxd;
            }
            assert(fle(un as int, ud as int, t1, s));
            assert(fle(un as int, ud as int, xxn as int, xxd as int));
        }
        if d.y != 0 {
            if ffle(xyn, xyd, un, ud) {
                proof {
                    lemma_fle_trans(xyn as int, xyd as int, un as int, ud as int, t1, s);
                    if d.x != 0 {
                        lemma_fle_trans(xyn as int, xyd as int, un as int, ud as int, xxn as int, xxd as int);
                    }
                }
                un = xyn;
                ud = xyd;
            }
            assert(fle(un as int, ud as int, t1, s));
            assert(fle(un as int, ud as int, xyn as int, xyd as int));
            assert(d.x != 0 ==> fle(un as int, ud as int, xxn as int, xxd as int));
        }
        if d.z != 0 {
            if ffle(xzn, xzd, un, ud) {
                proof {
                    lemma_fle_trans(xzn as int, xzd as int, un as int, ud as int, t1, s);
                    if d.x != 0 {
                        lemma_fle_trans(xzn as int, xzd as int, un as int, ud as int, xxn as int, xxd as int);
                    }
                    if d.y != 0 {
                        lemma_fle_trans(xzn as int, xzd as int, un as int, ud as int, xyn as int, xyd as int);
                    }
                }
                un = xzn;
                ud = xzd;
            }
            assert(fle(un as int, ud as int, t1, s));
            assert(fle(un as int, ud as int, xzn as int, xzd as int));
            assert(d.x != 0 ==> fle(un as int, ud as int, xxn as int, xxd as int));
            assert(d.y != 0 ==> fle(un as int, ud as int, xyn as int, xyd as int));
        }
        assert((un == t_max && ud == SCALE)
            || (d.x != 0 && un == xxn && ud == xxd)
            || (d.y != 0 && un == xyn && ud == xyd)
            || (d.z != 0 && un == xzn && ud == xzd));
        let res = ffle(ln, ld, un, ud);
        proof {
            if res {
                // The maximum lower fraction is a witness parameter: it is
                // above every lower fraction and, through the minimum upper
                // fraction, below every upper fraction.
                lemma_fle_trans(ln as int, ld as int, un as int, ud as int, t1, s);
                if d.x != 0 {
                    lemma_fle_trans(ln as int, ld as int, un as int, ud as int, xxn as int, xxd as int);
                    lemma_axis_iff(mn.x as int, o.x as int, d.x as int, mx.x as int, exn as int, exd as int,
                        xxn as int, xxd as int, ln as int, ld as int);
                } else {
                    lemma_axis_zero_conv(mn.x as int, o.x as int, mx.x as int, ln as int, ld as int);
                }
                if d.y != 0 {
                    lemma_fle_trans(ln as int, ld as int, un as int, ud as int, xyn as int, xyd as int);
                    lemma_axis_iff(mn.y as int, o.y as int, d.y as int, mx.y as int, eyn as int, eyd as int,
                        xyn as int, xyd as int, ln as int, ld as int);
                } else {
                    lemma_axis_zero_conv(mn.y as int, o.y as int, mx.y as int, ln as int, ld as int);
                }
                if d.z != 0 {
                    lemma_fle_trans(ln as int, ld as int, un as int, ud as int, xzn as int, xzd as int);
                    lemma_axis_iff(mn.z as int, o.z as int, d.z as int, mx.z as int, ezn as int, ezd as int,
                        xzn as int, xzd as int, ln as int, ld as int);
                } else {
                    lemma_axis_zero_conv(mn.z as int, o.z as int, mx.z as int, ln as int, ld as int);
                }
                assert(t0 * ld <= s * ln) by (nonlinear_arith)
                    requires fle(t0, s, ln as int, ld as int), s == 65536,
                ;
                assert(s * ln <= t1 * ld) by (nonlinear_arith)
                    requires fle(ln as int, ld as int, t1, s), s == 65536,
                ;
                assert(slab_hit(*self, *ray, t0, t1));
            } else {
                assert(!slab_hit(*self, *ray, t0, t1)) by {
                    if slab_hit(*self, *ray, t0, t1) {
                        let (tn, td) = choose|tn: int, td: int|
                            td > 0 && t0 * td <= s * tn && s * tn <= t1 * td
                                && #[trigger] axis_between(mn.x as int, o.x as int, d.x as int, mx.x as int, tn, td)
                                && axis_between(mn.y as int, o.y as int, d.y as int, mx.y as int, tn, td)
                                && axis_between(mn.z as int, o.z as int, d.z as int, mx.z as int, tn, td);
                        assert(fle(t0, s, tn, td)) by (nonlinear_arith)
                            requires t0 * td <= s * tn, td > 0, s == 65536,
                        ;
                        assert(fle(tn, td, t1, s)) by (nonlinear_arith)
                            requires s * tn <= t1 * td, td > 0, s == 65536,
                        ;
                        if d.x != 0 {
                            lemma_axis_iff(mn.x as int, o.x as int, d.x as int, mx.x as int, exn as int,
                                exd as int, xxn as int, xxd as int, tn, td);
                        }
                        if d.y != 0 {
                            lemma_axis_iff(mn.y as int, o.y as int, d.y as int, mx.y as int, eyn as int,
                                eyd as int, xyn as int, xyd as int, tn, td);
                        }
                        if d.z != 0 {
                            lemma_axis_iff(mn.z as int, o.z as int, d.z as int, mx.z as int, ezn as int,
                                ezd as int, xzn as int, xzd as int, tn, td);
                        }
                        // The witness dominates the max lower fraction (which
                        // is one of them) and is dominated by the min upper
                        // fraction, so the final comparison was true.
                        assert(fle(ln as int, ld as int, tn, td));
                        assert(fle(tn, td, un as int, ud as int));
                        lemma_fle_trans(ln as int, ld as int, tn, td, un as int, ud as int);
                    }
                };
            }
        }
        res
    }
}

} // verus!
