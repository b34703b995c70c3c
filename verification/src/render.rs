//! The path-tracing integrator and the renderer proper.
//!
//! `ray_color` is the depth-limited recursive integrator.  The renderer
//! traces `samples_per_pixel * 4` stratified, jittered rays per pixel (a
//! fixed 2x2 sub-pixel grid) and averages them.  Every pixel owns an
//! independent generator stream derived from the base seed and the pixel
//! index, so rows can be rendered in any order — or in parallel — and a
//! fixed seed reproduces the buffer exactly.

use vstd::prelude::*;
use crate::num::{fxmul, fdiv64, SCALE, FX_BOUND, lemma_mul_bound};
use crate::vec3::{Vec3, vec_ok, lemma_div_range};
use crate::ray::Ray;
use crate::material::{Material, Lambertian, spec_emitted, EMIT_BOUND};
use crate::scatter::spec_scatter;
use crate::texture::{Texture, ColorTexture, tex_wf, lemma_tex_value_albedo};
use crate::shape::Sphere;
use crate::scatter::spec_scatter_lambertian;
use crate::scene::{ShapeList, Hittable, list_wf, spec_list_hit, spec_hittable_hit};
use crate::camera::{Camera, camera_wf, spec_get_ray};
use crate::rng::{Rng, rng_next, rand_val, spec_mix, mix};

verus! {

/// The self-intersection guard: one fixed-point quantum.
pub const T_EPS: i64 = 1;

/// The far clip of every scene query.
pub const T_FAR: i64 = FX_BOUND;

/// All components lie in `[0, m]`.
pub open spec fn color_bounded(v: Vec3, m: int) -> bool {
    0 <= v.x <= m && 0 <= v.y <= m && 0 <= v.z <= m
}

/// Mirror of `ray_color`.
pub open spec fn spec_ray_color(r: Ray, objs: Seq<Hittable>, depth: int, bg: Vec3, s: u64) -> (Vec3, u64)
    decreases depth,
{
    if depth <= 0 {
        (Vec3 { x: 0, y: 0, z: 0 }, s)
    } else {
        match spec_list_hit(objs, r, T_EPS as int, T_FAR as int) {
            None => (bg, s),
            Some(h) => {
                let em = spec_emitted(h.mat);
                let (sc, s1) = spec_scatter(h.mat, r, h, s);
                match sc {
                    None => (em, s1),
                    Some(info) => {
                        let (rec, s2) = spec_ray_color(info.ray, objs, depth - 1, bg, s1);
                        (
                            Vec3 {
                                x: (em.x + fxmul(info.albedo.x as int, rec.x as int)) as i64,
                                y: (em.y + fxmul(info.albedo.y as int, rec.y as int)) as i64,
                                z: (em.z + fxmul(info.albedo.z as int, rec.z as int)) as i64,
                            },
                            s2,
                        )
                    },
                }
            },
        }
    }
}

/// An attenuation in `[0, 1]` can only dim a bounded radiance.
proof fn lemma_attenuate(a: int, c: int, m: int)
    requires
        0 <= a <= SCALE as int,
        0 <= c <= m,
    ensures
        0 <= fxmul(a, c) <= m,
{
    lemma_mul_bound(a, c, SCALE as int, m);
    assert(a * c >= 0) by (nonlinear_arith)
        requires a >= 0, c >= 0,
    ;
    assert(SCALE as int * m == m * SCALE as int) by (nonlinear_arith);
    lemma_div_range(a * c, m, SCALE as int);
    vstd::arithmetic::div_mod::lemma_div_pos_is_pos(a * c, SCALE as int);
}

/// Radiance along a ray: emitted light plus attenuated scattered radiance,
/// cut off at the depth bound (which returns black, whatever the scene).
pub fn ray_color(r: &Ray, world: &ShapeList, depth: i64, background: Vec3, rng: &mut Rng) -> (res: Vec3)
    requires
        list_wf(*world),
        vec_ok(r.origin),
        vec_ok(r.direction),
        0 <= depth <= 64,
        color_bounded(background, EMIT_BOUND as int),
    ensures
        (res, final(rng).state) == spec_ray_color(*r, world.objects@, depth as int, background,
            old(rng).state),
        color_bounded(res, (depth + 1) * EMIT_BOUND as int),
        depth == 0 ==> res == (Vec3 { x: 0, y: 0, z: 0 }),
    decreases depth,
{
    if depth <= 0 {
        return Vec3 { x: 0, y: 0, z: 0 };
    }
    proof {
        assert((depth + 1) * EMIT_BOUND as int >= 1 * EMIT_BOUND as int) by (nonlinear_arith)
            requires depth >= 1,
        ;
        assert((depth as int) * EMIT_BOUND as int <= (depth + 1) * EMIT_BOUND as int)
            by (nonlinear_arith);
    }
    let hit = world.hit(r, T_EPS, T_FAR);
    match hit {
        None => background,
        Some(h) => {
            let em = h.mat.emitted();
            let sc = h.mat.scatter(r, &h, rng);
            match sc {
                None => em,
                Some(info) => {
                    let rec = ray_color(&info.ray, world, depth - 1, background, rng);
                    proof {
                        lemma_attenuate(info.albedo.x as int, rec.x as int,
                            (depth as int) * EMIT_BOUND as int);
                        lemma_attenuate(info.albedo.y as int, rec.y as int,
                            (depth as int) * EMIT_BOUND as int);
                        lemma_attenuate(info.albedo.z as int, rec.z as int,
                            (depth as int) * EMIT_BOUND as int);
                    }
                    Vec3 {
                        x: em.x + crate::num::mul_fx(info.albedo.x, rec.x),
                        y: em.y + crate::num::mul_fx(info.albedo.y, rec.y),
                        z: em.z + crate::num::mul_fx(info.albedo.z, rec.z),
                    }
                },
            }
        },
    }
}

/// In a scene of a single matte sphere lit only by the uniform background,
/// the radiance along any ray never exceeds the background, channel by
/// channel: the sphere emits nothing and its albedo can only dim.
proof fn lemma_one_matte_sphere_bound(
    s: Sphere, l: Lambertian, objs: Seq<Hittable>, r: Ray, depth: int, bg: Vec3, st: u64,
)
    requires
        objs =~= seq![Hittable::Sphere(s)],
        s.mat == Material::Lambertian(l),
        tex_wf(l.albedo),
        color_bounded(bg, EMIT_BOUND as int),
    ensures
        ({
            let c = spec_ray_color(r, objs, depth, bg, st).0;
            0 <= c.x <= bg.x && 0 <= c.y <= bg.y && 0 <= c.z <= bg.z
        }),
    decreases depth,
{
    if depth <= 0 {
    } else {
        assert(objs[0] == Hittable::Sphere(s));
        assert(objs.skip(1).len() == 0);
        match spec_hittable_hit(objs[0], r, T_EPS as int, T_FAR as int) {
            Some(h) => {
                assert(spec_list_hit(objs.skip(1), r, T_EPS as int, h.t as int) is None);
                assert(spec_list_hit(objs, r, T_EPS as int, T_FAR as int) == Some(h));
                // The record carries the sphere's material, which emits
                // nothing and always scatters.
                assert(h.mat == s.mat);
                let (sc, s1) = spec_scatter_lambertian(l, h, st);
                let info = sc->0;
                assert(info.albedo == crate::texture::spec_tex_value(l.albedo, h.u as int,
                    h.v as int, h.p));
                lemma_tex_value_albedo(l.albedo, h.u as int, h.v as int, h.p);
                lemma_one_matte_sphere_bound(s, l, objs, info.ray, depth - 1, bg, s1);
                let rec = spec_ray_color(info.ray, objs, depth - 1, bg, s1).0;
                lemma_attenuate(info.albedo.x as int, rec.x as int, bg.x as int);
                lemma_attenuate(info.albedo.y as int, rec.y as int, bg.y as int);
                lemma_attenuate(info.albedo.z as int, rec.z as int, bg.z as int);
            },
            None => {
                assert(spec_list_hit(objs.skip(1), r, T_EPS as int, T_FAR as int) is None);
                assert(spec_list_hit(objs, r, T_EPS as int, T_FAR as int) is None);
            },
        }
    }
}

/// An attenuation strictly below one pushes a radiance bounded by a
/// positive background strictly below that background.
proof fn lemma_attenuate_strict(a: int, c: int, m: int)
    requires
        0 <= a < SCALE as int,
        0 <= c <= m,
        1 <= m,
    ensures
        0 <= fxmul(a, c) < m,
{
    lemma_attenuate(a, c, m);
    if c == 0 {
        assert(a * 0 == 0) by (nonlinear_arith);
        vstd::arithmetic::div_mod::lemma_div_of0(SCALE as int);
    } else {
        assert(a * c <= SCALE as int * c - 1) by (nonlinear_arith)
            requires 0 <= a < SCALE as int, 1 <= c, SCALE == 65536,
        ;
        assert((SCALE as int * c - 1) / SCALE as int == c - 1) by {
            vstd::arithmetic::div_mod::lemma_fundamental_div_mod(SCALE as int * c - 1, SCALE as int);
            assert((SCALE as int * c - 1) / SCALE as int == c - 1) by (nonlinear_arith)
                requires
                    SCALE as int * c - 1 == SCALE as int * ((SCALE as int * c - 1) / SCALE as int)
                        + (SCALE as int * c - 1) % SCALE as int,
                    0 <= (SCALE as int * c - 1) % SCALE as int,
                    ((SCALE as int * c - 1) % SCALE as int) < SCALE as int,
                    SCALE == 65536,
            ;
        };
        vstd::arithmetic::div_mod::lemma_div_is_ordered(a * c, SCALE as int * c - 1, SCALE as int);
    }
}

/// In the one-matte-sphere scene, a ray that hits the sphere comes back
/// strictly dimmer than the background in any channel where the albedo is
/// below one and the background is positive — so, with the integrator's
/// contract, pixels on the sphere's silhouette differ from the uniform
/// background while rays that miss return it exactly.
pub proof fn lemma_one_matte_sphere_silhouette(
    s: Sphere, l: Lambertian, ct: ColorTexture, objs: Seq<Hittable>, r: Ray, depth: int,
    bg: Vec3, st: u64,
)
    requires
        objs =~= seq![Hittable::Sphere(s)],
        s.mat == Material::Lambertian(l),
        l.albedo == Texture::Color(ct),
        tex_wf(l.albedo),
        ct.color.x < SCALE,
        color_bounded(bg, EMIT_BOUND as int),
        1 <= bg.x,
        1 <= depth,
        spec_list_hit(objs, r, T_EPS as int, T_FAR as int) is Some,
    ensures
        spec_ray_color(r, objs, depth, bg, st).0.x < bg.x,
        spec_ray_color(r, objs, depth, bg, st).0 != bg,
{
    assert(objs[0] == Hittable::Sphere(s));
    assert(objs.skip(1).len() == 0);
    let h = spec_list_hit(objs, r, T_EPS as int, T_FAR as int)->0;
    match spec_hittable_hit(objs[0], r, T_EPS as int, T_FAR as int) {
        Some(h0) => {
            assert(spec_list_hit(objs.skip(1), r, T_EPS as int, h0.t as int) is None);
            assert(h == h0);
        },
        None => {
            assert(spec_list_hit(objs.skip(1), r, T_EPS as int, T_FAR as int) is None);
            assert(false);
        },
    }
    assert(h.mat == s.mat);
    let (sc, s1) = spec_scatter_lambertian(l, h, st);
    let info = sc->0;
    assert(info.albedo == ct.color);
    lemma_one_matte_sphere_bound(s, l, objs, info.ray, depth - 1, bg, s1);
    let rec = spec_ray_color(info.ray, objs, depth - 1, bg, s1).0;
    lemma_attenuate_strict(ct.color.x as int, rec.x as int, bg.x as int);
}

/// Mirror of one stratified sample: stratum `k` of a pixel, drawn from
/// state `s`.
pub open spec fn spec_sample(
    objs: Seq<Hittable>, cam: Camera, x: int, y: int, w: int, h: int,
    k: int, depth: int, bg: Vec3, s: u64,
) -> (Vec3, u64) {
    let sx = k % 2;
    let sy = (k / 2) % 2;
    let r1 = rand_val(s);
    let s1 = rng_next(s);
    let r2 = rand_val(s1);
    let s2 = rng_next(s1);
    let u = (x * SCALE as int + (sx * SCALE as int + r1) / 4) / w;
    let v = (y * SCALE as int + (sy * SCALE as int + r2) / 4) / h;
    let (ray, s3) = spec_get_ray(cam, u, v, s2);
    spec_ray_color(ray, objs, depth, bg, s3)
}

/// Mirror of the per-pixel accumulation of `k` samples.
pub open spec fn spec_pixel_sum(
    objs: Seq<Hittable>, cam: Camera, x: int, y: int, w: int, h: int,
    k: int, depth: int, bg: Vec3, s0: u64,
) -> (Vec3, u64)
    decreases k,
{
    if k <= 0 {
        (Vec3 { x: 0, y: 0, z: 0 }, s0)
    } else {
        let (acc, st) = spec_pixel_sum(objs, cam, x, y, w, h, k - 1, depth, bg, s0);
        let (c, st2) = spec_sample(objs, cam, x, y, w, h, k - 1, depth, bg, st);
        (
            Vec3 { x: (acc.x + c.x) as i64, y: (acc.y + c.y) as i64, z: (acc.z + c.z) as i64 },
            st2,
        )
    }
}

/// Mirror of `render_pixel`: the mean of `4 * samples` traced colors.
pub open spec fn spec_pixel(
    objs: Seq<Hittable>, cam: Camera, x: int, y: int, w: int, h: int,
    samples: int, depth: int, bg: Vec3, seed: u64,
) -> Vec3 {
    let s0 = spec_mix(seed, (y * w + x) as u64);
    let (sum, _) = spec_pixel_sum(objs, cam, x, y, w, h, 4 * samples, depth, bg, s0);
    Vec3 {
        x: ((sum.x as int) / (4 * samples)) as i64,
        y: ((sum.y as int) / (4 * samples)) as i64,
        z: ((sum.z as int) / (4 * samples)) as i64,
    }
}

/// One pixel: `samples` passes over a 2x2 stratified sub-pixel grid, each
/// ray jittered inside its stratum, averaged in linear light.
pub fn render_pixel(
    world: &ShapeList, cam: &Camera, x: usize, y: usize, w: usize, h: usize,
    samples: usize, depth: i64, background: Vec3, seed: u64,
) -> (res: Vec3)
    requires
        list_wf(*world),
        camera_wf(*cam),
        1 <= w <= 4096,
        1 <= h <= 4096,
        x < w,
        y < h,
        1 <= samples <= 1024,
        0 <= depth <= 64,
        color_bounded(background, EMIT_BOUND as int),
    ensures
        res == spec_pixel(world.objects@, *cam, x as int, y as int, w as int, h as int,
            samples as int, depth as int, background, seed),
        color_bounded(res, 65 * EMIT_BOUND as int),
{
    proof {
        assert(y * w + x <= 16777216) by (nonlinear_arith)
            requires y < h, h <= 4096, w <= 4096, x < w,
        ;
    }
    let idx: u64 = ((y * w + x) as u64);
    let mut rng = Rng::seed(mix(seed, idx));
    let ghost s0 = rng.state;
    let total: usize = 4 * samples;
    let mut sum = Vec3 { x: 0, y: 0, z: 0 };
    let mut k: usize = 0;
    while k < total
        invariant
            list_wf(*world),
            camera_wf(*cam),
            1 <= w <= 4096,
            1 <= h <= 4096,
            x < w,
            y < h,
            1 <= samples <= 1024,
            0 <= depth <= 64,
            color_bounded(background, EMIT_BOUND as int),
            total == 4 * samples,
            0 <= k <= total,
            (sum, rng.state) == spec_pixel_sum(world.objects@, *cam, x as int, y as int,
                w as int, h as int, k as int, depth as int, background, s0),
            color_bounded(sum, k as int * 65 * EMIT_BOUND as int),
        decreases total - k,
    {
        let sx: usize = k % 2;
        let sy: usize = (k / 2) % 2;
        let r1 = rng.next_unit();
        proof {
            vstd::arithmetic::div_mod::lemma_div_pos_is_pos(sx as int * SCALE as int + r1, 4);
            lemma_div_range(sx as int * SCALE as int + r1, SCALE as int, 4);
        }
        let offu = fdiv64((sx as i64) * SCALE + r1, 4);
        proof {
            lemma_screen_coord(x as int, offu as int, w as int);
        }
        let u = fdiv64((x as i64) * SCALE + offu, w as i64);
        let r2 = rng.next_unit();
        proof {
            vstd::arithmetic::div_mod::lemma_div_pos_is_pos(sy as int * SCALE as int + r2, 4);
            lemma_div_range(sy as int * SCALE as int + r2, SCALE as int, 4);
        }
        let offv = fdiv64((sy as i64) * SCALE + r2, 4);
        proof {
            lemma_screen_coord(y as int, offv as int, h as int);
        }
        let v = fdiv64((y as i64) * SCALE + offv, h as i64);
        let ray = cam.get_ray(u, v, &mut rng);
        let c = ray_color(&ray, world, depth, background, &mut rng);
        proof {
            assert((depth + 1) * EMIT_BOUND as int <= 65 * EMIT_BOUND as int) by (nonlinear_arith)
                requires 0 <= depth <= 64,
            ;
            assert((k as int + 1) * 65 * EMIT_BOUND as int
                == k as int * 65 * EMIT_BOUND as int + 65 * EMIT_BOUND as int) by (nonlinear_arith);
        }
        sum = Vec3 { x: sum.x + c.x, y: sum.y + c.y, z: sum.z + c.z };
        k = k + 1;
    }
    proof {
        assert(total as int * 65 * EMIT_BOUND as int <= 4096 * 65 * EMIT_BOUND as int)
            by (nonlinear_arith)
            requires total <= 4096,
        ;
        lemma_div_range(sum.x as int, 65 * EMIT_BOUND as int, 4 * samples as int);
        lemma_div_range(sum.y as int, 65 * EMIT_BOUND as int, 4 * samples as int);
        lemma_div_range(sum.z as int, 65 * EMIT_BOUND as int, 4 * samples as int);
        vstd::arithmetic::div_mod::lemma_div_pos_is_pos(sum.x as int, 4 * samples as int);
        vstd::arithmetic::div_mod::lemma_div_pos_is_pos(sum.y as int, 4 * samples as int);
        vstd::arithmetic::div_mod::lemma_div_pos_is_pos(sum.z as int, 4 * samples as int);
        assert(-(65 * EMIT_BOUND as int * (4 * samples as int)) <= sum.x as int
            && sum.x <= 65 * EMIT_BOUND as int * (4 * samples as int)) by (nonlinear_arith)
            requires
                0 <= sum.x <= total as int * 65 * EMIT_BOUND as int,
                total == 4 * samples,
                1 <= samples,
        ;
        assert(-(65 * EMIT_BOUND as int * (4 * samples as int)) <= sum.y as int
            && sum.y <= 65 * EMIT_BOUND as int * (4 * samples as int)) by (nonlinear_arith)
            requires
                0 <= sum.y <= total as int * 65 * EMIT_BOUND as int,
                total == 4 * samples,
                1 <= samples,
        ;
        assert(-(65 * EMIT_BOUND as int * (4 * samples as int)) <= sum.z as int
            && sum.z <= 65 * EMIT_BOUND as int * (4 * samples as int)) by (nonlinear_arith)
            requires
                0 <= sum.z <= total as int * 65 * EMIT_BOUND as int,
                total == 4 * samples,
                1 <= samples,
        ;
    }
    Vec3 {
        x: fdiv64(sum.x, 4 * (samples as i64)),
        y: fdiv64(sum.y, 4 * (samples as i64)),
        z: fdiv64(sum.z, 4 * (samples as i64)),
    }
}

/// A jittered stratum offset lands the screen coordinate inside `[0, 1]`.
proof fn lemma_screen_coord(x: int, off: int, w: int)
    requires
        0 <= x < w,
        1 <= w <= 4096,
        0 <= off <= SCALE as int,
    ensures
        0 <= (x * SCALE as int + off) / w <= SCALE as int,
        -(SCALE as int * w) <= x * SCALE as int + off <= SCALE as int * w,
{
    assert(0 <= x * SCALE as int + off && x * SCALE as int + off <= SCALE as int * w)
        by (nonlinear_arith)
        requires 0 <= x < w, 0 <= off <= SCALE as int, SCALE == 65536,
    ;
    lemma_div_range(x * SCALE as int + off, SCALE as int, w);
    vstd::arithmetic::div_mod::lemma_div_pos_is_pos(x * SCALE as int + off, w);
}

/// One image row, left to right.
pub fn render_row(
    world: &ShapeList, cam: &Camera, y: usize, w: usize, h: usize,
    samples: usize, depth: i64, background: Vec3, seed: u64,
) -> (res: Vec<Vec3>)
    requires
        list_wf(*world),
        camera_wf(*cam),
        1 <= w <= 4096,
        1 <= h <= 4096,
        y < h,
        1 <= samples <= 1024,
        0 <= depth <= 64,
        color_bounded(background, EMIT_BOUND as int),
    ensures
        res@.len() == w,
        forall|x: int| 0 <= x < w ==> res@[x] == spec_pixel(world.objects@, *cam, x, y as int,
            w as int, h as int, samples as int, depth as int, background, seed),
{
    let mut row: Vec<Vec3> = Vec::new();
    let mut x: usize = 0;
    while x < w
        invariant
            list_wf(*world),
            camera_wf(*cam),
            1 <= w <= 4096,
            1 <= h <= 4096,
            y < h,
            1 <= samples <= 1024,
            0 <= depth <= 64,
            color_bounded(background, EMIT_BOUND as int),
            0 <= x <= w,
            row@.len() == x,
            forall|i: int| 0 <= i < x ==> row@[i] == spec_pixel(world.objects@, *cam, i, y as int,
                w as int, h as int, samples as int, depth as int, background, seed),
        decreases w - x,
    {
        let p = render_pixel(world, cam, x, y, w, h, samples, depth, background, seed);
        row.push(p);
        x = x + 1;
    }
    row
}

/// The whole image, row-major with the origin at the top left.
pub fn render(
    world: &ShapeList, cam: &Camera, w: usize, h: usize,
    samples: usize, depth: i64, background: Vec3, seed: u64,
) -> (res: Vec<Vec3>)
    requires
        list_wf(*world),
        camera_wf(*cam),
        1 <= w <= 4096,
        1 <= h <= 4096,
        1 <= samples <= 1024,
        0 <= depth <= 64,
        color_bounded(background, EMIT_BOUND as int),
    ensures
        res@.len() == w * h,
        forall|x: int, y: int| 0 <= x < w && 0 <= y < h ==> #[trigger] res@[y * (w as int) + x]
            == spec_pixel(world.objects@, *cam, x, y, w as int, h as int, samples as int,
                depth as int, background, seed),
{
    let mut buf: Vec<Vec3> = Vec::new();
    let mut y: usize = 0;
    while y < h
        invariant
            list_wf(*world),
            camera_wf(*cam),
            1 <= w <= 4096,
            1 <= h <= 4096,
            1 <= samples <= 1024,
            0 <= depth <= 64,
            color_bounded(background, EMIT_BOUND as int),
            0 <= y <= h,
            buf@.len() == y * w,
            forall|x: int, yy: int| 0 <= x < w && 0 <= yy < y ==> #[trigger] buf@[yy * (w as int) + x]
                == spec_pixel(world.objects@, *cam, x, yy, w as int, h as int, samples as int,
                    depth as int, background, seed),
        decreases h - y,
    {
        let ghost before = buf@;
        let mut row = render_row(world, cam, y, w, h, samples, depth, background, seed);
        let ghost rowseq = row@;
        buf.append(&mut row);
        proof {
            assert(buf@ == before + rowseq);
            assert((y + 1) * w == y * w + w) by (nonlinear_arith);
            assert forall|x: int, yy: int| 0 <= x < w && 0 <= yy < y + 1 implies
                #[trigger] buf@[yy * (w as int) + x] == spec_pixel(world.objects@, *cam, x, yy,
                    w as int, h as int, samples as int, depth as int, background, seed) by {
                assert(0 <= yy * (w as int) + x < (yy + 1) * (w as int) <= buf@.len())
                    by (nonlinear_arith)
                    requires 0 <= x < w as int, 0 <= yy <= y as int, buf@.len() == (y as int + 1) * (w as int),
                ;
                if yy < y {
                    assert(yy * (w as int) + x < y as int * (w as int)) by (nonlinear_arith)
                        requires 0 <= x < w as int, 0 <= yy < y as int,
                    ;
                    assert(buf@[yy * (w as int) + x] == before[yy * (w as int) + x]);
                } else {
                    assert(yy * (w as int) + x - before.len() == x) by (nonlinear_arith)
                        requires yy == y as int, before.len() == y as int * (w as int),
                    ;
                    assert(buf@[yy * (w as int) + x] == rowseq[x]);
                }
            }
        }
        y = y + 1;
    }
    proof {
        assert(h as int * (w as int) == (w as int) * (h as int)) by (nonlinear_arith);
    }
    buf
}

/// Re-running the renderer on an identical scene, camera, parameters and
/// seed yields a byte-identical pixel buffer: any two buffers that satisfy
/// `render`'s contract for the same inputs are equal.
pub proof fn lemma_render_deterministic(
    b1: Seq<Vec3>, b2: Seq<Vec3>, objs: Seq<Hittable>, cam: Camera,
    w: int, h: int, samples: int, depth: int, bg: Vec3, seed: u64,
)
    requires
        1 <= w,
        1 <= h,
        b1.len() == w * h,
        b2.len() == w * h,
        forall|x: int, y: int| 0 <= x < w && 0 <= y < h ==> #[trigger] b1[y * w + x]
            == spec_pixel(objs, cam, x, y, w, h, samples, depth, bg, seed),
        forall|x: int, y: int| 0 <= x < w && 0 <= y < h ==> #[trigger] b2[y * w + x]
            == spec_pixel(objs, cam, x, y, w, h, samples, depth, bg, seed),
    ensures
        b1 == b2,
{
    assert forall|i: int| 0 <= i < b1.len() implies b1[i] == b2[i] by {
        let y = i / w;
        let x = i % w;
        vstd::arithmetic::div_mod::lemma_fundamental_div_mod(i, w);
        assert(0 <= x < w);
        assert(0 <= y < h) by (nonlinear_arith)
            requires i == w * y + x, 0 <= i < w * h, 0 <= x < w, w >= 1,
        ;
        assert(y * w + x == i) by (nonlinear_arith)
            requires i == w * y + x,
        ;
        assert(b1[y * w + x] == b2[y * w + x]);
    }
    assert(b1 =~= b2);
}

} // verus!
