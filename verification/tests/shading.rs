//! Spheres, materials and textures.

use raytrace::num::SCALE;
use raytrace::vec3::Vec3;
use raytrace::ray::Ray;
use raytrace::shape::{Sphere, HitRecord};
use raytrace::texture::{Texture, ColorTexture, checker_texture};
use raytrace::material::{Material, Lambertian, Metal, Dielectric, Emissive, ScatterInfo};
use raytrace::scatter::refract;
use raytrace::rng::Rng;

fn v(x: i64, y: i64, z: i64) -> Vec3 {
    Vec3 { x: x * SCALE, y: y * SCALE, z: z * SCALE }
}

fn gray() -> Material {
    Material::Lambertian(Lambertian {
        albedo: Texture::Color(ColorTexture { color: Vec3 { x: SCALE / 2, y: SCALE / 2, z: SCALE / 2 } }),
    })
}

#[test]
fn sphere_head_on_hit_at_distance_minus_radius() {
    let s = Sphere { center: v(0, 0, -5), radius: SCALE, mat: gray() };
    let r = Ray { origin: v(0, 0, 0), direction: v(0, 0, -1) };
    let h = s.hit(&r, 1, 100 * SCALE).expect("head-on ray must hit");
    assert_eq!(h.t, 4 * SCALE);
    assert_eq!((h.p.x, h.p.y, h.p.z), (0, 0, -4 * SCALE));
    // Outward unit normal points back along the ray.
    assert_eq!((h.n.x, h.n.y, h.n.z), (0, 0, SCALE));
}

#[test]
fn sphere_missed_when_closest_approach_exceeds_radius() {
    let s = Sphere { center: v(0, 0, -5), radius: SCALE, mat: gray() };
    let r = Ray { origin: v(3, 0, 0), direction: v(0, 0, -1) };
    assert!(s.hit(&r, 1, 100 * SCALE).is_none());
}

#[test]
fn sphere_from_inside_returns_exit_point() {
    let s = Sphere { center: v(0, 0, -5), radius: SCALE, mat: gray() };
    let r = Ray { origin: v(0, 0, -5), direction: v(0, 0, -1) };
    let h = s.hit(&r, 1, 100 * SCALE).expect("interior ray must exit");
    assert_eq!(h.t, SCALE);
    assert_eq!((h.p.x, h.p.y, h.p.z), (0, 0, -6 * SCALE));
}

#[test]
fn zero_direction_ray_hits_nothing() {
    let s = Sphere { center: v(0, 0, -5), radius: SCALE, mat: gray() };
    let r = Ray { origin: v(0, 0, 0), direction: Vec3 { x: 0, y: 0, z: 0 } };
    assert!(s.hit(&r, 1, 100 * SCALE).is_none());
}

#[test]
fn schlick_at_normal_incidence() {
    // cos = 1 kills the fifth-power term, leaving r0 exactly.
    assert_eq!(Dielectric::schlick(SCALE, 2 * SCALE), 7282);
    assert_eq!(Dielectric::schlick(SCALE, SCALE), 0);
}

#[test]
fn refract_with_equal_indices_goes_straight_through() {
    let u = Vec3 { x: 0, y: 0, z: -SCALE };
    let n = Vec3 { x: 0, y: 0, z: SCALE };
    assert_eq!(refract(&u, &n, SCALE), Some(u));
    let slanted = Vec3 { x: 30000, y: -20000, z: -50000 };
    assert_eq!(refract(&slanted, &n, SCALE), Some(slanted));
}

#[test]
fn dielectric_unit_ratio_scatters_unbent() {
    let d = Dielectric { ri: SCALE };
    let hit = HitRecord {
        t: SCALE,
        p: v(0, 0, -1),
        n: Vec3 { x: 0, y: 0, z: SCALE },
        u: 0,
        v: 0,
        mat: Material::Dielectric(Dielectric { ri: SCALE }),
    };
    let ray = Ray { origin: v(0, 0, 0), direction: v(0, 0, -1) };
    let mut rng = Rng::seed(7);
    // At equal indices the reflection probability is zero: every draw refracts.
    let sc: ScatterInfo = d.scatter(&ray, &hit, &mut rng).expect("dielectric always scatters");
    assert_eq!((sc.ray.direction.x, sc.ray.direction.y, sc.ray.direction.z), (0, 0, -SCALE));
    assert_eq!((sc.albedo.x, sc.albedo.y, sc.albedo.z), (SCALE, SCALE, SCALE));
}

#[test]
fn dielectric_unit_ratio_never_reflects_obliquely() {
    // A 45-degree entering ray with ratio one must pass straight through for
    // every draw, even though the Schlick polynomial alone would not vanish
    // away from normal incidence.
    let d = Dielectric { ri: SCALE };
    let hit = HitRecord {
        t: SCALE,
        p: v(0, 0, -1),
        n: Vec3 { x: 0, y: 0, z: SCALE },
        u: 0,
        v: 0,
        mat: Material::Dielectric(Dielectric { ri: SCALE }),
    };
    let dir = Vec3 { x: SCALE, y: 0, z: -SCALE };
    let ray = Ray { origin: v(0, 0, 0), direction: dir };
    let unit = dir.norm();
    for seed in 0..64u64 {
        let mut rng = Rng::seed(seed);
        let sc = d.scatter(&ray, &hit, &mut rng).expect("dielectric always scatters");
        assert_eq!(
            (sc.ray.direction.x, sc.ray.direction.y, sc.ray.direction.z),
            (unit.x, unit.y, unit.z),
            "ratio-one interface must transmit with no bend"
        );
    }
}

#[test]
fn lambertian_bounces_into_the_normal_hemisphere() {
    let l = Lambertian {
        albedo: Texture::Color(ColorTexture { color: Vec3 { x: SCALE / 4, y: SCALE / 2, z: SCALE } }),
    };
    let hit = HitRecord {
        t: SCALE,
        p: v(0, 1, 0),
        n: Vec3 { x: 0, y: SCALE, z: 0 },
        u: 0,
        v: 0,
        mat: gray(),
    };
    let mut rng = Rng::seed(99);
    for _ in 0..32 {
        let sc = l.scatter(&hit, &mut rng).expect("lambertian always scatters");
        let d = sc.ray.direction;
        // normal plus an in-ball sample: bounded and never opposite the normal.
        assert!(d.x.abs() <= 2 * SCALE && d.y.abs() <= 2 * SCALE && d.z.abs() <= 2 * SCALE);
        assert!(d.y >= SCALE / 2);
        assert_eq!(sc.albedo.x, SCALE / 4);
    }
}

#[test]
fn metal_absorbs_grazing_reflections() {
    let m = Metal {
        albedo: Texture::Color(ColorTexture { color: Vec3 { x: SCALE, y: SCALE, z: SCALE } }),
        fuzz: 0,
    };
    let hit = HitRecord {
        t: SCALE,
        p: v(0, 0, 0),
        n: Vec3 { x: 0, y: SCALE, z: 0 },
        u: 0,
        v: 0,
        mat: gray(),
    };
    let mut rng = Rng::seed(1);
    // Falling straight down, the mirror reflection goes straight up.
    let down = Ray { origin: v(0, 1, 0), direction: v(0, -1, 0) };
    let sc = m.scatter(&down, &hit, &mut rng).expect("mirror reflects");
    assert!(sc.ray.direction.y > 0);
}

#[test]
fn emissive_glows_and_absorbs() {
    let e = Material::Emissive(Emissive { color: Vec3 { x: 2 * SCALE, y: SCALE, z: 0 } });
    let hit = HitRecord {
        t: SCALE,
        p: v(0, 0, 0),
        n: Vec3 { x: 0, y: SCALE, z: 0 },
        u: 0,
        v: 0,
        mat: gray(),
    };
    let ray = Ray { origin: v(0, 1, 0), direction: v(0, -1, 0) };
    let mut rng = Rng::seed(5);
    assert!(e.scatter(&ray, &hit, &mut rng).is_none());
    let g = e.emitted();
    assert_eq!((g.x, g.y, g.z), (2 * SCALE, SCALE, 0));
    assert_eq!(gray().emitted(), Vec3 { x: 0, y: 0, z: 0 });
}

#[test]
fn checker_alternates_cells() {
    let odd = Vec3 { x: SCALE, y: 0, z: 0 };
    let even = Vec3 { x: 0, y: SCALE, z: 0 };
    let tex = checker_texture(
        Box::new(Texture::Color(ColorTexture { color: odd })),
        Box::new(Texture::Color(ColorTexture { color: even })),
        SCALE,
    );
    // At the origin every half-period count is zero: the even cell.
    assert_eq!(tex.value(0, 0, Vec3 { x: 0, y: 0, z: 0 }), even);
    // One coordinate past pi flips a single count: the odd cell.
    assert_eq!(tex.value(0, 0, v(4, 0, 0)), odd);
    // Two flipped coordinates land even again.
    assert_eq!(tex.value(0, 0, v(4, 4, 0)), even);
}
