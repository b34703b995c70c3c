//! The hierarchy against the linear scan, the camera, and whole renders.

use raytrace::num::SCALE;
use raytrace::vec3::Vec3;
use raytrace::ray::Ray;
use raytrace::shape::Sphere;
use raytrace::texture::{Texture, ColorTexture};
use raytrace::material::{Material, Lambertian};
use raytrace::bvh::BVH;
use raytrace::scene::{ShapeList, Hittable};
use raytrace::camera::Camera;
use raytrace::render::{ray_color, render, render_pixel};
use raytrace::rng::Rng;

fn v(x: i64, y: i64, z: i64) -> Vec3 {
    Vec3 { x: x * SCALE, y: y * SCALE, z: z * SCALE }
}

fn matte(r: i64, g: i64, b: i64) -> Material {
    Material::Lambertian(Lambertian {
        albedo: Texture::Color(ColorTexture { color: Vec3 { x: r, y: g, z: b } }),
    })
}

/// A deterministic cloud of spheres; the same call gives the same spheres.
fn sphere_cloud(n: u64) -> Vec<Sphere> {
    let mut rng = Rng::seed(1234);
    let mut out = Vec::new();
    for _ in 0..n {
        let cx = rng.next_unit() * 8 - 4 * SCALE;
        let cy = rng.next_unit() * 8 - 4 * SCALE;
        let cz = -rng.next_unit() * 8 - 2 * SCALE;
        let r = rng.next_unit() / 2 + SCALE / 8;
        out.push(Sphere { center: Vec3 { x: cx, y: cy, z: cz }, radius: r, mat: matte(SCALE / 2, SCALE / 2, SCALE / 2) });
    }
    out
}

#[test]
fn bvh_agrees_with_linear_scan() {
    let mut list = ShapeList::new();
    for s in sphere_cloud(24) {
        list.push(Hittable::Sphere(s));
    }
    let mut tree_list = ShapeList::new();
    tree_list.push(Hittable::Tree(BVH::new(sphere_cloud(24))));

    let mut rng = Rng::seed(77);
    for _ in 0..200 {
        let o = Vec3 {
            x: rng.next_unit() * 4 - 2 * SCALE,
            y: rng.next_unit() * 4 - 2 * SCALE,
            z: rng.next_unit(),
        };
        let d = Vec3 {
            x: rng.next_unit() - SCALE / 2,
            y: rng.next_unit() - SCALE / 2,
            z: -rng.next_unit() - SCALE / 4,
        };
        let ray = Ray { origin: o, direction: d };
        let a = list.hit(&ray, 1, 200 * SCALE);
        let b = tree_list.hit(&ray, 1, 200 * SCALE);
        match (a, b) {
            (None, None) => {}
            (Some(ha), Some(hb)) => assert_eq!(ha.t, hb.t, "nearest parameter must agree"),
            (x, y) => panic!("hit disagreement: {:?} vs {:?}", x.map(|h| h.t), y.map(|h| h.t)),
        }
    }
}

fn test_camera() -> Camera {
    Camera::new(
        v(0, 0, 1),
        v(0, 0, -1),
        v(0, 1, 0),
        60 * SCALE,
        2 * SCALE,
        0,
        SCALE,
    )
}

#[test]
fn camera_with_closed_aperture_shoots_from_origin() {
    let cam = test_camera();
    let mut rng = Rng::seed(3);
    let r = cam.get_ray(SCALE / 2, SCALE / 2, &mut rng);
    assert_eq!((r.origin.x, r.origin.y, r.origin.z), (0, 0, SCALE));
    // The center ray looks down the view axis.
    assert!(r.direction.z < 0);
    assert!(r.direction.x.abs() < SCALE / 8 && r.direction.y.abs() < SCALE / 8);
}

fn one_sphere_scene() -> ShapeList {
    let mut list = ShapeList::new();
    list.push(Hittable::Sphere(Sphere {
        center: v(0, 0, -2),
        radius: SCALE / 2,
        mat: matte(SCALE / 2, SCALE / 2, SCALE / 2),
    }));
    list
}

#[test]
fn ray_color_depth_zero_is_black() {
    let scene = one_sphere_scene();
    let bg = Vec3 { x: 45875, y: 52428, z: 65536 };
    let ray = Ray { origin: v(0, 0, 0), direction: v(0, 0, -1) };
    let mut rng = Rng::seed(11);
    let c = ray_color(&ray, &scene, 0, bg, &mut rng);
    assert_eq!((c.x, c.y, c.z), (0, 0, 0));
}

#[test]
fn background_shows_where_nothing_is_hit() {
    let scene = one_sphere_scene();
    let bg = Vec3 { x: 45875, y: 52428, z: 65536 };
    let cam = test_camera();
    let w = 64usize;
    let h = 36usize;
    let img = render(&scene, &cam, w, h, 1, 8, bg, 42);
    assert_eq!(img.len(), w * h);
    // A corner pixel looks far away from the sphere: exactly the background.
    assert_eq!(img[0], bg);
    assert_eq!(img[w - 1], bg);
    // The central pixel sees the sphere and must differ from the background.
    let center = (h / 2) * w + w / 2;
    assert_ne!(img[center], bg);
}

#[test]
fn fixed_seed_renders_identically() {
    let bg = Vec3 { x: 45875, y: 52428, z: 65536 };
    let cam = test_camera();
    let a = render(&one_sphere_scene(), &cam, 16, 9, 2, 8, bg, 2024);
    let b = render(&one_sphere_scene(), &cam, 16, 9, 2, 8, bg, 2024);
    assert_eq!(a, b);
    // One pixel recomputed alone agrees with the buffer.
    let p = render_pixel(&one_sphere_scene(), &cam, 5, 3, 16, 9, 2, 8, bg, 2024);
    assert_eq!(a[3 * 16 + 5], p);
}
