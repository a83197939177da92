//! The per-ray color rule: normal-based shading on a hit, the vertical sky
//! gradient otherwise, each channel quantized by the truncating
//! `x * 255.999` rule.

use raytracer::hittable::{HittableList, Object};
use raytracer::num::SCALE;
use raytracer::ray::Ray;
use raytracer::shapes::Sphere;
use raytracer::vec3::Vec3;

#[test]
fn sky_is_white_at_bottom() {
    // A ray pointing straight down has unit-direction y = -1, so the blend
    // parameter is 0 and the gradient yields pure white.
    let world = HittableList::new();
    let r = Ray::new(Vec3::new(0, 0, 0), Vec3::new(0, -SCALE, 0));
    let c = r.color(&world);
    assert_eq!((c.x, c.y, c.z), (255, 255, 255));
}

#[test]
fn sky_is_blue_at_top() {
    // A ray pointing straight up has unit-direction y = 1, so the blend
    // parameter is 1 and the gradient yields the sky color (0.5, 0.7, 1.0)
    // quantized by truncating x * 255.999.
    let world = HittableList::new();
    let r = Ray::new(Vec3::new(0, 0, 0), Vec3::new(0, SCALE, 0));
    let c = r.color(&world);
    assert_eq!((c.x, c.y, c.z), (127, 179, 255));
}

#[test]
fn sky_gradient_ignores_direction_length() {
    // The gradient works on the normalized direction, so scaling the
    // direction does not change the color.
    let world = HittableList::new();
    let short = Ray::new(Vec3::new(0, 0, 0), Vec3::new(0, SCALE, 0));
    let long = Ray::new(Vec3::new(0, 0, 0), Vec3::new(0, 5 * SCALE, 0));
    let a = short.color(&world);
    let b = long.color(&world);
    assert_eq!((a.x, a.y, a.z), (b.x, b.y, b.z));
}

#[test]
fn hit_shades_by_normal() {
    // The direct hit of the concrete scenario has normal (0, 0, 1):
    // 0.5 * (normal + 1) gives channels (0.5, 0.5, 1.0), which quantize to
    // (127, 127, 255).
    let mut world = HittableList::new();
    world.add(Object::Sphere(Sphere::new(Vec3::new(0, 0, -SCALE), 500_000)));
    let r = Ray::new(Vec3::new(0, 0, 0), Vec3::new(0, 0, -SCALE));
    let c = r.color(&world);
    assert_eq!((c.x, c.y, c.z), (127, 127, 255));
}

#[test]
fn color_is_idempotent() {
    // Shading is a pure function per ray: asking twice yields the same
    // pixel.
    let mut world = HittableList::new();
    world.add(Object::Sphere(Sphere::new(Vec3::new(0, 0, -SCALE), 500_000)));
    let r = Ray::new(Vec3::new(0, 0, 0), Vec3::new(0, 0, -SCALE));
    let first = r.color(&world);
    let second = r.color(&world);
    assert_eq!((first.x, first.y, first.z), (second.x, second.y, second.z));
}

#[test]
fn miss_beside_sphere_yields_sky() {
    // A ray that passes beside the scene's sphere falls through to the
    // gradient; pointing horizontally, its blend parameter is one half,
    // giving the midpoint color (0.75, 0.85, 1.0) -> (191, 217, 255).
    let mut world = HittableList::new();
    world.add(Object::Sphere(Sphere::new(Vec3::new(0, 0, -SCALE), 500_000)));
    let r = Ray::new(Vec3::new(0, 0, 0), Vec3::new(SCALE, 0, 0));
    let c = r.color(&world);
    assert_eq!((c.x, c.y, c.z), (191, 217, 255));
}
