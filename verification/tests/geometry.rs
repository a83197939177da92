//! Intersection geometry: sphere hits, misses, interval handling, and
//! nearest-hit resolution over a scene list. All values are fixed-point
//! integers with one million units per whole unit.

use raytracer::hittable::{Hittable, HitRecord, HittableList, Object};
use raytracer::num::{div_trunc, fxdiv, isqrt, SCALE};
use raytracer::ray::Ray;
use raytracer::shapes::Sphere;
use raytracer::vec3::Vec3;

#[test]
fn sphere_direct_hit() {
    // Sphere centered at (0, 0, -1) with radius 0.5, ray from the origin
    // toward (0, 0, -1): hit at t = 0.5, point (0, 0, -0.5), outward unit
    // normal (0, 0, 1), met from outside.
    let s = Sphere::new(Vec3::new(0, 0, -SCALE), 500_000);
    let r = Ray::new(Vec3::new(0, 0, 0), Vec3::new(0, 0, -SCALE));
    let rec = s.hit(&r, 0, i64::MAX).unwrap();
    assert_eq!(rec.t, 500_000);
    assert_eq!(rec.p.x, 0);
    assert_eq!(rec.p.y, 0);
    assert_eq!(rec.p.z, -500_000);
    assert_eq!(rec.normal.x, 0);
    assert_eq!(rec.normal.y, 0);
    assert_eq!(rec.normal.z, SCALE);
    assert!(rec.front_face);
}

#[test]
fn sphere_parallel_miss() {
    // The same sphere, ray along +x: the discriminant is negative and the
    // ray misses entirely.
    let s = Sphere::new(Vec3::new(0, 0, -SCALE), 500_000);
    let r = Ray::new(Vec3::new(0, 0, 0), Vec3::new(SCALE, 0, 0));
    assert!(s.hit(&r, 0, i64::MAX).is_none());
}

#[test]
fn hit_point_lies_on_surface() {
    // The accepted parameter puts the hit point exactly on the surface:
    // the squared distance to the center equals the squared radius.
    let s = Sphere::new(Vec3::new(0, 0, -SCALE), 500_000);
    let r = Ray::new(Vec3::new(0, 0, 0), Vec3::new(0, 0, -SCALE));
    let rec = s.hit(&r, 0, i64::MAX).unwrap();
    let dx = rec.p.x - 0;
    let dy = rec.p.y - 0;
    let dz = rec.p.z - (-SCALE);
    let dist_sq = dx * dx + dy * dy + dz * dz;
    assert_eq!(dist_sq, 500_000i64 * 500_000i64);
}

#[test]
fn ray_inside_sphere_flips_normal() {
    // A ray starting at the center leaves through the surface: the nearer
    // root is behind the origin, the farther root is taken, and the stored
    // normal is flipped to point against the ray.
    let s = Sphere::new(Vec3::new(0, 0, -SCALE), 500_000);
    let r = Ray::new(Vec3::new(0, 0, -SCALE), Vec3::new(0, 0, -SCALE));
    let rec = s.hit(&r, 0, i64::MAX).unwrap();
    assert_eq!(rec.t, 500_000);
    assert_eq!(rec.p.z, -1_500_000);
    assert_eq!(rec.normal.z, SCALE);
    assert!(!rec.front_face);
}

#[test]
fn interval_excludes_both_roots() {
    // With the search interval capped below the nearer root, neither root
    // is acceptable and the sphere reports a miss.
    let s = Sphere::new(Vec3::new(0, 0, -SCALE), 500_000);
    let r = Ray::new(Vec3::new(0, 0, 0), Vec3::new(0, 0, -SCALE));
    assert!(s.hit(&r, 0, 400_000).is_none());
}

#[test]
fn list_nearest_wins_either_order() {
    // Two spheres along -z at depths 2 and 4: whichever insertion order,
    // the list reports the nearer hit at t = 1.5.
    let near = Sphere::new(Vec3::new(0, 0, -2_000_000), 500_000);
    let far = Sphere::new(Vec3::new(0, 0, -4_000_000), 500_000);
    let r = Ray::new(Vec3::new(0, 0, 0), Vec3::new(0, 0, -SCALE));

    let mut world = HittableList::new();
    world.add(Object::Sphere(near));
    world.add(Object::Sphere(far));
    let rec = world.hit(&r, 0, i64::MAX).unwrap();
    assert_eq!(rec.t, 1_500_000);
    assert_eq!(rec.p.z, -1_500_000);
    assert_eq!(rec.normal.z, SCALE);

    let mut world_rev = HittableList::new();
    world_rev.add(Object::Sphere(Sphere::new(Vec3::new(0, 0, -4_000_000), 500_000)));
    world_rev.add(Object::Sphere(Sphere::new(Vec3::new(0, 0, -2_000_000), 500_000)));
    let rec_rev = world_rev.hit(&r, 0, i64::MAX).unwrap();
    assert_eq!(rec_rev.t, 1_500_000);
    assert_eq!(rec_rev.p.z, -1_500_000);
}

#[test]
fn distant_hit_point_reported() {
    // A sphere near the edge of the coordinate range: the ray starts
    // inside it and leaves through a surface point beyond the range's
    // single bound (at x = 100.9), which is still a valid hit.
    let s = Sphere::new(Vec3::new(99_900_000, 0, 0), SCALE);
    let r = Ray::new(Vec3::new(99_000_000, 0, 0), Vec3::new(SCALE, 0, 0));
    let rec = s.hit(&r, 0, i64::MAX).unwrap();
    assert_eq!(rec.t, 1_900_000);
    assert_eq!(rec.p, Vec3::new(100_900_000, 0, 0));
    assert_eq!(rec.normal, Vec3::new(-SCALE, 0, 0));
    assert!(!rec.front_face);
}

#[test]
fn empty_list_misses() {
    let world = HittableList::new();
    let r = Ray::new(Vec3::new(0, 0, 0), Vec3::new(0, 0, -SCALE));
    assert!(world.hit(&r, 0, i64::MAX).is_none());
}

#[test]
fn hit_is_idempotent() {
    // Two resolutions with identical inputs yield identical records: the
    // query reads no hidden state and mutates nothing.
    let near = Sphere::new(Vec3::new(0, 0, -2_000_000), 500_000);
    let far = Sphere::new(Vec3::new(0, 0, -4_000_000), 500_000);
    let mut world = HittableList::new();
    world.add(Object::Sphere(near));
    world.add(Object::Sphere(far));
    let r = Ray::new(Vec3::new(0, 0, 0), Vec3::new(0, 0, -SCALE));
    let first = world.hit(&r, 0, i64::MAX).unwrap();
    let second = world.hit(&r, 0, i64::MAX).unwrap();
    assert_eq!(first.t, second.t);
    assert_eq!(first.p, second.p);
    assert_eq!(first.normal, second.normal);
    assert_eq!(first.front_face, second.front_face);
}

#[test]
fn set_face_normal_orients_against_ray() {
    // Ray approaching from outside (dot <= 0): the outward normal is kept
    // and the record is marked front-face. Ray from inside (dot > 0): the
    // normal is flipped and the flag cleared.
    let r = Ray::new(Vec3::new(0, 0, 0), Vec3::new(0, 0, -SCALE));
    let outward = Vec3::new(0, 0, SCALE);

    let mut rec = HitRecord::new(Vec3::new(0, 0, 0), Vec3::new(0, 0, 0), 0);
    rec.set_face_normal(&r, outward);
    assert!(rec.front_face);
    assert_eq!(rec.normal, outward);

    let r_inside = Ray::new(Vec3::new(0, 0, 0), Vec3::new(0, 0, SCALE));
    let mut rec_inside = HitRecord::new(Vec3::new(0, 0, 0), Vec3::new(0, 0, 0), 0);
    rec_inside.set_face_normal(&r_inside, outward);
    assert!(!rec_inside.front_face);
    assert_eq!(rec_inside.normal, Vec3::new(0, 0, -SCALE));
}

#[test]
fn ray_accessors_and_at() {
    let r = Ray::new(Vec3::new(1_000, 2_000, 3_000), Vec3::new(0, 0, -2_000_000));
    assert_eq!(r.get_origin(), Vec3::new(1_000, 2_000, 3_000));
    // The accessor hands the direction back normalized to unit length.
    assert_eq!(r.get_direction(), Vec3::new(0, 0, -SCALE));
    // The point reached at t = 0.5: origin + 0.5 * direction.
    let p = r.at(500_000);
    assert_eq!(p, Vec3::new(1_000, 2_000, 3_000 - 1_000_000));
}

#[test]
fn record_construction_and_clone() {
    let rec = HitRecord::new(Vec3::new(1, 2, 3), Vec3::new(4, 5, 6), 7);
    assert!(!rec.front_face);
    let copy = rec.clone();
    assert_eq!(copy.p, Vec3::new(1, 2, 3));
    assert_eq!(copy.normal, Vec3::new(4, 5, 6));
    assert_eq!(copy.t, 7);
    assert_eq!(copy.front_face, rec.front_face);
}

#[test]
fn fixed_point_scalar_ops() {
    // Division truncates toward zero, also for negative numerators.
    assert_eq!(div_trunc(7, 2), 3);
    assert_eq!(div_trunc(-7, 2), -3);
    // Fixed-point quotient: 1 / 3 in millionths.
    assert_eq!(fxdiv(1_000_000, 3_000_000), 333_333);
    // Integer square root floors.
    assert_eq!(isqrt(10), 3);
    assert_eq!(isqrt(250_000_000_000), 500_000);
}
