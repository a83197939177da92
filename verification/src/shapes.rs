//! Geometric primitives: the sphere and its analytic ray intersection.

use vstd::prelude::*;
use crate::hittable::{HitRecord, Hittable, NORM_MAX};
use crate::num::{
    div_trunc, fxdiv, isqrt, lemma_mul_mag, lemma_sqrt_floor_is, lemma_tdiv_mag,
    lemma_tdiv_ordered, lemma_tdiv_sq, sqrt_floor, tdiv, MAX_COORD, SCALE,
};
use crate::ray::{at_coord, Ray};
use crate::vec3::{dot3, in_bounds, neg3, sub3, Vec3};

verus! {

/// A sphere with a positive radius.
pub struct Sphere {
    pub center: Vec3,
    pub radius: i64,
}

/// The vector from the ray's origin to the sphere's center.
pub open spec fn oc_of(s: Sphere, r: Ray) -> Vec3 {
    sub3(s.center, r.origin)
}

/// Quadratic coefficient `a`: the squared length of the ray's direction.
pub open spec fn quad_a(r: Ray) -> int {
    tdiv(dot3(r.direction, r.direction), SCALE as int)
}

/// Quadratic coefficient `h`: the direction's projection onto the
/// center-to-origin offset (the half-b form of the quadratic).
pub open spec fn quad_h(s: Sphere, r: Ray) -> int {
    tdiv(dot3(r.direction, oc_of(s, r)), SCALE as int)
}

/// Quadratic coefficient `c`: squared center offset minus squared radius.
pub open spec fn quad_c(s: Sphere, r: Ray) -> int {
    tdiv(dot3(oc_of(s, r), oc_of(s, r)), SCALE as int) - tdiv(
        s.radius * s.radius,
        SCALE as int,
    )
}

/// The discriminant `h * h - a * c` of the intersection quadratic; the ray
/// meets the sphere exactly when it is nonnegative.
pub open spec fn quad_disc(s: Sphere, r: Ray) -> int {
    tdiv(quad_h(s, r) * quad_h(s, r), SCALE as int) - tdiv(
        quad_a(r) * quad_c(s, r),
        SCALE as int,
    )
}

/// The nearer intersection parameter `(h - sqrt(disc)) / a`.
pub open spec fn root_near(s: Sphere, r: Ray) -> int {
    tdiv(
        (quad_h(s, r) - sqrt_floor(quad_disc(s, r) * SCALE as int)) * SCALE as int,
        quad_a(r),
    )
}

/// The farther intersection parameter `(h + sqrt(disc)) / a`.
pub open spec fn root_far(s: Sphere, r: Ray) -> int {
    tdiv(
        (quad_h(s, r) + sqrt_floor(quad_disc(s, r) * SCALE as int)) * SCALE as int,
        quad_a(r),
    )
}

/// The parameter at which the ray first meets the sphere within
/// `[t_min, t_max]`: the nearer root if it lies in the interval, else the
/// farther root if that does, else nothing. The function stays total over
/// arbitrary rays by treating a direction whose squared length truncates
/// to zero as a miss; a well-formed ray always has `quad_a >= 1`.
pub open spec fn sphere_root(s: Sphere, r: Ray, t_min: i64, t_max: i64) -> Option<int> {
    if quad_a(r) <= 0 {
        None
    } else if quad_disc(s, r) < 0 {
        None
    } else if t_min <= root_near(s, r) <= t_max {
        Some(root_near(s, r))
    } else if t_min <= root_far(s, r) <= t_max {
        Some(root_far(s, r))
    } else {
        None
    }
}

/// The point the ray reaches at parameter `t` stays in range: any hit of
/// an admitted scene lies within twice the coordinate bound, give or take
/// the truncation slop the guard below absorbs.
pub open spec fn point_in_range(r: Ray, t: int) -> bool {
    &&& -(2 * MAX_COORD as int) <= at_coord(r.origin.x, r.direction.x, t) <= 2 * MAX_COORD as int
    &&& -(2 * MAX_COORD as int) <= at_coord(r.origin.y, r.direction.y, t) <= 2 * MAX_COORD as int
    &&& -(2 * MAX_COORD as int) <= at_coord(r.origin.z, r.direction.z, t) <= 2 * MAX_COORD as int
}

/// The point the ray reaches at parameter `t` (meaningful when it is in
/// coordinate range).
pub open spec fn hit_point(r: Ray, t: int) -> Vec3 {
    Vec3 {
        x: at_coord(r.origin.x, r.direction.x, t) as i64,
        y: at_coord(r.origin.y, r.direction.y, t) as i64,
        z: at_coord(r.origin.z, r.direction.z, t) as i64,
    }
}

/// The outward surface normal at `p`: the offset from the center divided
/// by the radius, which has unit length when `p` lies on the sphere.
pub open spec fn outward_of(s: Sphere, p: Vec3) -> Vec3 {
    Vec3 {
        x: tdiv((p.x - s.center.x) * SCALE as int, s.radius as int) as i64,
        y: tdiv((p.y - s.center.y) * SCALE as int, s.radius as int) as i64,
        z: tdiv((p.z - s.center.z) * SCALE as int, s.radius as int) as i64,
    }
}

/// The record a sphere reports at parameter `t`: the hit point, and the
/// outward normal oriented against the incoming ray.
pub open spec fn sphere_rec(s: Sphere, r: Ray, t: int) -> HitRecord {
    let p = hit_point(r, t);
    let out = outward_of(s, p);
    if dot3(out, r.direction) > 0 {
        HitRecord { p, normal: neg3(out), t: t as i64, front_face: false }
    } else {
        HitRecord { p, normal: out, t: t as i64, front_face: true }
    }
}

/// The full outcome of intersecting `r` with the sphere `s` over
/// `[t_min, t_max]`; a root whose hit point leaves the doubled coordinate
/// range is treated as a miss.
pub open spec fn sphere_hit(s: Sphere, r: Ray, t_min: i64, t_max: i64) -> Option<HitRecord> {
    match sphere_root(s, r, t_min, t_max) {
        Some(t) => if point_in_range(r, t) {
            Some(sphere_rec(s, r, t))
        } else {
            None
        },
        None => None,
    }
}

/// One coordinate of the exact, untruncated position the ray reaches at
/// parameter `t`, carried at double scale: `origin * SCALE + direction * t`.
pub open spec fn exact_pos(o: i64, d: i64, t: int) -> int {
    o * SCALE as int + d * t
}

/// The squared distance, at double scale, from the ray's exact position at
/// parameter `t` to the sphere's center.
pub open spec fn dist_sq(s: Sphere, r: Ray, t: int) -> int {
    let ex = exact_pos(r.origin.x, r.direction.x, t) - s.center.x * SCALE as int;
    let ey = exact_pos(r.origin.y, r.direction.y, t) - s.center.y * SCALE as int;
    let ez = exact_pos(r.origin.z, r.direction.z, t) - s.center.z * SCALE as int;
    ex * ex + ey * ey + ez * ez
}

/// The exact intersection quadratic in `t`, over untruncated coefficients:
/// `|d|^2 t^2 - 2 (d . oc) S t + (|oc|^2 - radius^2) S^2`.
pub open spec fn quad_poly(s: Sphere, r: Ray, t: int) -> int {
    let dx = r.direction.x as int;
    let dy = r.direction.y as int;
    let dz = r.direction.z as int;
    let ox = s.center.x - r.origin.x;
    let oy = s.center.y - r.origin.y;
    let oz = s.center.z - r.origin.z;
    (dx * dx + dy * dy + dz * dz) * (t * t) - 2 * (dx * ox + dy * oy + dz * oz) * (
    SCALE as int * t) + (ox * ox + oy * oy + oz * oz - s.radius * s.radius) * (SCALE as int
        * SCALE as int)
}

/// Expansion of one squared coordinate difference `(d t - o s)^2`.
proof fn lemma_sq_expand(d: int, o: int, t: int, sc: int)
    ensures
        (d * t - o * sc) * (d * t - o * sc) == d * d * (t * t) - 2 * (d * o) * (sc * t) + (o
            * o) * (sc * sc),
{
    let u = d * t;
    let v = o * sc;
    assert((u - v) * (u - v) == u * u - 2 * (u * v) + v * v) by (nonlinear_arith);
    assert((d * t) * (d * t) == d * d * (t * t)) by (nonlinear_arith);
    assert((d * t) * (o * sc) == (d * o) * (sc * t)) by (nonlinear_arith);
    assert((o * sc) * (o * sc) == (o * o) * (sc * sc)) by (nonlinear_arith);
    assert(2 * ((d * o) * (sc * t)) == 2 * (d * o) * (sc * t)) by (nonlinear_arith);
}

/// A ray parameter at which the intersection quadratic vanishes is a point
/// of the sphere's surface: the scaled squared distance from the ray's
/// exact position at `t` to the center differs from the equally scaled
/// squared radius by exactly the value of the quadratic.
pub proof fn lemma_quadratic_root_on_sphere(s: Sphere, r: Ray, t: int)
    ensures
        dist_sq(s, r, t) == quad_poly(s, r, t) + (s.radius * s.radius) * (SCALE as int
            * SCALE as int),
        quad_poly(s, r, t) == 0 <==> dist_sq(s, r, t) == (s.radius * s.radius) * (
        SCALE as int * SCALE as int),
{
    let sc = SCALE as int;
    let dx = r.direction.x as int;
    let dy = r.direction.y as int;
    let dz = r.direction.z as int;
    let ox = s.center.x - r.origin.x;
    let oy = s.center.y - r.origin.y;
    let oz = s.center.z - r.origin.z;
    let ex = exact_pos(r.origin.x, r.direction.x, t) - s.center.x * sc;
    let ey = exact_pos(r.origin.y, r.direction.y, t) - s.center.y * sc;
    let ez = exact_pos(r.origin.z, r.direction.z, t) - s.center.z * sc;
    assert(ex == dx * t - ox * sc);
    assert(ey == dy * t - oy * sc);
    assert(ez == dz * t - oz * sc);
    lemma_sq_expand(dx, ox, t, sc);
    lemma_sq_expand(dy, oy, t, sc);
    lemma_sq_expand(dz, oz, t, sc);
    assert((dx * dx + dy * dy + dz * dz) * (t * t) == dx * dx * (t * t) + dy * dy * (t * t)
        + dz * dz * (t * t)) by (nonlinear_arith);
    assert(2 * (dx * ox + dy * oy + dz * oz) * (sc * t) == 2 * (dx * ox) * (sc * t) + 2 * (dy
        * oy) * (sc * t) + 2 * (dz * oz) * (sc * t)) by (nonlinear_arith);
    assert((ox * ox + oy * oy + oz * oz - s.radius * s.radius) * (sc * sc) == (ox * ox) * (sc
        * sc) + (oy * oy) * (sc * sc) + (oz * oz) * (sc * sc) - (s.radius * s.radius) * (sc
        * sc)) by (nonlinear_arith);
}

/// A ray whose intersection quadratic has a negative discriminant misses
/// the sphere: `hit` reports nothing, over any interval.
pub proof fn lemma_negative_discriminant_misses(s: Sphere, r: Ray, t_min: i64, t_max: i64)
    requires
        quad_disc(s, r) < 0,
    ensures
        sphere_hit(s, r, t_min, t_max) is None,
{
}

/// Whatever a sphere reports, the stored normal points against the
/// incoming ray: their dot product is never positive.
pub proof fn lemma_hit_normal_against_ray(s: Sphere, r: Ray, t_min: i64, t_max: i64)
    requires
        s.wf(),
        r.wf(),
    ensures
        sphere_hit(s, r, t_min, t_max) matches Some(rec) ==> dot3(rec.normal, r.direction)
            <= 0,
{
    match sphere_root(s, r, t_min, t_max) {
        Some(t) => {
            if point_in_range(r, t) {
                let p = hit_point(r, t);
                lemma_mul_mag(
                    p.x as int - s.center.x as int,
                    3 * MAX_COORD as int,
                    SCALE as int,
                    SCALE as int,
                );
                lemma_mul_mag(
                    p.y as int - s.center.y as int,
                    3 * MAX_COORD as int,
                    SCALE as int,
                    SCALE as int,
                );
                lemma_mul_mag(
                    p.z as int - s.center.z as int,
                    3 * MAX_COORD as int,
                    SCALE as int,
                    SCALE as int,
                );
                lemma_tdiv_mag(
                    (p.x as int - s.center.x as int) * SCALE as int,
                    s.radius as int,
                    NORM_MAX as int,
                );
                lemma_tdiv_mag(
                    (p.y as int - s.center.y as int) * SCALE as int,
                    s.radius as int,
                    NORM_MAX as int,
                );
                lemma_tdiv_mag(
                    (p.z as int - s.center.z as int) * SCALE as int,
                    s.radius as int,
                    NORM_MAX as int,
                );
                let out = outward_of(s, p);
                if dot3(out, r.direction) > 0 {
                    assert((-out.x as int) * r.direction.x == -(out.x * r.direction.x))
                        by (nonlinear_arith);
                    assert((-out.y as int) * r.direction.y == -(out.y * r.direction.y))
                        by (nonlinear_arith);
                    assert((-out.z as int) * r.direction.z == -(out.z * r.direction.z))
                        by (nonlinear_arith);
                    assert(dot3(neg3(out), r.direction) == -dot3(out, r.direction));
                }
            }
        },
        None => {},
    }
}

/// At a point lying exactly on the sphere's surface the outward normal is
/// unit length up to truncation granularity: its squared length falls in
/// `(SCALE^2 - 6 * SCALE, SCALE^2]`, and every component is within the
/// unit range.
pub proof fn lemma_outward_normal_unit(s: Sphere, p: Vec3)
    requires
        s.wf(),
        in_bounds(p, 2 * MAX_COORD as int),
        (p.x - s.center.x) * (p.x - s.center.x) + (p.y - s.center.y) * (p.y - s.center.y) + (
        p.z - s.center.z) * (p.z - s.center.z) == s.radius * s.radius,
    ensures
        SCALE as int * SCALE as int - 6 * SCALE as int <= dot3(
            outward_of(s, p),
            outward_of(s, p),
        ) <= SCALE as int * SCALE as int,
        in_bounds(outward_of(s, p), SCALE as int),
{
    let sc = SCALE as int;
    let rad = s.radius as int;
    let qx = p.x - s.center.x;
    let qy = p.y - s.center.y;
    let qz = p.z - s.center.z;
    assert(qx * qx >= 0 && qy * qy >= 0 && qz * qz >= 0) by (nonlinear_arith);
    assert(-rad <= qx <= rad) by (nonlinear_arith)
        requires
            qx * qx <= rad * rad,
            rad >= 0,
    ;
    assert(-rad <= qy <= rad) by (nonlinear_arith)
        requires
            qy * qy <= rad * rad,
            rad >= 0,
    ;
    assert(-rad <= qz <= rad) by (nonlinear_arith)
        requires
            qz * qz <= rad * rad,
            rad >= 0,
    ;
    lemma_mul_mag(qx, rad, sc, sc);
    lemma_mul_mag(qy, rad, sc, sc);
    lemma_mul_mag(qz, rad, sc, sc);
    lemma_tdiv_mag(qx * sc, rad, rad * sc);
    lemma_tdiv_mag(qy * sc, rad, rad * sc);
    lemma_tdiv_mag(qz * sc, rad, rad * sc);
    vstd::arithmetic::div_mod::lemma_div_multiples_vanish(sc, rad);
    let nx = tdiv(qx * sc, rad);
    let ny = tdiv(qy * sc, rad);
    let nz = tdiv(qz * sc, rad);
    assert(-sc <= nx <= sc && -sc <= ny <= sc && -sc <= nz <= sc);
    assert(outward_of(s, p).x == nx && outward_of(s, p).y == ny && outward_of(s, p).z == nz);
    lemma_tdiv_sq(qx * sc, rad);
    lemma_tdiv_sq(qy * sc, rad);
    lemma_tdiv_sq(qz * sc, rad);
    assert((qx * sc) * (qx * sc) == (qx * qx) * (sc * sc)) by (nonlinear_arith);
    assert((qy * sc) * (qy * sc) == (qy * qy) * (sc * sc)) by (nonlinear_arith);
    assert((qz * sc) * (qz * sc) == (qz * qz) * (sc * sc)) by (nonlinear_arith);
    assert((rad * nx) * (rad * nx) == (rad * rad) * (nx * nx)) by (nonlinear_arith);
    assert((rad * ny) * (rad * ny) == (rad * rad) * (ny * ny)) by (nonlinear_arith);
    assert((rad * nz) * (rad * nz) == (rad * rad) * (nz * nz)) by (nonlinear_arith);
    assert(2 * rad * (if qx * sc >= 0 {
        qx * sc
    } else {
        -(qx * sc)
    }) <= 2 * (rad * (rad * sc))) by (nonlinear_arith)
        requires
            rad >= 1,
            -(rad * sc) <= qx * sc <= rad * sc,
    ;
    assert(2 * rad * (if qy * sc >= 0 {
        qy * sc
    } else {
        -(qy * sc)
    }) <= 2 * (rad * (rad * sc))) by (nonlinear_arith)
        requires
            rad >= 1,
            -(rad * sc) <= qy * sc <= rad * sc,
    ;
    assert(2 * rad * (if qz * sc >= 0 {
        qz * sc
    } else {
        -(qz * sc)
    }) <= 2 * (rad * (rad * sc))) by (nonlinear_arith)
        requires
            rad >= 1,
            -(rad * sc) <= qz * sc <= rad * sc,
    ;
    let t = nx * nx + ny * ny + nz * nz;
    assert((qx * qx) * (sc * sc) + (qy * qy) * (sc * sc) + (qz * qz) * (sc * sc) == (rad
        * rad) * (sc * sc)) by (nonlinear_arith)
        requires
            qx * qx + qy * qy + qz * qz == rad * rad,
    ;
    assert((rad * rad) * (nx * nx) + (rad * rad) * (ny * ny) + (rad * rad) * (nz * nz) == (
    rad * rad) * t) by (nonlinear_arith)
        requires
            t == nx * nx + ny * ny + nz * nz,
    ;
    assert(0 <= (rad * rad) * (sc * sc) - (rad * rad) * t);
    assert((rad * rad) * (sc * sc) - (rad * rad) * t <= 6 * (rad * (rad * sc)));
    assert(sc * sc - 6 * sc <= t <= sc * sc) by (nonlinear_arith)
        requires
            rad >= 1,
            0 <= (rad * rad) * (sc * sc) - (rad * rad) * t,
            (rad * rad) * (sc * sc) - (rad * rad) * t <= 6 * (rad * (rad * sc)),
    ;
    assert(dot3(outward_of(s, p), outward_of(s, p)) == t);
}

/// Where its hit point lies exactly on the surface, the record a sphere
/// reports carries that unit-length normal, whichever way the orientation
/// rule pointed it.
pub proof fn lemma_hit_normal_unit(s: Sphere, r: Ray, t_min: i64, t_max: i64)
    requires
        s.wf(),
        r.wf(),
    ensures
        sphere_hit(s, r, t_min, t_max) matches Some(rec) ==> ((rec.p.x - s.center.x) * (
        rec.p.x - s.center.x) + (rec.p.y - s.center.y) * (rec.p.y - s.center.y) + (rec.p.z
            - s.center.z) * (rec.p.z - s.center.z) == s.radius * s.radius
            ==> SCALE as int * SCALE as int - 6 * SCALE as int <= dot3(
            rec.normal,
            rec.normal,
        ) <= SCALE as int * SCALE as int && in_bounds(rec.normal, SCALE as int)),
{
    match sphere_root(s, r, t_min, t_max) {
        Some(t) => {
            if point_in_range(r, t) {
                let p = hit_point(r, t);
                if (p.x - s.center.x) * (p.x - s.center.x) + (p.y - s.center.y) * (p.y
                    - s.center.y) + (p.z - s.center.z) * (p.z - s.center.z) == s.radius
                    * s.radius {
                    lemma_outward_normal_unit(s, p);
                    let out = outward_of(s, p);
                    if dot3(out, r.direction) > 0 {
                        assert((-out.x as int) * (-out.x as int) == out.x * out.x)
                            by (nonlinear_arith);
                        assert((-out.y as int) * (-out.y as int) == out.y * out.y)
                            by (nonlinear_arith);
                        assert((-out.z as int) * (-out.z as int) == out.z * out.z)
                            by (nonlinear_arith);
                        assert(dot3(neg3(out), neg3(out)) == dot3(out, out));
                    }
                }
            }
        },
        None => {},
    }
}

/// The nearer root never exceeds the farther root.
pub proof fn lemma_root_near_le_far(s: Sphere, r: Ray)
    requires
        quad_a(r) >= 1,
        quad_disc(s, r) >= 0,
    ensures
        root_near(s, r) <= root_far(s, r),
{
    crate::num::lemma_sqrt_exists(quad_disc(s, r) * SCALE as int);
    let sq = sqrt_floor(quad_disc(s, r) * SCALE as int);
    crate::num::lemma_tdiv_ordered(
        (quad_h(s, r) - sq) * SCALE as int,
        (quad_h(s, r) + sq) * SCALE as int,
        quad_a(r),
    );
}

/// Shrinking the upper end of the search interval filters the outcome: the
/// hit over `[t_min, hi1]` is the hit over `[t_min, hi2]` when that hit's
/// parameter still lies within `hi1`, and nothing otherwise.
pub proof fn lemma_sphere_hit_shrink(s: Sphere, r: Ray, t_min: i64, hi1: i64, hi2: i64)
    requires
        hi1 <= hi2,
    ensures
        sphere_hit(s, r, t_min, hi1) == match sphere_hit(s, r, t_min, hi2) {
            Some(rec) => if rec.t <= hi1 {
                Some(rec)
            } else {
                None
            },
            None => None::<HitRecord>,
        },
{
    if quad_a(r) >= 1 && quad_disc(s, r) >= 0 {
        lemma_root_near_le_far(s, r);
    }
}

impl Sphere {
    /// A sphere must have a positive radius; both it and the center are
    /// bounded by the library's coordinate range.
    pub fn new(center: Vec3, radius: i64) -> (s: Sphere)
        requires
            in_bounds(center, MAX_COORD as int),
            0 < radius <= MAX_COORD,
        ensures
            s.center == center,
            s.radius == radius,
            s.wf(),
    {
        Sphere { center, radius }
    }
}

impl Hittable for Sphere {
    open spec fn wf(&self) -> bool {
        &&& in_bounds(self.center, MAX_COORD as int)
        &&& 0 < self.radius <= MAX_COORD
    }

    open spec fn spec_hit(&self, r: Ray, t_min: i64, t_max: i64) -> Option<HitRecord> {
        sphere_hit(*self, r, t_min, t_max)
    }

    fn hit(&self, r: &Ray, t_min: i64, t_max: i64) -> (res: Option<HitRecord>) {
        let oc: Vec3 = self.center.minus(&r.origin);
        proof {
            crate::vec3::lemma_dot3_mag(
                r.direction,
                r.direction,
                MAX_COORD as int,
                MAX_COORD as int,
            );
            crate::vec3::lemma_dot3_self(r.direction);
            crate::vec3::lemma_dot3_mag(r.direction, oc, MAX_COORD as int, 2 * MAX_COORD as int);
            crate::vec3::lemma_dot3_mag(oc, oc, 2 * MAX_COORD as int, 2 * MAX_COORD as int);
        }
        let dd: i128 = r.direction.dot_scaled(&r.direction);
        proof {
            lemma_tdiv_mag(dd as int, SCALE as int, 30_000_000_000_000_000);
        }
        let a: i64 = div_trunc(dd, SCALE as i128) as i64;
        proof {
            lemma_tdiv_ordered(SCALE as int, dd as int, SCALE as int);
            assert(tdiv(SCALE as int, SCALE as int) == 1);
        }
        let hd: i128 = r.direction.dot_scaled(&oc);
        proof {
            lemma_tdiv_mag(hd as int, SCALE as int, 60_000_000_000_000_000);
        }
        let h: i64 = div_trunc(hd, SCALE as i128) as i64;
        let ocd: i128 = oc.dot_scaled(&oc);
        proof {
            lemma_tdiv_mag(ocd as int, SCALE as int, 120_000_000_000_000_000);
            lemma_mul_mag(self.radius as int, MAX_COORD as int, self.radius as int, MAX_COORD as int);
            lemma_tdiv_mag(
                self.radius as int * self.radius as int,
                SCALE as int,
                10_000_000_000_000_000,
            );
        }
        let c_off: i128 = div_trunc(ocd, SCALE as i128);
        let rr: i128 = div_trunc((self.radius as i128) * (self.radius as i128), SCALE as i128);
        let c: i64 = (c_off - rr) as i64;
        proof {
            lemma_mul_mag(h as int, 60_000_000_000, h as int, 60_000_000_000);
            lemma_tdiv_mag(h as int * h as int, SCALE as int, 3_600_000_000_000_000_000_000);
            lemma_mul_mag(a as int, 30_000_000_000, c as int, 130_000_000_000);
            lemma_tdiv_mag(a as int * c as int, SCALE as int, 3_900_000_000_000_000_000_000);
        }
        let hh: i128 = div_trunc((h as i128) * (h as i128), SCALE as i128);
        let ac: i128 = div_trunc((a as i128) * (c as i128), SCALE as i128);
        let disc: i64 = (hh - ac) as i64;
        if disc < 0 {
            return None;
        }
        let sq_u: u128 = isqrt((disc as u128) * (SCALE as u128));
        proof {
            lemma_sqrt_floor_is(disc as int * SCALE as int, sq_u as int);
            assert(sq_u as int <= 100_000_000_000) by (nonlinear_arith)
                requires
                    0 <= sq_u as int,
                    (sq_u as int) * (sq_u as int) <= disc as int * SCALE as int,
                    disc as int * SCALE as int <= 7_500_000_000_000_000_000_000,
            ;
        }
        let sq: i64 = sq_u as i64;
        proof {
            lemma_mul_mag(h as int - sq as int, 160_000_000_000, SCALE as int, SCALE as int);
            lemma_mul_mag(h as int + sq as int, 160_000_000_000, SCALE as int, SCALE as int);
            lemma_tdiv_mag(
                (h as int - sq as int) * SCALE as int,
                a as int,
                160_000_000_000_000_000,
            );
            lemma_tdiv_mag(
                (h as int + sq as int) * SCALE as int,
                a as int,
                160_000_000_000_000_000,
            );
        }
        let mut root: i64 = div_trunc(((h - sq) as i128) * (SCALE as i128), a as i128) as i64;
        if root < t_min || t_max < root {
            root = div_trunc(((h + sq) as i128) * (SCALE as i128), a as i128) as i64;
            if root < t_min || t_max < root {
                return None;
            }
        }
        proof {
            assert(sphere_root(*self, *r, t_min, t_max) == Some(root as int));
            lemma_mul_mag(r.direction.x as int, MAX_COORD as int, root as int, 0x8000000000000000);
            lemma_mul_mag(r.direction.y as int, MAX_COORD as int, root as int, 0x8000000000000000);
            lemma_mul_mag(r.direction.z as int, MAX_COORD as int, root as int, 0x8000000000000000);
        }
        let px: i128 = r.origin.x as i128 + div_trunc(
            (r.direction.x as i128) * (root as i128),
            SCALE as i128,
        );
        let py: i128 = r.origin.y as i128 + div_trunc(
            (r.direction.y as i128) * (root as i128),
            SCALE as i128,
        );
        let pz: i128 = r.origin.z as i128 + div_trunc(
            (r.direction.z as i128) * (root as i128),
            SCALE as i128,
        );
        let bound: i128 = 2 * (MAX_COORD as i128);
        if px < -bound || px > bound || py < -bound || py > bound || pz < -bound || pz > bound {
            return None;
        }
        let p = Vec3 { x: px as i64, y: py as i64, z: pz as i64 };
        proof {
            lemma_mul_mag(p.x as int - self.center.x as int, 3 * MAX_COORD as int, SCALE as int, SCALE as int);
            lemma_mul_mag(p.y as int - self.center.y as int, 3 * MAX_COORD as int, SCALE as int, SCALE as int);
            lemma_mul_mag(p.z as int - self.center.z as int, 3 * MAX_COORD as int, SCALE as int, SCALE as int);
            lemma_tdiv_mag(
                (p.x as int - self.center.x as int) * SCALE as int,
                self.radius as int,
                NORM_MAX as int,
            );
            lemma_tdiv_mag(
                (p.y as int - self.center.y as int) * SCALE as int,
                self.radius as int,
                NORM_MAX as int,
            );
            lemma_tdiv_mag(
                (p.z as int - self.center.z as int) * SCALE as int,
                self.radius as int,
                NORM_MAX as int,
            );
        }
        let out = Vec3 {
            x: fxdiv(p.x - self.center.x, self.radius),
            y: fxdiv(p.y - self.center.y, self.radius),
            z: fxdiv(p.z - self.center.z, self.radius),
        };
        let mut rec = HitRecord::new(p, out, root);
        rec.set_face_normal(r, out);
        proof {
            assert(out == outward_of(*self, p));
            assert(p == hit_point(*r, root as int));
            assert(rec == sphere_rec(*self, *r, root as int));
        }
        Some(rec)
    }
}

} // verus!
