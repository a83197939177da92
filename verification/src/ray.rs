//! Rays: parametric lines `origin + t * direction` through the scene.

use vstd::prelude::*;
use crate::hittable::{list_hit, Hittable, HittableList, Object};
use crate::num::{
    div_trunc, lemma_mul_mag, lemma_sqrt_exists, lemma_tdiv_mag, lemma_tdiv_ordered, sqrt_floor,
    tdiv, MAX_COORD, SCALE,
};
use crate::vec3::{dot3, in_bounds, is_zero, lemma_dot3_self, unit3, Vec3};

verus! {

/// A ray from `origin` along `direction`; the direction need not be
/// normalized, and the quadratic intersection math uses it raw.
pub struct Ray {
    pub origin: Vec3,
    pub direction: Vec3,
}

/// Fixed-point one half.
pub const HALF: i64 = 500_000;

/// The sky color the no-hit gradient blends toward, per channel.
pub const SKY_X: i64 = 500_000;

pub const SKY_Y: i64 = 700_000;

pub const SKY_Z: i64 = 1_000_000;

/// Channel quantization numerator: a channel value `x` in `[0, 1]` maps to
/// `x * 255.999` truncated, i.e. `v * CHAN_NUM / CHAN_DEN` on the
/// fixed-point value `v`.
pub const CHAN_NUM: i64 = 255_999;

pub const CHAN_DEN: i64 = 1_000_000_000;

/// An output pixel color, one byte-range integer per channel.
#[derive(Clone, Copy, PartialEq, Eq, Structural, Debug)]
pub struct Rgb {
    pub x: u32,
    pub y: u32,
    pub z: u32,
}

/// Quantizes one fixed-point channel value to its display byte by the
/// truncating `x * 255.999` rule, clamping negative values to 0 and values
/// beyond the `u32` range to `u32::MAX`.
pub open spec fn byte_of(c: int) -> u32 {
    let v = tdiv(c * CHAN_NUM as int, CHAN_DEN as int);
    if v < 0 {
        0u32
    } else if v > u32::MAX {
        u32::MAX
    } else {
        v as u32
    }
}

/// One channel of normal-visualization shading: `0.5 * (n + 1)` quantized.
pub open spec fn shade_channel(n: i64) -> u32 {
    byte_of(tdiv((n + SCALE as int) * HALF as int, SCALE as int))
}

/// The blend parameter of the sky gradient: half of one plus the vertical
/// component of the unit direction.
pub open spec fn sky_t(r: Ray) -> int {
    tdiv((unit3(r.direction).y + SCALE as int) * HALF as int, SCALE as int)
}

/// One channel of the sky gradient: white blended toward `sky` by `t`.
pub open spec fn sky_channel(sky: i64, t: int) -> u32 {
    byte_of(
        tdiv(SCALE as int * (SCALE as int - t), SCALE as int) + tdiv(sky * t, SCALE as int),
    )
}

/// The color a ray yields against a scene: the normal-based color of the
/// nearest hit over `[0, i64::MAX]`, or the vertical sky gradient when
/// nothing is hit.
pub open spec fn ray_color(r: Ray, objs: Seq<Object>) -> Rgb {
    match list_hit(objs, r, 0, i64::MAX) {
        Some(rec) => Rgb {
            x: shade_channel(rec.normal.x),
            y: shade_channel(rec.normal.y),
            z: shade_channel(rec.normal.z),
        },
        None => Rgb {
            x: sky_channel(SKY_X, sky_t(r)),
            y: sky_channel(SKY_Y, sky_t(r)),
            z: sky_channel(SKY_Z, sky_t(r)),
        },
    }
}

/// A channel value within the unit range quantizes to a display byte in
/// `[0, 255]`: the truncating `x * 255.999` rule never reaches 256.
pub proof fn lemma_byte_range(c: int)
    requires
        0 <= c <= SCALE,
    ensures
        byte_of(c) <= 255,
{
    lemma_mul_mag(c, SCALE as int, CHAN_NUM as int, CHAN_NUM as int);
    lemma_tdiv_mag(c * CHAN_NUM as int, CHAN_DEN as int, SCALE as int * CHAN_NUM as int);
}

/// Shading a normal component within the unit range yields a byte in
/// `[0, 255]`.
pub proof fn lemma_shade_channel_range(n: i64)
    requires
        -SCALE <= n <= SCALE,
    ensures
        shade_channel(n) <= 255,
{
    let sc = SCALE as int;
    let shifted = (n + sc) * HALF as int;
    assert(0 <= shifted <= sc * sc) by (nonlinear_arith)
        requires
            0 <= n + sc <= 2 * sc,
            shifted == (n + sc) * HALF as int,
            2 * HALF as int == sc,
    ;
    lemma_tdiv_ordered(0, shifted, sc);
    assert(tdiv(0, sc) == 0);
    lemma_tdiv_mag(shifted, sc, sc * sc);
    vstd::arithmetic::div_mod::lemma_div_multiples_vanish(sc, sc);
    lemma_byte_range(tdiv(shifted, sc));
}

/// One sky-gradient channel with a blend parameter in the unit range is a
/// byte in `[0, 255]`.
proof fn lemma_sky_channel_range(sky: i64, t: int)
    requires
        0 <= sky <= SCALE,
        0 <= t <= SCALE,
    ensures
        sky_channel(sky, t) <= 255,
{
    let sc = SCALE as int;
    assert(0 <= sc * (sc - t)) by (nonlinear_arith)
        requires
            0 <= sc - t,
            0 < sc,
    ;
    vstd::arithmetic::div_mod::lemma_div_multiples_vanish(sc - t, sc);
    assert(tdiv(sc * (sc - t), sc) == sc - t);
    assert(0 <= sky * t && sky * t <= sc * t) by (nonlinear_arith)
        requires
            0 <= sky <= sc,
            0 <= t,
    ;
    lemma_tdiv_ordered(0, sky * t, sc);
    assert(tdiv(0, sc) == 0);
    lemma_tdiv_ordered(sky * t, sc * t, sc);
    vstd::arithmetic::div_mod::lemma_div_multiples_vanish(t, sc);
    assert(tdiv(sc * t, sc) == t);
    lemma_byte_range(tdiv(sc * (sc - t), sc) + tdiv(sky * t, sc));
}

/// When a ray hits nothing, every channel of its color is a byte in
/// `[0, 255]`: the sky gradient blends two unit-range colors.
pub proof fn lemma_sky_color_range(r: Ray, objs: Seq<Object>)
    requires
        r.wf(),
    ensures
        list_hit(objs, r, 0, i64::MAX) is None ==> ray_color(r, objs).x <= 255 && ray_color(
            r,
            objs,
        ).y <= 255 && ray_color(r, objs).z <= 255,
{
    if list_hit(objs, r, 0, i64::MAX) is None {
        let sc = SCALE as int;
        let d = r.direction;
        lemma_dot3_self(d);
        let n = dot3(d, d);
        lemma_sqrt_exists(n);
        let m = sqrt_floor(n);
        assert(1 <= m) by (nonlinear_arith)
            requires
                0 <= m,
                n < (m + 1) * (m + 1),
                1 <= n,
        ;
        assert(d.y * d.y <= n) by (nonlinear_arith)
            requires
                n == d.x * d.x + d.y * d.y + d.z * d.z,
        ;
        assert(-m <= d.y <= m) by (nonlinear_arith)
            requires
                d.y * d.y <= n,
                n < (m + 1) * (m + 1),
                0 <= m,
        ;
        lemma_mul_mag(d.y as int, m, sc, sc);
        lemma_tdiv_mag(d.y * sc, m, m * sc);
        vstd::arithmetic::div_mod::lemma_div_multiples_vanish(sc, m);
        let uy = unit3(d).y as int;
        assert(uy == tdiv(d.y * sc, m));
        assert(-sc <= uy <= sc);
        let shifted = (uy + sc) * HALF as int;
        assert(0 <= shifted <= sc * sc) by (nonlinear_arith)
            requires
                0 <= uy + sc <= 2 * sc,
                shifted == (uy + sc) * HALF as int,
                2 * HALF as int == sc,
        ;
        lemma_tdiv_ordered(0, shifted, sc);
        assert(tdiv(0, sc) == 0);
        lemma_tdiv_mag(shifted, sc, sc * sc);
        vstd::arithmetic::div_mod::lemma_div_multiples_vanish(sc, sc);
        let t = sky_t(r);
        assert(0 <= t <= sc);
        lemma_sky_channel_range(SKY_X, t);
        lemma_sky_channel_range(SKY_Y, t);
        lemma_sky_channel_range(SKY_Z, t);
    }
}

/// Quantizes one channel, the executable counterpart of `byte_of`.
fn byte_exec(c: i128) -> (b: u32)
    requires
        -1_000_000_000_000_000 <= c <= 1_000_000_000_000_000,
    ensures
        b == byte_of(c as int),
{
    proof {
        lemma_mul_mag(c as int, 1_000_000_000_000_000, CHAN_NUM as int, 255_999);
    }
    let v: i128 = div_trunc(c * (CHAN_NUM as i128), CHAN_DEN as i128);
    if v < 0 {
        0
    } else if v > u32::MAX as i128 {
        u32::MAX
    } else {
        v as u32
    }
}

/// One coordinate of the point a ray reaches at parameter `t`:
/// `origin + direction * t` in fixed-point arithmetic.
pub open spec fn at_coord(o: i64, d: i64, t: int) -> int {
    o + tdiv(d * t, SCALE as int)
}

impl Ray {
    /// A ray is well formed when both vectors are within coordinate range
    /// and the direction is long enough that its squared length does not
    /// truncate to zero: at least `SCALE`, one thousandth of a unit in
    /// length. Shorter directions would make the quadratic coefficients
    /// collapse, so construction keeps them out.
    pub open spec fn wf(&self) -> bool {
        &&& in_bounds(self.origin, MAX_COORD as int)
        &&& in_bounds(self.direction, MAX_COORD as int)
        &&& dot3(self.direction, self.direction) >= SCALE as int
    }

    /// Stores origin and direction verbatim.
    pub fn new(origin: Vec3, direction: Vec3) -> (r: Ray)
        requires
            in_bounds(origin, MAX_COORD as int),
            in_bounds(direction, MAX_COORD as int),
            dot3(direction, direction) >= SCALE as int,
        ensures
            r.origin == origin,
            r.direction == direction,
            r.wf(),
    {
        Ray { origin, direction }
    }

    pub fn get_origin(&self) -> (r: Vec3)
        ensures
            r == self.origin,
    {
        self.origin
    }

    /// The ray's direction, normalized to unit length.
    pub fn get_direction(&self) -> (r: Vec3)
        requires
            self.wf(),
        ensures
            r == unit3(self.direction),
    {
        proof {
            if is_zero(self.direction) {
                assert(dot3(self.direction, self.direction) == 0);
            }
        }
        self.direction.unit()
    }

    /// The point the ray reaches at parameter `t`.
    pub fn at(&self, t: i64) -> (p: Vec3)
        requires
            self.wf(),
            i64::MIN <= at_coord(self.origin.x, self.direction.x, t as int) <= i64::MAX,
            i64::MIN <= at_coord(self.origin.y, self.direction.y, t as int) <= i64::MAX,
            i64::MIN <= at_coord(self.origin.z, self.direction.z, t as int) <= i64::MAX,
        ensures
            p.x == at_coord(self.origin.x, self.direction.x, t as int),
            p.y == at_coord(self.origin.y, self.direction.y, t as int),
            p.z == at_coord(self.origin.z, self.direction.z, t as int),
    {
        proof {
            lemma_mul_mag(self.direction.x as int, MAX_COORD as int, t as int, 0x8000000000000000);
            lemma_mul_mag(self.direction.y as int, MAX_COORD as int, t as int, 0x8000000000000000);
            lemma_mul_mag(self.direction.z as int, MAX_COORD as int, t as int, 0x8000000000000000);
        }
        let px: i128 = self.origin.x as i128 + div_trunc(
            (self.direction.x as i128) * (t as i128),
            SCALE as i128,
        );
        let py: i128 = self.origin.y as i128 + div_trunc(
            (self.direction.y as i128) * (t as i128),
            SCALE as i128,
        );
        let pz: i128 = self.origin.z as i128 + div_trunc(
            (self.direction.z as i128) * (t as i128),
            SCALE as i128,
        );
        Vec3 { x: px as i64, y: py as i64, z: pz as i64 }
    }

    /// The pixel color of this ray against the scene `world`: normal-based
    /// shading of the nearest hit, or the sky gradient when nothing is hit.
    pub fn color(&self, world: &HittableList) -> (c: Rgb)
        requires
            self.wf(),
            world.wf(),
        ensures
            c == ray_color(*self, world.objects@),
    {
        match world.hit(self, 0, i64::MAX) {
            Some(rec) => {
                proof {
                    lemma_mul_mag(
                        rec.normal.x as int + SCALE as int,
                        400_000_000_000_000,
                        HALF as int,
                        HALF as int,
                    );
                    lemma_mul_mag(
                        rec.normal.y as int + SCALE as int,
                        400_000_000_000_000,
                        HALF as int,
                        HALF as int,
                    );
                    lemma_mul_mag(
                        rec.normal.z as int + SCALE as int,
                        400_000_000_000_000,
                        HALF as int,
                        HALF as int,
                    );
                    lemma_tdiv_mag(
                        (rec.normal.x as int + SCALE as int) * HALF as int,
                        SCALE as int,
                        200_000_000_000_000_000_000,
                    );
                    lemma_tdiv_mag(
                        (rec.normal.y as int + SCALE as int) * HALF as int,
                        SCALE as int,
                        200_000_000_000_000_000_000,
                    );
                    lemma_tdiv_mag(
                        (rec.normal.z as int + SCALE as int) * HALF as int,
                        SCALE as int,
                        200_000_000_000_000_000_000,
                    );
                }
                let cx: i128 = div_trunc(
                    ((rec.normal.x as i128) + SCALE as i128) * (HALF as i128),
                    SCALE as i128,
                );
                let cy: i128 = div_trunc(
                    ((rec.normal.y as i128) + SCALE as i128) * (HALF as i128),
                    SCALE as i128,
                );
                let cz: i128 = div_trunc(
                    ((rec.normal.z as i128) + SCALE as i128) * (HALF as i128),
                    SCALE as i128,
                );
                Rgb { x: byte_exec(cx), y: byte_exec(cy), z: byte_exec(cz) }
            },
            None => {
                proof {
                    if is_zero(self.direction) {
                        assert(dot3(self.direction, self.direction) == 0);
                    }
                }
                let u = self.direction.unit();
                proof {
                    lemma_mul_mag(
                        u.y as int + SCALE as int,
                        200_000_000_000_000,
                        HALF as int,
                        HALF as int,
                    );
                    lemma_tdiv_mag(
                        (u.y as int + SCALE as int) * HALF as int,
                        SCALE as int,
                        100_000_000_000_000_000_000,
                    );
                }
                let t: i128 = div_trunc(
                    ((u.y as i128) + SCALE as i128) * (HALF as i128),
                    SCALE as i128,
                );
                proof {
                    lemma_mul_mag(
                        SCALE as int,
                        SCALE as int,
                        SCALE as int - t as int,
                        200_000_000_000_000,
                    );
                    lemma_tdiv_mag(
                        SCALE as int * (SCALE as int - t as int),
                        SCALE as int,
                        200_000_000_000_000_000_000,
                    );
                    lemma_mul_mag(SKY_X as int, SCALE as int, t as int, 200_000_000_000_000);
                    lemma_mul_mag(SKY_Y as int, SCALE as int, t as int, 200_000_000_000_000);
                    lemma_mul_mag(SKY_Z as int, SCALE as int, t as int, 200_000_000_000_000);
                    lemma_tdiv_mag(
                        SKY_X as int * t as int,
                        SCALE as int,
                        200_000_000_000_000_000_000,
                    );
                    lemma_tdiv_mag(
                        SKY_Y as int * t as int,
                        SCALE as int,
                        200_000_000_000_000_000_000,
                    );
                    lemma_tdiv_mag(
                        SKY_Z as int * t as int,
                        SCALE as int,
                        200_000_000_000_000_000_000,
                    );
                }
                let white: i128 = div_trunc(
                    (SCALE as i128) * ((SCALE as i128) - t),
                    SCALE as i128,
                );
                let gx: i128 = white + div_trunc((SKY_X as i128) * t, SCALE as i128);
                let gy: i128 = white + div_trunc((SKY_Y as i128) * t, SCALE as i128);
                let gz: i128 = white + div_trunc((SKY_Z as i128) * t, SCALE as i128);
                Rgb { x: byte_exec(gx), y: byte_exec(gy), z: byte_exec(gz) }
            },
        }
    }
}

} // verus!
