//! Three-component vectors over fixed-point scalars, with exact integer
//! dot products, differences, negation and normalization.

use vstd::prelude::*;
use crate::num::{
    div_trunc, isqrt, lemma_mul_mag, lemma_sqrt_floor_is, lemma_tdiv_mag, sqrt_floor, tdiv,
    MAX_COORD, SCALE,
};

verus! {

/// Magnitude bound on every scalar the pipeline stores in a vector:
/// coordinates stay within `MAX_COORD` and oriented normals within
/// `2 * MAX_COORD * SCALE`, both well inside this bound.
pub const VAL_MAX: i64 = 1_000_000_000_000_000;

/// A point or direction in space, each component a fixed-point scalar
/// counted in `SCALE`ths of a unit.
#[derive(Clone, Copy, PartialEq, Eq, Structural, Debug)]
pub struct Vec3 {
    pub x: i64,
    pub y: i64,
    pub z: i64,
}

/// Every component of `v` has magnitude at most `b`.
pub open spec fn in_bounds(v: Vec3, b: int) -> bool {
    &&& -b <= v.x <= b
    &&& -b <= v.y <= b
    &&& -b <= v.z <= b
}

pub open spec fn is_zero(v: Vec3) -> bool {
    v.x == 0 && v.y == 0 && v.z == 0
}

/// The dot product of two vectors as an exact integer; it carries the
/// product of both operands' scale factors.
pub open spec fn dot3(u: Vec3, v: Vec3) -> int {
    u.x * v.x + u.y * v.y + u.z * v.z
}

pub open spec fn neg3(v: Vec3) -> Vec3 {
    Vec3 { x: (-v.x) as i64, y: (-v.y) as i64, z: (-v.z) as i64 }
}

pub open spec fn sub3(u: Vec3, v: Vec3) -> Vec3 {
    Vec3 { x: (u.x - v.x) as i64, y: (u.y - v.y) as i64, z: (u.z - v.z) as i64 }
}

/// The unit vector along `v`: each component is rescaled by `SCALE` and
/// divided by the integer length of `v` (meaningful for nonzero `v`).
pub open spec fn unit3(v: Vec3) -> Vec3 {
    let m = sqrt_floor(dot3(v, v));
    Vec3 {
        x: tdiv(v.x * SCALE as int, m) as i64,
        y: tdiv(v.y * SCALE as int, m) as i64,
        z: tdiv(v.z * SCALE as int, m) as i64,
    }
}

/// Componentwise magnitude bounds bound the dot product.
pub proof fn lemma_dot3_mag(u: Vec3, v: Vec3, bu: int, bv: int)
    requires
        in_bounds(u, bu),
        in_bounds(v, bv),
    ensures
        -3 * (bu * bv) <= dot3(u, v) <= 3 * (bu * bv),
{
    lemma_mul_mag(u.x as int, bu, v.x as int, bv);
    lemma_mul_mag(u.y as int, bu, v.y as int, bv);
    lemma_mul_mag(u.z as int, bu, v.z as int, bv);
}

/// A vector's dot product with itself is nonnegative, and at least 1
/// unless the vector is zero.
pub proof fn lemma_dot3_self(v: Vec3)
    ensures
        dot3(v, v) >= 0,
        !is_zero(v) ==> dot3(v, v) >= 1,
{
    assert(v.x * v.x >= 0 && v.y * v.y >= 0 && v.z * v.z >= 0) by (nonlinear_arith);
    if !is_zero(v) {
        assert(v.x != 0 ==> v.x * v.x >= 1) by (nonlinear_arith);
        assert(v.y != 0 ==> v.y * v.y >= 1) by (nonlinear_arith);
        assert(v.z != 0 ==> v.z * v.z >= 1) by (nonlinear_arith);
    }
}

impl Vec3 {
    pub fn new(x: i64, y: i64, z: i64) -> (v: Vec3)
        ensures
            v == (Vec3 { x, y, z }),
    {
        Vec3 { x, y, z }
    }

    /// Componentwise difference.
    pub fn minus(&self, other: &Vec3) -> (r: Vec3)
        requires
            in_bounds(*self, VAL_MAX as int),
            in_bounds(*other, VAL_MAX as int),
        ensures
            r == sub3(*self, *other),
            in_bounds(r, 2 * VAL_MAX as int),
    {
        Vec3 { x: self.x - other.x, y: self.y - other.y, z: self.z - other.z }
    }

    /// Componentwise negation.
    pub fn negated(&self) -> (r: Vec3)
        requires
            in_bounds(*self, VAL_MAX as int),
        ensures
            r == neg3(*self),
            in_bounds(r, VAL_MAX as int),
    {
        Vec3 { x: -self.x, y: -self.y, z: -self.z }
    }

    /// The exact integer dot product.
    pub fn dot_scaled(&self, other: &Vec3) -> (r: i128)
        requires
            in_bounds(*self, VAL_MAX as int),
            in_bounds(*other, VAL_MAX as int),
        ensures
            r == dot3(*self, *other),
    {
        proof {
            lemma_mul_mag(self.x as int, VAL_MAX as int, other.x as int, VAL_MAX as int);
            lemma_mul_mag(self.y as int, VAL_MAX as int, other.y as int, VAL_MAX as int);
            lemma_mul_mag(self.z as int, VAL_MAX as int, other.z as int, VAL_MAX as int);
        }
        (self.x as i128) * (other.x as i128) + (self.y as i128) * (other.y as i128) + (self.z
            as i128) * (other.z as i128)
    }

    /// The unit vector along `self`, in fixed-point units.
    pub fn unit(&self) -> (r: Vec3)
        requires
            in_bounds(*self, MAX_COORD as int),
            !is_zero(*self),
        ensures
            r == unit3(*self),
            in_bounds(r, MAX_COORD as int * SCALE as int),
    {
        let d: i128 = self.dot_scaled(self);
        proof {
            lemma_dot3_self(*self);
            lemma_dot3_mag(*self, *self, MAX_COORD as int, MAX_COORD as int);
        }
        let m: u128 = isqrt(d as u128);
        proof {
            lemma_sqrt_floor_is(d as int, m as int);
            assert(1 <= m as int) by (nonlinear_arith)
                requires
                    0 <= m as int,
                    (d as int) < (m as int + 1) * (m as int + 1),
                    1 <= d as int,
            ;
            assert(m as int <= 200_000_000) by (nonlinear_arith)
                requires
                    0 <= m as int,
                    (m as int) * (m as int) <= d as int,
                    d as int <= 30_000_000_000_000_000,
            ;
            lemma_mul_mag(self.x as int, MAX_COORD as int, SCALE as int, SCALE as int);
            lemma_mul_mag(self.y as int, MAX_COORD as int, SCALE as int, SCALE as int);
            lemma_mul_mag(self.z as int, MAX_COORD as int, SCALE as int, SCALE as int);
            lemma_tdiv_mag(
                self.x as int * SCALE as int,
                m as int,
                MAX_COORD as int * SCALE as int,
            );
            lemma_tdiv_mag(
                self.y as int * SCALE as int,
                m as int,
                MAX_COORD as int * SCALE as int,
            );
            lemma_tdiv_mag(
                self.z as int * SCALE as int,
                m as int,
                MAX_COORD as int * SCALE as int,
            );
        }
        let mi: i128 = m as i128;
        let rx: i128 = div_trunc((self.x as i128) * (SCALE as i128), mi);
        let ry: i128 = div_trunc((self.y as i128) * (SCALE as i128), mi);
        let rz: i128 = div_trunc((self.z as i128) * (SCALE as i128), mi);
        Vec3 { x: rx as i64, y: ry as i64, z: rz as i64 }
    }
}

} // verus!
