//! Plane vectors on the fixed-point grid, and rotations given by a
//! fixed-point cosine/sine pair.

use vstd::prelude::*;

use crate::fixed::SCALE;
use crate::fixed::div_toward_zero;
use crate::fixed::in_range;
use crate::fixed::isqrt;
use crate::fixed::lemma_sqrt_floor;
use crate::fixed::lemma_sqrt_floor_ge;
use crate::fixed::lemma_sqrt_floor_lt;
use crate::fixed::lemma_tdiv_bounds;
use crate::fixed::lemma_tdiv_mag;
use crate::fixed::mul_div;
use crate::fixed::sqrt_floor;
use crate::fixed::tdiv;
use crate::EditorError;

verus! {

/// A point or displacement of the plane: `x` and `y` count grid steps
/// of `1 / SCALE` canvas units each.
#[derive(Clone, Copy, Debug, PartialEq, Eq, Structural)]
pub struct Vector {
    pub x: i64,
    pub y: i64,
}

/// Both coordinates lie on the representable part of the grid.
pub open spec fn vec_in_range(v: Vector) -> bool {
    in_range(v.x as int) && in_range(v.y as int)
}

/// Every vertex of the sequence lies on the representable grid.
pub open spec fn pts_in_range(ps: Seq<Vector>) -> bool {
    forall|i: int| 0 <= i < ps.len() ==> vec_in_range(#[trigger] ps[i])
}

/// Dividing one grid scalar by another: `n` is a raw numerator, `d` a
/// raw divisor of either sign (`d != 0`); the quotient rounds toward zero.
pub open spec fn sdiv(n: int, d: int) -> int {
    if d >= 0 {
        tdiv(n, d)
    } else {
        -tdiv(n, -d)
    }
}

impl Vector {
    /// The vector with the given coordinates.
    pub fn new_with_data(x: i64, y: i64) -> (r: Vector)
        ensures
            r == (Vector { x, y }),
    {
        Vector { x, y }
    }

    /// The origin.
    pub fn zero() -> (r: Vector)
        ensures
            r == (Vector { x: 0i64, y: 0i64 }),
    {
        Vector { x: 0, y: 0 }
    }

    /// First coordinate.
    pub fn x(&self) -> (r: i64)
        ensures
            r == self.x,
    {
        self.x
    }

    /// Second coordinate.
    pub fn y(&self) -> (r: i64)
        ensures
            r == self.y,
    {
        self.y
    }

    /// Replace the first coordinate.
    pub fn set_x(&mut self, x: i64)
        ensures
            *final(self) == (Vector { x, y: old(self).y }),
    {
        self.x = x;
    }

    /// Replace the second coordinate.
    pub fn set_y(&mut self, y: i64)
        ensures
            *final(self) == (Vector { x: old(self).x, y }),
    {
        self.y = y;
    }

    /// Componentwise sum.
    pub fn add(self, other: Vector) -> (r: Vector)
        requires
            in_range(self.x + other.x),
            in_range(self.y + other.y),
        ensures
            r.x == self.x + other.x,
            r.y == self.y + other.y,
    {
        Vector { x: self.x + other.x, y: self.y + other.y }
    }

    /// Componentwise difference.
    pub fn sub(self, other: Vector) -> (r: Vector)
        requires
            in_range(self.x - other.x),
            in_range(self.y - other.y),
        ensures
            r.x == self.x - other.x,
            r.y == self.y - other.y,
    {
        Vector { x: self.x - other.x, y: self.y - other.y }
    }

    /// Scaling by the grid scalar `k`.
    pub fn mul(self, k: i64) -> (r: Vector)
        requires
            in_range(tdiv(self.x * k, SCALE as int)),
            in_range(tdiv(self.y * k, SCALE as int)),
        ensures
            r.x == tdiv(self.x * k, SCALE as int),
            r.y == tdiv(self.y * k, SCALE as int),
    {
        Vector { x: mul_div(self.x, k, SCALE), y: mul_div(self.y, k, SCALE) }
    }

    /// Division by the grid scalar `k`; division by zero is reported.
    pub fn div(self, k: i64) -> (r: Result<Vector, EditorError>)
        requires
            in_range(sdiv(self.x * SCALE, k as int)),
            in_range(sdiv(self.y * SCALE, k as int)),
        ensures
            k == 0 <==> r is Err,
            r matches Err(e) ==> e == EditorError::DivisionByZero,
            r matches Ok(v) ==> v.x == sdiv(self.x * SCALE, k as int)
                && v.y == sdiv(self.y * SCALE, k as int),
    {
        if k == 0 {
            Err(EditorError::DivisionByZero)
        } else {
            proof {
                lemma_prod_bound(self.x as int, SCALE as int);
                lemma_prod_bound(self.y as int, SCALE as int);
            }
            let px: i128 = (self.x as i128) * (SCALE as i128);
            let py: i128 = (self.y as i128) * (SCALE as i128);
            if k > 0 {
                let qx: i128 = div_toward_zero(px, k as i128);
                let qy: i128 = div_toward_zero(py, k as i128);
                Ok(Vector { x: qx as i64, y: qy as i64 })
            } else {
                let dn: i128 = -(k as i128);
                proof {
                    lemma_tdiv_bounds(px as int, dn as int);
                    lemma_tdiv_bounds(py as int, dn as int);
                }
                let qx: i128 = -div_toward_zero(px, dn);
                let qy: i128 = -div_toward_zero(py, dn);
                Ok(Vector { x: qx as i64, y: qy as i64 })
            }
        }
    }

    /// Scalar product, as a grid scalar.
    pub fn dot(self, other: Vector) -> (r: i64)
        requires
            vec_in_range(self),
            vec_in_range(other),
            in_range(tdiv(self.x * other.x + self.y * other.y, SCALE as int)),
        ensures
            r == tdiv(self.x * other.x + self.y * other.y, SCALE as int),
    {
        proof {
            lemma_prod_bound(self.x as int, other.x as int);
            lemma_prod_bound(self.y as int, other.y as int);
        }
        let p: i128 = (self.x as i128) * (other.x as i128) + (self.y as i128) * (other.y as i128);
        let q: i128 = div_toward_zero(p, SCALE as i128);
        q as i64
    }

    /// Cross product (z-component), as a grid scalar.
    pub fn cross(self, other: Vector) -> (r: i64)
        requires
            vec_in_range(self),
            vec_in_range(other),
            in_range(tdiv(self.x * other.y - self.y * other.x, SCALE as int)),
        ensures
            r == tdiv(self.x * other.y - self.y * other.x, SCALE as int),
    {
        proof {
            lemma_prod_bound(self.x as int, other.y as int);
            lemma_prod_bound(self.y as int, other.x as int);
        }
        let p: i128 = (self.x as i128) * (other.y as i128) - (self.y as i128) * (other.x as i128);
        let q: i128 = div_toward_zero(p, SCALE as i128);
        q as i64
    }

    /// Euclidean length, rounded down to the grid.
    pub fn length(self) -> (r: i64)
        requires
            vec_in_range(self),
        ensures
            r == sqrt_floor(self.x * self.x + self.y * self.y),
            0 <= r < 0x4000_0000_0000_0000,
    {
        proof {
            assert(0 <= self.x * self.x <= 0x0400_0000_0000_0000_0000_0000_0000_0000
                && 0 <= self.y * self.y <= 0x0400_0000_0000_0000_0000_0000_0000_0000)
                by (nonlinear_arith)
                requires -0x2000_0000_0000_0000 <= self.x as int <= 0x2000_0000_0000_0000
                    && -0x2000_0000_0000_0000 <= self.y as int <= 0x2000_0000_0000_0000;
            assert(0x4000_0000_0000_0000 * 0x4000_0000_0000_0000
                == 0x1000_0000_0000_0000_0000_0000_0000_0000) by (nonlinear_arith);
            lemma_sqrt_floor_lt(self.x * self.x + self.y * self.y, 0x4000_0000_0000_0000);
        }
        norm_of(self)
    }

    /// Distance to `other`, rounded down to the grid.
    pub fn distance_to(self, other: Vector) -> (r: i64)
        requires
            vec_in_range(self),
            vec_in_range(other),
        ensures
            r == sqrt_floor(
                (self.x - other.x) * (self.x - other.x)
                    + (self.y - other.y) * (self.y - other.y),
            ),
            0 <= r,
    {
        let d = Vector { x: self.x - other.x, y: self.y - other.y };
        norm_of(d)
    }

    /// The unit vector with this direction; the zero vector has none.
    pub fn normalize(self) -> (r: Result<Vector, EditorError>)
        requires
            vec_in_range(self),
        ensures
            self.x == 0 && self.y == 0 <==> r is Err,
            r matches Err(e) ==> e == EditorError::DivisionByZero,
            r matches Ok(u) ==> {
                let n = sqrt_floor(self.x * self.x + self.y * self.y);
                u.x == tdiv(self.x * SCALE, n) && u.y == tdiv(self.y * SCALE, n)
                    && -SCALE <= u.x <= SCALE && -SCALE <= u.y <= SCALE
            },
    {
        let n: i64 = norm_of(self);
        if n == 0 {
            proof {
                let sq = self.x * self.x + self.y * self.y;
                assert(self.x * self.x >= 0 && self.y * self.y >= 0) by (nonlinear_arith);
                assert((-self.x) * (-self.x) == self.x * self.x) by (nonlinear_arith);
                assert((-self.y) * (-self.y) == self.y * self.y) by (nonlinear_arith);
                lemma_sqrt_floor_ge(sq, if self.x >= 0 { self.x as int } else { -self.x as int });
                lemma_sqrt_floor_ge(sq, if self.y >= 0 { self.y as int } else { -self.y as int });
            }
            Err(EditorError::DivisionByZero)
        } else {
            proof {
                if self.x == 0 && self.y == 0 {
                    assert(self.x * self.x + self.y * self.y == 0) by (nonlinear_arith)
                        requires self.x == 0 && self.y == 0;
                    assert(sqrt_floor(0) == 0);
                }
                let sq = self.x * self.x + self.y * self.y;
                assert(self.x * self.x >= 0 && self.y * self.y >= 0) by (nonlinear_arith);
                assert((-self.x) * (-self.x) == self.x * self.x) by (nonlinear_arith);
                assert((-self.y) * (-self.y) == self.y * self.y) by (nonlinear_arith);
                lemma_sqrt_floor_ge(sq, if self.x >= 0 { self.x as int } else { -self.x as int });
                lemma_sqrt_floor_ge(sq, if self.y >= 0 { self.y as int } else { -self.y as int });
                assert(-(n as int) * SCALE <= self.x * SCALE <= (n as int) * SCALE)
                    by (nonlinear_arith)
                    requires -(n as int) <= self.x as int <= n as int && n >= 0;
                assert(-(n as int) * SCALE <= self.y * SCALE <= (n as int) * SCALE)
                    by (nonlinear_arith)
                    requires -(n as int) <= self.y as int <= n as int && n >= 0;
                lemma_tdiv_mag(self.x * SCALE, n as int, SCALE as int);
                lemma_tdiv_mag(self.y * SCALE, n as int, SCALE as int);
            }
            let ux: i64 = mul_div(self.x, SCALE, n);
            let uy: i64 = mul_div(self.y, SCALE, n);
            Ok(Vector { x: ux, y: uy })
        }
    }

    /// Rotation about the origin by the angle that `rot` stands for.
    pub fn rotate(self, rot: Rotation) -> (r: Vector)
        requires
            vec_in_range(self),
            rot.wf(),
            in_range(tdiv(self.x * rot.c - self.y * rot.s, SCALE as int)),
            in_range(tdiv(self.x * rot.s + self.y * rot.c, SCALE as int)),
        ensures
            r.x == tdiv(self.x * rot.c - self.y * rot.s, SCALE as int),
            r.y == tdiv(self.x * rot.s + self.y * rot.c, SCALE as int),
    {
        proof {
            lemma_prod_bound(self.x as int, rot.c as int);
            lemma_prod_bound(self.y as int, rot.s as int);
            lemma_prod_bound(self.x as int, rot.s as int);
            lemma_prod_bound(self.y as int, rot.c as int);
        }
        let px: i128 = (self.x as i128) * (rot.c as i128) - (self.y as i128) * (rot.s as i128);
        let py: i128 = (self.x as i128) * (rot.s as i128) + (self.y as i128) * (rot.c as i128);
        let qx: i128 = div_toward_zero(px, SCALE as i128);
        let qy: i128 = div_toward_zero(py, SCALE as i128);
        Vector { x: qx as i64, y: qy as i64 }
    }
}

/// A rotation of the plane, stored as the fixed-point cosine and sine of
/// its angle.
#[derive(Clone, Copy, Debug, PartialEq, Eq, Structural)]
pub struct Rotation {
    pub c: i64,
    pub s: i64,
}

impl Rotation {
    /// Cosine and sine magnitudes stay within one canvas unit.
    pub open spec fn wf(self) -> bool {
        -SCALE <= self.c <= SCALE && -SCALE <= self.s <= SCALE
    }

    /// The rotation with the given fixed-point cosine and sine.
    pub fn new(c: i64, s: i64) -> (r: Rotation)
        ensures
            r == (Rotation { c, s }),
    {
        Rotation { c, s }
    }

    /// The rotation by no angle at all.
    pub fn identity() -> (r: Rotation)
        ensures
            r == (Rotation { c: SCALE, s: 0i64 }),
            r.wf(),
    {
        Rotation { c: SCALE, s: 0 }
    }

    /// The rotation by the opposite angle.
    pub fn inverse(self) -> (r: Rotation)
        requires
            self.wf(),
        ensures
            r.c == self.c,
            r.s == -self.s,
            r.wf(),
    {
        Rotation { c: self.c, s: -self.s }
    }
}

/// Products of two in-range scalars stay clear of the `i128` edges.
proof fn lemma_prod_bound(a: int, b: int)
    requires
        -0x8000_0000_0000_0000 <= a <= 0x7FFF_FFFF_FFFF_FFFF,
        -0x8000_0000_0000_0000 <= b <= 0x7FFF_FFFF_FFFF_FFFF,
    ensures
        -0x4000_0000_0000_0000_0000_0000_0000_0000 < a * b
            <= 0x4000_0000_0000_0000_0000_0000_0000_0000,
{
    assert(-0x4000_0000_0000_0000_0000_0000_0000_0000 < a * b
        <= 0x4000_0000_0000_0000_0000_0000_0000_0000) by (nonlinear_arith)
        requires -0x8000_0000_0000_0000 <= a <= 0x7FFF_FFFF_FFFF_FFFF
            && -0x8000_0000_0000_0000 <= b <= 0x7FFF_FFFF_FFFF_FFFF;
}

/// Floor-rounded Euclidean norm of a vector whose coordinates may reach
/// twice the grid limit, as a difference of two in-range points can.
fn norm_of(v: Vector) -> (r: i64)
    requires
        -0x4000_0000_0000_0000 <= v.x <= 0x4000_0000_0000_0000,
        -0x4000_0000_0000_0000 <= v.y <= 0x4000_0000_0000_0000,
    ensures
        r == sqrt_floor(v.x * v.x + v.y * v.y),
        0 <= r < 0x8000_0000_0000_0000,
{
    proof {
        assert(0 <= v.x * v.x <= 0x1000_0000_0000_0000_0000_0000_0000_0000
            && 0 <= v.y * v.y <= 0x1000_0000_0000_0000_0000_0000_0000_0000) by (nonlinear_arith)
            requires -0x4000_0000_0000_0000 <= v.x as int <= 0x4000_0000_0000_0000
                && -0x4000_0000_0000_0000 <= v.y as int <= 0x4000_0000_0000_0000;
        assert(0x8000_0000_0000_0000 * 0x8000_0000_0000_0000
            == 0x4000_0000_0000_0000_0000_0000_0000_0000) by (nonlinear_arith);
        lemma_sqrt_floor_lt(
            v.x * v.x + v.y * v.y,
            0x8000_0000_0000_0000,
        );
    }
    let px: i128 = (v.x as i128) * (v.x as i128);
    let py: i128 = (v.y as i128) * (v.y as i128);
    let s: u128 = (px + py) as u128;
    let r: u64 = isqrt(s);
    r as i64
}

/// A coordinate that may be the difference of two in-range scalars:
/// twice the grid limit.
pub open spec fn in_diff_range(c: int) -> bool {
    -0x4000_0000_0000_0000 <= c <= 0x4000_0000_0000_0000
}

/// Both coordinates of a difference vector lie within twice the limit.
pub open spec fn vec_in_diff_range(v: Vector) -> bool {
    in_diff_range(v.x as int) && in_diff_range(v.y as int)
}

/// The first coordinate of the unit vector along `v` (`v` nonzero).
pub open spec fn unit_x(v: Vector) -> int {
    tdiv(v.x * SCALE, sqrt_floor(v.x * v.x + v.y * v.y))
}

/// The second coordinate of the unit vector along `v` (`v` nonzero).
pub open spec fn unit_y(v: Vector) -> int {
    tdiv(v.y * SCALE, sqrt_floor(v.x * v.x + v.y * v.y))
}

/// Hold a scalar to the unit interval of the grid: rounding can push a
/// cosine or sine a few steps past `SCALE`, never the mathematics.
pub open spec fn clamp_unit(c: int) -> int {
    if c > SCALE as int {
        SCALE as int
    } else if c < -(SCALE as int) {
        -(SCALE as int)
    } else {
        c
    }
}

/// The fixed-point cosine of the angle from `w` to `u`.
pub open spec fn rot_c(u: Vector, w: Vector) -> int {
    clamp_unit(tdiv(unit_x(u) * unit_x(w) + unit_y(u) * unit_y(w), SCALE as int))
}

/// The fixed-point sine of the angle from `w` to `u`.
pub open spec fn rot_s(u: Vector, w: Vector) -> int {
    clamp_unit(tdiv(unit_x(w) * unit_y(u) - unit_y(w) * unit_x(u), SCALE as int))
}

/// The ratio of the lengths of `u` and `w`, as a grid scalar.
pub open spec fn scale_factor(u: Vector, w: Vector) -> int {
    tdiv(sqrt_floor(u.x * u.x + u.y * u.y) * SCALE, sqrt_floor(w.x * w.x + w.y * w.y))
}

/// The unit vector along a difference vector; its coordinates stay
/// within one canvas unit.
fn unit_of(v: Vector) -> (r: Vector)
    requires
        vec_in_diff_range(v),
        v.x != 0 || v.y != 0,
    ensures
        r.x == unit_x(v),
        r.y == unit_y(v),
        -SCALE <= r.x <= SCALE,
        -SCALE <= r.y <= SCALE,
{
    let n: i64 = norm_of(v);
    proof {
        let sq = v.x * v.x + v.y * v.y;
        assert(v.x * v.x >= 0 && v.y * v.y >= 0) by (nonlinear_arith);
        assert((-v.x) * (-v.x) == v.x * v.x) by (nonlinear_arith);
        assert((-v.y) * (-v.y) == v.y * v.y) by (nonlinear_arith);
        assert(v.x != 0 ==> v.x * v.x >= 1 && v.y != 0 ==> v.y * v.y >= 1) by (nonlinear_arith);
        lemma_sqrt_floor_ge(sq, if v.x >= 0 { v.x as int } else { -v.x as int });
        lemma_sqrt_floor_ge(sq, if v.y >= 0 { v.y as int } else { -v.y as int });
        if n == 0 {
            lemma_sqrt_floor(sq);
        }
        assert(n >= 1);
        assert(-(n as int) * SCALE <= v.x * SCALE <= (n as int) * SCALE) by (nonlinear_arith)
            requires -(n as int) <= v.x as int <= n as int && n >= 0;
        assert(-(n as int) * SCALE <= v.y * SCALE <= (n as int) * SCALE) by (nonlinear_arith)
            requires -(n as int) <= v.y as int <= n as int && n >= 0;
        lemma_tdiv_mag(v.x * SCALE, n as int, SCALE as int);
        lemma_tdiv_mag(v.y * SCALE, n as int, SCALE as int);
    }
    let ux: i64 = mul_div(v.x, SCALE, n);
    let uy: i64 = mul_div(v.y, SCALE, n);
    Vector { x: ux, y: uy }
}

/// The rotation that carries the direction of `w` to the direction of
/// `u`; undefined when either is the zero vector.
pub fn rotation_between(u: Vector, w: Vector) -> (r: Result<Rotation, EditorError>)
    requires
        vec_in_diff_range(u),
        vec_in_diff_range(w),
    ensures
        (u.x == 0 && u.y == 0) || (w.x == 0 && w.y == 0) <==> r is Err,
        r matches Err(e) ==> e == EditorError::DivisionByZero,
        r matches Ok(rot) ==> rot.c == rot_c(u, w) && rot.s == rot_s(u, w) && rot.wf(),
{
    if (u.x == 0 && u.y == 0) || (w.x == 0 && w.y == 0) {
        return Err(EditorError::DivisionByZero);
    }
    let nu = unit_of(u);
    let nw = unit_of(w);
    proof {
        assert(-0x2_0000_0000_0000 <= nu.x * nw.x <= 0x2_0000_0000_0000
            && -0x2_0000_0000_0000 <= nu.y * nw.y <= 0x2_0000_0000_0000
            && -0x2_0000_0000_0000 <= nw.x * nu.y <= 0x2_0000_0000_0000
            && -0x2_0000_0000_0000 <= nw.y * nu.x <= 0x2_0000_0000_0000)
            by (nonlinear_arith)
            requires -1_000_000 <= nu.x as int <= 1_000_000
                && -1_000_000 <= nu.y as int <= 1_000_000
                && -1_000_000 <= nw.x as int <= 1_000_000
                && -1_000_000 <= nw.y as int <= 1_000_000;
        lemma_tdiv_bounds(nu.x * nw.x + nu.y * nw.y, SCALE as int);
        lemma_tdiv_bounds(nw.x * nu.y - nw.y * nu.x, SCALE as int);
        lemma_tdiv_bounds(-(nu.x * nw.x + nu.y * nw.y), SCALE as int);
        lemma_tdiv_bounds(-(nw.x * nu.y - nw.y * nu.x), SCALE as int);
    }
    let dotp: i64 = nu.x * nw.x + nu.y * nw.y;
    let crossp: i64 = nw.x * nu.y - nw.y * nu.x;
    let c0: i128 = div_toward_zero(dotp as i128, SCALE as i128);
    let s0: i128 = div_toward_zero(crossp as i128, SCALE as i128);
    let c: i64 = if c0 > SCALE as i128 {
        SCALE
    } else if c0 < -(SCALE as i128) {
        -SCALE
    } else {
        c0 as i64
    };
    let s: i64 = if s0 > SCALE as i128 {
        SCALE
    } else if s0 < -(SCALE as i128) {
        -SCALE
    } else {
        s0 as i64
    };
    Ok(Rotation { c, s })
}

/// The ratio of the lengths of `u` and `w` as a grid scalar, rounded
/// toward zero; `None` when `w` is the zero vector or the ratio leaves
/// the machine range.
pub fn scale_factor_between(u: Vector, w: Vector) -> (r: Option<i64>)
    requires
        vec_in_diff_range(u),
        vec_in_diff_range(w),
    ensures
        r is None <==> (w.x == 0 && w.y == 0) || scale_factor(u, w) > i64::MAX,
        r matches Some(f) ==> f == scale_factor(u, w) && f >= 0,
{
    let nu: i64 = norm_of(u);
    let nw: i64 = norm_of(w);
    if nw == 0 {
        proof {
            let sq = w.x * w.x + w.y * w.y;
            assert(w.x * w.x >= 0 && w.y * w.y >= 0) by (nonlinear_arith);
            assert((-w.x) * (-w.x) == w.x * w.x) by (nonlinear_arith);
            assert((-w.y) * (-w.y) == w.y * w.y) by (nonlinear_arith);
            lemma_sqrt_floor_ge(sq, if w.x >= 0 { w.x as int } else { -w.x as int });
            lemma_sqrt_floor_ge(sq, if w.y >= 0 { w.y as int } else { -w.y as int });
            lemma_sqrt_floor(sq);
            assert(w.x != 0 ==> w.x * w.x >= 1) by (nonlinear_arith);
            assert(w.y != 0 ==> w.y * w.y >= 1) by (nonlinear_arith);
        }
        return None;
    }
    proof {
        assert(w.x == 0 && w.y == 0 ==> w.x * w.x + w.y * w.y == 0) by (nonlinear_arith);
        assert(sqrt_floor(0) == 0);
        assert(0 <= (nu as int) * (SCALE as int) <= 0x8_0000_0000_0000_0000_0000)
            by (nonlinear_arith)
            requires 0 <= nu && (nu as int) < 0x8000_0000_0000_0000 && SCALE == 1_000_000;
        lemma_tdiv_bounds((nu as int) * (SCALE as int), nw as int);
    }
    let num: i128 = (nu as i128) * (SCALE as i128);
    let f: i128 = div_toward_zero(num, nw as i128);
    if f > i64::MAX as i128 {
        return None;
    }
    Some(f as i64)
}

} // verus!
