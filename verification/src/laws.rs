//! The algebra of the transforms, proved once and for all vertices.
//!
//! Each law is stated over the same spec functions that the transform
//! methods of [`crate::shape::Shape`] promise in their contracts, so it
//! applies to every vertex of every shape they touch.

use vstd::prelude::*;

use crate::fixed::SCALE;
use crate::fixed::in_range;
use crate::fixed::lemma_tdiv_exact;
use crate::fixed::tdiv;
use crate::shape::map_ok;
use crate::shape::map_pts;
use crate::shape::pt_of;
use crate::shape::rot_pt;
use crate::shape::scale_pt;
use crate::shape::shift_pt;
use crate::shape::try_map;
use crate::shape::vec_of;
use crate::vec2::Vector;
use crate::vec2::pts_in_range;

verus! {

/// Shifting by `d` and then by `-d` restores every vertex exactly: a
/// shift is a pure translation on the grid.
pub proof fn lemma_shift_round_trip(p: (int, int), d: (int, int))
    ensures
        shift_pt(shift_pt(p, d), (-d.0, -d.1)) == p,
{
}

/// A rotation moves no vertex that sits on its own pivot, whatever its
/// angle.
pub proof fn lemma_rotate_fixes_pivot(r: (int, int), v: (int, int))
    ensures
        rot_pt(v, r, v) == v,
{
    assert((v.0 - v.0) * r.0 == 0 && (v.1 - v.1) * r.1 == 0 && (v.0 - v.0) * r.1 == 0
        && (v.1 - v.1) * r.0 == 0) by (nonlinear_arith);
    assert(tdiv(0, SCALE as int) == 0);
}

/// A scaling moves no vertex that sits on its own pivot, whatever its
/// factors.
pub proof fn lemma_scale_fixes_pivot(k: (int, int), v: (int, int))
    ensures
        scale_pt(v, k, v) == v,
{
    assert((v.0 - v.0) * k.0 == 0 && (v.1 - v.1) * k.1 == 0) by (nonlinear_arith);
    assert(tdiv(0, SCALE as int) == 0);
}

/// Ring algebra of the inverse rotation: multiplying the rotated
/// offsets by the opposite coefficients recovers the original offsets,
/// scaled by `sc`.
proof fn lemma_rot_alg_x(dx: int, dy: int, c: int, s: int, sc: int, t1: int, t2: int)
    requires
        t1 * sc == dx * c - dy * s,
        t2 * sc == dx * s + dy * c,
        c * c + s * s == sc * sc,
    ensures
        (t1 * c + t2 * s) * sc == (dx * sc) * sc,
{
    assert((t1 * c + t2 * s) * sc == (t1 * sc) * c + (t2 * sc) * s) by (nonlinear_arith);
    assert((dx * c - dy * s) * c + (dx * s + dy * c) * s == dx * (c * c + s * s))
        by (nonlinear_arith);
    assert(dx * (sc * sc) == (dx * sc) * sc) by (nonlinear_arith);
}

/// The second coordinate of the same ring identity.
proof fn lemma_rot_alg_y(dx: int, dy: int, c: int, s: int, sc: int, t1: int, t2: int)
    requires
        t1 * sc == dx * c - dy * s,
        t2 * sc == dx * s + dy * c,
        c * c + s * s == sc * sc,
    ensures
        (t2 * c - t1 * s) * sc == (dy * sc) * sc,
{
    assert((t2 * c - t1 * s) * sc == (t2 * sc) * c - (t1 * sc) * s) by (nonlinear_arith);
    assert((dx * s + dy * c) * c - (dx * c - dy * s) * s == dy * (c * c + s * s))
        by (nonlinear_arith);
    assert(dy * (sc * sc) == (dy * sc) * sc) by (nonlinear_arith);
}

/// Equal multiples of a positive scalar have equal factors.
proof fn lemma_cancel(x: int, y: int, sc: int)
    by (nonlinear_arith)
    requires
        x * sc == y * sc,
        sc >= 1,
    ensures
        x == y,
{
}

/// A multiple of a positive scalar divides evenly, back to its factor.
proof fn lemma_tdiv_of_multiple(x: int, sc: int)
    requires
        sc >= 1,
    ensures
        (x * sc) % sc == 0,
        tdiv(x * sc, sc) == x,
{
    assert((x * sc) % sc == 0) by (nonlinear_arith)
        requires sc >= 1;
    lemma_tdiv_exact(x * sc, sc);
    lemma_cancel(tdiv(x * sc, sc), x, sc);
}

/// Rotating by an angle and then by its opposite restores every vertex
/// exactly, whenever the rotation coefficients lie on the unit circle of
/// the grid (`c^2 + s^2 == SCALE^2`) and neither step rounds.
pub proof fn lemma_rotate_round_trip(p: (int, int), c: int, s: int, v: (int, int))
    requires
        c * c + s * s == (SCALE as int) * (SCALE as int),
        ((p.0 - v.0) * c - (p.1 - v.1) * s) % (SCALE as int) == 0,
        ((p.0 - v.0) * s + (p.1 - v.1) * c) % (SCALE as int) == 0,
    ensures
        rot_pt(rot_pt(p, (c, s), v), (c, -s), v) == p,
{
    let sc = SCALE as int;
    let dx = p.0 - v.0;
    let dy = p.1 - v.1;
    let n1 = dx * c - dy * s;
    let n2 = dx * s + dy * c;
    let t1 = tdiv(n1, sc);
    let t2 = tdiv(n2, sc);
    lemma_tdiv_exact(n1, sc);
    lemma_tdiv_exact(n2, sc);
    let q = rot_pt(p, (c, s), v);
    assert(q.0 - v.0 == t1 && q.1 - v.1 == t2);
    lemma_rot_alg_x(dx, dy, c, s, sc, t1, t2);
    lemma_rot_alg_y(dx, dy, c, s, sc, t1, t2);
    lemma_cancel(t1 * c + t2 * s, dx * sc, sc);
    lemma_cancel(t2 * c - t1 * s, dy * sc, sc);
    // the numerators of the inverse step, as `rot_pt` spells them
    assert(t2 * (-s) == -(t2 * s)) by (nonlinear_arith);
    assert(t1 * (-s) == -(t1 * s)) by (nonlinear_arith);
    assert((q.0 - v.0) * c - (q.1 - v.1) * (-s) == dx * sc);
    assert((q.0 - v.0) * (-s) + (q.1 - v.1) * c == dy * sc);
    lemma_tdiv_of_multiple(dx, sc);
    lemma_tdiv_of_multiple(dy, sc);
}

/// Ring algebra of composed scalings: both routes from an offset to its
/// doubly scaled value are the same multiple of `sc`.
proof fn lemma_scale_alg(dx: int, k1: int, k2: int, sc: int, t1: int, t2: int, kc: int)
    requires
        t1 * sc == dx * k1,
        t2 * sc == t1 * k2,
        kc * sc == k1 * k2,
    ensures
        (dx * kc) * sc == (t2 * sc) * sc,
{
    assert((dx * kc) * sc == dx * (kc * sc)) by (nonlinear_arith);
    assert(dx * (k1 * k2) == (dx * k1) * k2) by (nonlinear_arith);
    assert((t1 * sc) * k2 == (t1 * k2) * sc) by (nonlinear_arith);
}

/// Scaling by `k1` and then by `k2` about one pivot equals scaling once
/// by their fixed-point product, whenever no step rounds and the product
/// lies on the grid (`SCALE` divides `k1 * k2`).
pub proof fn lemma_scale_compose(p: (int, int), k1: int, k2: int, v: (int, int))
    requires
        (k1 * k2) % (SCALE as int) == 0,
        ((p.0 - v.0) * k1) % (SCALE as int) == 0,
        ((p.1 - v.1) * k1) % (SCALE as int) == 0,
        (tdiv((p.0 - v.0) * k1, SCALE as int) * k2) % (SCALE as int) == 0,
        (tdiv((p.1 - v.1) * k1, SCALE as int) * k2) % (SCALE as int) == 0,
    ensures
        scale_pt(scale_pt(p, (k1, k1), v), (k2, k2), v) == scale_pt(
            p,
            (tdiv(k1 * k2, SCALE as int), tdiv(k1 * k2, SCALE as int)),
            v,
        ),
{
    let sc = SCALE as int;
    let dx = p.0 - v.0;
    let dy = p.1 - v.1;
    let t1 = tdiv(dx * k1, sc);
    let u1 = tdiv(dy * k1, sc);
    lemma_tdiv_exact(dx * k1, sc);
    lemma_tdiv_exact(dy * k1, sc);
    let q = scale_pt(p, (k1, k1), v);
    assert(q.0 - v.0 == t1 && q.1 - v.1 == u1);
    let t2 = tdiv(t1 * k2, sc);
    let u2 = tdiv(u1 * k2, sc);
    lemma_tdiv_exact(t1 * k2, sc);
    lemma_tdiv_exact(u1 * k2, sc);
    let kc = tdiv(k1 * k2, sc);
    lemma_tdiv_exact(k1 * k2, sc);
    // both routes multiply the offset by k1 * k2 / SCALE^2
    lemma_scale_alg(dx, k1, k2, sc, t1, t2, kc);
    lemma_cancel(dx * kc, t2 * sc, sc);
    lemma_scale_alg(dy, k1, k2, sc, u1, u2, kc);
    lemma_cancel(dy * kc, u2 * sc, sc);
    lemma_tdiv_of_multiple(t2, sc);
    lemma_tdiv_of_multiple(u2, sc);
    assert(dx * kc == t2 * sc && dy * kc == u2 * sc);
    assert(scale_pt(scale_pt(p, (k1, k1), v), (k2, k2), v).0 == scale_pt(p, (kc, kc), v).0);
    assert(scale_pt(scale_pt(p, (k1, k1), v), (k2, k2), v).1 == scale_pt(p, (kc, kc), v).1);
}

/// Shift as a whole-shape round trip: translating a shape by `d` and
/// then by `-d` leaves every vertex where it started, whenever the
/// first translation stays on the grid.
pub proof fn lemma_shift_round_trip_shape(ps: Seq<Vector>, d: Vector)
    requires
        pts_in_range(ps),
        map_ok(ps, (|q: (int, int)| shift_pt(q, pt_of(d)))),
    ensures
        try_map(
            try_map(ps, (|q: (int, int)| shift_pt(q, pt_of(d)))),
            (|q: (int, int)| shift_pt(q, (-d.x as int, -d.y as int))),
        ) == ps,
{
    let f = (|q: (int, int)| shift_pt(q, pt_of(d)));
    let g = (|q: (int, int)| shift_pt(q, (-d.x as int, -d.y as int)));
    let s1 = map_pts(ps, f);
    assert forall|i: int| 0 <= i < s1.len() implies {
        let q = g(pt_of(#[trigger] s1[i]));
        in_range(q.0) && in_range(q.1)
    } by {
        assert(s1[i] == vec_of(f(pt_of(ps[i]))));
        lemma_shift_round_trip(pt_of(ps[i]), pt_of(d));
    }
    assert(map_ok(s1, g));
    assert forall|i: int| 0 <= i < ps.len() implies #[trigger] map_pts(s1, g)[i] == ps[i] by {
        assert(s1[i] == vec_of(f(pt_of(ps[i]))));
        lemma_shift_round_trip(pt_of(ps[i]), pt_of(d));
    }
    assert(map_pts(s1, g) =~= ps);
}

/// Rotation as a whole-shape round trip: rotating a shape and then
/// rotating it back restores every vertex, whenever the coefficients
/// lie on the grid's unit circle and no vertex rounds on the way out.
pub proof fn lemma_rotate_round_trip_shape(ps: Seq<Vector>, c: int, s: int, v: Vector)
    requires
        pts_in_range(ps),
        c * c + s * s == (SCALE as int) * (SCALE as int),
        forall|i: int| 0 <= i < ps.len() ==> {
            let q = pt_of(#[trigger] ps[i]);
            ((q.0 - v.x) * c - (q.1 - v.y) * s) % (SCALE as int) == 0
                && ((q.0 - v.x) * s + (q.1 - v.y) * c) % (SCALE as int) == 0
        },
        map_ok(ps, (|q: (int, int)| rot_pt(q, (c, s), pt_of(v)))),
    ensures
        try_map(
            try_map(ps, (|q: (int, int)| rot_pt(q, (c, s), pt_of(v)))),
            (|q: (int, int)| rot_pt(q, (c, -s), pt_of(v))),
        ) == ps,
{
    let f = (|q: (int, int)| rot_pt(q, (c, s), pt_of(v)));
    let g = (|q: (int, int)| rot_pt(q, (c, -s), pt_of(v)));
    let s1 = map_pts(ps, f);
    assert forall|i: int| 0 <= i < s1.len() implies {
        let q = g(pt_of(#[trigger] s1[i]));
        in_range(q.0) && in_range(q.1)
    } by {
        assert(s1[i] == vec_of(f(pt_of(ps[i]))));
        lemma_rotate_round_trip(pt_of(ps[i]), c, s, pt_of(v));
    }
    assert(map_ok(s1, g));
    assert forall|i: int| 0 <= i < ps.len() implies #[trigger] map_pts(s1, g)[i] == ps[i] by {
        assert(s1[i] == vec_of(f(pt_of(ps[i]))));
        lemma_rotate_round_trip(pt_of(ps[i]), c, s, pt_of(v));
    }
    assert(map_pts(s1, g) =~= ps);
}

/// Scale composition as a whole-shape law: scaling a shape uniformly
/// by `k1` and then by `k2` about one pivot equals scaling it once by
/// their fixed-point product, whenever no vertex rounds at any step and
/// the product lies on the grid.
pub proof fn lemma_scale_compose_shape(ps: Seq<Vector>, k1: int, k2: int, v: Vector)
    requires
        pts_in_range(ps),
        (k1 * k2) % (SCALE as int) == 0,
        forall|i: int| 0 <= i < ps.len() ==> {
            let q = pt_of(#[trigger] ps[i]);
            ((q.0 - v.x) * k1) % (SCALE as int) == 0 && ((q.1 - v.y) * k1) % (SCALE as int) == 0
                && (tdiv((q.0 - v.x) * k1, SCALE as int) * k2) % (SCALE as int) == 0
                && (tdiv((q.1 - v.y) * k1, SCALE as int) * k2) % (SCALE as int) == 0
        },
        map_ok(ps, (|q: (int, int)| scale_pt(q, (k1, k1), pt_of(v)))),
        map_ok(
            map_pts(ps, (|q: (int, int)| scale_pt(q, (k1, k1), pt_of(v)))),
            (|q: (int, int)| scale_pt(q, (k2, k2), pt_of(v))),
        ),
    ensures
        try_map(
            try_map(ps, (|q: (int, int)| scale_pt(q, (k1, k1), pt_of(v)))),
            (|q: (int, int)| scale_pt(q, (k2, k2), pt_of(v))),
        ) == try_map(
            ps,
            (|q: (int, int)| scale_pt(
                q,
                (tdiv(k1 * k2, SCALE as int), tdiv(k1 * k2, SCALE as int)),
                pt_of(v),
            )),
        ),
{
    let f1 = (|q: (int, int)| scale_pt(q, (k1, k1), pt_of(v)));
    let f2 = (|q: (int, int)| scale_pt(q, (k2, k2), pt_of(v)));
    let kc = tdiv(k1 * k2, SCALE as int);
    let fc = (|q: (int, int)| scale_pt(q, (kc, kc), pt_of(v)));
    let s1 = map_pts(ps, f1);
    assert forall|i: int| 0 <= i < ps.len() implies #[trigger] fc(pt_of(ps[i])) == f2(
        pt_of(s1[i]),
    ) by {
        assert(s1[i] == vec_of(f1(pt_of(ps[i]))));
        lemma_scale_compose(pt_of(ps[i]), k1, k2, pt_of(v));
    }
    assert forall|i: int| 0 <= i < ps.len() implies {
        let q = fc(pt_of(#[trigger] ps[i]));
        in_range(q.0) && in_range(q.1)
    } by {
        assert(s1[i] == vec_of(f1(pt_of(ps[i]))));
    }
    assert(map_ok(ps, fc));
    assert forall|i: int| 0 <= i < ps.len() implies #[trigger] map_pts(s1, f2)[i] == map_pts(
        ps,
        fc,
    )[i] by {
        assert(s1[i] == vec_of(f1(pt_of(ps[i]))));
    }
    assert(map_pts(s1, f2) =~= map_pts(ps, fc));
}

} // verus!
