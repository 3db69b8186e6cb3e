//! Polygons: an ordered vertex list with rigid transforms and the
//! even-odd hit test.
//!
//! A shape is the sequence of its vertices in drawing order. Edges join
//! consecutive vertices and wrap from the last back to the first; the
//! polygon counts as closed exactly when it has at least three vertices.

use vstd::prelude::*;

use crate::fixed::COORD_LIMIT;
use crate::fixed::SCALE;
use crate::fixed::div_toward_zero;
use crate::fixed::in_range;
use crate::fixed::lemma_tdiv_bounds;
use crate::fixed::mul_div;
use crate::fixed::tdiv;
use crate::vec2::Rotation;
use crate::vec2::Vector;
use crate::vec2::pts_in_range;
use crate::vec2::vec_in_range;

verus! {

/// A vertex as a pair of unbounded grid coordinates, the currency of the
/// transform specifications.
pub open spec fn pt_of(v: Vector) -> (int, int) {
    (v.x as int, v.y as int)
}

/// Translation of one vertex by `d`.
pub open spec fn shift_pt(p: (int, int), d: (int, int)) -> (int, int) {
    (p.0 + d.0, p.1 + d.1)
}

/// Rotation of one vertex about `v` by the angle whose fixed-point cosine
/// and sine are `r.0` and `r.1`.
pub open spec fn rot_pt(p: (int, int), r: (int, int), v: (int, int)) -> (int, int) {
    (
        v.0 + tdiv((p.0 - v.0) * r.0 - (p.1 - v.1) * r.1, SCALE as int),
        v.1 + tdiv((p.0 - v.0) * r.1 + (p.1 - v.1) * r.0, SCALE as int),
    )
}

/// Componentwise scaling of one vertex about `v` by the fixed-point
/// factors `k.0` and `k.1`.
pub open spec fn scale_pt(p: (int, int), k: (int, int), v: (int, int)) -> (int, int) {
    (
        v.0 + tdiv((p.0 - v.0) * k.0, SCALE as int),
        v.1 + tdiv((p.1 - v.1) * k.1, SCALE as int),
    )
}

/// The vertex with the given coordinates, which must lie on the grid.
pub open spec fn vec_of(q: (int, int)) -> Vector {
    Vector { x: q.0 as i64, y: q.1 as i64 }
}

/// Every vertex of `ps`, sent through `f`, lands on the representable
/// grid.
pub open spec fn map_ok(ps: Seq<Vector>, f: spec_fn((int, int)) -> (int, int)) -> bool {
    forall|i: int| 0 <= i < ps.len() ==> {
        let q = f(pt_of(#[trigger] ps[i]));
        in_range(q.0) && in_range(q.1)
    }
}

/// Every vertex of `ps` sent through `f`.
pub open spec fn map_pts(ps: Seq<Vector>, f: spec_fn((int, int)) -> (int, int)) -> Seq<Vector> {
    Seq::new(ps.len(), |i: int| vec_of(f(pt_of(ps[i]))))
}

/// What a guarded transform leaves behind: the image of `ps` under `f`
/// when that stays on the grid, otherwise `ps` untouched.
pub open spec fn try_map(ps: Seq<Vector>, f: spec_fn((int, int)) -> (int, int)) -> Seq<Vector> {
    if map_ok(ps, f) {
        map_pts(ps, f)
    } else {
        ps
    }
}

/// The contracts of the guarded transforms, rolled up: their three
/// clauses say exactly that the new vertices are `try_map` of the old.
pub proof fn lemma_try_map_bridge(
    old_ps: Seq<Vector>,
    new_ps: Seq<Vector>,
    f: spec_fn((int, int)) -> (int, int),
    applied: bool,
)
    requires
        applied <==> (forall|i: int| 0 <= i < old_ps.len() ==> {
            let q = f(pt_of(#[trigger] old_ps[i]));
            in_range(q.0) && in_range(q.1)
        }),
        applied ==> new_ps.len() == old_ps.len() && (forall|i: int|
            0 <= i < old_ps.len() ==> pt_of(#[trigger] new_ps[i]) == f(pt_of(old_ps[i]))),
        !applied ==> new_ps == old_ps,
    ensures
        new_ps == try_map(old_ps, f),
{
    if applied {
        assert(map_ok(old_ps, f));
        assert forall|i: int| 0 <= i < old_ps.len() implies #[trigger] new_ps[i] == map_pts(
            old_ps,
            f,
        )[i] by {
            assert(pt_of(new_ps[i]) == f(pt_of(old_ps[i])));
            assert(in_range(f(pt_of(old_ps[i])).0) && in_range(f(pt_of(old_ps[i])).1));
        }
        assert(new_ps =~= map_pts(old_ps, f));
    } else {
        assert(!map_ok(old_ps, f));
    }
}

/// Whether the horizontal ray going right from `p` crosses the open edge
/// from `a` to `b`: the edge spans `p`'s height, and the edge's exact
/// x-intersection at that height lies strictly right of `p`.
pub open spec fn crossing(a: Vector, b: Vector, p: Vector) -> bool {
    &&& ((b.y > p.y) != (a.y > p.y))
    &&& if a.y > b.y {
        (p.y - b.y) * (a.x - b.x) > (p.x - b.x) * (a.y - b.y)
    } else {
        (p.y - b.y) * (a.x - b.x) < (p.x - b.x) * (a.y - b.y)
    }
}

/// The vertex an edge starts from: the predecessor of vertex `j`, with
/// the last vertex preceding the first.
pub open spec fn edge_start(ps: Seq<Vector>, j: int) -> Vector {
    if j == 0 {
        ps[ps.len() - 1]
    } else {
        ps[j - 1]
    }
}

/// How many of the first `i` edges the ray from `p` crosses.
pub open spec fn crossings(ps: Seq<Vector>, p: Vector, i: int) -> int
    decreases i,
{
    if i <= 0 {
        0
    } else {
        crossings(ps, p, i - 1) + if crossing(edge_start(ps, i - 1), ps[i - 1], p) {
            1int
        } else {
            0int
        }
    }
}

/// The even-odd rule: `p` lies inside the polygon `ps` when the ray from
/// `p` crosses an odd number of edges. Shapes of fewer than three
/// vertices enclose nothing.
pub open spec fn hits(ps: Seq<Vector>, p: Vector) -> bool {
    ps.len() >= 3 && crossings(ps, p, ps.len() as int) % 2 == 1
}

/// A polygon under construction or finished: its vertices in the order
/// they were drawn.
#[derive(Debug)]
pub struct Shape {
    points: Vec<Vector>,
}

impl View for Shape {
    type V = Seq<Vector>;

    closed spec fn view(&self) -> Seq<Vector> {
        self.points@
    }
}

impl Shape {
    /// Every vertex lies on the representable grid.
    pub open spec fn wf(&self) -> bool {
        pts_in_range(self@)
    }

    /// A shape with no vertices yet.
    pub fn new() -> (r: Shape)
        ensures
            r@ == Seq::<Vector>::empty(),
            r.wf(),
    {
        Shape { points: Vec::new() }
    }

    /// A shape over the given vertices, as a load operation rebuilds it.
    pub fn from_points(points: Vec<Vector>) -> (r: Shape)
        ensures
            r@ == points@,
    {
        Shape { points }
    }

    /// Append a vertex after the ones already drawn.
    pub fn add_point(&mut self, point: Vector)
        ensures
            final(self)@ == old(self)@.push(point),
    {
        self.points.push(point);
    }

    /// The vertices, in drawing order.
    pub fn get_points(&self) -> (r: &Vec<Vector>)
        ensures
            r@ == self@,
    {
        &self.points
    }

    /// Translate every vertex by `shift`.
    pub fn shift(&mut self, shift: Vector)
        requires
            forall|i: int| 0 <= i < old(self)@.len() ==> {
                let q = shift_pt(pt_of(#[trigger] old(self)@[i]), pt_of(shift));
                in_range(q.0) && in_range(q.1)
            },
        ensures
            final(self)@.len() == old(self)@.len(),
            forall|i: int| 0 <= i < old(self)@.len() ==> pt_of(#[trigger] final(self)@[i])
                == shift_pt(pt_of(old(self)@[i]), pt_of(shift)),
            final(self).wf(),
    {
        let n: usize = self.points.len();
        let mut i: usize = 0;
        while i < n
            invariant
                n == self@.len(),
                n == old(self)@.len(),
                i <= n,
                forall|j: int| 0 <= j < old(self)@.len() ==> {
                    let q = shift_pt(pt_of(#[trigger] old(self)@[j]), pt_of(shift));
                    in_range(q.0) && in_range(q.1)
                },
                forall|j: int| i <= j < n ==> #[trigger] self@[j] == old(self)@[j],
                forall|j: int| 0 <= j < i ==> pt_of(#[trigger] self@[j])
                    == shift_pt(pt_of(old(self)@[j]), pt_of(shift)),
            decreases n - i,
        {
            let p = self.points[i];
            proof {
                assert(self@[i as int] == old(self)@[i as int]);
            }
            self.points.set(i, Vector { x: p.x + shift.x, y: p.y + shift.y });
            i = i + 1;
        }
    }

    /// Rotate every vertex rigidly about `pivot`.
    pub fn rotate_rel_to_point(&mut self, rot: Rotation, pivot: Vector)
        requires
            old(self).wf(),
            vec_in_range(pivot),
            rot.wf(),
            forall|i: int| 0 <= i < old(self)@.len() ==> {
                let q = rot_pt(pt_of(#[trigger] old(self)@[i]), (rot.c as int, rot.s as int),
                    pt_of(pivot));
                in_range(q.0) && in_range(q.1)
            },
        ensures
            final(self)@.len() == old(self)@.len(),
            forall|i: int| 0 <= i < old(self)@.len() ==> pt_of(#[trigger] final(self)@[i])
                == rot_pt(pt_of(old(self)@[i]), (rot.c as int, rot.s as int), pt_of(pivot)),
            final(self).wf(),
    {
        let n: usize = self.points.len();
        let mut i: usize = 0;
        while i < n
            invariant
                n == self@.len(),
                n == old(self)@.len(),
                i <= n,
                old(self).wf(),
                vec_in_range(pivot),
                rot.wf(),
                forall|j: int| 0 <= j < old(self)@.len() ==> {
                    let q = rot_pt(pt_of(#[trigger] old(self)@[j]), (rot.c as int, rot.s as int),
                        pt_of(pivot));
                    in_range(q.0) && in_range(q.1)
                },
                forall|j: int| i <= j < n ==> #[trigger] self@[j] == old(self)@[j],
                forall|j: int| 0 <= j < i ==> pt_of(#[trigger] self@[j])
                    == rot_pt(pt_of(old(self)@[j]), (rot.c as int, rot.s as int), pt_of(pivot)),
            decreases n - i,
        {
            let p = self.points[i];
            proof {
                assert(self@[i as int] == old(self)@[i as int]);
                assert(vec_in_range(old(self)@[i as int]));
            }
            let dx: i64 = p.x - pivot.x;
            let dy: i64 = p.y - pivot.y;
            proof {
                lemma_rot_products(dx as int, dy as int, rot.c as int, rot.s as int);
            }
            let nx: i128 = (dx as i128) * (rot.c as i128) - (dy as i128) * (rot.s as i128);
            let ny: i128 = (dx as i128) * (rot.s as i128) + (dy as i128) * (rot.c as i128);
            let qx: i128 = div_toward_zero(nx, SCALE as i128);
            let qy: i128 = div_toward_zero(ny, SCALE as i128);
            proof {
                lemma_tdiv_bounds(nx as int, SCALE as int);
                lemma_tdiv_bounds(ny as int, SCALE as int);
            }
            let rx: i128 = (pivot.x as i128) + qx;
            let ry: i128 = (pivot.y as i128) + qy;
            self.points.set(i, Vector { x: rx as i64, y: ry as i64 });
            i = i + 1;
        }
    }

    /// Scale every vertex about `pivot` by the componentwise factors in
    /// `scale`.
    pub fn scale_rel_to_point(&mut self, scale: Vector, pivot: Vector)
        requires
            old(self).wf(),
            vec_in_range(pivot),
            forall|i: int| 0 <= i < old(self)@.len() ==> {
                let q = scale_pt(pt_of(#[trigger] old(self)@[i]), pt_of(scale), pt_of(pivot));
                in_range(q.0) && in_range(q.1)
            },
        ensures
            final(self)@.len() == old(self)@.len(),
            forall|i: int| 0 <= i < old(self)@.len() ==> pt_of(#[trigger] final(self)@[i])
                == scale_pt(pt_of(old(self)@[i]), pt_of(scale), pt_of(pivot)),
            final(self).wf(),
    {
        let n: usize = self.points.len();
        let mut i: usize = 0;
        while i < n
            invariant
                n == self@.len(),
                n == old(self)@.len(),
                i <= n,
                old(self).wf(),
                vec_in_range(pivot),
                forall|j: int| 0 <= j < old(self)@.len() ==> {
                    let q = scale_pt(pt_of(#[trigger] old(self)@[j]), pt_of(scale), pt_of(pivot));
                    in_range(q.0) && in_range(q.1)
                },
                forall|j: int| i <= j < n ==> #[trigger] self@[j] == old(self)@[j],
                forall|j: int| 0 <= j < i ==> pt_of(#[trigger] self@[j])
                    == scale_pt(pt_of(old(self)@[j]), pt_of(scale), pt_of(pivot)),
            decreases n - i,
        {
            let p = self.points[i];
            proof {
                assert(self@[i as int] == old(self)@[i as int]);
                assert(vec_in_range(old(self)@[i as int]));
            }
            let dx: i64 = p.x - pivot.x;
            let dy: i64 = p.y - pivot.y;
            let qx: i64 = mul_div(dx, scale.x, SCALE);
            let qy: i64 = mul_div(dy, scale.y, SCALE);
            self.points.set(i, Vector { x: pivot.x + qx, y: pivot.y + qy });
            i = i + 1;
        }
    }

    /// Translate every vertex by `shift`, unless some result would leave
    /// the grid; then the shape is left untouched.
    pub fn try_shift(&mut self, shift: Vector) -> (applied: bool)
        ensures
            applied <==> (forall|i: int| 0 <= i < old(self)@.len() ==> {
                let q = shift_pt(pt_of(#[trigger] old(self)@[i]), pt_of(shift));
                in_range(q.0) && in_range(q.1)
            }),
            applied ==> final(self)@.len() == old(self)@.len()
                && (forall|i: int| 0 <= i < old(self)@.len() ==> pt_of(#[trigger] final(self)@[i])
                    == shift_pt(pt_of(old(self)@[i]), pt_of(shift)))
                && final(self).wf(),
            !applied ==> final(self)@ == old(self)@,
    {
        let n: usize = self.points.len();
        let mut i: usize = 0;
        while i < n
            invariant
                n == self@.len(),
                self@ == old(self)@,
                i <= n,
                forall|j: int| 0 <= j < i ==> {
                    let q = shift_pt(pt_of(#[trigger] old(self)@[j]), pt_of(shift));
                    in_range(q.0) && in_range(q.1)
                },
            decreases n - i,
        {
            let p = self.points[i];
            let tx: i128 = (p.x as i128) + (shift.x as i128);
            let ty: i128 = (p.y as i128) + (shift.y as i128);
            if tx < -(COORD_LIMIT as i128) || tx > (COORD_LIMIT as i128)
                || ty < -(COORD_LIMIT as i128) || ty > (COORD_LIMIT as i128) {
                return false;
            }
            i = i + 1;
        }
        self.shift(shift);
        true
    }

    /// Rotate every vertex rigidly about `pivot`, unless some result
    /// would leave the grid; then the shape is left untouched.
    pub fn try_rotate_rel_to_point(&mut self, rot: Rotation, pivot: Vector) -> (applied: bool)
        requires
            old(self).wf(),
            vec_in_range(pivot),
            rot.wf(),
        ensures
            applied <==> (forall|i: int| 0 <= i < old(self)@.len() ==> {
                let q = rot_pt(pt_of(#[trigger] old(self)@[i]), (rot.c as int, rot.s as int),
                    pt_of(pivot));
                in_range(q.0) && in_range(q.1)
            }),
            applied ==> final(self)@.len() == old(self)@.len()
                && (forall|i: int| 0 <= i < old(self)@.len() ==> pt_of(#[trigger] final(self)@[i])
                    == rot_pt(pt_of(old(self)@[i]), (rot.c as int, rot.s as int), pt_of(pivot)))
                && final(self).wf(),
            !applied ==> final(self)@ == old(self)@,
    {
        let n: usize = self.points.len();
        let mut i: usize = 0;
        while i < n
            invariant
                n == self@.len(),
                self@ == old(self)@,
                i <= n,
                old(self).wf(),
                vec_in_range(pivot),
                rot.wf(),
                forall|j: int| 0 <= j < i ==> {
                    let q = rot_pt(pt_of(#[trigger] old(self)@[j]), (rot.c as int, rot.s as int),
                        pt_of(pivot));
                    in_range(q.0) && in_range(q.1)
                },
            decreases n - i,
        {
            let p = self.points[i];
            proof {
                assert(vec_in_range(old(self)@[i as int]));
            }
            let dx: i64 = p.x - pivot.x;
            let dy: i64 = p.y - pivot.y;
            proof {
                lemma_rot_products(dx as int, dy as int, rot.c as int, rot.s as int);
            }
            let nx: i128 = (dx as i128) * (rot.c as i128) - (dy as i128) * (rot.s as i128);
            let ny: i128 = (dx as i128) * (rot.s as i128) + (dy as i128) * (rot.c as i128);
            let qx: i128 = div_toward_zero(nx, SCALE as i128);
            let qy: i128 = div_toward_zero(ny, SCALE as i128);
            proof {
                lemma_tdiv_bounds(nx as int, SCALE as int);
                lemma_tdiv_bounds(ny as int, SCALE as int);
            }
            let tx: i128 = (pivot.x as i128) + qx;
            let ty: i128 = (pivot.y as i128) + qy;
            if tx < -(COORD_LIMIT as i128) || tx > (COORD_LIMIT as i128)
                || ty < -(COORD_LIMIT as i128) || ty > (COORD_LIMIT as i128) {
                return false;
            }
            i = i + 1;
        }
        self.rotate_rel_to_point(rot, pivot);
        true
    }

    /// Scale every vertex about `pivot`, unless some result would leave
    /// the grid; then the shape is left untouched.
    pub fn try_scale_rel_to_point(&mut self, scale: Vector, pivot: Vector) -> (applied: bool)
        requires
            old(self).wf(),
            vec_in_range(pivot),
        ensures
            applied <==> (forall|i: int| 0 <= i < old(self)@.len() ==> {
                let q = scale_pt(pt_of(#[trigger] old(self)@[i]), pt_of(scale), pt_of(pivot));
                in_range(q.0) && in_range(q.1)
            }),
            applied ==> final(self)@.len() == old(self)@.len()
                && (forall|i: int| 0 <= i < old(self)@.len() ==> pt_of(#[trigger] final(self)@[i])
                    == scale_pt(pt_of(old(self)@[i]), pt_of(scale), pt_of(pivot)))
                && final(self).wf(),
            !applied ==> final(self)@ == old(self)@,
    {
        let n: usize = self.points.len();
        let mut i: usize = 0;
        while i < n
            invariant
                n == self@.len(),
                self@ == old(self)@,
                i <= n,
                old(self).wf(),
                vec_in_range(pivot),
                forall|j: int| 0 <= j < i ==> {
                    let q = scale_pt(pt_of(#[trigger] old(self)@[j]), pt_of(scale), pt_of(pivot));
                    in_range(q.0) && in_range(q.1)
                },
            decreases n - i,
        {
            let p = self.points[i];
            proof {
                assert(vec_in_range(old(self)@[i as int]));
                lemma_diff_prod_any(p.x - pivot.x, scale.x as int);
                lemma_diff_prod_any(p.y - pivot.y, scale.y as int);
            }
            let dx: i64 = p.x - pivot.x;
            let dy: i64 = p.y - pivot.y;
            let nx: i128 = (dx as i128) * (scale.x as i128);
            let ny: i128 = (dy as i128) * (scale.y as i128);
            let qx: i128 = div_toward_zero(nx, SCALE as i128);
            let qy: i128 = div_toward_zero(ny, SCALE as i128);
            proof {
                lemma_tdiv_bounds(nx as int, SCALE as int);
                lemma_tdiv_bounds(ny as int, SCALE as int);
            }
            let tx: i128 = (pivot.x as i128) + qx;
            let ty: i128 = (pivot.y as i128) + qy;
            if tx < -(COORD_LIMIT as i128) || tx > (COORD_LIMIT as i128)
                || ty < -(COORD_LIMIT as i128) || ty > (COORD_LIMIT as i128) {
                return false;
            }
            i = i + 1;
        }
        self.scale_rel_to_point(scale, pivot);
        true
    }

    /// Even-odd hit test: does `point` lie inside this polygon?
    pub fn intersect_with_point(&self, point: Vector) -> (r: bool)
        requires
            self.wf(),
            vec_in_range(point),
        ensures
            r == hits(self@, point),
    {
        let n: usize = self.points.len();
        if n < 3 {
            return false;
        }
        let mut count: usize = 0;
        let mut i: usize = 0;
        while i < n
            invariant
                n == self@.len(),
                3 <= n,
                i <= n,
                self.wf(),
                vec_in_range(point),
                count == crossings(self@, point, i as int),
                count <= i,
            decreases n - i,
        {
            let b = self.points[i];
            let a = if i == 0 {
                self.points[n - 1]
            } else {
                self.points[i - 1]
            };
            proof {
                assert(a == edge_start(self@, i as int));
            }
            if (b.y > point.y) != (a.y > point.y) {
                proof {
                    lemma_diff_prod(point.y as int, b.y as int, a.x as int, b.x as int);
                    lemma_diff_prod(point.x as int, b.x as int, a.y as int, b.y as int);
                }
                let lhs: i128 = ((point.y as i128) - (b.y as i128)) * ((a.x as i128) - (b.x as i128));
                let rhs: i128 = ((point.x as i128) - (b.x as i128)) * ((a.y as i128) - (b.y as i128));
                let here: bool = if a.y > b.y {
                    lhs > rhs
                } else {
                    lhs < rhs
                };
                if here {
                    count = count + 1;
                }
            }
            i = i + 1;
        }
        count % 2 == 1
    }
}

/// The two rotation numerators of an in-range vertex stay well inside
/// `i128`, and their quotients by `SCALE` fit back in an `i64`.
proof fn lemma_rot_products(dx: int, dy: int, c: int, s: int)
    requires
        -0x4000_0000_0000_0000 <= dx <= 0x4000_0000_0000_0000,
        -0x4000_0000_0000_0000 <= dy <= 0x4000_0000_0000_0000,
        -(SCALE as int) <= c <= SCALE as int,
        -(SCALE as int) <= s <= SCALE as int,
    ensures
        -0x1000_0000_0000_0000_0000_0000 <= dx * c <= 0x1000_0000_0000_0000_0000_0000,
        -0x1000_0000_0000_0000_0000_0000 <= dy * s <= 0x1000_0000_0000_0000_0000_0000,
        -0x1000_0000_0000_0000_0000_0000 <= dx * s <= 0x1000_0000_0000_0000_0000_0000,
        -0x1000_0000_0000_0000_0000_0000 <= dy * c <= 0x1000_0000_0000_0000_0000_0000,
{
    assert(-0x1000_0000_0000_0000_0000_0000 <= dx * c <= 0x1000_0000_0000_0000_0000_0000
        && -0x1000_0000_0000_0000_0000_0000 <= dy * s <= 0x1000_0000_0000_0000_0000_0000
        && -0x1000_0000_0000_0000_0000_0000 <= dx * s <= 0x1000_0000_0000_0000_0000_0000
        && -0x1000_0000_0000_0000_0000_0000 <= dy * c <= 0x1000_0000_0000_0000_0000_0000)
        by (nonlinear_arith)
        requires -0x4000_0000_0000_0000 <= dx <= 0x4000_0000_0000_0000
            && -0x4000_0000_0000_0000 <= dy <= 0x4000_0000_0000_0000
            && -1_000_000 <= c <= 1_000_000 && -1_000_000 <= s <= 1_000_000;
}

/// A product of a twice-the-limit difference with any scalar stays well
/// inside `i128`.
proof fn lemma_diff_prod_any(a: int, b: int)
    requires
        -0x4000_0000_0000_0000 <= a <= 0x4000_0000_0000_0000,
        -0x8000_0000_0000_0000 <= b <= 0x7FFF_FFFF_FFFF_FFFF,
    ensures
        -0x2000_0000_0000_0000_0000_0000_0000_0000 <= a * b
            <= 0x2000_0000_0000_0000_0000_0000_0000_0000,
{
    assert(-0x2000_0000_0000_0000_0000_0000_0000_0000 <= a * b
        <= 0x2000_0000_0000_0000_0000_0000_0000_0000) by (nonlinear_arith)
        requires -0x4000_0000_0000_0000 <= a <= 0x4000_0000_0000_0000
            && -0x8000_0000_0000_0000 <= b <= 0x7FFF_FFFF_FFFF_FFFF;
}

/// Products of differences of in-range scalars stay well inside `i128`.
proof fn lemma_diff_prod(a: int, b: int, c: int, d: int)
    requires
        in_range(a),
        in_range(b),
        in_range(c),
        in_range(d),
    ensures
        -0x1000_0000_0000_0000_0000_0000_0000_0000 <= (a - b) * (c - d)
            <= 0x1000_0000_0000_0000_0000_0000_0000_0000,
{
    assert(-0x1000_0000_0000_0000_0000_0000_0000_0000 <= (a - b) * (c - d)
        <= 0x1000_0000_0000_0000_0000_0000_0000_0000) by (nonlinear_arith)
        requires -0x2000_0000_0000_0000 <= a <= 0x2000_0000_0000_0000
            && -0x2000_0000_0000_0000 <= b <= 0x2000_0000_0000_0000
            && -0x2000_0000_0000_0000 <= c <= 0x2000_0000_0000_0000
            && -0x2000_0000_0000_0000 <= d <= 0x2000_0000_0000_0000;
}

} // verus!
