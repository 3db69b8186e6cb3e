//! The ordered list of shapes: insertion order is z-order, and the last
//! shape is the one currently being drawn.

use vstd::prelude::*;

use crate::EditorError;
use crate::codec::doc_chars;
use crate::codec::parse_doc;
use crate::codec::parse_doc_rest;
use crate::codec::parse_shape_at;
use crate::codec::push_shape_chars;
use crate::codec::ws_to;
use crate::shape::Shape;
use crate::shape::hits;
use crate::shape::pt_of;
use crate::shape::rot_pt;
use crate::shape::scale_pt;
use crate::shape::shift_pt;
use crate::fixed::in_range;
use crate::vec2::Rotation;
use crate::vec2::Vector;
use crate::vec2::pts_in_range;
use crate::vec2::vec_in_range;

verus! {

/// All shapes drawn so far, oldest first.
#[derive(Debug)]
pub struct ShapeCollection {
    shapes: Vec<Shape>,
}

impl View for ShapeCollection {
    type V = Seq<Seq<Vector>>;

    closed spec fn view(&self) -> Seq<Seq<Vector>> {
        self.shapes@.map_values(|s: Shape| s@)
    }
}

impl ShapeCollection {
    /// Every vertex of every shape lies on the representable grid.
    pub open spec fn wf(&self) -> bool {
        forall|i: int| 0 <= i < self@.len() ==> pts_in_range(#[trigger] self@[i])
    }

    /// An empty collection.
    pub fn new() -> (r: ShapeCollection)
        ensures
            r@ == Seq::<Seq<Vector>>::empty(),
            r.wf(),
    {
        let r = ShapeCollection { shapes: Vec::new() };
        proof {
            assert(r@ =~= Seq::<Seq<Vector>>::empty());
        }
        r
    }

    /// Append a shape on top of the existing ones.
    pub fn add(&mut self, shape: Shape)
        ensures
            final(self)@ == old(self)@.push(shape@),
    {
        let ghost before = self@;
        self.shapes.push(shape);
        proof {
            assert(self@ =~= before.push(shape@));
        }
    }

    /// Drop every shape.
    pub fn clear(&mut self)
        ensures
            final(self)@ == Seq::<Seq<Vector>>::empty(),
            final(self).wf(),
    {
        self.shapes.clear();
        proof {
            assert(self@ =~= Seq::<Seq<Vector>>::empty());
        }
    }

    /// Replace the whole contents with the given shapes.
    pub fn replace_all(&mut self, shapes: Vec<Shape>)
        ensures
            final(self)@ == shapes@.map_values(|s: Shape| s@),
    {
        self.shapes = shapes;
    }

    /// How many shapes there are.
    pub fn len(&self) -> (r: usize)
        ensures
            r == self@.len(),
    {
        self.shapes.len()
    }

    /// Whether no shape has been drawn yet.
    pub fn is_empty(&self) -> (r: bool)
        ensures
            r == (self@.len() == 0),
    {
        self.shapes.len() == 0
    }

    /// The shape at position `i`.
    pub fn get(&self, i: usize) -> (r: &Shape)
        requires
            i < self@.len(),
        ensures
            r@ == self@[i as int],
    {
        &self.shapes[i]
    }

    /// Append a vertex to the shape drawn last.
    pub fn add_point_to_last(&mut self, point: Vector)
        requires
            old(self)@.len() > 0,
        ensures
            final(self)@.len() == old(self)@.len(),
            final(self)@ == old(self)@.update(
                old(self)@.len() - 1,
                old(self)@.last().push(point),
            ),
    {
        let ghost before = self@;
        let n: usize = self.shapes.len();
        let target: &mut Shape = &mut self.shapes[n - 1];
        target.add_point(point);
        proof {
            assert(self@ =~= before.update(before.len() - 1, before.last().push(point)));
        }
    }

    /// The first shape, in collection order, that contains `point` —
    /// whether or not a later shape covers it.
    pub fn find_first_containing(&self, point: Vector) -> (r: Option<usize>)
        requires
            self.wf(),
            vec_in_range(point),
        ensures
            r matches Some(i) ==> i < self@.len() && hits(self@[i as int], point)
                && (forall|j: int| 0 <= j < i ==> !hits(#[trigger] self@[j], point)),
            r is None ==> forall|j: int| 0 <= j < self@.len()
                ==> !hits(#[trigger] self@[j], point),
    {
        let n: usize = self.shapes.len();
        let mut i: usize = 0;
        while i < n
            invariant
                n == self@.len(),
                i <= n,
                self.wf(),
                vec_in_range(point),
                forall|j: int| 0 <= j < i ==> !hits(#[trigger] self@[j], point),
            decreases n - i,
        {
            proof {
                assert(self@[i as int] == self.shapes@[i as int]@);
            }
            if self.shapes[i].intersect_with_point(point) {
                return Some(i);
            }
            i = i + 1;
        }
        None
    }

    /// The canonical text of the whole collection, as the save command
    /// writes it.
    pub fn serialize(&self) -> (out: Vec<u8>)
        requires
            self.wf(),
        ensures
            out@ == doc_chars(self@),
    {
        let mut out: Vec<u8> = Vec::new();
        let n: usize = self.shapes.len();
        out.push(91);
        if n > 0 {
            proof {
                assert(self@[0] == self.shapes@[0]@);
            }
            push_shape_chars(&mut out, self.shapes[0].get_points());
            let mut i: usize = 1;
            while i < n
                invariant
                    1 <= i <= n,
                    n == self@.len(),
                    self.wf(),
                    out@ + crate::codec::shapes_chars(self@, i as int) + seq![93u8]
                        =~= doc_chars(self@),
                decreases n - i,
            {
                let ghost at_entry = out@;
                proof {
                    assert(self@[i as int] == self.shapes@[i as int]@);
                }
                out.push(44);
                push_shape_chars(&mut out, self.shapes[i].get_points());
                proof {
                    assert(out@ =~= at_entry + seq![44u8] + crate::codec::shape_chars(
                        self@[i as int]));
                    assert(out@ + crate::codec::shapes_chars(self@, i + 1) + seq![93u8]
                        =~= at_entry + crate::codec::shapes_chars(self@, i as int) + seq![93u8]);
                }
                i = i + 1;
            }
            out.push(93);
            proof {
                assert(out@ =~= doc_chars(self@));
            }
        } else {
            out.push(93);
            proof {
                assert(out@ =~= doc_chars(self@));
            }
        }
        out
    }

    /// Read a document back into a collection. A text that does not hold
    /// an array of arrays of representable `[x,y]` pairs is reported as
    /// malformed, and nothing is built from it.
    pub fn deserialize(data: &[u8]) -> (r: Result<ShapeCollection, EditorError>)
        ensures
            r matches Ok(c) ==> parse_doc(data@) == Some(c@) && c.wf(),
            r matches Err(e) ==> parse_doc(data@) is None && e == EditorError::MalformedData,
    {
        let n: usize = data.len();
        let a: usize = ws_to(data, 0);
        if !(a < n && data[a] == 91) {
            return Err(EditorError::MalformedData);
        }
        let b: usize = ws_to(data, a + 1);
        if b < n && data[b] == 93 {
            if ws_to(data, b + 1) == n {
                let c = ShapeCollection::new();
                return Ok(c);
            } else {
                return Err(EditorError::MalformedData);
            }
        }
        let first = parse_shape_at(data, a + 1);
        match first {
            None => Err(EditorError::MalformedData),
            Some((pts0, e0)) => {
                let mut acc = ShapeCollection::new();
                let ghost first_view = pts0@;
                acc.add(Shape::from_points(pts0));
                proof {
                    assert(acc@ =~= seq![first_view]);
                }
                let mut cur: usize = e0;
                loop
                    invariant
                        0 < cur <= n,
                        n == data@.len(),
                        acc.wf(),
                        parse_doc(data@) == parse_doc_rest(data@, cur as int, acc@),
                    decreases n - cur,
                {
                    let c: usize = ws_to(data, cur);
                    if c < n && data[c] == 93 {
                        if ws_to(data, c + 1) == n {
                            return Ok(acc);
                        } else {
                            return Err(EditorError::MalformedData);
                        }
                    }
                    if !(c < n && data[c] == 44) {
                        return Err(EditorError::MalformedData);
                    }
                    let next = parse_shape_at(data, c + 1);
                    match next {
                        None => {
                            return Err(EditorError::MalformedData);
                        },
                        Some((pts, e)) => {
                            let ghost before = acc@;
                            let ghost pts_view = pts@;
                            acc.add(Shape::from_points(pts));
                            proof {
                                assert(acc@ =~= before.push(pts_view));
                            }
                            cur = e;
                        },
                    }
                }
            },
        }
    }

    /// Translate the shape at `i`, if every moved vertex stays on the
    /// grid; report whether it moved.
    pub fn shift_shape(&mut self, i: usize, delta: Vector) -> (applied: bool)
        requires
            i < old(self)@.len(),
        ensures
            final(self)@.len() == old(self)@.len(),
            forall|j: int| 0 <= j < old(self)@.len() && j != i
                ==> #[trigger] final(self)@[j] == old(self)@[j],
            applied <==> (forall|k: int| 0 <= k < old(self)@[i as int].len() ==> {
                let q = shift_pt(pt_of(#[trigger] old(self)@[i as int][k]), pt_of(delta));
                in_range(q.0) && in_range(q.1)
            }),
            applied ==> final(self)@[i as int].len() == old(self)@[i as int].len()
                && (forall|k: int| 0 <= k < old(self)@[i as int].len()
                    ==> pt_of(#[trigger] final(self)@[i as int][k])
                        == shift_pt(pt_of(old(self)@[i as int][k]), pt_of(delta)))
                && pts_in_range(final(self)@[i as int]),
            !applied ==> final(self)@ == old(self)@,
            old(self).wf() ==> final(self).wf(),
    {
        let ghost before = self@;
        proof {
            assert(before[i as int] == self.shapes@[i as int]@);
        }
        let target: &mut Shape = &mut self.shapes[i];
        let applied = target.try_shift(delta);
        proof {
            if old(self).wf() {
                assert forall|j: int| 0 <= j < self@.len()
                    implies pts_in_range(#[trigger] self@[j]) by {
                    if j != i {
                        assert(self@[j] == before[j]);
                    } else {
                        if !applied {
                            assert(self@[j] == before[j]);
                        }
                    }
                }
            }
        }
        proof {
            if applied {
                assert(self@ =~= before.update(i as int, self@[i as int]));
            } else {
                assert(self@ =~= before);
            }
        }
        applied
    }

    /// Rotate the shape at `i` about `pivot`, if every moved vertex stays
    /// on the grid; report whether it moved.
    pub fn rotate_shape(&mut self, i: usize, rot: Rotation, pivot: Vector) -> (applied: bool)
        requires
            old(self).wf(),
            i < old(self)@.len(),
            rot.wf(),
            vec_in_range(pivot),
        ensures
            final(self)@.len() == old(self)@.len(),
            forall|j: int| 0 <= j < old(self)@.len() && j != i
                ==> #[trigger] final(self)@[j] == old(self)@[j],
            applied <==> (forall|k: int| 0 <= k < old(self)@[i as int].len() ==> {
                let q = rot_pt(pt_of(#[trigger] old(self)@[i as int][k]),
                    (rot.c as int, rot.s as int), pt_of(pivot));
                in_range(q.0) && in_range(q.1)
            }),
            applied ==> final(self)@[i as int].len() == old(self)@[i as int].len()
                && (forall|k: int| 0 <= k < old(self)@[i as int].len()
                    ==> pt_of(#[trigger] final(self)@[i as int][k])
                        == rot_pt(pt_of(old(self)@[i as int][k]),
                            (rot.c as int, rot.s as int), pt_of(pivot)))
                && pts_in_range(final(self)@[i as int]),
            !applied ==> final(self)@ == old(self)@,
            final(self).wf(),
    {
        let ghost before = self@;
        proof {
            assert(before[i as int] == self.shapes@[i as int]@);
        }
        let target: &mut Shape = &mut self.shapes[i];
        let applied = target.try_rotate_rel_to_point(rot, pivot);
        proof {
            if applied {
                assert(self@ =~= before.update(i as int, self@[i as int]));
            } else {
                assert(self@ =~= before);
            }
        }
        applied
    }

    /// Scale the shape at `i` about `pivot`, if every moved vertex stays
    /// on the grid; report whether it moved.
    pub fn scale_shape(&mut self, i: usize, scale: Vector, pivot: Vector) -> (applied: bool)
        requires
            old(self).wf(),
            i < old(self)@.len(),
            vec_in_range(pivot),
        ensures
            final(self)@.len() == old(self)@.len(),
            forall|j: int| 0 <= j < old(self)@.len() && j != i
                ==> #[trigger] final(self)@[j] == old(self)@[j],
            applied <==> (forall|k: int| 0 <= k < old(self)@[i as int].len() ==> {
                let q = scale_pt(pt_of(#[trigger] old(self)@[i as int][k]), pt_of(scale),
                    pt_of(pivot));
                in_range(q.0) && in_range(q.1)
            }),
            applied ==> final(self)@[i as int].len() == old(self)@[i as int].len()
                && (forall|k: int| 0 <= k < old(self)@[i as int].len()
                    ==> pt_of(#[trigger] final(self)@[i as int][k])
                        == scale_pt(pt_of(old(self)@[i as int][k]), pt_of(scale), pt_of(pivot)))
                && pts_in_range(final(self)@[i as int]),
            !applied ==> final(self)@ == old(self)@,
            final(self).wf(),
    {
        let ghost before = self@;
        proof {
            assert(before[i as int] == self.shapes@[i as int]@);
        }
        let target: &mut Shape = &mut self.shapes[i];
        let applied = target.try_scale_rel_to_point(scale, pivot);
        proof {
            if applied {
                assert(self@ =~= before.update(i as int, self@[i as int]));
            } else {
                assert(self@ =~= before);
            }
        }
        applied
    }
}

} // verus!
