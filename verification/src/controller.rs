//! The pointer-interaction state machine: which gesture the user is in,
//! which shape is selected, and which transform each pointer event
//! applies.
//!
//! The controller owns the shape list and all transient gesture state.
//! The selected shape is an index into the list, never an alias, so
//! clearing or reloading the list can never leave it dangling.

use vstd::prelude::*;

use crate::EditorError;
use crate::codec::doc_chars;
use crate::codec::parse_doc;
use crate::collection::ShapeCollection;
use crate::fixed::SCALE;
use crate::shape::Shape;
use crate::shape::hits;
use crate::shape::lemma_try_map_bridge;
use crate::shape::pt_of;
use crate::shape::rot_pt;
use crate::shape::scale_pt;
use crate::shape::shift_pt;
use crate::shape::try_map;
use crate::vec2::rot_c;
use crate::vec2::rot_s;
use crate::vec2::rotation_between;
use crate::vec2::scale_factor;
use crate::vec2::scale_factor_between;
use crate::vec2::Rotation;
use crate::vec2::Vector;
use crate::vec2::pts_in_range;
use crate::vec2::vec_in_range;

verus! {

/// What a plain pointer-down gesture does: extend a polygon, or anchor
/// a rotation, scaling or translation of the selected one.
#[derive(Clone, Copy, Debug, PartialEq, Eq, Structural)]
pub enum Mode {
    Draw,
    Rotate,
    Scale,
    Shift,
}

/// The editor state between events.
#[derive(Debug)]
pub struct InteractionController {
    /// Current tool.
    pub mode: Mode,
    /// Every shape drawn so far.
    pub shapes: ShapeCollection,
    /// The fixed point of rotations and scalings, once one was chosen.
    pub pivot: Option<Vector>,
    /// Whether a pointer button is held down.
    pub is_mouse_down: bool,
    /// Where the current translation gesture started.
    pub mouse_origin: Option<Vector>,
    /// The last tracked pointer position while dragging.
    pub mouse_pos: Option<Vector>,
    /// The shape transforms act on, as a position in the list.
    pub selected: Option<usize>,
    /// Modifier state: the set-pivot key is held.
    pub shift_is_down: bool,
    /// Modifier state: the select key is held.
    pub ctrl_is_down: bool,
    /// Staged translation for the compound transform command.
    pub shift_vector: Vector,
    /// Staged scale factors for the compound transform command.
    pub scale_vector: Vector,
    /// Staged rotation for the compound transform command.
    pub rotate_staged: Rotation,
}

/// `r` names the first shape of `shapes` containing `p`, or nothing
/// when no shape does.
pub open spec fn first_hit(shapes: Seq<Seq<Vector>>, p: Vector, r: Option<usize>) -> bool {
    match r {
        Some(i) => (i as int) < shapes.len() && hits(shapes[i as int], p) && (forall|j: int|
            0 <= j < i as int ==> !hits(#[trigger] shapes[j], p)),
        None => forall|j: int| 0 <= j < shapes.len() ==> !hits(#[trigger] shapes[j], p),
    }
}

impl InteractionController {
    /// Everything the later transforms lean on: shapes and tracked
    /// positions on the grid, the selection within bounds, the staged
    /// rotation plausible.
    pub open spec fn wf(&self) -> bool {
        &&& self.shapes.wf()
        &&& match self.selected {
            Some(i) => (i as int) < self.shapes@.len(),
            None => true,
        }
        &&& match self.pivot {
            Some(v) => vec_in_range(v),
            None => true,
        }
        &&& match self.mouse_origin {
            Some(v) => vec_in_range(v),
            None => true,
        }
        &&& match self.mouse_pos {
            Some(v) => vec_in_range(v),
            None => true,
        }
        &&& self.rotate_staged.wf()
    }

    /// A fresh editor: draw mode, nothing drawn, nothing selected, the
    /// staged transform the identity.
    pub fn new() -> (r: InteractionController)
        ensures
            r.mode == Mode::Draw,
            r.shapes@ == Seq::<Seq<Vector>>::empty(),
            r.pivot is None,
            !r.is_mouse_down,
            r.mouse_origin is None,
            r.mouse_pos is None,
            r.selected is None,
            !r.shift_is_down,
            !r.ctrl_is_down,
            r.shift_vector == (Vector { x: 0i64, y: 0i64 }),
            r.scale_vector == (Vector { x: SCALE, y: SCALE }),
            r.rotate_staged == (Rotation { c: SCALE, s: 0i64 }),
            r.wf(),
    {
        InteractionController {
            mode: Mode::Draw,
            shapes: ShapeCollection::new(),
            pivot: None,
            is_mouse_down: false,
            mouse_origin: None,
            mouse_pos: None,
            selected: None,
            shift_is_down: false,
            ctrl_is_down: false,
            shift_vector: Vector { x: 0, y: 0 },
            scale_vector: Vector { x: SCALE, y: SCALE },
            rotate_staged: Rotation { c: SCALE, s: 0 },
        }
    }

    /// Switch tools; nothing else moves.
    pub fn set_mode(&mut self, mode: Mode)
        requires
            old(self).wf(),
        ensures
            *final(self) == (InteractionController { mode, ..*old(self) }),
            final(self).wf(),
    {
        self.mode = mode;
    }

    /// The set-pivot key went down.
    pub fn shift_key_down(&mut self)
        requires
            old(self).wf(),
        ensures
            *final(self) == (InteractionController { shift_is_down: true, ..*old(self) }),
            final(self).wf(),
    {
        self.shift_is_down = true;
    }

    /// The set-pivot key went up.
    pub fn shift_key_up(&mut self)
        requires
            old(self).wf(),
        ensures
            *final(self) == (InteractionController { shift_is_down: false, ..*old(self) }),
            final(self).wf(),
    {
        self.shift_is_down = false;
    }

    /// The select key went down.
    pub fn ctrl_key_down(&mut self)
        requires
            old(self).wf(),
        ensures
            *final(self) == (InteractionController { ctrl_is_down: true, ..*old(self) }),
            final(self).wf(),
    {
        self.ctrl_is_down = true;
    }

    /// The select key went up.
    pub fn ctrl_key_up(&mut self)
        requires
            old(self).wf(),
        ensures
            *final(self) == (InteractionController { ctrl_is_down: false, ..*old(self) }),
            final(self).wf(),
    {
        self.ctrl_is_down = false;
    }

    /// Place the pivot by hand.
    pub fn set_pivot(&mut self, pivot: Vector)
        requires
            old(self).wf(),
            vec_in_range(pivot),
        ensures
            *final(self) == (InteractionController { pivot: Some(pivot), ..*old(self) }),
            final(self).wf(),
    {
        self.pivot = Some(pivot);
    }

    /// Stage the translation of the compound transform command.
    pub fn set_shift_vector(&mut self, v: Vector)
        requires
            old(self).wf(),
        ensures
            *final(self) == (InteractionController { shift_vector: v, ..*old(self) }),
            final(self).wf(),
    {
        self.shift_vector = v;
    }

    /// Stage the scale factors of the compound transform command.
    pub fn set_scale_vector(&mut self, v: Vector)
        requires
            old(self).wf(),
        ensures
            *final(self) == (InteractionController { scale_vector: v, ..*old(self) }),
            final(self).wf(),
    {
        self.scale_vector = v;
    }

    /// Stage the rotation of the compound transform command.
    pub fn set_rotation(&mut self, rot: Rotation)
        requires
            old(self).wf(),
            rot.wf(),
        ensures
            *final(self) == (InteractionController { rotate_staged: rot, ..*old(self) }),
            final(self).wf(),
    {
        self.rotate_staged = rot;
    }

    /// Close the polygon being drawn: an empty shape is pushed, and any
    /// further drawing extends that one.
    pub fn finish_shape(&mut self)
        requires
            old(self).wf(),
        ensures
            final(self).shapes@ == old(self).shapes@.push(Seq::<Vector>::empty()),
            *final(self) == (InteractionController {
                shapes: final(self).shapes,
                ..*old(self)
            }),
            final(self).wf(),
    {
        self.shapes.add(Shape::new());
        proof {
            assert(pts_in_range(Seq::<Vector>::empty()));
        }
    }

    /// Drop every shape; the selection and the pivot go with them.
    pub fn clear(&mut self)
        requires
            old(self).wf(),
        ensures
            final(self).shapes@ == Seq::<Seq<Vector>>::empty(),
            final(self).selected is None,
            final(self).pivot is None,
            *final(self) == (InteractionController {
                shapes: final(self).shapes,
                selected: None,
                pivot: None,
                ..*old(self)
            }),
            final(self).wf(),
    {
        self.shapes.clear();
        self.selected = None;
        self.pivot = None;
    }


    /// A pointer press. With the set-pivot key held it places the
    /// pivot; with the select key held it re-selects; otherwise it
    /// draws or anchors a gesture, re-evaluates the selection at the
    /// pressed point, and starts dragging.
    pub fn mouse_down(&mut self, p: Vector)
        requires
            old(self).wf(),
            vec_in_range(p),
        ensures
            final(self).wf(),
            old(self).shift_is_down ==> *final(self) == (InteractionController {
                pivot: Some(p),
                ..*old(self)
            }),
            !old(self).shift_is_down && old(self).ctrl_is_down ==> {
                &&& first_hit(old(self).shapes@, p, final(self).selected)
                &&& *final(self) == (InteractionController {
                    selected: final(self).selected,
                    ..*old(self)
                })
            },
            !old(self).shift_is_down && !old(self).ctrl_is_down ==> {
                &&& final(self).is_mouse_down
                &&& first_hit(final(self).shapes@, p, final(self).selected)
                &&& *final(self) == (InteractionController {
                    shapes: final(self).shapes,
                    selected: final(self).selected,
                    is_mouse_down: true,
                    mouse_pos: final(self).mouse_pos,
                    mouse_origin: final(self).mouse_origin,
                    ..*old(self)
                })
                &&& match old(self).mode {
                    Mode::Draw => {
                        &&& final(self).mouse_pos == old(self).mouse_pos
                        &&& final(self).mouse_origin == old(self).mouse_origin
                        &&& final(self).shapes@ == (if old(self).shapes@.len() == 0 {
                            seq![seq![p]]
                        } else {
                            old(self).shapes@.update(
                                old(self).shapes@.len() - 1,
                                old(self).shapes@.last().push(p),
                            )
                        })
                    },
                    Mode::Rotate | Mode::Scale => {
                        &&& final(self).shapes@ == old(self).shapes@
                        &&& final(self).mouse_pos == Some(p)
                        &&& final(self).mouse_origin == old(self).mouse_origin
                    },
                    Mode::Shift => {
                        &&& final(self).shapes@ == old(self).shapes@
                        &&& final(self).mouse_pos == old(self).mouse_pos
                        &&& final(self).mouse_origin == (if old(self).mouse_origin is Some {
                            old(self).mouse_origin
                        } else {
                            Some(p)
                        })
                    },
                }
            },
    {
        if self.shift_is_down {
            self.pivot = Some(p);
            return;
        }
        if self.ctrl_is_down {
            self.selected = self.shapes.find_first_containing(p);
            return;
        }
        match self.mode {
            Mode::Draw => {
                let ghost before = self.shapes@;
                if self.shapes.is_empty() {
                    self.shapes.add(Shape::new());
                }
                self.shapes.add_point_to_last(p);
                proof {
                    if before.len() == 0 {
                        assert(self.shapes@ =~= seq![seq![p]]);
                    }
                    assert forall|j: int| 0 <= j < self.shapes@.len()
                        implies pts_in_range(#[trigger] self.shapes@[j]) by {
                        if before.len() == 0 {
                            assert(self.shapes@[j] =~= seq![p]);
                        } else if j < before.len() - 1 {
                            assert(self.shapes@[j] == before[j]);
                        } else {
                            assert(self.shapes@[j] == before.last().push(p));
                            assert(pts_in_range(before[j]));
                        }
                    }
                }
            },
            Mode::Rotate | Mode::Scale => {
                self.mouse_pos = Some(p);
            },
            Mode::Shift => {
                if self.mouse_origin.is_none() {
                    self.mouse_origin = Some(p);
                }
            },
        }
        self.selected = self.shapes.find_first_containing(p);
        self.is_mouse_down = true;
    }


    /// A pointer move. The transform of the current gesture is applied
    /// to the selected shape — a rotation or scaling about the pivot by
    /// the move just made, or a translation by it — and the tracked
    /// position advances, or is dropped when no button is down. A
    /// gesture whose rotation or ratio is undefined at this move, or
    /// whose result would leave the grid, changes no shape.
    pub fn mouse_move(&mut self, p: Vector)
        requires
            old(self).wf(),
            vec_in_range(p),
        ensures
            final(self).wf(),
            *final(self) == (InteractionController {
                shapes: final(self).shapes,
                mouse_pos: final(self).mouse_pos,
                ..*old(self)
            }),
            final(self).mouse_pos == (if old(self).is_mouse_down {
                Some(p)
            } else {
                None::<Vector>
            }),
            old(self).pivot is Some && old(self).mouse_pos is Some
                && old(self).selected is Some && old(self).mode == Mode::Rotate
                && old(self).is_mouse_down ==> {
                let v = old(self).pivot->Some_0;
                let prev = old(self).mouse_pos->Some_0;
                let idx = old(self).selected->Some_0;
                let u = Vector { x: (p.x - v.x) as i64, y: (p.y - v.y) as i64 };
                let w = Vector { x: (prev.x - v.x) as i64, y: (prev.y - v.y) as i64 };
                final(self).shapes@ == (if (u.x == 0 && u.y == 0) || (w.x == 0 && w.y == 0) {
                    old(self).shapes@
                } else {
                    old(self).shapes@.update(
                        idx as int,
                        try_map(
                            old(self).shapes@[idx as int],
                            (|q: (int, int)| rot_pt(q, (rot_c(u, w), rot_s(u, w)), pt_of(v))),
                        ),
                    )
                })
            },
            old(self).pivot is Some && old(self).mouse_pos is Some
                && old(self).selected is Some && old(self).mode == Mode::Scale
                && old(self).is_mouse_down ==> {
                let v = old(self).pivot->Some_0;
                let prev = old(self).mouse_pos->Some_0;
                let idx = old(self).selected->Some_0;
                let u = Vector { x: (p.x - v.x) as i64, y: (p.y - v.y) as i64 };
                let w = Vector { x: (prev.x - v.x) as i64, y: (prev.y - v.y) as i64 };
                final(self).shapes@ == (if (w.x == 0 && w.y == 0) || scale_factor(u, w)
                    > i64::MAX {
                    old(self).shapes@
                } else {
                    old(self).shapes@.update(
                        idx as int,
                        try_map(
                            old(self).shapes@[idx as int],
                            (|q: (int, int)| scale_pt(
                                q,
                                (scale_factor(u, w), scale_factor(u, w)),
                                pt_of(v),
                            )),
                        ),
                    )
                })
            },
            old(self).mouse_pos is Some && old(self).selected is Some
                && old(self).mode == Mode::Shift ==> {
                let prev = old(self).mouse_pos->Some_0;
                let idx = old(self).selected->Some_0;
                let d = Vector { x: (p.x - prev.x) as i64, y: (p.y - prev.y) as i64 };
                final(self).shapes@ == old(self).shapes@.update(
                    idx as int,
                    try_map(
                        old(self).shapes@[idx as int],
                        (|q: (int, int)| shift_pt(q, pt_of(d))),
                    ),
                )
            },
            !((old(self).mode == Mode::Rotate || old(self).mode == Mode::Scale)
                && old(self).is_mouse_down && old(self).pivot is Some
                && old(self).mouse_pos is Some && old(self).selected is Some)
                && !(old(self).mode == Mode::Shift && old(self).mouse_pos is Some
                && old(self).selected is Some) ==> final(self).shapes@ == old(self).shapes@,
    {
        let prev_pos: Option<Vector> = self.mouse_pos;
        match self.mode {
            Mode::Rotate => {
                if self.is_mouse_down {
                    if let (Some(v), Some(prev), Some(idx)) = (self.pivot, prev_pos, self.selected) {
                        let u = Vector { x: p.x - v.x, y: p.y - v.y };
                        let w = Vector { x: prev.x - v.x, y: prev.y - v.y };
                        let ghost before = self.shapes@;
                        match rotation_between(u, w) {
                            Ok(rot) => {
                                let applied = self.shapes.rotate_shape(idx, rot, v);
                                proof {
                                    lemma_try_map_bridge(
                                        before[idx as int],
                                        self.shapes@[idx as int],
                                        (|q: (int, int)| rot_pt(
                                            q,
                                            (rot_c(u, w), rot_s(u, w)),
                                            pt_of(v),
                                        )),
                                        applied,
                                    );
                                    assert(self.shapes@ =~= before.update(
                                        idx as int,
                                        self.shapes@[idx as int],
                                    ));
                                }
                            },
                            Err(_) => {},
                        }
                    }
                }
            },
            Mode::Scale => {
                if self.is_mouse_down {
                    if let (Some(v), Some(prev), Some(idx)) = (self.pivot, prev_pos, self.selected) {
                        let u = Vector { x: p.x - v.x, y: p.y - v.y };
                        let w = Vector { x: prev.x - v.x, y: prev.y - v.y };
                        let ghost before = self.shapes@;
                        match scale_factor_between(u, w) {
                            Some(f) => {
                                let k = Vector { x: f, y: f };
                                let applied = self.shapes.scale_shape(idx, k, v);
                                proof {
                                    lemma_try_map_bridge(
                                        before[idx as int],
                                        self.shapes@[idx as int],
                                        (|q: (int, int)| scale_pt(
                                            q,
                                            (scale_factor(u, w), scale_factor(u, w)),
                                            pt_of(v),
                                        )),
                                        applied,
                                    );
                                    assert(self.shapes@ =~= before.update(
                                        idx as int,
                                        self.shapes@[idx as int],
                                    ));
                                }
                            },
                            None => {},
                        }
                    }
                }
            },
            Mode::Shift => {
                if let (Some(prev), Some(idx)) = (prev_pos, self.selected) {
                    let d = Vector { x: p.x - prev.x, y: p.y - prev.y };
                    let ghost before = self.shapes@;
                    let applied = self.shapes.shift_shape(idx, d);
                    proof {
                        lemma_try_map_bridge(
                            before[idx as int],
                            self.shapes@[idx as int],
                            (|q: (int, int)| shift_pt(q, pt_of(d))),
                            applied,
                        );
                        assert(self.shapes@ =~= before.update(idx as int, self.shapes@[idx as int]));
                    }
                }
            },
            Mode::Draw => {},
        }
        if self.is_mouse_down {
            self.mouse_pos = Some(p);
        } else {
            self.mouse_pos = None;
        }
    }

    /// A pointer release: the drag ends, its tracked positions are
    /// forgotten; pivot and selection persist.
    pub fn mouse_up(&mut self)
        requires
            old(self).wf(),
        ensures
            *final(self) == (InteractionController {
                is_mouse_down: false,
                mouse_origin: None,
                mouse_pos: None,
                ..*old(self)
            }),
            final(self).wf(),
    {
        self.is_mouse_down = false;
        self.mouse_origin = None;
        self.mouse_pos = None;
    }

    /// The pointer left the canvas: a rendering event only, no state
    /// moves.
    pub fn mouse_leave(&mut self)
        requires
            old(self).wf(),
        ensures
            *final(self) == *old(self),
            final(self).wf(),
    {
    }


    /// Apply the staged compound transform to the selected shape: the
    /// staged translation, then the staged scaling and the staged
    /// rotation, both about the pivot (the origin when none was set).
    /// Each step that would push a vertex off the grid is skipped.
    pub fn apply_transform(&mut self)
        requires
            old(self).wf(),
        ensures
            final(self).wf(),
            old(self).selected is None ==> *final(self) == *old(self),
            old(self).selected is Some ==> {
                let idx = old(self).selected->Some_0;
                let v = if old(self).pivot is Some {
                    old(self).pivot->Some_0
                } else {
                    Vector { x: 0i64, y: 0i64 }
                };
                let s1 = try_map(
                    old(self).shapes@[idx as int],
                    (|q: (int, int)| shift_pt(q, pt_of(old(self).shift_vector))),
                );
                let s2 = try_map(
                    s1,
                    (|q: (int, int)| scale_pt(q, pt_of(old(self).scale_vector), pt_of(v))),
                );
                let s3 = try_map(
                    s2,
                    (|q: (int, int)| rot_pt(
                        q,
                        (old(self).rotate_staged.c as int, old(self).rotate_staged.s as int),
                        pt_of(v),
                    )),
                );
                &&& final(self).shapes@ == old(self).shapes@.update(idx as int, s3)
                &&& *final(self) == (InteractionController {
                    shapes: final(self).shapes,
                    ..*old(self)
                })
            },
    {
        if let Some(idx) = self.selected {
            let v: Vector = match self.pivot {
                Some(pv) => pv,
                None => Vector { x: 0, y: 0 },
            };
            let ghost before0 = self.shapes@;
            let a1 = self.shapes.shift_shape(idx, self.shift_vector);
            proof {
                lemma_try_map_bridge(
                    before0[idx as int],
                    self.shapes@[idx as int],
                    (|q: (int, int)| shift_pt(q, pt_of(old(self).shift_vector))),
                    a1,
                );
            }
            let ghost before1 = self.shapes@;
            let a2 = self.shapes.scale_shape(idx, self.scale_vector, v);
            proof {
                lemma_try_map_bridge(
                    before1[idx as int],
                    self.shapes@[idx as int],
                    (|q: (int, int)| scale_pt(q, pt_of(old(self).scale_vector), pt_of(v))),
                    a2,
                );
            }
            let ghost before2 = self.shapes@;
            let a3 = self.shapes.rotate_shape(idx, self.rotate_staged, v);
            proof {
                lemma_try_map_bridge(
                    before2[idx as int],
                    self.shapes@[idx as int],
                    (|q: (int, int)| rot_pt(
                        q,
                        (old(self).rotate_staged.c as int, old(self).rotate_staged.s as int),
                        pt_of(v),
                    )),
                    a3,
                );
                assert(self.shapes@ =~= before0.update(idx as int, self.shapes@[idx as int]));
            }
        }
    }

    /// The saved document: the canonical text of the shape list.
    pub fn save(&self) -> (out: Vec<u8>)
        requires
            self.wf(),
        ensures
            out@ == doc_chars(self.shapes@),
    {
        self.shapes.serialize()
    }

    /// Load a document. On success the whole shape list is replaced and
    /// the selection dropped; a malformed text changes nothing and is
    /// reported.
    pub fn load(&mut self, data: &[u8]) -> (r: Result<(), EditorError>)
        requires
            old(self).wf(),
        ensures
            r matches Ok(u) ==> parse_doc(data@) == Some(final(self).shapes@)
                && *final(self) == (InteractionController {
                    shapes: final(self).shapes,
                    selected: None,
                    ..*old(self)
                }),
            r matches Err(e) ==> e == EditorError::MalformedData && parse_doc(data@) is None
                && *final(self) == *old(self),
            final(self).wf(),
    {
        match ShapeCollection::deserialize(data) {
            Ok(c) => {
                self.shapes = c;
                self.selected = None;
                Ok(())
            },
            Err(e) => Err(e),
        }
    }
}

} // verus!
