//! Core of an interactive 2D polygon editor.
//!
//! Coordinates live on an exact fixed-point grid: a scalar is an `i64`
//! counting millionths of a canvas unit (see [`fixed::SCALE`]). All plane
//! geometry — vector arithmetic, polygon transforms, even-odd hit testing —
//! is carried out exactly on that grid, with divisions rounded toward zero,
//! so every operation has a precise arithmetic contract.
//!
//! The crate provides the vector and polygon types ([`vec2::Vector`],
//! [`shape::Shape`]), an ordered shape list with a verified text
//! serialization ([`collection::ShapeCollection`], [`codec`]), and the
//! pointer-interaction state machine ([`controller::InteractionController`])
//! that turns pointer and key events into edits of the shape list.

use vstd::prelude::*;

pub mod codec;
pub mod collection;
pub mod controller;
pub mod fixed;
pub mod laws;
pub mod shape;
pub mod vec2;

verus! {

/// The recoverable failures of the editor core.
///
/// `MalformedData` is reported when a serialized document cannot be read
/// back; `DivisionByZero` when a geometric quantity (a unit vector, a
/// rotation between coincident points, a scale ratio) is undefined.
#[derive(Clone, Copy, Debug, PartialEq, Eq, Structural)]
pub enum EditorError {
    MalformedData,
    DivisionByZero,
}

} // verus!
