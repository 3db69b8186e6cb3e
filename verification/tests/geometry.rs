//! Vector arithmetic, shape transforms and the hit test, on concrete
//! values of the fixed-point grid.

use shape_editor::EditorError;
use shape_editor::shape::Shape;
use shape_editor::vec2::Rotation;
use shape_editor::vec2::Vector;
use shape_editor::vec2::rotation_between;
use shape_editor::vec2::scale_factor_between;

/// Whole canvas units as raw grid steps.
fn units(n: i64) -> i64 {
    n * 1_000_000
}

fn v(x: i64, y: i64) -> Vector {
    Vector::new_with_data(units(x), units(y))
}

fn square_shape() -> Shape {
    let mut s = Shape::new();
    s.add_point(v(0, 0));
    s.add_point(v(10, 0));
    s.add_point(v(10, 10));
    s.add_point(v(0, 10));
    s
}

#[test]
fn vector_accessors() {
    let mut a = Vector::new_with_data(3, 4);
    assert_eq!(a.x(), 3);
    assert_eq!(a.y(), 4);
    a.set_x(7);
    a.set_y(-2);
    assert_eq!(a.x(), 7);
    assert_eq!(a.y(), -2);
    let z = Vector::zero();
    assert_eq!(z.x(), 0);
    assert_eq!(z.y(), 0);
}

#[test]
fn vector_add_sub() {
    let a = v(3, 4);
    let b = v(1, 2);
    let s = a.add(b);
    assert_eq!(s.x(), units(4));
    assert_eq!(s.y(), units(6));
    let d = a.sub(b);
    assert_eq!(d.x(), units(2));
    assert_eq!(d.y(), units(2));
}

#[test]
fn vector_mul_scales_componentwise() {
    let a = v(3, -4);
    let twice_and_half = a.mul(2_500_000);
    assert_eq!(twice_and_half.x(), 7_500_000);
    assert_eq!(twice_and_half.y(), -10_000_000);
}

#[test]
fn vector_div_and_zero_divisor() {
    let a = v(3, -4);
    let half = a.div(units(2)).unwrap();
    assert_eq!(half.x(), 1_500_000);
    assert_eq!(half.y(), -2_000_000);
    assert_eq!(a.div(0), Err(EditorError::DivisionByZero));
    let neg = a.div(units(-1)).unwrap();
    assert_eq!(neg.x(), units(-3));
    assert_eq!(neg.y(), units(4));
}

#[test]
fn length_and_distance() {
    assert_eq!(v(3, 4).length(), units(5));
    assert_eq!(v(0, 0).length(), 0);
    // an irrational length lands on the grid step just below it
    assert_eq!(v(1, 1).length(), 1_414_213);
    assert_eq!(v(1, 1).distance_to(v(4, 5)), units(5));
}

#[test]
fn dot_and_cross() {
    let a = v(3, 4);
    let b = v(2, -1);
    assert_eq!(a.dot(b), units(2));
    assert_eq!(a.cross(b), units(-11));
}

#[test]
fn normalize_unit_vector_and_zero() {
    let n = v(3, 4).normalize().unwrap();
    assert_eq!(n.x(), 600_000);
    assert_eq!(n.y(), 800_000);
    let diag = v(1, 1).normalize().unwrap();
    assert_eq!(diag.x(), 707_107);
    assert_eq!(diag.y(), 707_107);
    assert_eq!(v(0, 0).normalize(), Err(EditorError::DivisionByZero));
}

#[test]
fn rotate_by_three_four_five() {
    let r = Rotation::new(600_000, 800_000);
    let p = v(10, 0).rotate(r);
    assert_eq!(p.x(), units(6));
    assert_eq!(p.y(), units(8));
}

#[test]
fn shift_moves_every_point() {
    let mut s = square_shape();
    s.shift(v(3, -2));
    let pts = s.get_points();
    assert_eq!(pts[0], Vector::new_with_data(units(3), units(-2)));
    assert_eq!(pts[2], Vector::new_with_data(units(13), units(8)));
}

#[test]
fn shift_round_trip_restores_exactly() {
    let mut s = square_shape();
    let original = s.get_points().clone();
    let d = Vector::new_with_data(12_345_678, -987_654);
    s.shift(d);
    s.shift(Vector::new_with_data(-d.x(), -d.y()));
    assert_eq!(s.get_points(), &original);
}

#[test]
fn rotate_leaves_pivot_in_place() {
    let mut s = square_shape();
    let pivot = v(0, 0);
    s.rotate_rel_to_point(Rotation::new(600_000, 800_000), pivot);
    assert_eq!(s.get_points()[0], pivot);
}

#[test]
fn rotate_round_trip_restores_exactly() {
    // whole-unit vertices and a grid-exact rotation: both steps divide
    // evenly, so the inverse rotation lands back on the originals
    let mut s = square_shape();
    let original = s.get_points().clone();
    let r = Rotation::new(600_000, 800_000);
    let pivot = v(2, 1);
    s.rotate_rel_to_point(r, pivot);
    s.rotate_rel_to_point(r.inverse(), pivot);
    assert_eq!(s.get_points(), &original);
}

#[test]
fn scale_about_pivot() {
    let mut s = square_shape();
    s.scale_rel_to_point(Vector::new_with_data(units(2), units(3)), v(0, 0));
    let pts = s.get_points();
    assert_eq!(pts[2], Vector::new_with_data(units(20), units(30)));
}

#[test]
fn scale_composition_matches_single_scale() {
    let pivot = v(1, 1);
    let mut twice = square_shape();
    twice.scale_rel_to_point(Vector::new_with_data(units(2), units(2)), pivot);
    twice.scale_rel_to_point(Vector::new_with_data(units(3), units(3)), pivot);
    let mut once = square_shape();
    once.scale_rel_to_point(Vector::new_with_data(units(6), units(6)), pivot);
    assert_eq!(twice.get_points(), once.get_points());
}

#[test]
fn scale_composition_with_halves() {
    // quarters of whole units stay exact: 0.5 twice equals 0.25
    let pivot = v(0, 0);
    let mut twice = square_shape();
    twice.scale_rel_to_point(Vector::new_with_data(500_000, 500_000), pivot);
    twice.scale_rel_to_point(Vector::new_with_data(500_000, 500_000), pivot);
    let mut once = square_shape();
    once.scale_rel_to_point(Vector::new_with_data(250_000, 250_000), pivot);
    assert_eq!(twice.get_points(), once.get_points());
}

#[test]
fn hit_test_square() {
    let s = square_shape();
    assert!(s.intersect_with_point(v(5, 5)));
    assert!(!s.intersect_with_point(v(15, 5)));
    assert!(!s.intersect_with_point(v(-1, 5)));
    assert!(!s.intersect_with_point(v(5, 11)));
}

#[test]
fn hit_test_exact_vertex_is_deterministic() {
    // the corner at the origin counts as inside under the strict
    // comparisons of the even-odd rule; pin that choice down
    let s = square_shape();
    assert!(s.intersect_with_point(v(0, 0)));
}

#[test]
fn hit_test_degenerate_shapes_miss() {
    let mut s = Shape::new();
    assert!(!s.intersect_with_point(v(0, 0)));
    s.add_point(v(1, 1));
    assert!(!s.intersect_with_point(v(1, 1)));
    s.add_point(v(5, 1));
    assert!(!s.intersect_with_point(v(3, 1)));
    assert!(!s.intersect_with_point(v(2, 2)));
}

#[test]
fn triangle_hit_test() {
    let mut s = Shape::new();
    s.add_point(v(0, 0));
    s.add_point(v(10, 0));
    s.add_point(v(5, 10));
    assert!(s.intersect_with_point(v(5, 3)));
    assert!(!s.intersect_with_point(v(0, 9)));
}

#[test]
fn rotation_between_quarter_turn_is_exact() {
    let r = rotation_between(v(0, 8), v(8, 0)).unwrap();
    assert_eq!(r.c, 0);
    assert_eq!(r.s, units(1));
    let half = rotation_between(v(-8, 0), v(8, 0)).unwrap();
    assert_eq!(half.c, -units(1));
    assert_eq!(half.s, 0);
}

#[test]
fn rotation_between_zero_vector_is_undefined() {
    assert_eq!(
        rotation_between(v(0, 0), v(1, 0)),
        Err(EditorError::DivisionByZero)
    );
    assert_eq!(
        rotation_between(v(1, 0), v(0, 0)),
        Err(EditorError::DivisionByZero)
    );
}

#[test]
fn scale_factor_between_ratio_of_lengths() {
    assert_eq!(scale_factor_between(v(8, 0), v(4, 0)), Some(units(2)));
    assert_eq!(scale_factor_between(v(3, 4), v(10, 0)), Some(500_000));
    assert_eq!(scale_factor_between(v(1, 0), v(0, 0)), None);
}

#[test]
fn scale_leaves_pivot_in_place() {
    let mut s = square_shape();
    let pivot = v(0, 0);
    s.scale_rel_to_point(Vector::new_with_data(units(7), units(-3)), pivot);
    assert_eq!(s.get_points()[0], pivot);
}
