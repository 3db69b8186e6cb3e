//! The pointer-interaction state machine, driven through whole
//! scenarios.

use shape_editor::controller::InteractionController;
use shape_editor::controller::Mode;
use shape_editor::vec2::Rotation;
use shape_editor::vec2::Vector;

fn units(n: i64) -> i64 {
    n * 1_000_000
}

fn v(x: i64, y: i64) -> Vector {
    Vector::new_with_data(units(x), units(y))
}

/// Draw a closed polygon point by point, releasing between clicks.
fn draw(c: &mut InteractionController, pts: &[Vector]) {
    for p in pts {
        c.mouse_down(*p);
        c.mouse_up();
    }
}

fn square(c: &mut InteractionController, x0: i64, y0: i64, side: i64) {
    draw(
        c,
        &[
            v(x0, y0),
            v(x0 + side, y0),
            v(x0 + side, y0 + side),
            v(x0, y0 + side),
        ],
    );
}

#[test]
fn drawing_appends_to_the_last_shape() {
    let mut c = InteractionController::new();
    assert!(matches!(c.mode, Mode::Draw));
    square(&mut c, 0, 0, 10);
    assert_eq!(c.shapes.len(), 1);
    assert_eq!(c.shapes.get(0).get_points().len(), 4);
    c.finish_shape();
    draw(&mut c, &[v(20, 20), v(30, 20), v(25, 30)]);
    assert_eq!(c.shapes.len(), 2);
    assert_eq!(c.shapes.get(1).get_points().len(), 3);
}

#[test]
fn selection_picks_first_match_in_collection_order() {
    let mut c = InteractionController::new();
    square(&mut c, 0, 0, 10);
    c.finish_shape();
    square(&mut c, 5, 5, 10);
    // (7, 7) lies inside both overlapping squares; the first one added
    // wins, not the one drawn on top
    c.ctrl_key_down();
    c.mouse_down(v(7, 7));
    c.ctrl_key_up();
    assert_eq!(c.selected, Some(0));
    // a point only the second square covers selects it
    c.ctrl_key_down();
    c.mouse_down(v(14, 14));
    c.ctrl_key_up();
    assert_eq!(c.selected, Some(1));
    // a point neither covers drops the selection
    c.ctrl_key_down();
    c.mouse_down(v(40, 40));
    c.ctrl_key_up();
    assert_eq!(c.selected, None);
}

#[test]
fn set_pivot_gesture_changes_nothing_else() {
    let mut c = InteractionController::new();
    square(&mut c, 0, 0, 10);
    c.shift_key_down();
    c.mouse_down(v(3, 4));
    c.shift_key_up();
    assert_eq!(c.pivot, Some(v(3, 4)));
    assert!(!c.is_mouse_down);
    assert_eq!(c.shapes.get(0).get_points().len(), 4);
}

#[test]
fn shift_drag_translates_the_selected_shape() {
    let mut c = InteractionController::new();
    square(&mut c, 0, 0, 10);
    c.set_mode(Mode::Shift);
    c.mouse_down(v(5, 5));
    assert_eq!(c.selected, Some(0));
    assert_eq!(c.mouse_origin, Some(v(5, 5)));
    // the first move only starts tracking; the second one drags
    c.mouse_move(v(6, 5));
    assert_eq!(c.shapes.get(0).get_points()[0], v(0, 0));
    c.mouse_move(v(8, 6));
    assert_eq!(c.shapes.get(0).get_points()[0], v(2, 1));
    assert_eq!(c.shapes.get(0).get_points()[2], v(12, 11));
    // releasing ends the drag: further moves change nothing
    c.mouse_up();
    c.mouse_move(v(20, 20));
    c.mouse_move(v(30, 30));
    assert_eq!(c.shapes.get(0).get_points()[0], v(2, 1));
}

#[test]
fn draw_mode_moves_change_no_points() {
    let mut c = InteractionController::new();
    c.mouse_down(v(0, 0));
    c.mouse_move(v(5, 5));
    c.mouse_move(v(9, 9));
    c.mouse_up();
    assert_eq!(c.shapes.get(0).get_points().len(), 1);
}

#[test]
fn rotate_drag_needs_pivot_and_selection() {
    let mut c = InteractionController::new();
    square(&mut c, 0, 0, 10);
    c.set_mode(Mode::Rotate);
    // no pivot: dragging rotates nothing
    c.mouse_down(v(5, 5));
    c.mouse_move(v(6, 5));
    c.mouse_move(v(6, 6));
    assert_eq!(c.shapes.get(0).get_points()[1], v(10, 0));
    c.mouse_up();
}

#[test]
fn rotate_drag_quarter_turn() {
    let mut c = InteractionController::new();
    square(&mut c, 0, 0, 10);
    c.set_mode(Mode::Rotate);
    c.set_pivot(v(0, 0));
    c.mouse_down(v(8, 0));
    assert_eq!(c.selected, Some(0));
    // drag from (8,0) to (0,8): a quarter turn about the origin, whose
    // cosine and sine come out exactly 0 and 1 on the grid
    c.mouse_move(v(0, 8));
    let pts = c.shapes.get(0).get_points().clone();
    assert_eq!(pts[1], v(0, 10));
    assert_eq!(pts[2], v(-10, 10));
}

#[test]
fn scale_drag_doubles_distances() {
    let mut c = InteractionController::new();
    square(&mut c, 0, 0, 10);
    c.set_mode(Mode::Scale);
    c.set_pivot(v(0, 0));
    c.mouse_down(v(4, 0));
    // dragging from 4 to 8 units away from the pivot doubles the shape
    c.mouse_move(v(8, 0));
    let pts = c.shapes.get(0).get_points().clone();
    assert_eq!(pts[2], v(20, 20));
}

#[test]
fn apply_transform_shifts_scales_then_rotates() {
    let mut c = InteractionController::new();
    square(&mut c, 0, 0, 10);
    c.ctrl_key_down();
    c.mouse_down(v(5, 5));
    c.ctrl_key_up();
    c.set_pivot(v(0, 0));
    c.set_shift_vector(v(1, 0));
    c.set_scale_vector(v(2, 2));
    c.set_rotation(Rotation::new(0, units(1)));
    c.apply_transform();
    // (10, 0): shift to (11, 0), scale to (22, 0), quarter-turn to (0, 22)
    let pts = c.shapes.get(0).get_points().clone();
    assert_eq!(pts[1], v(0, 22));
    assert_eq!(pts[0], v(0, 2));
}

#[test]
fn apply_transform_without_selection_is_a_no_op() {
    let mut c = InteractionController::new();
    square(&mut c, 0, 0, 10);
    c.set_shift_vector(v(5, 5));
    c.apply_transform();
    assert_eq!(c.shapes.get(0).get_points()[0], v(0, 0));
}

#[test]
fn clear_drops_shapes_selection_and_pivot() {
    let mut c = InteractionController::new();
    square(&mut c, 0, 0, 10);
    c.ctrl_key_down();
    c.mouse_down(v(5, 5));
    c.ctrl_key_up();
    c.set_pivot(v(1, 1));
    c.clear();
    assert_eq!(c.shapes.len(), 0);
    assert_eq!(c.selected, None);
    assert_eq!(c.pivot, None);
}

#[test]
fn save_clear_load_restores_the_drawing() {
    let mut c = InteractionController::new();
    draw(&mut c, &[v(0, 0), v(10, 0), v(5, 10)]);
    let saved = c.save();
    c.clear();
    assert_eq!(c.shapes.len(), 0);
    c.load(&saved).unwrap();
    assert_eq!(c.shapes.len(), 1);
    let pts = c.shapes.get(0).get_points();
    assert_eq!(pts.len(), 3);
    assert_eq!(pts[0], v(0, 0));
    assert_eq!(pts[1], v(10, 0));
    assert_eq!(pts[2], v(5, 10));
}

#[test]
fn failed_load_changes_nothing() {
    let mut c = InteractionController::new();
    square(&mut c, 0, 0, 10);
    let r = c.load(b"not a drawing");
    assert!(r.is_err());
    assert_eq!(c.shapes.len(), 1);
    assert_eq!(c.shapes.get(0).get_points().len(), 4);
}

#[test]
fn mode_change_keeps_everything_else() {
    let mut c = InteractionController::new();
    square(&mut c, 0, 0, 10);
    c.set_pivot(v(1, 2));
    c.set_mode(Mode::Scale);
    assert!(matches!(c.mode, Mode::Scale));
    assert_eq!(c.pivot, Some(v(1, 2)));
    assert_eq!(c.shapes.len(), 1);
}
