//! The save/load text format: exact output, tolerant input, and the
//! round trip.

use shape_editor::EditorError;
use shape_editor::collection::ShapeCollection;
use shape_editor::shape::Shape;
use shape_editor::vec2::Vector;

fn units(n: i64) -> i64 {
    n * 1_000_000
}

fn v(x: i64, y: i64) -> Vector {
    Vector::new_with_data(units(x), units(y))
}

fn triangle_collection() -> ShapeCollection {
    let mut s = Shape::new();
    s.add_point(v(0, 0));
    s.add_point(v(10, 0));
    s.add_point(v(5, 10));
    let mut c = ShapeCollection::new();
    c.add(s);
    c
}

#[test]
fn serialize_empty_collection() {
    let c = ShapeCollection::new();
    assert_eq!(c.serialize(), b"[]".to_vec());
}

#[test]
fn serialize_writes_plain_decimals() {
    let mut s = Shape::new();
    s.add_point(Vector::new_with_data(1_500_000, -2_000_000));
    s.add_point(Vector::new_with_data(1, 0));
    let mut c = ShapeCollection::new();
    c.add(s);
    assert_eq!(c.serialize(), b"[[[1.5,-2],[0.000001,0]]]".to_vec());
}

#[test]
fn serialize_two_shapes_in_order() {
    let mut a = Shape::new();
    a.add_point(v(1, 2));
    let mut b = Shape::new();
    b.add_point(v(3, 4));
    let mut c = ShapeCollection::new();
    c.add(a);
    c.add(b);
    assert_eq!(c.serialize(), b"[[[1,2]],[[3,4]]]".to_vec());
}

#[test]
fn round_trip_preserves_points_and_order() {
    let mut s1 = Shape::new();
    s1.add_point(Vector::new_with_data(units(0), units(0)));
    s1.add_point(Vector::new_with_data(12_345_678, -987_654));
    let mut s2 = Shape::new();
    s2.add_point(Vector::new_with_data(-1, 1));
    let mut c = ShapeCollection::new();
    c.add(s1);
    c.add(s2);
    let text = c.serialize();
    let back = ShapeCollection::deserialize(&text).unwrap();
    assert_eq!(back.len(), 2);
    assert_eq!(back.get(0).get_points(), c.get(0).get_points());
    assert_eq!(back.get(1).get_points(), c.get(1).get_points());
}

#[test]
fn deserialize_empty_document() {
    let c = ShapeCollection::deserialize(b"[]").unwrap();
    assert_eq!(c.len(), 0);
    let c2 = ShapeCollection::deserialize(b"  [ ]  ").unwrap();
    assert_eq!(c2.len(), 0);
}

#[test]
fn deserialize_accepts_blanks_between_tokens() {
    let c = ShapeCollection::deserialize(b" [ [ [ 1 , 2 ] , [ -3.25 , 0 ] ] ] ").unwrap();
    assert_eq!(c.len(), 1);
    let pts = c.get(0).get_points();
    assert_eq!(pts[0], v(1, 2));
    assert_eq!(pts[1], Vector::new_with_data(-3_250_000, 0));
}

#[test]
fn deserialize_accepts_empty_shape() {
    let c = ShapeCollection::deserialize(b"[[]]").unwrap();
    assert_eq!(c.len(), 1);
    assert_eq!(c.get(0).get_points().len(), 0);
}

#[test]
fn deserialize_rejects_malformed_documents() {
    let bad: &[&[u8]] = &[
        b"",
        b"[",
        b"[]]",
        b"[]x",
        b"oops",
        b"[[1,2]]",
        b"[[[1,2],]]",
        b"[[[1]]]",
        b"[[[1,2,3]]]",
        b"[[[1,]]]",
        b"[[[,1]]]",
        b"[[[1.,2]]]",
        b"[[[1.2345678,0]]]",
        b"[[[9999999999999,0]]]",
        b"[[[1,2]",
    ];
    for text in bad {
        let r = ShapeCollection::deserialize(text);
        assert!(
            matches!(r, Err(EditorError::MalformedData)),
            "accepted: {:?}",
            String::from_utf8_lossy(text)
        );
    }
}

#[test]
fn end_to_end_save_clear_load() {
    let mut c = triangle_collection();
    let saved = c.serialize();
    c.clear();
    assert_eq!(c.len(), 0);
    let loaded = ShapeCollection::deserialize(&saved).unwrap();
    assert_eq!(loaded.len(), 1);
    let pts = loaded.get(0).get_points();
    assert_eq!(pts.len(), 3);
    assert_eq!(pts[0], v(0, 0));
    assert_eq!(pts[1], v(10, 0));
    assert_eq!(pts[2], v(5, 10));
}
