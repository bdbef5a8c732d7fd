use track_simplify::geometry::{
    append_row, farthest_point, IrrelevantPointsBehavior, Point, RowFields,
};
use track_simplify::pipeline::{select_by_indexes, simplify_to_polyline};
use track_simplify::polyline::{PointField, PolylineOption};
use track_simplify::surface::SurfaceMapping;
use std::collections::HashSet;

// The farthest interior point from the chord, with the numerator of its
// squared distance: for the chord (0,0)..(2,0) and candidate (1,5), the
// perpendicular offset is 5, the chord length squared 4, so the numerator is
// (1*0 - 5*2)^2 = 100 (distance squared = 100 / 4 = 25).
#[test]
fn test_farthest_point_perpendicular() {
    let points = vec![
        Point::new(0, 0, 0, 0, 0, None, None),
        Point::new(1, 1, 5, 0, 0, None, None),
        Point::new(2, 2, 0, 0, 0, None, None),
    ];
    assert_eq!(farthest_point(&points, 0, 3), (1, 100));
}

// With no interior candidate the search reports the range start and zero.
#[test]
fn test_farthest_point_no_interior() {
    let points = vec![
        Point::new(0, 0, 0, 0, 0, None, None),
        Point::new(1, 9, 9, 0, 0, None, None),
    ];
    assert_eq!(farthest_point(&points, 0, 2), (0, 0));
}

// A degenerate chord (both endpoints equal) measures candidates directly
// against the start point.
#[test]
fn test_farthest_point_degenerate_chord() {
    let points = vec![
        Point::new(0, 1, 1, 0, 0, None, None),
        Point::new(1, 4, 5, 0, 0, None, None),
        Point::new(2, 1, 1, 0, 0, None, None),
    ];
    // (4-1)^2 + (5-1)^2 = 25, measured over denominator 1
    assert_eq!(farthest_point(&points, 0, 3), (1, 25));
}

// The first of several equally-far candidates wins.
#[test]
fn test_farthest_point_first_of_ties() {
    let points = vec![
        Point::new(0, 0, 0, 0, 0, None, None),
        Point::new(1, 1, 3, 0, 0, None, None),
        Point::new(2, 2, -3, 0, 0, None, None),
        Point::new(3, 3, 0, 0, 0, None, None),
    ];
    let (idx, num) = farthest_point(&points, 0, 4);
    assert_eq!(idx, 1);
    assert_eq!(num, 81);
}

// Under the Count policy an irrelevant row still advances the index; under
// Ignore it does not. Full rows extend the cumulative distance.
#[test]
fn test_append_row_policies() {
    let mut points: Vec<Point> = Vec::new();
    let row0 = RowFields { x: 0, y: 0, e: 10, s: Some(1), r: None };
    let row2 = RowFields { x: 100, y: 0, e: 20, s: None, r: Some(3) };

    let mut index = 0;
    index = append_row(&mut points, IrrelevantPointsBehavior::Count, index, Some(row0), 0);
    assert_eq!(index, 1);
    index = append_row(&mut points, IrrelevantPointsBehavior::Count, index, None, 0);
    assert_eq!(index, 2);
    index = append_row(&mut points, IrrelevantPointsBehavior::Count, index, Some(row2), 111);
    assert_eq!(index, 3);

    assert_eq!(points.len(), 2);
    assert_eq!(points[0], Point::new(0, 0, 0, 0, 10, Some(1), None));
    assert_eq!(points[1], Point::new(2, 100, 0, 111, 20, None, Some(3)));

    let mut ignored: Vec<Point> = Vec::new();
    let mut index = 0;
    index = append_row(&mut ignored, IrrelevantPointsBehavior::Ignore, index, Some(row0), 0);
    assert_eq!(index, 1);
    index = append_row(&mut ignored, IrrelevantPointsBehavior::Ignore, index, None, 0);
    assert_eq!(index, 1);
    index = append_row(&mut ignored, IrrelevantPointsBehavior::Ignore, index, Some(row2), 111);
    assert_eq!(index, 2);
    assert_eq!(ignored[1].index(), 1);
    assert_eq!(ignored[1].d(), 111);
}

#[test]
fn test_select_by_indexes_keeps_order() {
    let points = vec![
        Point::new(0, 0, 0, 0, 0, None, None),
        Point::new(1, 1, 0, 0, 0, None, None),
        Point::new(2, 2, 0, 0, 0, None, None),
        Point::new(3, 3, 0, 0, 0, None, None),
    ];
    let keep: HashSet<usize> = HashSet::from_iter([3, 0]);
    let selected = select_by_indexes(&points, &keep);
    assert_eq!(selected, vec![points[0], points[3]]);
}

// The whole request in one call: the collinear middle point is dropped and
// the survivors are encoded in order.
#[test]
fn test_simplify_to_polyline() {
    let mapping = SurfaceMapping::new(99);
    let points = vec![
        Point::new(0, 0, 0, 0, 0, None, None),
        Point::new(1, 1, 1, 0, 0, None, None),
        Point::new(2, 2, 2, 0, 0, None, None),
    ];
    let options = vec![
        PolylineOption::new(PointField::Y, 1),
        PolylineOption::new(PointField::X, 1),
    ];
    // survivors (0,0) and (2,2): deltas 0,0 then 2,2 -> "??CC"
    assert_eq!(
        simplify_to_polyline(&points, &mapping, 0, &options),
        "??CC".to_string()
    );
}
