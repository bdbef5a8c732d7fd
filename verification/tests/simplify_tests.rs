use std::collections::HashSet;
use track_simplify::geometry::Point;
use track_simplify::simplify::{simplify_points, surface_group_partitions};
use track_simplify::surface::SurfaceMapping;

#[test]
fn test_surface_group_iterator_all_points_missing_surface_info() {
    let mut mapping = SurfaceMapping::new(99);
    mapping.add_surface(0, "0".to_string());
    mapping.add_surface(1, "1".to_string());
    mapping.add_surface(2, "2".to_string());

    let points = vec![
        Point::new(0, 0, 0, 0, 0, None, None),
        Point::new(1, 0, 0, 0, 0, None, None),
        Point::new(2, 0, 0, 0, 0, None, None),
    ];

    let groups = surface_group_partitions(&points, &mapping);

    assert_eq!(groups, vec![(0, 3)]);
}

#[test]
fn test_surface_group_iterator_all_points_different_surface() {
    let mut mapping = SurfaceMapping::new(99);
    mapping.add_surface(0, "0".to_string());
    mapping.add_surface(1, "1".to_string());
    mapping.add_surface(2, "2".to_string());

    let points = vec![
        Point::new(0, 0, 0, 0, 0, Some(1), None),
        Point::new(1, 0, 0, 0, 0, Some(2), None),
        Point::new(2, 0, 0, 0, 0, Some(3), None),
    ];

    let groups = surface_group_partitions(&points, &mapping);

    assert_eq!(groups, vec![(0, 1), (1, 2), (2, 3)]);
}

#[test]
fn test_surface_group_iterator_normal_track() {
    let mut mapping = SurfaceMapping::new(99);
    mapping.add_surface(0, "0".to_string());
    mapping.add_surface(1, "1".to_string());
    mapping.add_surface(2, "2".to_string());

    let points = vec![
        Point::new(0, 0, 0, 0, 0, None, None),
        Point::new(1, 0, 0, 0, 0, Some(1), None),
        Point::new(2, 0, 0, 0, 0, Some(1), None),
        Point::new(3, 0, 0, 0, 0, Some(1), None),
        Point::new(4, 0, 0, 0, 0, Some(2), None),
        Point::new(5, 0, 0, 0, 0, Some(2), None),
        Point::new(6, 0, 0, 0, 0, None, None),
    ];

    let groups = surface_group_partitions(&points, &mapping);

    assert_eq!(groups, vec![(0, 1), (1, 4), (4, 6), (6, 7)]);
}

#[test]
fn test_simplifying_zero_points() {
    let mapping = SurfaceMapping::new(0);
    assert_eq!(simplify_points(&vec![], &mapping, 0), HashSet::new());
}

#[test]
fn test_simplifying_one_point() {
    let mapping = SurfaceMapping::new(0);
    assert_eq!(
        simplify_points(&vec![Point::default()], &mapping, 0),
        HashSet::from_iter([0])
    );
}

#[test]
fn test_simplifying_two_points() {
    let mapping = SurfaceMapping::new(0);
    assert_eq!(
        simplify_points(
            &vec![
                Point::new(0, 0, 0, 0, 0, None, None),
                Point::new(1, 1, 0, 0, 0, None, None),
            ],
            &mapping,
            0
        ),
        HashSet::from_iter([0, 1])
    );
}

#[test]
fn test_simplifying_three_points() {
    let mapping = SurfaceMapping::new(0);
    assert_eq!(
        simplify_points(
            &vec![
                Point::new(0, 0, 0, 0, 0, None, None),
                Point::new(1, 1, 0, 0, 0, None, None),
                Point::new(2, 2, 2, 0, 0, None, None),
            ],
            &mapping,
            0
        ),
        HashSet::from_iter([0, 1, 2])
    );
}

// A collinear interior point is dropped even at tolerance zero: its
// perpendicular distance to the chord is exactly zero.
#[test]
fn test_simplifying_collinear_points() {
    let mapping = SurfaceMapping::new(0);
    assert_eq!(
        simplify_points(
            &vec![
                Point::new(0, 0, 0, 0, 0, None, None),
                Point::new(1, 1, 1, 0, 0, None, None),
                Point::new(2, 2, 2, 0, 0, None, None),
            ],
            &mapping,
            0
        ),
        HashSet::from_iter([0, 2])
    );
}

// A lower tolerance never retains fewer indices than a higher one.
#[test]
fn test_simplifying_monotone_in_tolerance() {
    let mapping = SurfaceMapping::new(0);
    let points = vec![
        Point::new(0, 0, 0, 0, 0, None, None),
        Point::new(1, 100, 30, 0, 0, None, None),
        Point::new(2, 200, 0, 0, 0, None, None),
        Point::new(3, 300, -5, 0, 0, None, None),
        Point::new(4, 400, 0, 0, 0, None, None),
    ];
    let loose = simplify_points(&points, &mapping, 50);
    let middle = simplify_points(&points, &mapping, 25);
    let tight = simplify_points(&points, &mapping, 0);
    assert!(loose.is_subset(&middle));
    assert!(middle.is_subset(&tight));
    assert_eq!(loose, HashSet::from_iter([0, 4]));
    assert_eq!(middle, HashSet::from_iter([0, 1, 4]));
    assert_eq!(tight, HashSet::from_iter([0, 1, 2, 3, 4]));
}

// A partition boundary keeps its boundary points even when the track is one
// straight line: simplification never crosses a surface-group change.
#[test]
fn test_partition_boundary_retained() {
    let mut mapping = SurfaceMapping::new(99);
    mapping.add_surface(1, "paved".to_string());
    mapping.add_surface(2, "gravel".to_string());
    let points = vec![
        Point::new(0, 0, 0, 0, 0, Some(1), None),
        Point::new(1, 1, 1, 0, 0, Some(1), None),
        Point::new(2, 2, 2, 0, 0, Some(2), None),
        Point::new(3, 3, 3, 0, 0, Some(2), None),
        Point::new(4, 4, 4, 0, 0, Some(2), None),
    ];
    assert_eq!(
        simplify_points(&points, &mapping, 0),
        HashSet::from_iter([0, 1, 2, 4])
    );
}

// Two different surface ids mapped to the same group label share partitions:
// labels are compared by value.
#[test]
fn test_same_label_shares_partition() {
    let mut mapping = SurfaceMapping::new(99);
    mapping.add_surface(1, "a".to_string());
    mapping.add_surface(2, "a".to_string());
    let points = vec![
        Point::new(0, 0, 0, 0, 0, Some(1), None),
        Point::new(1, 5, 5, 0, 0, Some(2), None),
    ];
    let groups = surface_group_partitions(&points, &mapping);
    assert_eq!(groups, vec![(0, 2)]);
}

// The example track: two points about a degree of longitude apart, tolerance
// zero, one partition; both indices survive.
#[test]
fn test_two_point_track_keeps_both() {
    let mapping = SurfaceMapping::new(0);
    let points = vec![
        Point::new(0, 0, 0, 0, 0, None, None),
        Point::new(1, 1_000_000, 0, 111_195, 0, None, None),
    ];
    assert_eq!(
        simplify_points(&points, &mapping, 0),
        HashSet::from_iter([0, 1])
    );
}
