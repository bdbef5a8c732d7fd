use track_simplify::geometry::Point;
use track_simplify::surface::{RoadClassMapping, SurfaceMapping};

#[test]
fn test_simple_surface_groups() {
    let mut mapping = SurfaceMapping::new(95);
    mapping.add_surface(0, "0".to_string());
    mapping.add_surface(1, "1".to_string());
    mapping.add_surface(2, "2".to_string());

    assert_eq!(
        mapping.get_surface_group(&Point::new(0, 0, 0, 0, 0, Some(1), Some(0))),
        Some("1".to_string())
    );

    assert_eq!(
        mapping.get_surface_group(&Point::new(0, 0, 0, 0, 0, Some(50), Some(0))),
        None
    );
}

#[test]
fn test_road_class_fallback() {
    let mut mapping = SurfaceMapping::new(95);
    mapping.add_surface(0, "0".to_string());
    mapping.add_surface(1, "1".to_string());

    mapping.add_surface(10, "10".to_string());
    mapping.add_surface(11, "11".to_string());
    mapping.add_surface(12, "12".to_string());

    mapping.add_surface(20, "20".to_string());
    mapping.add_surface(21, "21".to_string());
    mapping.add_surface(22, "22".to_string());
    mapping.add_surface(23, "23".to_string());

    // Most specific mapping
    mapping.add_road_class_mapping({
        let mut rc_mapping = RoadClassMapping::new([-1, -1, 1, 1]);
        rc_mapping.add_road_class(10, 0);
        rc_mapping.add_road_class(11, 1);
        rc_mapping
    });

    // Mid-specific mapping
    mapping.add_road_class_mapping({
        let mut rc_mapping = RoadClassMapping::new([-10, -10, 10, 10]);
        rc_mapping.add_road_class(10, 10);
        rc_mapping.add_road_class(11, 11);
        rc_mapping.add_road_class(12, 12);
        rc_mapping
    });

    // Least specific mapping
    mapping.add_road_class_mapping({
        let mut rc_mapping = RoadClassMapping::new([-90, -180, 90, 180]);
        rc_mapping.add_road_class(10, 20);
        rc_mapping.add_road_class(11, 21);
        rc_mapping.add_road_class(12, 22);
        rc_mapping.add_road_class(13, 23);
        rc_mapping
    });

    // Coordinate inside the most specific mapping
    assert_eq!(
        mapping.get_surface_group(&Point::new(0, 0, 0, 0, 0, Some(95), Some(10))),
        Some("0".to_string())
    );

    // Coordinate inside the middle mapping
    assert_eq!(
        mapping.get_surface_group(&Point::new(0, 2, 0, 0, 0, Some(95), Some(10))),
        Some("10".to_string())
    );

    // Coordinate inside the least specific mapping
    assert_eq!(
        mapping.get_surface_group(&Point::new(0, 20, 0, 0, 0, Some(95), Some(10))),
        Some("20".to_string())
    );

    // Coordinate falls into the most specific mapping, but only the least
    // specific one has an entry for this road class
    assert_eq!(
        mapping.get_surface_group(&Point::new(0, 9, 0, 0, 0, Some(95), Some(13))),
        Some("23".to_string())
    );
}

// A point with no surface type has no group, even when fallback scopes would
// cover its location.
#[test]
fn test_no_surface_type_means_no_group() {
    let mut mapping = SurfaceMapping::new(95);
    mapping.add_surface(0, "0".to_string());
    mapping.add_road_class_mapping({
        let mut rc_mapping = RoadClassMapping::new([-90, -180, 90, 180]);
        rc_mapping.add_road_class(10, 0);
        rc_mapping
    });
    assert_eq!(
        mapping.get_surface_group(&Point::new(0, 0, 0, 0, 0, None, Some(10))),
        None
    );
}

// The unknown sentinel with no matching scope resolves to no group; a scope
// matches only when the point is strictly inside its bounding box.
#[test]
fn test_unknown_surface_without_matching_scope() {
    let mut mapping = SurfaceMapping::new(95);
    mapping.add_surface(0, "0".to_string());
    mapping.add_road_class_mapping({
        let mut rc_mapping = RoadClassMapping::new([-1, -1, 1, 1]);
        rc_mapping.add_road_class(10, 0);
        rc_mapping
    });
    // no road class at all
    assert_eq!(
        mapping.get_surface_group(&Point::new(0, 0, 0, 0, 0, Some(95), None)),
        None
    );
    // on the bounding box edge: containment is strict
    assert_eq!(
        mapping.get_surface_group(&Point::new(0, 1, 0, 0, 0, Some(95), Some(10))),
        None
    );
    // inside, but the scope has no entry for this road class
    assert_eq!(
        mapping.get_surface_group(&Point::new(0, 0, 0, 0, 0, Some(95), Some(11))),
        None
    );
}

// A matching scope whose surface id has no group label yields no group, and
// later scopes are not consulted.
#[test]
fn test_first_match_shadows_later_scopes() {
    let mut mapping = SurfaceMapping::new(95);
    mapping.add_surface(7, "seven".to_string());
    // inner scope maps to surface 99, which has no label
    mapping.add_road_class_mapping({
        let mut rc_mapping = RoadClassMapping::new([-10, -10, 10, 10]);
        rc_mapping.add_road_class(10, 99);
        rc_mapping
    });
    // outer scope would map to a labelled surface
    mapping.add_road_class_mapping({
        let mut rc_mapping = RoadClassMapping::new([-90, -180, 90, 180]);
        rc_mapping.add_road_class(10, 7);
        rc_mapping
    });
    assert_eq!(
        mapping.get_surface_group(&Point::new(0, 0, 0, 0, 0, Some(95), Some(10))),
        None
    );
}
