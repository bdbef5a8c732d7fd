use track_simplify::geometry::Point;
use track_simplify::polyline::{polyline_encode, ConfigError, PointField, PolylineOption};

fn point_xy(index: usize, x: i64, y: i64) -> Point {
    Point::new(index, x, y, 0, 0, None, None)
}

// The classic polyline example: three coordinates at precision 5. The points
// hold the already-scaled fixed-point values, so the slot factor is 1.
#[test]
fn test_encode_classic_example() {
    let points = vec![
        point_xy(0, -12_020_000, 3_850_000),
        point_xy(1, -12_095_000, 4_070_000),
        point_xy(2, -12_645_300, 4_325_200),
    ];
    let options = vec![
        PolylineOption::new(PointField::Y, 1),
        PolylineOption::new(PointField::X, 1),
    ];
    assert_eq!(
        polyline_encode(&points, &options),
        "_p~iF~ps|U_ulLnnqC_mqNvxq`@".to_string()
    );
}

#[test]
fn test_encode_no_points_is_empty() {
    let options = vec![PolylineOption::new(PointField::Y, 1)];
    assert_eq!(polyline_encode(&vec![], &options), "".to_string());
}

// A zero delta encodes as a single '?' (the 63 bias alone).
#[test]
fn test_encode_zero_delta() {
    let points = vec![point_xy(0, 0, 0)];
    let options = vec![PolylineOption::new(PointField::X, 1)];
    assert_eq!(polyline_encode(&points, &options), "?".to_string());
}

// An absent surface id falls back to the slot's default before encoding.
#[test]
fn test_encode_surface_default() {
    let points = vec![Point::new(0, 0, 0, 0, 0, None, None)];
    let options = vec![PolylineOption::new(PointField::S { default: 5 }, 1)];
    // delta 5, zigzag 10, one chunk: 10 + 63 = 'I'
    assert_eq!(polyline_encode(&points, &options), "I".to_string());
}

// A surface id beyond the 32-bit signed range is clamped to zero.
#[test]
fn test_encode_surface_id_clamped() {
    let points = vec![Point::new(0, 0, 0, 0, 0, Some(4_000_000_000), None)];
    let options = vec![PolylineOption::new(PointField::S { default: 5 }, 1)];
    assert_eq!(polyline_encode(&points, &options), "?".to_string());
}

// The factor multiplies the stored value before delta coding.
#[test]
fn test_encode_applies_factor() {
    let points = vec![point_xy(0, 0, 17)];
    let options = vec![PolylineOption::new(PointField::Y, 10)];
    // 17 * 10 = 170; zigzag 340 = 0b1010100_00: chunks 340 % 32 = 20 (cont),
    // 340 / 32 = 10 (last): bytes (95 + 20) = 's', (10 + 63) = 'I'
    assert_eq!(polyline_encode(&points, &options), "sI".to_string());
}

// Elevation and cumulative distance are encoded from their own fields, in
// option order.
#[test]
fn test_encode_field_order() {
    let points = vec![
        Point::new(0, 1, 2, 3, 4, None, None),
        Point::new(1, 5, 6, 7, 8, None, None),
    ];
    let options = vec![
        PolylineOption::new(PointField::D, 1),
        PolylineOption::new(PointField::E, 1),
    ];
    // deltas: d 3, e 4, then d 4, e 4 -> zigzag 6, 8, 8, 8 -> chars E, G, G, G
    assert_eq!(polyline_encode(&points, &options), "EGGG".to_string());
}

#[test]
fn test_parse_coordinate_fields() {
    assert_eq!(
        PolylineOption::parse("y", 5, None),
        Ok(PolylineOption::new(PointField::Y, 100_000))
    );
    assert_eq!(
        PolylineOption::parse("x", 0, None),
        Ok(PolylineOption::new(PointField::X, 1))
    );
    assert_eq!(
        PolylineOption::parse("d", 2, None),
        Ok(PolylineOption::new(PointField::D, 100))
    );
    assert_eq!(
        PolylineOption::parse("e", 9, None),
        Ok(PolylineOption::new(PointField::E, 1_000_000_000))
    );
}

#[test]
fn test_parse_surface_and_road_class_fields() {
    assert_eq!(
        PolylineOption::parse("S", 0, Some(7)),
        Ok(PolylineOption::new(PointField::S { default: 7 }, 1))
    );
    assert_eq!(
        PolylineOption::parse("R", 1, Some(0)),
        Ok(PolylineOption::new(PointField::R { default: 0 }, 10))
    );
}

#[test]
fn test_parse_rejects_forbidden_default() {
    assert_eq!(
        PolylineOption::parse("y", 5, Some(1)),
        Err(ConfigError::DefaultValueForbidden)
    );
    assert_eq!(
        PolylineOption::parse("x", 5, Some(0)),
        Err(ConfigError::DefaultValueForbidden)
    );
    assert_eq!(
        PolylineOption::parse("d", 0, Some(2)),
        Err(ConfigError::DefaultValueForbidden)
    );
    assert_eq!(
        PolylineOption::parse("e", 1, Some(3)),
        Err(ConfigError::DefaultValueForbidden)
    );
}

#[test]
fn test_parse_rejects_missing_default() {
    assert_eq!(
        PolylineOption::parse("S", 0, None),
        Err(ConfigError::DefaultValueRequired)
    );
    assert_eq!(
        PolylineOption::parse("R", 0, None),
        Err(ConfigError::DefaultValueRequired)
    );
}

#[test]
fn test_parse_rejects_unknown_names() {
    assert_eq!(
        PolylineOption::parse("q", 0, None),
        Err(ConfigError::UnknownFieldName)
    );
    assert_eq!(
        PolylineOption::parse("", 0, None),
        Err(ConfigError::UnknownFieldName)
    );
    assert_eq!(
        PolylineOption::parse("xy", 0, None),
        Err(ConfigError::UnknownFieldName)
    );
    // the names are case-sensitive
    assert_eq!(
        PolylineOption::parse("Y", 0, None),
        Err(ConfigError::UnknownFieldName)
    );
    assert_eq!(
        PolylineOption::parse("s", 0, Some(1)),
        Err(ConfigError::UnknownFieldName)
    );
}
