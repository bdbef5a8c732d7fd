use track_simplify::geometry::Point;
use track_simplify::polyline::{polyline_encode, PointField, PolylineOption};

// A reference decoder for the delta/zigzag/5-bit variable-length code:
// reads one unsigned value per field per point, undoes the zigzag, and adds
// the delta to the field's previous value.
fn decode_polyline(encoded: &str, n_fields: usize) -> Vec<Vec<i64>> {
    let bytes = encoded.as_bytes();
    let mut rows: Vec<Vec<i64>> = Vec::new();
    let mut prevs: Vec<i64> = vec![0; n_fields];
    let mut pos = 0;
    while pos < bytes.len() {
        let mut row: Vec<i64> = Vec::with_capacity(n_fields);
        for j in 0..n_fields {
            let mut value: i64 = 0;
            let mut shift = 0;
            loop {
                assert!(pos < bytes.len(), "truncated polyline");
                let chunk = (bytes[pos] - 63) as i64;
                pos += 1;
                value |= (chunk & 0x1f) << shift;
                shift += 5;
                if chunk & 0x20 == 0 {
                    break;
                }
            }
            let delta = if value & 1 == 0 { value >> 1 } else { !(value >> 1) };
            row.push(prevs[j] + delta);
            prevs[j] = row[j];
        }
        rows.push(row);
    }
    rows
}

// Encoding then decoding reconstructs the scaled values exactly.
#[test]
fn test_roundtrip_reconstructs_scaled_values() {
    let points = vec![
        Point::new(0, -12_020_000, 3_850_000, 0, 0, None, None),
        Point::new(1, -12_095_000, 4_070_000, 0, 0, None, None),
        Point::new(2, -12_645_300, 4_325_200, 0, 0, None, None),
    ];
    let options = vec![
        PolylineOption::new(PointField::Y, 1),
        PolylineOption::new(PointField::X, 1),
    ];
    let encoded = polyline_encode(&points, &options);
    let decoded = decode_polyline(&encoded, 2);
    assert_eq!(
        decoded,
        vec![
            vec![3_850_000, -12_020_000],
            vec![4_070_000, -12_095_000],
            vec![4_325_200, -12_645_300],
        ]
    );
}

// The same round trip viewed in degrees at precision 6: each reconstructed
// coordinate is within half of the least significant digit of the original.
#[test]
fn test_roundtrip_within_rounding_tolerance() {
    let raw: [(f64, f64); 3] = [
        (38.500001, -120.199999),
        (40.700055, -120.950111),
        (43.252909, -126.453789),
    ];
    let points: Vec<Point> = raw
        .iter()
        .enumerate()
        .map(|(i, (lat, lon))| {
            Point::new(
                i,
                (lon * 1e6).round() as i64,
                (lat * 1e6).round() as i64,
                0,
                0,
                None,
                None,
            )
        })
        .collect();
    let options = vec![
        PolylineOption::new(PointField::Y, 1),
        PolylineOption::new(PointField::X, 1),
    ];
    let encoded = polyline_encode(&points, &options);
    let decoded = decode_polyline(&encoded, 2);
    for (row, (lat, lon)) in decoded.iter().zip(raw.iter()) {
        let lat_back = row[0] as f64 / 1e6;
        let lon_back = row[1] as f64 / 1e6;
        assert!((lat_back - lat).abs() <= 0.5e-6);
        assert!((lon_back - lon).abs() <= 0.5e-6);
    }
}

// Deltas of mixed signs and sizes survive the round trip, including values
// needing several 5-bit chunks and a sign flip back and forth.
#[test]
fn test_roundtrip_mixed_deltas() {
    let values: [i64; 6] = [0, -1, 1, -100_000, 99_999_999, -99_999_999];
    let points: Vec<Point> = values
        .iter()
        .enumerate()
        .map(|(i, v)| Point::new(i, *v, 0, 0, 0, None, None))
        .collect();
    let options = vec![PolylineOption::new(PointField::X, 1)];
    let encoded = polyline_encode(&points, &options);
    let decoded = decode_polyline(&encoded, 1);
    let flat: Vec<i64> = decoded.iter().map(|row| row[0]).collect();
    assert_eq!(flat, values.to_vec());
}
