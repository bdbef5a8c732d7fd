//! The whole request in one call: simplify a track, keep the surviving
//! points in their original order, and encode them as a polyline string.

use crate::geometry::{coords_bounded, Point, MAX_COORD};
use crate::polyline::{
    ascii_chars, encodable, point_encodable, polyline_bytes, polyline_encode, PolylineOption,
};
use crate::simplify::{simplify_points, spec_simplify};
use crate::surface::SurfaceMapping;
use std::collections::HashSet;
use vstd::prelude::*;

verus! {

/// The points of `s` whose original index is in `keep`, in track order.
pub open spec fn select_points(s: Seq<Point>, keep: Set<usize>) -> Seq<Point>
    decreases s.len(),
{
    if s.len() == 0 {
        Seq::empty()
    } else {
        select_points(s.drop_last(), keep) + (if keep.contains(s.last().index) {
            seq![s.last()]
        } else {
            Seq::empty()
        })
    }
}

/// Filter a track by a retained-index set, preserving order. Expects the
/// usual decoded-track shape in which each point's `index` is its position.
pub fn select_by_indexes(points: &Vec<Point>, keep: &HashSet<usize>) -> (r: Vec<Point>)
    requires
        forall|i: int| 0 <= i < points@.len() ==> (#[trigger] points@[i]).index == i,
    ensures
        r@ == select_points(points@, keep@),
{
    let ghost s = points@;
    let mut r: Vec<Point> = Vec::new();
    let n = points.len();
    let mut i: usize = 0;
    while i < n
        invariant
            0 <= i <= n,
            n == s.len(),
            s == points@,
            forall|k: int| 0 <= k < s.len() ==> (#[trigger] s[k]).index == k,
            r@ == select_points(s.take(i as int), keep@),
        decreases n - i,
    {
        proof {
            assert(s.take(i + 1).drop_last() =~= s.take(i as int));
            assert(s.take(i + 1).last() == s[i as int]);
        }
        if keep.contains(&i) {
            let p = points[i];
            r.push(p);
        }
        proof {
            assert(r@ =~= select_points(s.take(i + 1), keep@));
        }
        i = i + 1;
    }
    proof {
        assert(s.take(n as int) =~= s);
    }
    r
}

/// Simplify the track and encode the surviving points as a polyline string:
/// the composition of `simplify_points`, order-preserving index filtering,
/// and `polyline_encode`. Expects the usual decoded-track shape in which
/// each point's `index` is its position.
pub fn simplify_to_polyline(
    points: &Vec<Point>,
    mapping: &SurfaceMapping,
    tolerance: i64,
    options: &Vec<PolylineOption>,
) -> (r: String)
    requires
        forall|i: int| 0 <= i < points@.len() ==> (#[trigger] points@[i]).index == i,
        forall|i: int| 0 <= i < points@.len() ==> coords_bounded(#[trigger] points@[i]),
        -MAX_COORD <= tolerance <= MAX_COORD,
        encodable(points@, options@),
    ensures
        r@ == ascii_chars(
            polyline_bytes(
                select_points(points@, spec_simplify(points@, *mapping, tolerance as int)),
                options@,
            ),
        ),
{
    let keep = simplify_points(points, mapping, tolerance);
    let selected = select_by_indexes(points, &keep);
    proof {
        lemma_select_points_encodable(points@, keep@);
    }
    polyline_encode(&selected, options)
}

/// Every selected point is a point of the track, so the selection inherits
/// the track's encodability bounds.
proof fn lemma_select_points_encodable(s: Seq<Point>, keep: Set<usize>)
    requires
        forall|i: int| 0 <= i < s.len() ==> point_encodable(#[trigger] s[i]),
    ensures
        forall|i: int|
            0 <= i < select_points(s, keep).len() ==> point_encodable(
                #[trigger] select_points(s, keep)[i],
            ),
    decreases s.len(),
{
    if s.len() > 0 {
        lemma_select_points_encodable(s.drop_last(), keep);
        let sel = select_points(s, keep);
        let front = select_points(s.drop_last(), keep);
        assert forall|i: int| 0 <= i < sel.len() implies point_encodable(#[trigger] sel[i]) by {
            if i < front.len() {
                assert(sel[i] == front[i]);
            } else {
                assert(sel[i] == s.last());
            }
        }
    }
}

} // verus!
