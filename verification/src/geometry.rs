//! Track sample points and the chord-distance primitive used by the
//! Ramer-Douglas-Peucker reduction.
//!
//! Distances here are measured in the raw x/y coordinate space, not
//! geodesically: the simplification tolerance is expressed in the same unit as
//! the coordinate deltas. To keep every comparison exact, a candidate point's
//! squared distance to a chord is represented as the fraction `num / den`,
//! where `den` depends only on the chord (`chord_den`) and `num` only on the
//! chord and the candidate (`chord_num`). All candidates of one chord share
//! the same denominator, so `num` alone orders them.

use crate::surface::{RoadClassId, SurfaceTypeId};
use vstd::prelude::*;

verus! {

/// Largest magnitude the x and y fixed-point coordinates may take. Covers
/// longitude/latitude degrees scaled by up to 10^9 / 180; the bound keeps all
/// intermediate products of the exact chord-distance arithmetic inside i128.
pub const MAX_COORD: i64 = 1_000_000_000;

/// One track sample. `index` is the position in the original, pre-filter
/// sequence and is the stable identity of a point: simplification reports the
/// set of surviving `index` values. `x`/`y` are the fixed-point coordinates,
/// `d` the cumulative distance from the first point of the track, `e` the
/// elevation, `s`/`r` the optional surface type and road class.
#[derive(Clone, Copy, PartialEq, Eq, Debug)]
pub struct Point {
    pub index: usize,
    pub x: i64,
    pub y: i64,
    pub d: i64,
    pub e: i64,
    pub s: Option<SurfaceTypeId>,
    pub r: Option<RoadClassId>,
}

/// Both coordinates of the point are within the range the exact chord
/// arithmetic is proved overflow-free for.
pub open spec fn coords_bounded(p: Point) -> bool {
    &&& -MAX_COORD <= p.x <= MAX_COORD
    &&& -MAX_COORD <= p.y <= MAX_COORD
}

impl Point {
    pub fn new(
        index: usize,
        x: i64,
        y: i64,
        d: i64,
        e: i64,
        s: Option<SurfaceTypeId>,
        r: Option<RoadClassId>,
    ) -> (p: Point)
        ensures
            p.index == index,
            p.x == x,
            p.y == y,
            p.d == d,
            p.e == e,
            p.s == s,
            p.r == r,
    {
        Point { index, x, y, d, e, s, r }
    }

    pub fn index(&self) -> (r: usize)
        ensures
            r == self.index,
    {
        self.index
    }

    pub fn x(&self) -> (r: i64)
        ensures
            r == self.x,
    {
        self.x
    }

    pub fn y(&self) -> (r: i64)
        ensures
            r == self.y,
    {
        self.y
    }

    pub fn d(&self) -> (r: i64)
        ensures
            r == self.d,
    {
        self.d
    }

    pub fn e(&self) -> (r: i64)
        ensures
            r == self.e,
    {
        self.e
    }

    pub fn s(&self) -> (r: Option<SurfaceTypeId>)
        ensures
            r == self.s,
    {
        self.s
    }

    pub fn r(&self) -> (r: Option<RoadClassId>)
        ensures
            r == self.r,
    {
        self.r
    }
}

impl Default for Point {
    /// The all-zero point that seeds the polyline encoder's "previous value"
    /// chain; its surface type and road class are both present and zero.
    fn default() -> (p: Point)
        ensures
            p.index == 0,
            p.x == 0,
            p.y == 0,
            p.d == 0,
            p.e == 0,
            p.s == Some(0u64),
            p.r == Some(0u64),
    {
        Point { index: 0, x: 0, y: 0, d: 0, e: 0, s: Some(0), r: Some(0) }
    }
}

/// What to do with a row that lacks one of the x/y/e fields: `Count` still
/// advances the per-track index counter (so surviving points keep the index
/// they have in the raw row stream), `Ignore` drops the row without
/// advancing it (for indices into an already-filtered point stream).
#[derive(Clone, Copy, PartialEq, Eq, Debug)]
pub enum IrrelevantPointsBehavior {
    Count,
    Ignore,
}

/// The plain field values of one decoded row that carries all of x, y and e.
/// A row missing any of them, or carrying a malformed surface or road-class
/// value, is handed over as no row at all.
#[derive(Clone, Copy, PartialEq, Eq, Debug)]
pub struct RowFields {
    pub x: i64,
    pub y: i64,
    pub e: i64,
    pub s: Option<SurfaceTypeId>,
    pub r: Option<RoadClassId>,
}

/// Cumulative distance of the next point: zero for the first point of a
/// track, else the previous point's distance plus the new segment's length.
pub open spec fn spec_next_d(s: Seq<Point>, seg: int) -> int {
    if s.len() == 0 {
        0
    } else {
        s.last().d + seg
    }
}

/// The track's cumulative distances are well-formed: the first point's is 0
/// and they never decrease.
pub open spec fn distances_valid(s: Seq<Point>) -> bool {
    s.len() > 0 ==> s[0].d == 0 && forall|i: int| 0 <= i < s.len() - 1 ==> (#[trigger] s[i]).d
        <= s[i + 1].d
}

/// Append one decoded row to the track under the given index policy: a full
/// row becomes the next point, with the given index and a cumulative distance
/// extended by `seg` (the length of the segment from the previous point,
/// already in distance units); an irrelevant row leaves the track unchanged.
/// Returns the index for the next row.
pub fn append_row(
    points: &mut Vec<Point>,
    behavior: IrrelevantPointsBehavior,
    index: usize,
    row: Option<RowFields>,
    seg: i64,
) -> (next: usize)
    requires
        index < usize::MAX,
        seg >= 0,
        old(points)@.len() > 0 ==> old(points)@.last().d + seg <= i64::MAX,
    ensures
        match row {
            Some(rf) => final(points)@ == old(points)@.push(
                (Point {
                    index,
                    x: rf.x,
                    y: rf.y,
                    d: spec_next_d(old(points)@, seg as int) as i64,
                    e: rf.e,
                    s: rf.s,
                    r: rf.r,
                }),
            ) && next == index + 1,
            None => final(points)@ == old(points)@ && next == index + (
            if behavior is Count {
                1int
            } else {
                0int
            }),
        },
        distances_valid(old(points)@) ==> distances_valid(final(points)@),
{
    match row {
        Some(rf) => {
            let d: i64 = if points.len() == 0 {
                0
            } else {
                points[points.len() - 1].d + seg
            };
            let p = Point { index, x: rf.x, y: rf.y, d, e: rf.e, s: rf.s, r: rf.r };
            points.push(p);
            proof {
                if distances_valid(old(points)@) {
                    let snew = points@;
                    assert forall|i: int|
                        0 <= i < snew.len() - 1 implies (#[trigger] snew[i]).d <= snew[i + 1].d by {
                        if i < old(points)@.len() - 1 {
                            assert(old(points)@[i].d <= old(points)@[i + 1].d);
                        }
                    }
                }
            }
            index + 1
        },
        None => {
            match behavior {
                IrrelevantPointsBehavior::Count => index + 1,
                IrrelevantPointsBehavior::Ignore => index,
            }
        },
    }
}

/// Squared length of the chord from `a` to `b`, in coordinate units.
pub open spec fn seg_len2(a: Point, b: Point) -> int {
    let dx = b.x - a.x;
    let dy = b.y - a.y;
    dx * dx + dy * dy
}

/// Shared denominator of the squared chord distances of every candidate point
/// against the chord `a..b`: the squared chord length, or 1 for a degenerate
/// chord whose distances are measured directly against `a`.
pub open spec fn chord_den(a: Point, b: Point) -> int {
    if seg_len2(a, b) == 0 {
        1
    } else {
        seg_len2(a, b)
    }
}

/// Numerator of the squared distance from `p` to the chord `a..b`: project `p`
/// onto the line through the chord, clamp the projection parameter to [0, 1],
/// and measure the squared distance to the clamped projection point. The true
/// squared distance is `chord_num / chord_den`, exactly.
pub open spec fn chord_num(a: Point, b: Point, p: Point) -> int {
    let dx = b.x - a.x;
    let dy = b.y - a.y;
    let u = p.x - a.x;
    let v = p.y - a.y;
    if dx == 0 && dy == 0 {
        u * u + v * v
    } else {
        let len = dx * dx + dy * dy;
        let tnum = u * dx + v * dy;
        if tnum > len {
            let ex = p.x - b.x;
            let ey = p.y - b.y;
            (ex * ex + ey * ey) * len
        } else if tnum > 0 {
            let cross = u * dy - v * dx;
            cross * cross
        } else {
            (u * u + v * v) * len
        }
    }
}

pub proof fn lemma_sq_nonneg(a: int)
    by (nonlinear_arith)
    ensures
        a * a >= 0,
{
}

pub proof fn lemma_mul_nonneg(a: int, b: int)
    by (nonlinear_arith)
    requires
        a >= 0,
        b >= 0,
    ensures
        a * b >= 0,
{
}

pub proof fn lemma_chord_num_nonneg(a: Point, b: Point, p: Point)
    ensures
        chord_num(a, b, p) >= 0,
        chord_den(a, b) >= 1,
{
    let dx = b.x - a.x;
    let dy = b.y - a.y;
    let u = p.x - a.x;
    let v = p.y - a.y;
    let ex = p.x - b.x;
    let ey = p.y - b.y;
    lemma_sq_nonneg(dx);
    lemma_sq_nonneg(dy);
    lemma_sq_nonneg(u);
    lemma_sq_nonneg(v);
    lemma_sq_nonneg(ex);
    lemma_sq_nonneg(ey);
    lemma_sq_nonneg(u * dy - v * dx);
    lemma_mul_nonneg(ex * ex + ey * ey, dx * dx + dy * dy);
    lemma_mul_nonneg(u * u + v * v, dx * dx + dy * dy);
}

pub proof fn lemma_mul_bound(a: int, b: int, ma: int, mb: int)
    by (nonlinear_arith)
    requires
        -ma <= a <= ma,
        -mb <= b <= mb,
        0 <= ma,
        0 <= mb,
    ensures
        -(ma * mb) <= a * b <= ma * mb,
{
}

/// Exact numerator of the squared distance from `p` to the chord `a..b`
/// (see `chord_num`); the companion `chord_den_exec` gives the denominator.
fn chord_num_exec(a: &Point, b: &Point, p: &Point) -> (n: i128)
    requires
        coords_bounded(*a),
        coords_bounded(*b),
        coords_bounded(*p),
    ensures
        n == chord_num(*a, *b, *p),
{
    let ax: i128 = a.x as i128;
    let ay: i128 = a.y as i128;
    let bx: i128 = b.x as i128;
    let by: i128 = b.y as i128;
    let px: i128 = p.x as i128;
    let py: i128 = p.y as i128;
    let dx: i128 = bx - ax;
    let dy: i128 = by - ay;
    let u: i128 = px - ax;
    let v: i128 = py - ay;
    proof {
        lemma_mul_bound(dx as int, dx as int, 2_000_000_000, 2_000_000_000);
        lemma_mul_bound(dy as int, dy as int, 2_000_000_000, 2_000_000_000);
        lemma_mul_bound(u as int, u as int, 2_000_000_000, 2_000_000_000);
        lemma_mul_bound(v as int, v as int, 2_000_000_000, 2_000_000_000);
        lemma_mul_bound(u as int, dx as int, 2_000_000_000, 2_000_000_000);
        lemma_mul_bound(v as int, dy as int, 2_000_000_000, 2_000_000_000);
        lemma_mul_bound(u as int, dy as int, 2_000_000_000, 2_000_000_000);
        lemma_mul_bound(v as int, dx as int, 2_000_000_000, 2_000_000_000);
    }
    if dx == 0 && dy == 0 {
        u * u + v * v
    } else {
        let len: i128 = dx * dx + dy * dy;
        let tnum: i128 = u * dx + v * dy;
        if tnum > len {
            let ex: i128 = px - bx;
            let ey: i128 = py - by;
            proof {
                lemma_mul_bound(ex as int, ex as int, 2_000_000_000, 2_000_000_000);
                lemma_mul_bound(ey as int, ey as int, 2_000_000_000, 2_000_000_000);
                lemma_mul_bound(
                    (ex * ex + ey * ey) as int,
                    len as int,
                    8_000_000_000_000_000_000,
                    8_000_000_000_000_000_000,
                );
            }
            (ex * ex + ey * ey) * len
        } else if tnum > 0 {
            let cross: i128 = u * dy - v * dx;
            proof {
                lemma_mul_bound(
                    cross as int,
                    cross as int,
                    8_000_000_000_000_000_000,
                    8_000_000_000_000_000_000,
                );
            }
            cross * cross
        } else {
            proof {
                lemma_mul_bound(
                    (u * u + v * v) as int,
                    len as int,
                    8_000_000_000_000_000_000,
                    8_000_000_000_000_000_000,
                );
            }
            (u * u + v * v) * len
        }
    }
}

/// Exact denominator shared by all candidates of the chord `a..b`.
pub fn chord_den_exec(a: &Point, b: &Point) -> (n: i128)
    requires
        coords_bounded(*a),
        coords_bounded(*b),
    ensures
        n == chord_den(*a, *b),
{
    let dx: i128 = b.x as i128 - a.x as i128;
    let dy: i128 = b.y as i128 - a.y as i128;
    proof {
        lemma_mul_bound(dx as int, dx as int, 2_000_000_000, 2_000_000_000);
        lemma_mul_bound(dy as int, dy as int, 2_000_000_000, 2_000_000_000);
    }
    let len: i128 = dx * dx + dy * dy;
    if len == 0 {
        1
    } else {
        len
    }
}

/// For bounded coordinates the shared denominator fits comfortably in i128.
pub proof fn lemma_chord_den_bound(a: Point, b: Point)
    requires
        coords_bounded(a),
        coords_bounded(b),
    ensures
        1 <= chord_den(a, b) <= 8_000_000_000_000_000_000,
{
    lemma_mul_bound(b.x - a.x, b.x - a.x, 2_000_000_000, 2_000_000_000);
    lemma_mul_bound(b.y - a.y, b.y - a.y, 2_000_000_000, 2_000_000_000);
    lemma_sq_nonneg(b.x - a.x);
    lemma_sq_nonneg(b.y - a.y);
}

/// Fold of the farthest-candidate search over the chord of the range
/// `[lo, hi)` of `s`, with the candidates `lo + 1 .. k` considered so far:
/// the first candidate whose distance numerator is maximal, seeded with
/// `(lo, 0)` and replaced only by a strictly greater numerator.
pub open spec fn farthest_upto(s: Seq<Point>, lo: int, hi: int, k: int) -> (int, int)
    decreases k - lo,
{
    if k <= lo + 1 {
        (lo, 0)
    } else {
        let prev = farthest_upto(s, lo, hi, k - 1);
        let d = chord_num(s[lo], s[hi - 1], s[k - 1]);
        if d > prev.1 {
            (k - 1, d)
        } else {
            prev
        }
    }
}

/// Result of the farthest-candidate search over the whole range `[lo, hi)`:
/// only indices strictly between the endpoints are candidates.
pub open spec fn spec_farthest(s: Seq<Point>, lo: int, hi: int) -> (int, int) {
    farthest_upto(s, lo, hi, hi - 1)
}

/// The search result names a real candidate whenever its numerator is
/// positive, and that candidate's numerator is the maximum.
pub proof fn lemma_farthest_props(s: Seq<Point>, lo: int, hi: int, k: int)
    requires
        lo < hi <= s.len(),
        lo + 1 <= k <= hi - 1,
    ensures
        farthest_upto(s, lo, hi, k).1 >= 0,
        farthest_upto(s, lo, hi, k).1 > 0 ==> {
            &&& lo + 1 <= farthest_upto(s, lo, hi, k).0 < k
            &&& farthest_upto(s, lo, hi, k).1 == chord_num(
                s[lo],
                s[hi - 1],
                s[farthest_upto(s, lo, hi, k).0],
            )
        },
        farthest_upto(s, lo, hi, k).1 == 0 ==> farthest_upto(s, lo, hi, k).0 == lo,
        forall|i: int|
            lo + 1 <= i < k ==> #[trigger] chord_num(s[lo], s[hi - 1], s[i]) <= farthest_upto(
                s,
                lo,
                hi,
                k,
            ).1,
    decreases k - lo,
{
    if k <= lo + 1 {
    } else {
        lemma_farthest_props(s, lo, hi, k - 1);
    }
}

/// Farthest interior point of the range `[lo, hi)` from the chord between
/// `points[lo]` and `points[hi - 1]`: the absolute index of the first
/// strictly-interior point whose squared chord distance is maximal, together
/// with the numerator of that squared distance over `chord_den`. A range with
/// no interior point, or whose interior points all lie on the chord, yields
/// `(lo, 0)`.
pub fn farthest_point(points: &Vec<Point>, lo: usize, hi: usize) -> (r: (usize, i128))
    requires
        lo < hi <= points@.len(),
        forall|i: int| lo <= i < hi ==> coords_bounded(points@[i]),
    ensures
        r.0 as int == spec_farthest(points@, lo as int, hi as int).0,
        r.1 as int == spec_farthest(points@, lo as int, hi as int).1,
{
    let a = points[lo];
    let b = points[hi - 1];
    let mut best_i: usize = lo;
    let mut best_d: i128 = 0;
    let mut i: usize = lo + 1;
    while i < hi - 1
        invariant
            lo < hi <= points@.len(),
            forall|j: int| lo <= j < hi ==> coords_bounded(points@[j]),
            a == points@[lo as int],
            b == points@[hi - 1],
            lo + 1 <= i <= hi,
            best_i as int == farthest_upto(
                points@,
                lo as int,
                hi as int,
                if i < hi { i as int } else { hi - 1 },
            ).0,
            best_d as int == farthest_upto(
                points@,
                lo as int,
                hi as int,
                if i < hi { i as int } else { hi - 1 },
            ).1,
        decreases hi - i,
    {
        let d = chord_num_exec(&a, &b, &points[i]);
        if d > best_d {
            best_i = i;
            best_d = d;
        }
        i = i + 1;
    }
    (best_i, best_d)
}

} // verus!
