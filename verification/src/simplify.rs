//! Two-stage track simplification: partition the point sequence into maximal
//! runs sharing a surface group, then reduce each run with an iterative
//! Ramer-Douglas-Peucker pass driven by an explicit work stack.
//!
//! The result is the set of original point indices that survive: the union,
//! over all partitions, of the indices the per-partition reduction retains.

use crate::geometry::{
    chord_den, chord_den_exec, coords_bounded, farthest_point, lemma_chord_den_bound,
    lemma_chord_num_nonneg, lemma_farthest_props, lemma_mul_bound, lemma_mul_nonneg,
    lemma_sq_nonneg, spec_farthest, Point, MAX_COORD,
};
use crate::surface::{spec_group_of, view_opt_label, SurfaceMapping};
use std::collections::HashSet;
use vstd::prelude::*;

verus! {

/// Equality, by value, of two optional group labels; two absent labels are
/// equal, and an absent label never equals a named one.
fn group_eq(a: &Option<String>, b: &Option<String>) -> (r: bool)
    ensures
        r == (view_opt_label(*a) == view_opt_label(*b)),
{
    match a {
        Some(x) => match b {
            Some(y) => x.eq(y),
            None => false,
        },
        None => b.is_none(),
    }
}

/// First position at or after `j` where the group differs from the group of
/// the run that starts at `lo` (or the end of the sequence).
pub open spec fn run_end_from(s: Seq<Point>, m: SurfaceMapping, lo: int, j: int) -> int
    decreases s.len() - j,
{
    if j < 0 || j >= s.len() {
        s.len() as int
    } else if spec_group_of(m, s[j]) == spec_group_of(m, s[lo]) {
        run_end_from(s, m, lo, j + 1)
    } else {
        j
    }
}

/// End (exclusive) of the maximal run of points sharing the group of `s[lo]`
/// that starts at `lo`.
pub open spec fn run_end(s: Seq<Point>, m: SurfaceMapping, lo: int) -> int {
    run_end_from(s, m, lo, lo + 1)
}

/// The run end is past `j`, every point before it shares the run's group, and
/// the point at the run end (if any) does not.
pub proof fn lemma_run_end_from_props(s: Seq<Point>, m: SurfaceMapping, lo: int, j: int)
    requires
        0 <= lo < s.len(),
        lo < j <= s.len(),
    ensures
        j <= run_end_from(s, m, lo, j) <= s.len(),
        forall|k: int|
            j <= k < run_end_from(s, m, lo, j) ==> #[trigger] spec_group_of(m, s[k])
                == spec_group_of(m, s[lo]),
        run_end_from(s, m, lo, j) < s.len() ==> spec_group_of(m, s[run_end_from(s, m, lo, j)])
            != spec_group_of(m, s[lo]),
    decreases s.len() - j,
{
    if j < s.len() && spec_group_of(m, s[j]) == spec_group_of(m, s[lo]) {
        lemma_run_end_from_props(s, m, lo, j + 1);
    }
}

/// Threshold the farthest candidate's distance numerator is compared against:
/// the squared tolerance times the shared denominator of the chord of
/// `[lo, hi)`, so that `num > threshold` is exactly
/// "distance² > tolerance²".
pub open spec fn rdp_threshold(s: Seq<Point>, tol: int, lo: int, hi: int) -> int {
    tol * tol * chord_den(s[lo], s[hi - 1])
}

/// When the farthest candidate exceeds the threshold it is a strict interior
/// point, so both halves of the split are strictly shorter than the whole.
pub proof fn lemma_split_interior(s: Seq<Point>, tol: int, lo: int, hi: int)
    requires
        0 <= lo < hi <= s.len(),
        spec_farthest(s, lo, hi).1 > rdp_threshold(s, tol, lo, hi),
    ensures
        lo + 1 <= spec_farthest(s, lo, hi).0 <= hi - 2,
        spec_farthest(s, lo, hi).1 > 0,
{
    lemma_sq_nonneg(tol);
    lemma_chord_num_nonneg(s[lo], s[hi - 1], s[lo]);
    lemma_mul_nonneg(tol * tol, chord_den(s[lo], s[hi - 1]));
    if hi - lo >= 2 {
        lemma_farthest_props(s, lo, hi, hi - 1);
    } else {
        assert(spec_farthest(s, lo, hi).1 == 0);
    }
}

/// Indices retained by the iterative reduction of the range `[lo, hi)`:
/// if the farthest interior point of the range exceeds the tolerance, the
/// union of the two halves split at that point (each half keeping the split
/// point as a boundary); otherwise the original indices of the range's first
/// and last points.
pub open spec fn rdp_set(s: Seq<Point>, tol: int, lo: int, hi: int) -> Set<usize>
    decreases hi - lo,
        via rdp_set_decreases
{
    if !(0 <= lo < hi <= s.len()) {
        Set::empty()
    } else {
        let f = spec_farthest(s, lo, hi);
        if f.1 > rdp_threshold(s, tol, lo, hi) {
            rdp_set(s, tol, lo, f.0 + 1).union(rdp_set(s, tol, f.0, hi))
        } else {
            set![s[lo].index, s[hi - 1].index]
        }
    }
}

#[via_fn]
proof fn rdp_set_decreases(s: Seq<Point>, tol: int, lo: int, hi: int) {
    if 0 <= lo < hi <= s.len() {
        let f = spec_farthest(s, lo, hi);
        if f.1 > rdp_threshold(s, tol, lo, hi) {
            lemma_split_interior(s, tol, lo, hi);
        }
    }
}

/// Retained indices of the whole track from position `lo` on: the union of
/// the reductions of the maximal same-group runs.
pub open spec fn spec_simplify_from(s: Seq<Point>, m: SurfaceMapping, tol: int, lo: int) -> Set<
    usize,
>
    decreases s.len() - lo,
        via spec_simplify_from_decreases
{
    if !(0 <= lo < s.len()) {
        Set::empty()
    } else {
        rdp_set(s, tol, lo, run_end(s, m, lo)).union(
            spec_simplify_from(s, m, tol, run_end(s, m, lo)),
        )
    }
}

#[via_fn]
proof fn spec_simplify_from_decreases(s: Seq<Point>, m: SurfaceMapping, tol: int, lo: int) {
    if 0 <= lo < s.len() {
        lemma_run_end_from_props(s, m, lo, lo + 1);
    }
}

/// Indices retained by simplifying the whole track under mapping `m` with the
/// given tolerance (in coordinate units).
pub open spec fn spec_simplify(s: Seq<Point>, m: SurfaceMapping, tol: int) -> Set<usize> {
    spec_simplify_from(s, m, tol, 0)
}

/// `4^n`; the termination measure of one work-stack entry of length `n`.
spec fn pow4(n: nat) -> nat
    decreases n,
{
    if n == 0 {
        1
    } else {
        4 * pow4((n - 1) as nat)
    }
}

proof fn lemma_pow4_pos(n: nat)
    ensures
        pow4(n) >= 1,
    decreases n,
{
    if n > 0 {
        lemma_pow4_pos((n - 1) as nat);
    }
}

proof fn lemma_pow4_mono(m: nat, n: nat)
    requires
        m <= n,
    ensures
        pow4(m) <= pow4(n),
    decreases n,
{
    if m < n {
        lemma_pow4_mono(m, (n - 1) as nat);
        lemma_pow4_pos((n - 1) as nat);
    }
}

/// Union of the reductions of every range still on the work stack.
spec fn stack_union(s: Seq<Point>, tol: int, st: Seq<(usize, usize)>) -> Set<usize>
    decreases st.len(),
{
    if st.len() == 0 {
        Set::empty()
    } else {
        rdp_set(s, tol, st.last().0 as int, st.last().1 as int).union(
            stack_union(s, tol, st.drop_last()),
        )
    }
}

/// Termination measure of the work stack: exponential in each entry's length,
/// so a split into two strictly shorter halves strictly shrinks it.
spec fn stack_measure(st: Seq<(usize, usize)>) -> nat
    decreases st.len(),
{
    if st.len() == 0 {
        0
    } else {
        pow4((st.last().1 - st.last().0) as nat) + stack_measure(st.drop_last())
    }
}

/// Iterative Ramer-Douglas-Peucker over the range `[lo, hi)`, inserting every
/// retained original index into `anchors`.
fn stack_rdp(
    anchors: &mut HashSet<usize>,
    points: &Vec<Point>,
    lo: usize,
    hi: usize,
    tolerance: i64,
)
    requires
        lo < hi <= points@.len(),
        forall|i: int| lo <= i < hi ==> coords_bounded(points@[i]),
        -MAX_COORD <= tolerance <= MAX_COORD,
    ensures
        final(anchors)@ == old(anchors)@.union(
            rdp_set(points@, tolerance as int, lo as int, hi as int),
        ),
{
    let ghost s = points@;
    let ghost tol = tolerance as int;
    proof {
        lemma_mul_bound(tolerance as int, tolerance as int, 1_000_000_000, 1_000_000_000);
    }
    let tol2: i128 = (tolerance as i128) * (tolerance as i128);
    let mut stack: Vec<(usize, usize)> = Vec::new();
    stack.push((lo, hi));
    proof {
        assert(stack@.drop_last() =~= Seq::<(usize, usize)>::empty());
        assert(stack_union(s, tol, stack@.drop_last()) =~= Set::<usize>::empty());
        assert(stack_union(s, tol, stack@) =~= rdp_set(s, tol, lo as int, hi as int));
    }
    while stack.len() > 0
        invariant
            lo < hi <= s.len(),
            s == points@,
            tol == tolerance as int,
            -MAX_COORD <= tolerance <= MAX_COORD,
            tol2 == tol * tol,
            -1_000_000_000_000_000_000 <= tol2 <= 1_000_000_000_000_000_000,
            forall|i: int| lo <= i < hi ==> coords_bounded(s[i]),
            forall|k: int|
                0 <= k < stack@.len() ==> lo <= (#[trigger] stack@[k]).0 < stack@[k].1 <= hi,
            anchors@.union(stack_union(s, tol, stack@)) == old(anchors)@.union(
                rdp_set(s, tol, lo as int, hi as int),
            ),
        decreases stack_measure(stack@),
    {
        let ghost st_pre = stack@;
        let top = stack.pop().unwrap();
        let a = top.0;
        let b = top.1;
        let ghost st2 = stack@;
        proof {
            assert(st_pre.last() == (a, b));
            assert(st_pre.drop_last() == st2);
            assert(stack_union(s, tol, st_pre) == rdp_set(s, tol, a as int, b as int).union(
                stack_union(s, tol, st2),
            ));
        }
        let f = farthest_point(points, a, b);
        let den = chord_den_exec(&points[a], &points[b - 1]);
        proof {
            lemma_chord_den_bound(s[a as int], s[b - 1]);
            lemma_mul_bound(
                tol2 as int,
                den as int,
                1_000_000_000_000_000_000,
                8_000_000_000_000_000_000,
            );
        }
        let thr: i128 = tol2 * den;
        proof {
            assert(thr == rdp_threshold(s, tol, a as int, b as int));
        }
        if f.1 > thr {
            proof {
                lemma_split_interior(s, tol, a as int, b as int);
            }
            let fi = f.0;
            stack.push((a, fi + 1));
            let ghost st3 = stack@;
            stack.push((fi, b));
            proof {
                assert(st3 == st2.push((a, (fi + 1) as usize)));
                assert(stack@ == st3.push((fi, b)));
                assert(st3.push((fi, b)).drop_last() =~= st3);
                assert(st3.drop_last() =~= st2);
                assert(stack_union(s, tol, st3) == rdp_set(s, tol, a as int, fi + 1).union(
                    stack_union(s, tol, st2),
                ));
                assert(stack_union(s, tol, stack@) == rdp_set(s, tol, fi as int, b as int).union(
                    rdp_set(s, tol, a as int, fi + 1).union(stack_union(s, tol, st2)),
                ));
                assert(rdp_set(s, tol, a as int, b as int) == rdp_set(s, tol, a as int, fi + 1)
                    .union(rdp_set(s, tol, fi as int, b as int)));
                assert(anchors@.union(stack_union(s, tol, stack@)) =~= anchors@.union(
                    stack_union(s, tol, st_pre),
                ));
                // the measure shrinks: both halves are strictly shorter
                let la = (fi + 1 - a) as nat;
                let lb = (b - fi) as nat;
                let l = (b - a) as nat;
                lemma_pow4_mono(la, (l - 1) as nat);
                lemma_pow4_mono(lb, (l - 1) as nat);
                lemma_pow4_pos((l - 1) as nat);
                assert(pow4(l) == 4 * pow4((l - 1) as nat));
                assert(stack_measure(st3) == pow4(la) + stack_measure(st2));
                assert(stack_measure(stack@) == pow4(lb) + stack_measure(st3));
                assert(stack_measure(st_pre) == pow4(l) + stack_measure(st2));
                assert(stack_measure(stack@) < stack_measure(st_pre));
            }
        } else {
            let ia = points[a].index;
            let ib = points[b - 1].index;
            anchors.insert(ia);
            anchors.insert(ib);
            proof {
                assert(rdp_set(s, tol, a as int, b as int) =~= set![s[a as int].index, s[b - 1].index]);
                assert(anchors@.union(stack_union(s, tol, st2)) =~= old(anchors)@.union(
                    rdp_set(s, tol, lo as int, hi as int),
                ));
                lemma_pow4_pos((b - a) as nat);
                assert(stack_measure(st_pre) == pow4((b - a) as nat) + stack_measure(st2));
            }
        }
    }
    proof {
        assert(stack_union(s, tol, stack@) =~= Set::<usize>::empty());
        assert(anchors@ =~= anchors@.union(stack_union(s, tol, stack@)));
    }
}

/// End (exclusive) of the maximal run of points sharing the surface group of
/// `points[lo]`, scanning forward from `lo`.
fn run_end_exec(points: &Vec<Point>, mapping: &SurfaceMapping, lo: usize) -> (hi: usize)
    requires
        lo < points@.len(),
    ensures
        hi as int == run_end(points@, *mapping, lo as int),
        lo < hi <= points@.len(),
{
    let n = points.len();
    let g0 = mapping.get_surface_group(&points[lo]);
    let mut j: usize = lo + 1;
    while j < n
        invariant
            lo < j <= n,
            n == points@.len(),
            lo < n,
            view_opt_label(g0) == spec_group_of(*mapping, points@[lo as int]),
            run_end_from(points@, *mapping, lo as int, j as int) == run_end(
                points@,
                *mapping,
                lo as int,
            ),
        decreases n - j,
    {
        let gj = mapping.get_surface_group(&points[j]);
        if !group_eq(&gj, &g0) {
            return j;
        }
        j = j + 1;
    }
    n
}

/// Simplify a whole track: partition it into maximal same-group runs, reduce
/// each run, and return the set of original indices of the surviving points.
/// The tolerance is expressed in the same unit as the x/y coordinates; it is
/// squared once here, and comparisons against it are exact.
pub fn simplify_points(points: &Vec<Point>, mapping: &SurfaceMapping, tolerance: i64) -> (r:
    HashSet<usize>)
    requires
        forall|i: int| 0 <= i < points@.len() ==> coords_bounded(points@[i]),
        -MAX_COORD <= tolerance <= MAX_COORD,
    ensures
        r@ == spec_simplify(points@, *mapping, tolerance as int),
{
    let ghost s = points@;
    let ghost tol = tolerance as int;
    let mut anchors: HashSet<usize> = HashSet::new();
    let n = points.len();
    let mut lo: usize = 0;
    proof {
        assert(anchors@.union(spec_simplify_from(s, *mapping, tol, 0)) =~= spec_simplify(
            s,
            *mapping,
            tol,
        ));
    }
    while lo < n
        invariant
            0 <= lo <= n,
            n == s.len(),
            s == points@,
            tol == tolerance as int,
            -MAX_COORD <= tolerance <= MAX_COORD,
            forall|i: int| 0 <= i < s.len() ==> coords_bounded(s[i]),
            anchors@.union(spec_simplify_from(s, *mapping, tol, lo as int)) == spec_simplify(
                s,
                *mapping,
                tol,
            ),
        decreases n - lo,
    {
        let hi = run_end_exec(points, mapping, lo);
        stack_rdp(&mut anchors, points, lo, hi, tolerance);
        proof {
            assert(spec_simplify_from(s, *mapping, tol, lo as int) == rdp_set(
                s,
                tol,
                lo as int,
                hi as int,
            ).union(spec_simplify_from(s, *mapping, tol, hi as int)));
            assert(anchors@.union(spec_simplify_from(s, *mapping, tol, hi as int)) =~= spec_simplify(
                s,
                *mapping,
                tol,
            ));
        }
        lo = hi;
    }
    proof {
        assert(anchors@ =~= anchors@.union(spec_simplify_from(s, *mapping, tol, lo as int)));
    }
    anchors
}

/// The integer view of a vector of index ranges.
pub open spec fn pairs_view(r: Seq<(usize, usize)>) -> Seq<(int, int)> {
    r.map(|i: int, p: (usize, usize)| (p.0 as int, p.1 as int))
}

/// Partition boundaries of the whole track from position `lo` on: each
/// partition is the maximal run of points sharing a surface group.
pub open spec fn partitions_from(s: Seq<Point>, m: SurfaceMapping, lo: int) -> Seq<(int, int)>
    decreases s.len() - lo,
        via partitions_from_decreases
{
    if !(0 <= lo < s.len()) {
        Seq::empty()
    } else {
        seq![(lo, run_end(s, m, lo))] + partitions_from(s, m, run_end(s, m, lo))
    }
}

#[via_fn]
proof fn partitions_from_decreases(s: Seq<Point>, m: SurfaceMapping, lo: int) {
    if 0 <= lo < s.len() {
        lemma_run_end_from_props(s, m, lo, lo + 1);
    }
}

/// Partition boundaries of the whole track, in order.
pub open spec fn spec_partitions(s: Seq<Point>, m: SurfaceMapping) -> Seq<(int, int)> {
    partitions_from(s, m, 0)
}

/// The maximal same-surface-group runs of the track, in order, as half-open
/// index ranges into `points`. Taken in order they cover the input exactly,
/// with no gaps and no overlaps; an empty input yields no partitions.
pub fn surface_group_partitions(points: &Vec<Point>, mapping: &SurfaceMapping) -> (r: Vec<
    (usize, usize),
>)
    ensures
        pairs_view(r@) == spec_partitions(points@, *mapping),
{
    let ghost s = points@;
    let mut r: Vec<(usize, usize)> = Vec::new();
    let n = points.len();
    let mut lo: usize = 0;
    while lo < n
        invariant
            0 <= lo <= n,
            n == s.len(),
            s == points@,
            pairs_view(r@) + partitions_from(s, *mapping, lo as int) == spec_partitions(
                s,
                *mapping,
            ),
        decreases n - lo,
    {
        let hi = run_end_exec(points, mapping, lo);
        r.push((lo, hi));
        proof {
            assert(partitions_from(s, *mapping, lo as int) == seq![(lo as int, hi as int)]
                + partitions_from(s, *mapping, hi as int));
            assert(pairs_view(r@) =~= pairs_view(r@.drop_last()).push((lo as int, hi as int)));
            assert(pairs_view(r@) + partitions_from(s, *mapping, hi as int) =~= spec_partitions(
                s,
                *mapping,
            ));
        }
        lo = hi;
    }
    proof {
        assert(pairs_view(r@) + partitions_from(s, *mapping, lo as int) =~= pairs_view(r@));
    }
    r
}

/// The reduction of a range always retains the original indices of the
/// range's first and last points, whatever the tolerance.
pub proof fn lemma_rdp_contains_endpoints(s: Seq<Point>, tol: int, lo: int, hi: int)
    requires
        0 <= lo < hi <= s.len(),
    ensures
        rdp_set(s, tol, lo, hi).contains(s[lo].index),
        rdp_set(s, tol, lo, hi).contains(s[hi - 1].index),
    decreases hi - lo,
{
    let f = spec_farthest(s, lo, hi);
    if f.1 > rdp_threshold(s, tol, lo, hi) {
        lemma_split_interior(s, tol, lo, hi);
        lemma_rdp_contains_endpoints(s, tol, lo, f.0 + 1);
        lemma_rdp_contains_endpoints(s, tol, f.0, hi);
    }
}

proof fn lemma_simplify_from_contains(
    s: Seq<Point>,
    m: SurfaceMapping,
    tol: int,
    lo: int,
    k: int,
)
    requires
        0 <= lo,
        0 <= k < partitions_from(s, m, lo).len(),
    ensures
        spec_simplify_from(s, m, tol, lo).contains(s[partitions_from(s, m, lo)[k].0].index),
        spec_simplify_from(s, m, tol, lo).contains(s[partitions_from(s, m, lo)[k].1 - 1].index),
    decreases s.len() - lo,
{
    let j = run_end(s, m, lo);
    lemma_run_end_from_props(s, m, lo, lo + 1);
    if k == 0 {
        lemma_rdp_contains_endpoints(s, tol, lo, j);
    } else {
        lemma_simplify_from_contains(s, m, tol, j, k - 1);
        assert(partitions_from(s, m, lo)[k] == partitions_from(s, m, j)[k - 1]);
    }
}

/// The simplification result always contains the original indices of the
/// first and the last point of every surface-group partition.
pub proof fn lemma_simplify_contains_partition_endpoints(
    s: Seq<Point>,
    m: SurfaceMapping,
    tol: int,
    k: int,
)
    requires
        0 <= k < spec_partitions(s, m).len(),
    ensures
        spec_simplify(s, m, tol).contains(s[spec_partitions(s, m)[k].0].index),
        spec_simplify(s, m, tol).contains(s[spec_partitions(s, m)[k].1 - 1].index),
{
    lemma_simplify_from_contains(s, m, tol, 0, k);
}

proof fn lemma_simplify_from_contains_last(s: Seq<Point>, m: SurfaceMapping, tol: int, lo: int)
    requires
        0 <= lo < s.len(),
    ensures
        spec_simplify_from(s, m, tol, lo).contains(s[s.len() - 1].index),
    decreases s.len() - lo,
{
    let j = run_end(s, m, lo);
    lemma_run_end_from_props(s, m, lo, lo + 1);
    if j >= s.len() {
        lemma_rdp_contains_endpoints(s, tol, lo, j);
    } else {
        lemma_simplify_from_contains_last(s, m, tol, j);
    }
}

/// For a non-empty track the simplification result always contains the
/// original indices of the first and the last point of the whole track.
pub proof fn lemma_simplify_contains_track_endpoints(s: Seq<Point>, m: SurfaceMapping, tol: int)
    requires
        s.len() > 0,
    ensures
        spec_simplify(s, m, tol).contains(s[0].index),
        spec_simplify(s, m, tol).contains(s[s.len() - 1].index),
{
    let j = run_end(s, m, 0);
    lemma_run_end_from_props(s, m, 0, 1);
    lemma_rdp_contains_endpoints(s, tol, 0, j);
    lemma_simplify_from_contains_last(s, m, tol, 0);
}

/// Concatenation of the given sub-ranges of `s`, in order.
pub open spec fn concat_parts(s: Seq<Point>, ps: Seq<(int, int)>) -> Seq<Point>
    decreases ps.len(),
{
    if ps.len() == 0 {
        Seq::empty()
    } else {
        s.subrange(ps[0].0, ps[0].1) + concat_parts(s, ps.drop_first())
    }
}

proof fn lemma_partitions_from_cover(s: Seq<Point>, m: SurfaceMapping, lo: int)
    requires
        0 <= lo <= s.len(),
    ensures
        concat_parts(s, partitions_from(s, m, lo)) == s.skip(lo),
    decreases s.len() - lo,
{
    if lo >= s.len() {
        assert(concat_parts(s, partitions_from(s, m, lo)) =~= s.skip(lo));
    } else {
        let j = run_end(s, m, lo);
        lemma_run_end_from_props(s, m, lo, lo + 1);
        lemma_partitions_from_cover(s, m, j);
        let ps = partitions_from(s, m, lo);
        assert(ps.drop_first() =~= partitions_from(s, m, j));
        assert(concat_parts(s, ps) == s.subrange(lo, j) + concat_parts(
            s,
            partitions_from(s, m, j),
        ));
        assert(s.subrange(lo, j) + s.skip(j) =~= s.skip(lo));
    }
}

/// Partitioning is a complete, non-overlapping, order-preserving cover of the
/// input: concatenating the partitions, in order, reproduces the track.
pub proof fn lemma_partitions_cover(s: Seq<Point>, m: SurfaceMapping)
    ensures
        concat_parts(s, spec_partitions(s, m)) == s,
{
    lemma_partitions_from_cover(s, m, 0);
    assert(s.skip(0) =~= s);
}

/// Structure of the partition list: ranges are non-empty and consecutive,
/// every point of a partition shares the group of the partition's first
/// point, and each partition after the first starts with a group change.
pub proof fn lemma_partitions_from_props(s: Seq<Point>, m: SurfaceMapping, lo: int)
    requires
        0 <= lo <= s.len(),
    ensures
        partitions_from(s, m, lo).len() > 0 <==> lo < s.len(),
        partitions_from(s, m, lo).len() > 0 ==> partitions_from(s, m, lo)[0].0 == lo
            && partitions_from(s, m, lo).last().1 == s.len(),
        forall|k: int|
            0 <= k < partitions_from(s, m, lo).len() ==> lo <= (#[trigger] partitions_from(
                s,
                m,
                lo,
            )[k]).0 < partitions_from(s, m, lo)[k].1 <= s.len(),
        forall|k: int|
            0 <= k < partitions_from(s, m, lo).len() - 1 ==> (#[trigger] partitions_from(
                s,
                m,
                lo,
            )[k]).1 == partitions_from(s, m, lo)[k + 1].0,
        forall|k: int, i: int|
            #![trigger partitions_from(s, m, lo)[k], spec_group_of(m, s[i])]
            0 <= k < partitions_from(s, m, lo).len() && partitions_from(s, m, lo)[k].0 <= i
                < partitions_from(s, m, lo)[k].1 ==> spec_group_of(m, s[i]) == spec_group_of(
                m,
                s[partitions_from(s, m, lo)[k].0],
            ),
        forall|k: int|
            0 < k < partitions_from(s, m, lo).len() ==> spec_group_of(
                m,
                s[(#[trigger] partitions_from(s, m, lo)[k]).0],
            ) != spec_group_of(m, s[partitions_from(s, m, lo)[k].0 - 1]),
    decreases s.len() - lo,
{
    if lo < s.len() {
        let j = run_end(s, m, lo);
        lemma_run_end_from_props(s, m, lo, lo + 1);
        lemma_partitions_from_props(s, m, j);
        let ps = partitions_from(s, m, lo);
        let rest = partitions_from(s, m, j);
        assert(ps == seq![(lo, j)] + rest);
        assert(ps[0] == (lo, j));
        assert forall|k: int| 1 <= k < ps.len() implies ps[k] == rest[k - 1] by {}
        if rest.len() > 0 {
            assert(ps.last() == rest.last());
            assert(rest[0].0 == j);
        }
        assert forall|k: int, i: int|
            #![trigger ps[k], spec_group_of(m, s[i])]
            0 <= k < ps.len() && ps[k].0 <= i < ps[k].1 implies spec_group_of(m, s[i])
            == spec_group_of(m, s[ps[k].0]) by {
            if k == 0 {
                if i > lo {
                    assert(spec_group_of(m, s[i]) == spec_group_of(m, s[lo]));
                }
            } else {
                assert(ps[k] == rest[k - 1]);
            }
        }
        assert forall|k: int|
            0 < k < ps.len() implies spec_group_of(m, s[(ps[k]).0]) != spec_group_of(
            m,
            s[ps[k].0 - 1],
        ) by {
            assert(ps[k] == rest[k - 1]);
            if k == 1 {
                assert(rest[0].0 == j);
                assert(j < s.len());
                assert(spec_group_of(m, s[j]) != spec_group_of(m, s[lo]));
                if j - 1 > lo {
                    assert(spec_group_of(m, s[j - 1]) == spec_group_of(m, s[lo]));
                }
            }
        }
    }
}

proof fn lemma_partition_covering(s: Seq<Point>, m: SurfaceMapping, lo: int, i: int)
    requires
        0 <= lo <= i < s.len(),
    ensures
        exists|k: int|
            0 <= k < partitions_from(s, m, lo).len() && (#[trigger] partitions_from(
                s,
                m,
                lo,
            )[k]).0 <= i < partitions_from(s, m, lo)[k].1,
    decreases s.len() - lo,
{
    let j = run_end(s, m, lo);
    lemma_run_end_from_props(s, m, lo, lo + 1);
    let ps = partitions_from(s, m, lo);
    if i < j {
        assert(ps[0].0 <= i < ps[0].1);
    } else {
        lemma_partition_covering(s, m, j, i);
        let k = choose|k: int|
            0 <= k < partitions_from(s, m, j).len() && (#[trigger] partitions_from(
                s,
                m,
                j,
            )[k]).0 <= i < partitions_from(s, m, j)[k].1;
        assert(ps[k + 1] == partitions_from(s, m, j)[k]);
        assert(ps[k + 1].0 <= i < ps[k + 1].1);
    }
}

/// Two adjacent points whose group labels are equal — in particular two
/// adjacent points that both lack surface information — always belong to the
/// same partition.
pub proof fn lemma_adjacent_same_group_share_partition(s: Seq<Point>, m: SurfaceMapping, i: int)
    requires
        0 <= i,
        i + 1 < s.len(),
        spec_group_of(m, s[i]) == spec_group_of(m, s[i + 1]),
    ensures
        exists|k: int|
            0 <= k < spec_partitions(s, m).len() && (#[trigger] spec_partitions(s, m)[k]).0 <= i
                && i + 1 < spec_partitions(s, m)[k].1,
{
    lemma_partitions_from_props(s, m, 0);
    lemma_partition_covering(s, m, 0, i + 1);
    let ps = spec_partitions(s, m);
    let k = choose|k: int|
        0 <= k < partitions_from(s, m, 0).len() && (#[trigger] partitions_from(s, m, 0)[k]).0 <= i
            + 1 < partitions_from(s, m, 0)[k].1;
    if ps[k].0 <= i {
        assert(ps[k].0 <= i && i + 1 < ps[k].1);
    } else {
        // i + 1 is the first point of partition k, so the group changes at it
        assert(ps[k].0 == i + 1);
        assert(k > 0 || ps[k].0 == 0);
        assert(k > 0);
        assert(spec_group_of(m, s[ps[k].0]) != spec_group_of(m, s[ps[k].0 - 1]));
        assert(false);
    }
}

/// Two adjacent points with different group labels — in particular one with a
/// named group beside one without any — never share a partition.
pub proof fn lemma_adjacent_diff_group_separate_partitions(
    s: Seq<Point>,
    m: SurfaceMapping,
    i: int,
)
    requires
        0 <= i,
        i + 1 < s.len(),
        spec_group_of(m, s[i]) != spec_group_of(m, s[i + 1]),
    ensures
        forall|k: int|
            0 <= k < spec_partitions(s, m).len() ==> !((#[trigger] spec_partitions(s, m)[k]).0 <= i
                && i + 1 < spec_partitions(s, m)[k].1),
{
    lemma_partitions_from_props(s, m, 0);
    let ps = spec_partitions(s, m);
    assert forall|k: int| 0 <= k < ps.len() implies !((ps[k]).0 <= i && i + 1 < ps[k].1) by {
        if ps[k].0 <= i && i + 1 < ps[k].1 {
            assert(spec_group_of(m, s[i]) == spec_group_of(m, s[ps[k].0]));
            assert(spec_group_of(m, s[i + 1]) == spec_group_of(m, s[ps[k].0]));
        }
    }
}

/// A point without surface information has the absent group value, which is
/// distinct from every named group.
pub proof fn lemma_unclassified_is_own_group(m: SurfaceMapping, p: Point, q: Point)
    requires
        p.s is None,
        spec_group_of(m, q) is Some,
    ensures
        spec_group_of(m, p) is None,
        spec_group_of(m, p) != spec_group_of(m, q),
{
}

/// Every index the reduction of a range retains is the original index of a
/// point of that range.
pub proof fn lemma_rdp_indices_in_range(s: Seq<Point>, tol: int, lo: int, hi: int)
    ensures
        forall|x: usize|
            rdp_set(s, tol, lo, hi).contains(x) ==> exists|i: int|
                lo <= i < hi && (#[trigger] s[i]).index == x,
    decreases hi - lo,
{
    if 0 <= lo < hi <= s.len() {
        let f = spec_farthest(s, lo, hi);
        if f.1 > rdp_threshold(s, tol, lo, hi) {
            lemma_split_interior(s, tol, lo, hi);
            lemma_rdp_indices_in_range(s, tol, lo, f.0 + 1);
            lemma_rdp_indices_in_range(s, tol, f.0, hi);
            assert forall|x: usize| rdp_set(s, tol, lo, hi).contains(x) implies exists|i: int|
                lo <= i < hi && (#[trigger] s[i]).index == x by {
                if rdp_set(s, tol, lo, f.0 + 1).contains(x) {
                    let i = choose|i: int| lo <= i < f.0 + 1 && (#[trigger] s[i]).index == x;
                    assert(lo <= i < hi && s[i].index == x);
                } else {
                    assert(rdp_set(s, tol, f.0, hi).contains(x));
                    let i = choose|i: int| f.0 <= i < hi && (#[trigger] s[i]).index == x;
                    assert(lo <= i < hi && s[i].index == x);
                }
            }
        } else {
            assert forall|x: usize| rdp_set(s, tol, lo, hi).contains(x) implies exists|i: int|
                lo <= i < hi && (#[trigger] s[i]).index == x by {
                if x == s[lo].index {
                    assert(lo <= lo < hi && s[lo].index == x);
                } else {
                    assert(lo <= hi - 1 < hi && s[hi - 1].index == x);
                }
            }
        }
    }
}

/// Every index simplification retains is the original index of a point of the
/// track, so downstream filtering can always map the result back to rows.
pub proof fn lemma_simplify_indices_in_track(s: Seq<Point>, m: SurfaceMapping, tol: int)
    ensures
        forall|x: usize|
            spec_simplify(s, m, tol).contains(x) ==> exists|i: int|
                0 <= i < s.len() && (#[trigger] s[i]).index == x,
{
    lemma_simplify_from_indices(s, m, tol, 0);
}

proof fn lemma_simplify_from_indices(s: Seq<Point>, m: SurfaceMapping, tol: int, lo: int)
    ensures
        forall|x: usize|
            spec_simplify_from(s, m, tol, lo).contains(x) ==> exists|i: int|
                0 <= i < s.len() && (#[trigger] s[i]).index == x,
    decreases s.len() - lo,
{
    if 0 <= lo < s.len() {
        let j = run_end(s, m, lo);
        lemma_run_end_from_props(s, m, lo, lo + 1);
        lemma_rdp_indices_in_range(s, tol, lo, j);
        lemma_simplify_from_indices(s, m, tol, j);
        assert forall|x: usize| spec_simplify_from(s, m, tol, lo).contains(x) implies exists|
            i: int,
        | 0 <= i < s.len() && (#[trigger] s[i]).index == x by {
            if rdp_set(s, tol, lo, j).contains(x) {
                let i = choose|i: int| lo <= i < j && (#[trigger] s[i]).index == x;
                assert(0 <= i < s.len() && s[i].index == x);
            } else {
                assert(spec_simplify_from(s, m, tol, j).contains(x));
                let i = choose|i: int| 0 <= i < s.len() && (#[trigger] s[i]).index == x;
                assert(0 <= i < s.len() && s[i].index == x);
            }
        }
    }
}

proof fn lemma_threshold_mono(t1: int, t2: int, den: int)
    by (nonlinear_arith)
    requires
        0 <= t1 <= t2,
        den >= 0,
    ensures
        t1 * t1 * den <= t2 * t2 * den,
{
}

/// Reduction is monotonic in the tolerance: on any range, a lower
/// (non-negative) tolerance never retains fewer indices than a higher one.
pub proof fn lemma_rdp_monotone(s: Seq<Point>, t1: int, t2: int, lo: int, hi: int)
    requires
        0 <= t1 <= t2,
    ensures
        rdp_set(s, t2, lo, hi).subset_of(rdp_set(s, t1, lo, hi)),
    decreases hi - lo,
{
    if 0 <= lo < hi <= s.len() {
        let f = spec_farthest(s, lo, hi);
        lemma_chord_num_nonneg(s[lo], s[hi - 1], s[lo]);
        lemma_threshold_mono(t1, t2, chord_den(s[lo], s[hi - 1]));
        if f.1 > rdp_threshold(s, t2, lo, hi) {
            lemma_split_interior(s, t2, lo, hi);
            lemma_rdp_monotone(s, t1, t2, lo, f.0 + 1);
            lemma_rdp_monotone(s, t1, t2, f.0, hi);
        } else if f.1 > rdp_threshold(s, t1, lo, hi) {
            lemma_rdp_contains_endpoints(s, t1, lo, hi);
        }
    }
}

proof fn lemma_simplify_from_monotone(
    s: Seq<Point>,
    m: SurfaceMapping,
    t1: int,
    t2: int,
    lo: int,
)
    requires
        0 <= t1 <= t2,
    ensures
        spec_simplify_from(s, m, t2, lo).subset_of(spec_simplify_from(s, m, t1, lo)),
    decreases s.len() - lo,
{
    if 0 <= lo < s.len() {
        let j = run_end(s, m, lo);
        lemma_run_end_from_props(s, m, lo, lo + 1);
        lemma_rdp_monotone(s, t1, t2, lo, j);
        lemma_simplify_from_monotone(s, m, t1, t2, j);
    }
}

/// Simplification is monotonic in the tolerance: a lower (non-negative)
/// tolerance never retains fewer indices than a higher one.
pub proof fn lemma_simplify_monotone(s: Seq<Point>, m: SurfaceMapping, t1: int, t2: int)
    requires
        0 <= t1 <= t2,
    ensures
        spec_simplify(s, m, t2).subset_of(spec_simplify(s, m, t1)),
{
    lemma_simplify_from_monotone(s, m, t1, t2, 0);
}

/// Degenerate tracks, whatever the tolerance and the mapping: no points yield
/// the empty set, one point yields its index, two points always keep both.
pub proof fn lemma_simplify_degenerate(s: Seq<Point>, m: SurfaceMapping, tol: int)
    ensures
        s.len() == 0 ==> spec_simplify(s, m, tol) == Set::<usize>::empty(),
        s.len() == 1 ==> spec_simplify(s, m, tol) == set![s[0].index],
        s.len() == 2 ==> spec_simplify(s, m, tol) == set![s[0].index, s[1].index],
{
    lemma_sq_nonneg(tol);
    if s.len() == 1 {
        lemma_chord_num_nonneg(s[0], s[0], s[0]);
        lemma_mul_nonneg(tol * tol, chord_den(s[0], s[0]));
        assert(run_end(s, m, 0) == 1);
        assert(spec_farthest(s, 0, 1).1 == 0);
        assert(rdp_set(s, tol, 0, 1) == set![s[0].index, s[0].index]);
        assert(spec_simplify_from(s, m, tol, 1) =~= Set::<usize>::empty());
        assert(spec_simplify(s, m, tol) =~= set![s[0].index]);
    } else if s.len() == 2 {
        lemma_chord_num_nonneg(s[0], s[1], s[0]);
        lemma_mul_nonneg(tol * tol, chord_den(s[0], s[1]));
        lemma_chord_num_nonneg(s[0], s[0], s[0]);
        lemma_mul_nonneg(tol * tol, chord_den(s[0], s[0]));
        lemma_chord_num_nonneg(s[1], s[1], s[1]);
        lemma_mul_nonneg(tol * tol, chord_den(s[1], s[1]));
        if spec_group_of(m, s[1]) == spec_group_of(m, s[0]) {
            assert(run_end_from(s, m, 0, 2) == 2);
            assert(run_end(s, m, 0) == 2);
            assert(spec_farthest(s, 0, 2).1 == 0);
            assert(rdp_set(s, tol, 0, 2) == set![s[0].index, s[1].index]);
            assert(spec_simplify_from(s, m, tol, 2) =~= Set::<usize>::empty());
            assert(spec_simplify(s, m, tol) =~= set![s[0].index, s[1].index]);
        } else {
            assert(run_end(s, m, 0) == 1);
            assert(run_end(s, m, 1) == 2);
            assert(spec_farthest(s, 0, 1).1 == 0);
            assert(spec_farthest(s, 1, 2).1 == 0);
            assert(rdp_set(s, tol, 0, 1) == set![s[0].index, s[0].index]);
            assert(rdp_set(s, tol, 1, 2) == set![s[1].index, s[1].index]);
            assert(spec_simplify_from(s, m, tol, 2) =~= Set::<usize>::empty());
            assert(spec_simplify_from(s, m, tol, 1) =~= set![s[1].index]);
            assert(spec_simplify(s, m, tol) =~= set![s[0].index, s[1].index]);
        }
    }
}

} // verus!
