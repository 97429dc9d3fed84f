//! Corner-rounding of polylines.
//!
//! Every interior vertex of a polyline is replaced by a fan of samples of
//! a quadratic blend between two control points that bracket the corner,
//! while the two endpoints of the polyline are kept exactly.

use vstd::prelude::*;

use crate::geometry::MAX_LERP_DEN;
use crate::geometry::Point;
use crate::geometry::in_bounds;
use crate::geometry::lerp_point;
use crate::geometry::lerp_point_exec;
use crate::geometry::midpoint;
use crate::geometry::midpoint_exec;

verus! {

/// Denominator of the sharpness fraction: a sharpness of `SHARPNESS_DEN`
/// pulls the control points all the way into the corner.
pub const SHARPNESS_DEN: i64 = 1000;

/// The two control points bracketing the corner `p2` between its
/// neighbours `p1` and `p3`: each midpoint is biased toward `p2` by
/// `sharpness / SHARPNESS_DEN`.
pub open spec fn corner_controls(p1: Point, p2: Point, p3: Point, sharpness: int) -> (Point, Point) {
    (
        lerp_point(midpoint(p1, p2), p2, sharpness, SHARPNESS_DEN as int),
        lerp_point(midpoint(p3, p2), p2, sharpness, SHARPNESS_DEN as int),
    )
}

/// Sample `i` of `n` of the quadratic blend across the corner `p2`: two
/// nested interpolations toward the corner's control points, blended by
/// the same parameter.
pub open spec fn corner_sample(
    p1: Point,
    p2: Point,
    p3: Point,
    sharpness: int,
    i: int,
    n: int,
) -> Point {
    let controls = corner_controls(p1, p2, p3, sharpness);
    let l1 = lerp_point(controls.0, p2, i, n);
    let l2 = lerp_point(p2, controls.1, i, n);
    lerp_point(l1, l2, i, n)
}

/// All `n` samples fanned across the corner `p2`, in order.
pub open spec fn corner_samples(
    p1: Point,
    p2: Point,
    p3: Point,
    sharpness: int,
    n: nat,
) -> Seq<Point> {
    Seq::new(n, |i: int| corner_sample(p1, p2, p3, sharpness, i, n as int))
}

/// The samples of every corner with index below `k`, concatenated in
/// corner order.  Corners are the interior vertices, indices
/// `1 .. ps.len() - 1`.
pub open spec fn interior_samples(ps: Seq<Point>, n: nat, sharpness: int, k: int) -> Seq<Point>
    decreases k,
{
    if k <= 1 {
        Seq::empty()
    } else {
        interior_samples(ps, n, sharpness, k - 1) + corner_samples(
            ps[k - 2],
            ps[k - 1],
            ps[k],
            sharpness,
            n,
        )
    }
}

/// The whole smoothed polyline: the first input point, then the sample
/// fans of all interior corners, then the last input point.  Polylines
/// with fewer than two points cannot be smoothed and stay as they are.
pub open spec fn smooth_spec(ps: Seq<Point>, n: nat, sharpness: int) -> Seq<Point> {
    if ps.len() < 2 {
        ps
    } else {
        seq![ps[0]] + interior_samples(ps, n, sharpness, ps.len() - 1) + seq![ps.last()]
    }
}

/// Each corner contributes exactly `n` samples.
pub proof fn lemma_interior_samples_len(ps: Seq<Point>, n: nat, sharpness: int, k: int)
    requires
        1 <= k,
    ensures
        interior_samples(ps, n, sharpness, k).len() == (k - 1) * n,
    decreases k,
{
    if k == 1 {
    } else {
        lemma_interior_samples_len(ps, n, sharpness, k - 1);
        assert((k - 2) * n + n == (k - 1) * n) by (nonlinear_arith);
    }
}

/// Smooths one polyline: keeps both endpoints exactly and replaces every
/// interior vertex by `nb_points` samples of the quadratic corner blend.
/// `sharpness` ranges over `0 ..= SHARPNESS_DEN`; higher values hug the
/// original corner more closely.  An input with fewer than two points is
/// returned unchanged.
pub fn smooth(positions: Vec<Point>, nb_points: usize, sharpness: i64) -> (r: Vec<Point>)
    requires
        0 <= sharpness <= SHARPNESS_DEN,
        nb_points <= MAX_LERP_DEN,
        forall|i: int| 0 <= i < positions@.len() ==> in_bounds(#[trigger] positions@[i]),
    ensures
        r@ == smooth_spec(positions@, nb_points as nat, sharpness as int),
        positions@.len() < 2 ==> r@ == positions@,
        positions@.len() >= 2 ==> r@.len() == 2 + (positions@.len() - 2) * nb_points,
        positions@.len() >= 1 ==> r@.len() >= 1 && r@[0] == positions@[0] && r@.last()
            == positions@.last(),
        forall|i: int| 0 <= i < r@.len() ==> in_bounds(#[trigger] r@[i]),
{
    if positions.len() < 2 {
        return positions;
    }
    let ghost ps = positions@;
    let ghost n = nb_points as nat;
    let ghost sh = sharpness as int;
    let mut smoothed: Vec<Point> = Vec::new();
    smoothed.push(positions[0]);
    let mut index: usize = 1;
    while index < positions.len() - 1
        invariant
            positions@ == ps,
            ps.len() >= 2,
            1 <= index <= ps.len() - 1,
            0 <= sharpness <= SHARPNESS_DEN,
            nb_points <= MAX_LERP_DEN,
            n == nb_points as nat,
            sh == sharpness as int,
            forall|i: int| 0 <= i < ps.len() ==> in_bounds(#[trigger] ps[i]),
            smoothed@ == seq![ps[0]] + interior_samples(ps, n, sh, index as int),
            forall|i: int| 0 <= i < smoothed@.len() ==> in_bounds(#[trigger] smoothed@[i]),
        decreases ps.len() - index,
    {
        let p1 = positions[index - 1];
        let p2 = positions[index];
        let p3 = positions[index + 1];
        let m1 = midpoint_exec(p1, p2);
        let m3 = midpoint_exec(p3, p2);
        let c1 = lerp_point_exec(m1, p2, sharpness, SHARPNESS_DEN);
        let c3 = lerp_point_exec(m3, p2, sharpness, SHARPNESS_DEN);
        let ghost fan = corner_samples(p1, p2, p3, sh, n);
        let ghost base = smoothed@;
        let mut pt: usize = 0;
        while pt < nb_points
            invariant
                0 <= pt <= nb_points,
                nb_points <= MAX_LERP_DEN,
                0 <= sharpness <= SHARPNESS_DEN,
                in_bounds(p2),
                in_bounds(c1),
                in_bounds(c3),
                c1 == corner_controls(p1, p2, p3, sh).0,
                c3 == corner_controls(p1, p2, p3, sh).1,
                fan == corner_samples(p1, p2, p3, sh, n),
                n == nb_points as nat,
                sh == sharpness as int,
                smoothed@ == base + fan.take(pt as int),
                forall|i: int| 0 <= i < base.len() ==> in_bounds(#[trigger] base[i]),
                forall|i: int| 0 <= i < smoothed@.len() ==> in_bounds(#[trigger] smoothed@[i]),
            decreases nb_points - pt,
        {
            let num = pt as i64;
            let den = nb_points as i64;
            let l1 = lerp_point_exec(c1, p2, num, den);
            let l2 = lerp_point_exec(p2, c3, num, den);
            let sample = lerp_point_exec(l1, l2, num, den);
            smoothed.push(sample);
            proof {
                assert(sample == fan[pt as int]);
                assert(fan.take(pt as int + 1) =~= fan.take(pt as int).push(fan[pt as int]));
                assert(smoothed@ =~= base + fan.take(pt as int + 1));
            }
            pt = pt + 1;
        }
        proof {
            assert(fan.take(nb_points as int) =~= fan);
            assert(smoothed@ =~= seq![ps[0]] + interior_samples(ps, n, sh, index as int + 1));
        }
        index = index + 1;
    }
    smoothed.push(positions[positions.len() - 1]);
    proof {
        assert(smoothed@ =~= seq![ps[0]] + interior_samples(ps, n, sh, ps.len() - 1) + seq![
            ps.last(),
        ]);
        lemma_interior_samples_len(ps, n, sh, ps.len() - 1);
        assert(smoothed@.len() == 2 + (ps.len() - 2) * nb_points);
        assert(smoothed@[0] == ps[0]);
        assert(smoothed@.last() == ps.last());
    }
    smoothed
}

} // verus!
