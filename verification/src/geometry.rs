//! Plain 2D points in fixed-point coordinates, and the small arithmetic
//! helpers (floor division, linear interpolation) the pipeline builds on.

use vstd::prelude::*;

verus! {

/// Largest coordinate magnitude the library works with.  Keeping every
/// point inside this box lets all intermediate products fit in `i64`.
pub const MAX_COORD: i64 = 1_000_000_000_000;

/// Largest interpolation denominator accepted by the point helpers; with
/// coordinates bounded by `MAX_COORD`, products below
/// `2 * MAX_COORD * MAX_LERP_DEN` still fit in `i64`.
pub const MAX_LERP_DEN: i64 = 1_000_000;

/// A 2D point.  Coordinates are fixed-point integers with three implied
/// decimal places (one geometric unit is 1000 coordinate steps).
#[derive(Clone, Copy, PartialEq, Eq, Structural, Debug)]
pub struct Point {
    pub x: i64,
    pub y: i64,
}

/// A point whose coordinates are small enough for the pipeline's
/// arithmetic.
pub open spec fn in_bounds(p: Point) -> bool {
    -MAX_COORD <= p.x <= MAX_COORD && -MAX_COORD <= p.y <= MAX_COORD
}

impl Point {
    pub fn new(x: i64, y: i64) -> (r: Point)
        ensures
            r == (Point { x, y }),
    {
        Point { x, y }
    }
}

/// Linear interpolation `a + (b - a) * num / den` on one coordinate,
/// rounding the quotient down.
pub open spec fn lerp(a: int, b: int, num: int, den: int) -> int {
    a + (b - a) * num / den
}

/// Coordinate-wise interpolation between two points.
pub open spec fn lerp_point(a: Point, b: Point, num: int, den: int) -> Point {
    Point { x: lerp(a.x as int, b.x as int, num, den) as i64, y: lerp(
        a.y as int,
        b.y as int,
        num,
        den,
    ) as i64 }
}

/// Coordinate-wise midpoint of two points, rounding down.
pub open spec fn midpoint(a: Point, b: Point) -> Point {
    Point { x: ((a.x + b.x) / 2) as i64, y: ((a.y + b.y) / 2) as i64 }
}

/// An interpolation with `0 <= num <= den` never leaves the interval
/// spanned by its endpoints.
proof fn lemma_lerp_between(a: int, b: int, num: int, den: int)
    requires
        0 <= num <= den,
        0 < den,
    ensures
        a <= b ==> a <= lerp(a, b, num, den) <= b,
        b <= a ==> b <= lerp(a, b, num, den) <= a,
{
    let d = b - a;
    if a <= b {
        assert(0 <= d * num) by (nonlinear_arith)
            requires
                0 <= d,
                0 <= num,
        ;
        assert(d * num <= d * den) by (nonlinear_arith)
            requires
                0 <= d,
                num <= den,
        ;
        vstd::arithmetic::div_mod::lemma_div_is_ordered(0, d * num, den);
        vstd::arithmetic::div_mod::lemma_div_is_ordered(d * num, d * den, den);
        vstd::arithmetic::div_mod::lemma_div_multiples_vanish(d, den);
        assert(d * den == den * d) by (nonlinear_arith);
        assert(0int / den == 0) by (nonlinear_arith)
            requires
                0 < den,
        ;
    } else {
        assert(d * num <= 0) by (nonlinear_arith)
            requires
                d <= 0,
                0 <= num,
        ;
        assert(d * den <= d * num) by (nonlinear_arith)
            requires
                d <= 0,
                num <= den,
        ;
        vstd::arithmetic::div_mod::lemma_div_is_ordered(d * num, 0, den);
        vstd::arithmetic::div_mod::lemma_div_is_ordered(d * den, d * num, den);
        vstd::arithmetic::div_mod::lemma_div_multiples_vanish(d, den);
        assert(d * den == den * d) by (nonlinear_arith);
        assert(0int / den == 0) by (nonlinear_arith)
            requires
                0 < den,
        ;
    }
}

/// A midpoint lies between its endpoints.
proof fn lemma_midpoint_between(a: int, b: int)
    ensures
        a <= b ==> a <= (a + b) / 2 <= b,
        b <= a ==> b <= (a + b) / 2 <= a,
{
    if a <= b {
        vstd::arithmetic::div_mod::lemma_div_is_ordered(a + a, a + b, 2);
        vstd::arithmetic::div_mod::lemma_div_is_ordered(a + b, b + b, 2);
        assert((a + a) / 2 == a && (b + b) / 2 == b) by (nonlinear_arith);
    } else {
        vstd::arithmetic::div_mod::lemma_div_is_ordered(b + b, a + b, 2);
        vstd::arithmetic::div_mod::lemma_div_is_ordered(a + b, a + a, 2);
        assert((a + a) / 2 == a && (b + b) / 2 == b) by (nonlinear_arith);
    }
}

/// Interpolated point between `a` and `b`; stays inside the coordinate
/// box whenever `a` and `b` do.
pub fn lerp_point_exec(a: Point, b: Point, num: i64, den: i64) -> (r: Point)
    requires
        in_bounds(a),
        in_bounds(b),
        0 <= num <= den,
        0 < den <= MAX_LERP_DEN,
    ensures
        r == lerp_point(a, b, num as int, den as int),
        in_bounds(r),
{
    proof {
        lemma_lerp_between(a.x as int, b.x as int, num as int, den as int);
        lemma_lerp_between(a.y as int, b.y as int, num as int, den as int);
        assert(-2 * MAX_COORD * MAX_LERP_DEN <= (b.x - a.x) * num <= 2 * MAX_COORD
            * MAX_LERP_DEN) by (nonlinear_arith)
            requires
                -2 * MAX_COORD <= b.x - a.x <= 2 * MAX_COORD,
                0 <= num <= MAX_LERP_DEN,
        ;
        assert(-2 * MAX_COORD * MAX_LERP_DEN <= (b.y - a.y) * num <= 2 * MAX_COORD
            * MAX_LERP_DEN) by (nonlinear_arith)
            requires
                -2 * MAX_COORD <= b.y - a.y <= 2 * MAX_COORD,
                0 <= num <= MAX_LERP_DEN,
        ;
    }
    let x = a.x + floor_div((b.x - a.x) * num, den);
    let y = a.y + floor_div((b.y - a.y) * num, den);
    Point { x, y }
}

/// Midpoint of `a` and `b`; stays inside the coordinate box whenever `a`
/// and `b` do.
pub fn midpoint_exec(a: Point, b: Point) -> (r: Point)
    requires
        in_bounds(a),
        in_bounds(b),
    ensures
        r == midpoint(a, b),
        in_bounds(r),
{
    proof {
        lemma_midpoint_between(a.x as int, b.x as int);
        lemma_midpoint_between(a.y as int, b.y as int);
    }
    let x = floor_div(a.x + b.x, 2);
    let y = floor_div(a.y + b.y, 2);
    Point { x, y }
}

/// Floor division of `a` by a positive divisor `d`; agrees with the
/// mathematical (Euclidean) quotient used in specifications.
pub fn floor_div(a: i64, d: i64) -> (r: i64)
    requires
        0 < d,
    ensures
        r == a as int / d as int,
{
    proof {
        assert(i64::MIN <= a as int / d as int <= i64::MAX) by (nonlinear_arith)
            requires
                i64::MIN <= a <= i64::MAX,
                0 < d,
        ;
    }
    a.checked_div_euclid(d).unwrap()
}

} // verus!
