//! Quadratic Bezier curves, sampled into a polyline.

use vstd::prelude::*;
use crate::geometry::{div_floor, Point};

verus! {

/// Number of segments that a curve is sampled into.
pub const RESOLUTION: usize = 100;

/// One coordinate of the curve through `a` and `c` with control value `b`, at
/// the parameter `i / RESOLUTION`, rounded down:
/// `(1-t)^2 a + 2 (1-t) t b + t^2 c` with all of it brought over the common
/// denominator `RESOLUTION^2`.
pub open spec fn blend(a: int, b: int, c: int, i: int) -> int {
    ((RESOLUTION - i) * (RESOLUTION - i) * a + 2 * (RESOLUTION - i) * i * b + i * i * c) / (
    RESOLUTION * RESOLUTION)
}

/// The `i`-th sample of the curve from `start` to `end` with control point
/// `control`.
pub open spec fn curve_point(start: Point, control: Point, end: Point, i: int) -> Point {
    Point {
        x: blend(start.x as int, control.x as int, end.x as int, i) as i64,
        y: blend(start.y as int, control.y as int, end.y as int, i) as i64,
    }
}

/// The samples of a curve, from its start to its end.
pub open spec fn curve(start: Point, control: Point, end: Point) -> Seq<Point> {
    Seq::new((RESOLUTION + 1) as nat, |i: int| curve_point(start, control, end, i))
}

proof fn lemma_weights(i: int)
    by (nonlinear_arith)
    requires
        0 <= i <= 100,
    ensures
        0 <= (100 - i) * (100 - i) <= 10_000,
        0 <= 2 * (100 - i) * i <= 10_000,
        0 <= i * i <= 10_000,
        (100 - i) * (100 - i) + 2 * (100 - i) * i + i * i == 10_000,
{
}

proof fn lemma_weighted_within(w: int, a: int, lo: int, hi: int)
    by (nonlinear_arith)
    requires
        0 <= w,
        lo <= a <= hi,
    ensures
        w * lo <= w * a <= w * hi,
{
}

proof fn lemma_quotient_within(n: int, lo: int, hi: int)
    by (nonlinear_arith)
    requires
        10_000 * lo <= n <= 10_000 * hi,
    ensures
        lo <= n / 10_000 <= hi,
{
}

/// A sample of a curve lies between the least and the greatest of the three
/// values that define it.
pub proof fn lemma_blend_within(a: int, b: int, c: int, i: int, lo: int, hi: int)
    requires
        0 <= i <= RESOLUTION,
        lo <= a <= hi,
        lo <= b <= hi,
        lo <= c <= hi,
    ensures
        lo <= blend(a, b, c, i) <= hi,
{
    let w0 = (100 - i) * (100 - i);
    let w1 = 2 * (100 - i) * i;
    let w2 = i * i;
    lemma_weights(i);
    lemma_weighted_within(w0, a, lo, hi);
    lemma_weighted_within(w1, b, lo, hi);
    lemma_weighted_within(w2, c, lo, hi);
    assert(w0 * lo + w1 * lo + w2 * lo == 10_000 * lo) by (nonlinear_arith)
        requires
            w0 + w1 + w2 == 10_000,
    ;
    assert(w0 * hi + w1 * hi + w2 * hi == 10_000 * hi) by (nonlinear_arith)
        requires
            w0 + w1 + w2 == 10_000,
    ;
    lemma_quotient_within(w0 * a + w1 * b + w2 * c, lo, hi);
}

/// A curve starts at its start and ends at its end.
pub proof fn lemma_curve_ends(start: Point, control: Point, end: Point)
    ensures
        curve(start, control, end).len() == RESOLUTION + 1,
        curve(start, control, end)[0] == start,
        curve(start, control, end)[RESOLUTION as int] == end,
{
    lemma_blend_ends(start.x as int, control.x as int, end.x as int);
    lemma_blend_ends(start.y as int, control.y as int, end.y as int);
}

proof fn lemma_blend_ends(a: int, b: int, c: int)
    ensures
        blend(a, b, c, 0) == a,
        blend(a, b, c, 100) == c,
{
    assert((100 * 100 * a + 2 * 100 * 0 * b + 0 * 0 * c) / 10_000 == a) by (nonlinear_arith);
    assert((0 * 0 * a + 2 * 0 * 100 * b + 100 * 100 * c) / 10_000 == c) by (nonlinear_arith);
}

/// A curve between points of the window stays in the window.
pub proof fn lemma_curve_in_window(start: Point, control: Point, end: Point, i: int)
    requires
        0 <= i <= RESOLUTION,
        start.in_window(),
        control.in_window(),
        end.in_window(),
    ensures
        curve(start, control, end)[i].in_window(),
{
    let w = crate::constant::WINDOW_SIZE as int;
    lemma_blend_within(start.x as int, control.x as int, end.x as int, i, 0, w);
    lemma_blend_within(start.y as int, control.y as int, end.y as int, i, 0, w);
}

/// One coordinate of the `i`-th sample.
fn blend_at(a: i64, b: i64, c: i64, i: usize) -> (r: i64)
    requires
        i <= RESOLUTION,
        -1_000_000_000 <= a <= 1_000_000_000,
        -1_000_000_000 <= b <= 1_000_000_000,
        -1_000_000_000 <= c <= 1_000_000_000,
    ensures
        r == blend(a as int, b as int, c as int, i as int),
{
    let t: i64 = i as i64;
    let s: i64 = 100 - t;
    proof {
        lemma_weights(t as int);
        lemma_weighted_within(s * s, a as int, -1_000_000_000, 1_000_000_000);
        lemma_weighted_within(2 * s * t, b as int, -1_000_000_000, 1_000_000_000);
        lemma_weighted_within(t * t, c as int, -1_000_000_000, 1_000_000_000);
        lemma_blend_within(a as int, b as int, c as int, i as int, -1_000_000_000, 1_000_000_000);
    }
    let w0: i64 = s * s;
    let w1: i64 = 2 * s * t;
    let w2: i64 = t * t;
    div_floor(w0 * a + w1 * b + w2 * c, 10_000)
}

/// Samples the quadratic Bezier curve from `start` to `end` with control point
/// `control` at `RESOLUTION + 1` evenly spaced parameters, both ends included.
pub fn quadratic_curve(start: Point, control: Point, end: Point) -> (points: Vec<Point>)
    requires
        start.bounded(),
        control.bounded(),
        end.bounded(),
    ensures
        points@ == curve(start, control, end),
{
    let mut points: Vec<Point> = Vec::with_capacity(RESOLUTION + 1);
    let mut i: usize = 0;
    while i <= RESOLUTION
        invariant
            i <= RESOLUTION + 1,
            start.bounded(),
            control.bounded(),
            end.bounded(),
            points@.len() == i,
            forall|k: int| 0 <= k < i ==> points@[k] == curve_point(start, control, end, k),
        decreases RESOLUTION + 1 - i,
    {
        let x: i64 = blend_at(start.x, control.x, end.x, i);
        let y: i64 = blend_at(start.y, control.y, end.y, i);
        points.push(Point { x, y });
        i += 1;
    }
    assert(points@ =~= curve(start, control, end));
    points
}

} // verus!
