//! Points of the plane with integer coordinates, and the arithmetic on them
//! that the simulation needs: squared distances, integer square roots and
//! steps of a given length towards a point.

use vstd::prelude::*;
use vstd::arithmetic::div_mod::lemma_fundamental_div_mod;
use vstd::arithmetic::div_mod::lemma_fundamental_div_mod_converse;
use crate::constant::WINDOW_SIZE;

verus! {

/// Largest magnitude of a coordinate that the arithmetic here is proved for.
pub const COORD_LIMIT: i64 = 1_000_000_000;

#[derive(Clone, Copy, Debug, PartialEq, Eq, Structural)]
pub struct Point {
    pub x: i64,
    pub y: i64,
}

impl Point {
    /// Both coordinates are within `COORD_LIMIT` of zero.
    pub open spec fn bounded(self) -> bool {
        &&& -COORD_LIMIT <= self.x <= COORD_LIMIT
        &&& -COORD_LIMIT <= self.y <= COORD_LIMIT
    }

    /// The point lies in the window, borders included.
    pub open spec fn in_window(self) -> bool {
        &&& 0 <= self.x <= WINDOW_SIZE
        &&& 0 <= self.y <= WINDOW_SIZE
    }

    /// The point lies in the axis-parallel rectangle spanned by `a` and `b`.
    pub open spec fn between(self, a: Point, b: Point) -> bool {
        &&& (a.x <= self.x <= b.x || b.x <= self.x <= a.x)
        &&& (a.y <= self.y <= b.y || b.y <= self.y <= a.y)
    }
}

/// Square of the Euclidean distance between two points.
pub open spec fn dist2(a: Point, b: Point) -> int {
    (a.x - b.x) * (a.x - b.x) + (a.y - b.y) * (a.y - b.y)
}

/// `r` is the square root of `n`, rounded down.
pub open spec fn is_floor_sqrt(n: int, r: int) -> bool {
    0 <= r && r * r <= n < (r + 1) * (r + 1)
}

/// The square root of `n`, rounded down.
pub open spec fn isqrt(n: int) -> int {
    choose|r: int| is_floor_sqrt(n, r)
}

/// The component `d` of a vector of length `len`, rescaled to length `speed`
/// and rounded towards zero.
pub open spec fn scaled(d: int, speed: int, len: int) -> int {
    if d >= 0 {
        (d * speed) / len
    } else {
        -(((-d) * speed) / len)
    }
}

/// Where a step of length `speed` from `from` towards `to` ends. The length of
/// the way is rounded down to a whole number; a step from a point to itself
/// goes nowhere.
pub open spec fn stepped(from: Point, to: Point, speed: int) -> Point {
    let len = isqrt(dist2(from, to));
    if len == 0 {
        from
    } else {
        Point {
            x: (from.x + scaled(to.x - from.x, speed, len)) as i64,
            y: (from.y + scaled(to.y - from.y, speed, len)) as i64,
        }
    }
}

proof fn lemma_square_monotonic(a: int, b: int)
    by (nonlinear_arith)
    requires
        0 <= a <= b,
    ensures
        a * a <= b * b,
{
}

proof fn lemma_square_strict(a: int, b: int)
    by (nonlinear_arith)
    requires
        0 <= a,
        0 <= b,
        a * a < b * b,
    ensures
        a < b,
{
}

/// A number has at most one rounded-down square root.
pub proof fn lemma_floor_sqrt_unique(n: int, a: int, b: int)
    requires
        is_floor_sqrt(n, a),
        is_floor_sqrt(n, b),
    ensures
        a == b,
{
    lemma_square_strict(a, b + 1);
    lemma_square_strict(b, a + 1);
}

/// Whatever passes for the rounded-down square root of `n` is `isqrt(n)`.
pub proof fn lemma_isqrt_is(n: int, r: int)
    requires
        is_floor_sqrt(n, r),
    ensures
        isqrt(n) == r,
{
    lemma_floor_sqrt_unique(n, isqrt(n), r);
}

/// Every non-negative number has a rounded-down square root, and `isqrt` is
/// it.
pub proof fn lemma_isqrt(n: int)
    requires
        0 <= n,
    ensures
        is_floor_sqrt(n, isqrt(n)),
    decreases n,
{
    if n == 0 {
        assert(is_floor_sqrt(0, 0));
    } else {
        lemma_isqrt(n - 1);
        let r = isqrt(n - 1);
        if (r + 1) * (r + 1) <= n {
            assert((r + 2) * (r + 2) > (r + 1) * (r + 1)) by (nonlinear_arith)
                requires
                    0 <= r,
            ;
            assert(is_floor_sqrt(n, r + 1));
        } else {
            assert(is_floor_sqrt(n, r));
        }
    }
}

/// The square root of a non-negative number, rounded down.
pub fn integer_sqrt(n: i64) -> (r: i64)
    requires
        0 <= n,
    ensures
        is_floor_sqrt(n as int, r as int),
        r == isqrt(n as int),
{
    let mut low: i64 = 0;
    let mut high: i64 = 3_037_000_500;
    assert(n < 3_037_000_500int * 3_037_000_500int);
    while high - low > 1
        invariant
            0 <= low < high <= 3_037_000_500,
            low * low <= n < high * high,
        decreases high - low,
    {
        let mid: i64 = low + (high - low) / 2;
        proof {
            lemma_square_monotonic(mid as int, 3_037_000_499);
        }
        if mid * mid <= n {
            low = mid;
        } else {
            high = mid;
        }
    }
    proof {
        lemma_isqrt_is(n as int, low as int);
    }
    low
}

/// Square of the distance between two points.
pub fn distance_squared(a: Point, b: Point) -> (r: i64)
    requires
        a.bounded(),
        b.bounded(),
    ensures
        r == dist2(a, b),
        0 <= r,
{
    let dx: i64 = a.x - b.x;
    let dy: i64 = a.y - b.y;
    proof {
        lemma_square_bound(dx as int, 2 * COORD_LIMIT);
        lemma_square_bound(dy as int, 2 * COORD_LIMIT);
    }
    dx * dx + dy * dy
}

proof fn lemma_square_bound(d: int, limit: int)
    by (nonlinear_arith)
    requires
        -limit <= d <= limit,
    ensures
        0 <= d * d <= limit * limit,
{
}

/// The quotient of `n` by a positive `d`, rounded down, also where `n` is
/// negative.
pub fn div_floor(n: i64, d: i64) -> (q: i64)
    requires
        0 < d,
        i64::MIN < n,
    ensures
        q == n / d,
{
    if n >= 0 {
        n / d
    } else {
        let m: i64 = -n;
        let below: i64 = (m - 1) / d;
        proof {
            let r = (m - 1) % (d as int);
            lemma_fundamental_div_mod(m - 1, d as int);
            assert(n == (-below - 1) * d + (d - r - 1)) by (nonlinear_arith)
                requires
                    m - 1 == d * below + r,
                    n == -m,
            ;
            lemma_fundamental_div_mod_converse(n as int, d as int, -below - 1, d - r - 1);
        }
        -below - 1
    }
}

proof fn lemma_scaled_within(a: int, speed: int, len: int)
    by (nonlinear_arith)
    requires
        0 <= a,
        0 <= speed <= len,
        0 < len,
    ensures
        0 <= (a * speed) / len <= a,
        0 <= a * speed <= a * len,
{
}

proof fn lemma_root_bounds(n: int, r: int, a: int)
    by (nonlinear_arith)
    requires
        is_floor_sqrt(n, r),
        0 <= a,
        a * a <= n,
    ensures
        a <= r,
{
}

/// One component of a step: `d` rescaled from length `len` to length `speed`.
fn rescale(d: i64, speed: i64, len: i64) -> (r: i64)
    requires
        -2 * COORD_LIMIT <= d <= 2 * COORD_LIMIT,
        -len <= d <= len,
        0 <= speed <= len,
        0 < len <= 3 * COORD_LIMIT,
    ensures
        r == scaled(d as int, speed as int, len as int),
        d >= 0 ==> 0 <= r <= d,
        d < 0 ==> d <= r <= 0,
{
    if d >= 0 {
        proof {
            lemma_scaled_within(d as int, speed as int, len as int);
            assert(d * len <= 6_000_000_000_000_000_000) by (nonlinear_arith)
                requires
                    0 <= d <= 2_000_000_000,
                    0 < len <= 3_000_000_000,
            ;
        }
        (d * speed) / len
    } else {
        let a: i64 = -d;
        proof {
            lemma_scaled_within(a as int, speed as int, len as int);
            assert(a * len <= 6_000_000_000_000_000_000) by (nonlinear_arith)
                requires
                    0 <= a <= 2_000_000_000,
                    0 < len <= 3_000_000_000,
            ;
        }
        -((a * speed) / len)
    }
}

/// A step that is not longer than the way ends between where it starts and
/// where it heads.
pub proof fn lemma_stepped_between(from: Point, to: Point, speed: int)
    requires
        from.bounded(),
        to.bounded(),
        0 <= speed,
        speed * speed <= dist2(from, to),
    ensures
        stepped(from, to, speed).between(from, to),
        from.in_window() && to.in_window() ==> stepped(from, to, speed).in_window(),
        isqrt(dist2(from, to)) > 0 ==> {
            &&& stepped(from, to, speed).x == from.x + scaled(
                to.x - from.x,
                speed,
                isqrt(dist2(from, to)),
            )
            &&& stepped(from, to, speed).y == from.y + scaled(
                to.y - from.y,
                speed,
                isqrt(dist2(from, to)),
            )
        },
{
    let n = dist2(from, to);
    let dx = to.x - from.x;
    let dy = to.y - from.y;
    assert(dx * dx == (from.x - to.x) * (from.x - to.x)) by (nonlinear_arith)
        requires
            dx == to.x - from.x,
    ;
    assert(dy * dy == (from.y - to.y) * (from.y - to.y)) by (nonlinear_arith)
        requires
            dy == to.y - from.y,
    ;
    lemma_square_bound(dx, 2 * COORD_LIMIT);
    lemma_square_bound(dy, 2 * COORD_LIMIT);
    lemma_isqrt(n);
    let len = isqrt(n);
    if len > 0 {
        lemma_root_bounds(n, len, speed);
        if dx >= 0 {
            lemma_root_bounds(n, len, dx);
            lemma_scaled_within(dx, speed, len);
        } else {
            assert((-dx) * (-dx) == dx * dx) by (nonlinear_arith);
            lemma_root_bounds(n, len, -dx);
            lemma_scaled_within(-dx, speed, len);
        }
        if dy >= 0 {
            lemma_root_bounds(n, len, dy);
            lemma_scaled_within(dy, speed, len);
        } else {
            assert((-dy) * (-dy) == dy * dy) by (nonlinear_arith);
            lemma_root_bounds(n, len, -dy);
            lemma_scaled_within(-dy, speed, len);
        }
    }
}

/// A step of no length goes nowhere.
pub proof fn lemma_step_of_nothing(from: Point, to: Point)
    ensures
        stepped(from, to, 0) == from,
{
    let len = isqrt(dist2(from, to));
    if len != 0 {
        let dx = to.x - from.x;
        let dy = to.y - from.y;
        assert(dx * 0 == 0 && (-dx) * 0 == 0 && dy * 0 == 0 && (-dy) * 0 == 0)
            by (nonlinear_arith);
        assert(0int / len == 0) by (nonlinear_arith)
            requires
                len != 0,
        ;
    }
}

proof fn lemma_scaled_square(d: int, speed: int, len: int)
    requires
        0 <= speed,
        0 < len,
    ensures
        scaled(d, speed, len) * scaled(d, speed, len) * (len * len) <= (d * d) * (speed * speed),
{
    let a = if d >= 0 {
        d
    } else {
        -d
    };
    let q = (a * speed) / len;
    assert(0 <= q * len <= a * speed) by (nonlinear_arith)
        requires
            q == (a * speed) / len,
            0 <= a,
            0 <= speed,
            0 < len,
    ;
    assert((q * len) * (q * len) <= (a * speed) * (a * speed)) by (nonlinear_arith)
        requires
            0 <= q * len <= a * speed,
    ;
    assert((q * len) * (q * len) == q * q * (len * len)) by (nonlinear_arith);
    assert((a * speed) * (a * speed) == (a * a) * (speed * speed)) by (nonlinear_arith);
    assert(a * a == d * d) by (nonlinear_arith)
        requires
            a == d || a == -d,
    ;
    assert(scaled(d, speed, len) * scaled(d, speed, len) == q * q) by (nonlinear_arith)
        requires
            scaled(d, speed, len) == q || scaled(d, speed, len) == -q,
    ;
}

/// A step of length `speed` is less than `speed + 1` long, for all that its
/// components are rounded.
pub proof fn lemma_step_length(from: Point, to: Point, speed: int)
    requires
        from.bounded(),
        to.bounded(),
        0 <= speed,
        speed * speed <= dist2(from, to),
    ensures
        dist2(from, stepped(from, to, speed)) < (speed + 1) * (speed + 1),
{
    let n = dist2(from, to);
    let dx = to.x - from.x;
    let dy = to.y - from.y;
    assert(dx * dx == (from.x - to.x) * (from.x - to.x)) by (nonlinear_arith)
        requires
            dx == to.x - from.x,
    ;
    assert(dy * dy == (from.y - to.y) * (from.y - to.y)) by (nonlinear_arith)
        requires
            dy == to.y - from.y,
    ;
    lemma_square_bound(dx, 2 * COORD_LIMIT);
    lemma_square_bound(dy, 2 * COORD_LIMIT);
    lemma_isqrt(n);
    lemma_stepped_between(from, to, speed);
    let len = isqrt(n);
    assert(0 < (speed + 1) * (speed + 1)) by (nonlinear_arith)
        requires
            0 <= speed,
    ;
    if len > 0 {
        lemma_root_bounds(n, len, speed);
        let sx = scaled(dx, speed, len);
        let sy = scaled(dy, speed, len);
        let after = stepped(from, to, speed);
        assert(after.x - from.x == sx && after.y - from.y == sy);
        let t = sx * sx + sy * sy;
        assert(dist2(from, after) == t) by (nonlinear_arith)
            requires
                after.x - from.x == sx,
                after.y - from.y == sy,
                dist2(from, after) == (from.x - after.x) * (from.x - after.x) + (from.y - after.y)
                    * (from.y - after.y),
                t == sx * sx + sy * sy,
        ;
        lemma_scaled_square(dx, speed, len);
        lemma_scaled_square(dy, speed, len);
        assert(t * (len * len) <= n * (speed * speed)) by (nonlinear_arith)
            requires
                t == sx * sx + sy * sy,
                n == dx * dx + dy * dy,
                sx * sx * (len * len) <= (dx * dx) * (speed * speed),
                sy * sy * (len * len) <= (dy * dy) * (speed * speed),
        ;
        assert(n * (speed * speed) <= ((len + 1) * (len + 1) - 1) * (speed * speed))
            by (nonlinear_arith)
            requires
                n <= (len + 1) * (len + 1) - 1,
                0 <= speed,
        ;
        assert(((len + 1) * (len + 1) - 1) * (speed * speed) < ((speed + 1) * (speed + 1)) * (len
            * len)) by (nonlinear_arith)
            requires
                0 <= speed <= len,
                0 < len,
        ;
        assert(t < (speed + 1) * (speed + 1)) by (nonlinear_arith)
            requires
                t * (len * len) < ((speed + 1) * (speed + 1)) * (len * len),
                0 < len,
        ;
    }
}

/// The square of the inner product of two vectors is at most the product of
/// the squares of their lengths.
proof fn lemma_dot_square(ax: int, ay: int, sx: int, sy: int)
    ensures
        (ax * sx + ay * sy) * (ax * sx + ay * sy) <= (ax * ax + ay * ay) * (sx * sx + sy * sy),
{
    let p = ax * sx;
    let q = ay * sy;
    let u = ax * sy;
    let v = ay * sx;
    assert((p + q) * (p + q) == p * p + 2 * (p * q) + q * q) by (nonlinear_arith);
    assert((u - v) * (u - v) == u * u - 2 * (u * v) + v * v) by (nonlinear_arith);
    assert(0 <= (u - v) * (u - v)) by (nonlinear_arith);
    assert(p * q == u * v) by (nonlinear_arith)
        requires
            p == ax * sx,
            q == ay * sy,
            u == ax * sy,
            v == ay * sx,
    ;
    assert(p * p == (ax * ax) * (sx * sx)) by (nonlinear_arith)
        requires
            p == ax * sx,
    ;
    assert(q * q == (ay * ay) * (sy * sy)) by (nonlinear_arith)
        requires
            q == ay * sy,
    ;
    assert(u * u == (ax * ax) * (sy * sy)) by (nonlinear_arith)
        requires
            u == ax * sy,
    ;
    assert(v * v == (ay * ay) * (sx * sx)) by (nonlinear_arith)
        requires
            v == ay * sx,
    ;
    assert((ax * ax + ay * ay) * (sx * sx + sy * sy) == (ax * ax) * (sx * sx) + (ax * ax) * (sy
        * sy) + (ay * ay) * (sx * sx) + (ay * ay) * (sy * sy)) by (nonlinear_arith);
}

/// Whoever is `reach` or more away from a point, and takes a step of less
/// than `step`, is still nearly as far away: the triangle inequality, on
/// squares and with what rounding a square root costs.
pub proof fn lemma_step_keeps_away(from: Point, after: Point, other: Point, reach: int, step: int)
    requires
        0 <= step <= reach,
        dist2(from, other) >= reach * reach,
        dist2(from, after) < step * step,
    ensures
        dist2(after, other) >= reach * reach - 2 * (reach + 1) * step,
{
    let ax = other.x - from.x;
    let ay = other.y - from.y;
    let sx = after.x - from.x;
    let sy = after.y - from.y;
    let big = ax * ax + ay * ay;
    let small = sx * sx + sy * sy;
    let dot = ax * sx + ay * sy;
    assert(dist2(from, other) == big) by (nonlinear_arith)
        requires
            ax == other.x - from.x,
            ay == other.y - from.y,
            big == ax * ax + ay * ay,
            dist2(from, other) == (from.x - other.x) * (from.x - other.x) + (from.y - other.y) * (
            from.y - other.y),
    ;
    assert(dist2(from, after) == small) by (nonlinear_arith)
        requires
            sx == after.x - from.x,
            sy == after.y - from.y,
            small == sx * sx + sy * sy,
            dist2(from, after) == (from.x - after.x) * (from.x - after.x) + (from.y - after.y) * (
            from.y - after.y),
    ;
    assert(dist2(after, other) == big - 2 * dot + small) by (nonlinear_arith)
        requires
            ax == other.x - from.x,
            ay == other.y - from.y,
            sx == after.x - from.x,
            sy == after.y - from.y,
            big == ax * ax + ay * ay,
            small == sx * sx + sy * sy,
            dot == ax * sx + ay * sy,
            dist2(after, other) == (after.x - other.x) * (after.x - other.x) + (after.y - other.y)
                * (after.y - other.y),
    ;
    assert(0 <= small && 0 <= big) by (nonlinear_arith)
        requires
            big == ax * ax + ay * ay,
            small == sx * sx + sy * sy,
    ;
    assert(reach * reach - 2 * (reach + 1) * step <= reach * reach) by (nonlinear_arith)
        requires
            0 <= step <= reach,
    ;
    if dot > 0 {
        lemma_isqrt(big);
        let r = isqrt(big);
        lemma_root_bounds(big, r, reach);
        lemma_dot_square(ax, ay, sx, sy);
        assert(big * small < ((r + 1) * step) * ((r + 1) * step)) by (nonlinear_arith)
            requires
                0 <= big < (r + 1) * (r + 1),
                0 <= small < step * step,
                0 <= r,
                0 <= step,
        ;
        assert(0 <= (r + 1) * step) by (nonlinear_arith)
            requires
                0 <= r,
                0 <= step,
        ;
        lemma_square_strict(dot, (r + 1) * step);
        assert(r * r - 2 * ((r + 1) * step) >= reach * reach - 2 * (reach + 1) * step)
            by (nonlinear_arith)
            requires
                0 <= step <= reach <= r,
        ;
    }
}

/// Takes a step of length `speed` from `from` towards `to`. The step is not
/// longer than the way, so it ends between the two points.
pub fn step_toward(from: Point, to: Point, speed: i64) -> (r: Point)
    requires
        from.bounded(),
        to.bounded(),
        0 <= speed,
        speed * speed <= dist2(from, to),
    ensures
        r == stepped(from, to, speed as int),
        r.between(from, to),
{
    let len: i64 = integer_sqrt(distance_squared(from, to));
    if len == 0 {
        return from;
    }
    let dx: i64 = to.x - from.x;
    let dy: i64 = to.y - from.y;
    proof {
        let n = dist2(from, to);
        lemma_square_bound(dx as int, 2 * COORD_LIMIT);
        lemma_square_bound(dy as int, 2 * COORD_LIMIT);
        assert(dx * dx == (from.x - to.x) * (from.x - to.x)) by (nonlinear_arith)
            requires
                dx == to.x - from.x,
        ;
        assert(dy * dy == (from.y - to.y) * (from.y - to.y)) by (nonlinear_arith)
            requires
                dy == to.y - from.y,
        ;
        lemma_root_bounds(n, len as int, speed as int);
        if dx >= 0 {
            lemma_root_bounds(n, len as int, dx as int);
        } else {
            assert((-dx) * (-dx) == dx * dx) by (nonlinear_arith);
            lemma_root_bounds(n, len as int, -dx);
        }
        if dy >= 0 {
            lemma_root_bounds(n, len as int, dy as int);
        } else {
            assert((-dy) * (-dy) == dy * dy) by (nonlinear_arith);
            lemma_root_bounds(n, len as int, -dy);
        }
        if len > 3 * COORD_LIMIT {
            lemma_square_monotonic(3 * COORD_LIMIT + 1, len as int);
        }
    }
    let sx: i64 = rescale(dx, speed, len);
    let sy: i64 = rescale(dy, speed, len);
    Point { x: from.x + sx, y: from.y + sy }
}

} // verus!
