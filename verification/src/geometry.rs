//! Points on the integer plane, exact squared distances, integer square roots
//! and the travel time between two points.

use vstd::prelude::*;

verus! {

/// Simulation time, in milliseconds since an unspecified epoch.
pub type Time = u64;

/// Distance units an avatar or a blob covers per second.
pub const SPEED: u64 = 100;

/// No travel between two points takes longer than this many milliseconds.
pub const MAX_TRAVEL_TIME: Time = 61_000_000_000;

/// A position on the integer plane.
#[derive(Clone, Copy, Debug, PartialEq, Eq, Structural)]
pub struct Point {
    pub x: i32,
    pub y: i32,
}

/// The square of `d`.
pub open spec fn square(d: int) -> int {
    d * d
}

/// `r` is the integer square root of `n`: the largest number whose square
/// does not exceed `n`.
pub open spec fn is_isqrt(n: int, r: int) -> bool {
    0 <= r && r * r <= n < (r + 1) * (r + 1)
}

/// The integer square root of `n`.
pub open spec fn isqrt_spec(n: int) -> int {
    choose|r: int| is_isqrt(n, r)
}

/// The time, in milliseconds, needed to cover a distance whose square is
/// `d2` at `SPEED` units per second, rounded down.
pub open spec fn travel_time_spec(d2: int) -> int {
    isqrt_spec(d2 * 1_000_000) / (SPEED as int)
}

/// Squares grow with their (non-negative) argument.
pub proof fn lemma_square_monotonic(a: int, b: int)
    requires
        0 <= a <= b,
    ensures
        a * a <= b * b,
{
    assert(a * a <= b * b) by (nonlinear_arith)
        requires
            0 <= a <= b,
    ;
}

/// A number has at most one integer square root.
pub proof fn lemma_isqrt_unique(n: int, r1: int, r2: int)
    requires
        is_isqrt(n, r1),
        is_isqrt(n, r2),
    ensures
        r1 == r2,
{
    if r1 < r2 {
        lemma_square_monotonic(r1 + 1, r2);
    } else if r2 < r1 {
        lemma_square_monotonic(r2 + 1, r1);
    }
}

/// Every non-negative number has an integer square root.
pub proof fn lemma_isqrt_exists(n: int)
    requires
        0 <= n,
    ensures
        is_isqrt(n, isqrt_spec(n)),
    decreases n,
{
    if n == 0 {
        assert(is_isqrt(0, 0));
    } else {
        lemma_isqrt_exists(n - 1);
        let r = isqrt_spec(n - 1);
        if (r + 1) * (r + 1) <= n {
            assert((r + 2) * (r + 2) > (r + 1) * (r + 1)) by (nonlinear_arith)
                requires
                    0 <= r,
            ;
            assert(is_isqrt(n, r + 1));
        } else {
            assert(is_isqrt(n, r));
        }
    }
}

/// No two points are further apart than `MAX_TRAVEL_TIME` milliseconds:
/// the square of their distance is at most 2^65, so its millionfold has a
/// root below 6.1 * 10^12.
pub proof fn lemma_travel_time_bound(a: Point, b: Point)
    ensures
        0 <= a.time_to_spec(b) <= MAX_TRAVEL_TIME,
{
    lemma_square_bound(a.x - b.x);
    lemma_square_bound(a.y - b.y);
    let n = a.dist2_spec(b) * 1_000_000;
    lemma_isqrt_exists(n);
    let r = isqrt_spec(n);
    if r > 6_100_000_000_000int {
        lemma_square_monotonic(6_100_000_000_000int, r);
        assert(6_100_000_000_000int * 6_100_000_000_000int > 0x2_0000_0000_0000_0000int
            * 1_000_000) by (nonlinear_arith);
    }
}

/// Computes the integer square root of `n` by bisection.
pub fn isqrt(n: u128) -> (r: u64)
    ensures
        is_isqrt(n as int, r as int),
        r as int == isqrt_spec(n as int),
{
    let mut lo: u128 = 0;
    let mut hi: u128 = 0x1_0000_0000_0000_0000;
    assert(0x1_0000_0000_0000_0000int * 0x1_0000_0000_0000_0000int > u128::MAX) by (nonlinear_arith);
    while hi - lo > 1
        invariant
            lo < hi <= 0x1_0000_0000_0000_0000,
            lo * lo <= n < hi * hi,
        decreases hi - lo,
    {
        let mid: u128 = lo + (hi - lo) / 2;
        assert(mid * mid <= u128::MAX) by {
            lemma_square_monotonic(mid as int, 0xffff_ffff_ffff_ffffint);
            assert(0xffff_ffff_ffff_ffffint * 0xffff_ffff_ffff_ffffint <= u128::MAX)
                by (nonlinear_arith);
        }
        if mid * mid <= n {
            lo = mid;
        } else {
            hi = mid;
        }
    }
    let r: u64 = lo as u64;
    proof {
        assert(is_isqrt(n as int, r as int));
        let c = isqrt_spec(n as int);
        assert(is_isqrt(n as int, c));
        lemma_isqrt_unique(n as int, r as int, c);
    }
    r
}

impl Point {
    /// The exact squared Euclidean distance between two points.
    pub open spec fn dist2_spec(self, other: Point) -> int {
        square(self.x - other.x) + square(self.y - other.y)
    }

    /// Computes the squared Euclidean distance to `other`.
    pub fn dist2(self, other: Point) -> (d: u128)
        ensures
            d as int == self.dist2_spec(other),
            d <= 0x2_0000_0000_0000_0000,
    {
        let dx: i128 = self.x as i128 - other.x as i128;
        let dy: i128 = self.y as i128 - other.y as i128;
        proof {
            lemma_square_bound(dx as int);
            lemma_square_bound(dy as int);
        }
        let d: i128 = dx * dx + dy * dy;
        d as u128
    }

    /// The Euclidean distance between two points, rounded down.
    pub open spec fn dist_spec(self, other: Point) -> int {
        isqrt_spec(self.dist2_spec(other))
    }

    /// Computes the distance to `other`, rounded down.
    pub fn dist(self, other: Point) -> (d: u64)
        ensures
            d as int == self.dist_spec(other),
            is_isqrt(self.dist2_spec(other), d as int),
    {
        isqrt(self.dist2(other))
    }

    /// The time, in milliseconds, to travel from `self` to `other`.
    pub open spec fn time_to_spec(self, other: Point) -> int {
        travel_time_spec(self.dist2_spec(other))
    }

    /// Computes the travel time from `self` to `other`.
    pub fn time_to(self, other: Point) -> (t: Time)
        ensures
            t as int == self.time_to_spec(other),
            t <= MAX_TRAVEL_TIME,
    {
        let d2: u128 = self.dist2(other);
        let r: u64 = isqrt(d2 * 1_000_000);
        proof {
            lemma_travel_time_bound(self, other);
        }
        r / SPEED
    }
}

/// The distance from `a` to `b` is the distance from `b` to `a`.
pub proof fn lemma_dist2_symmetric(a: Point, b: Point)
    ensures
        a.dist2_spec(b) == b.dist2_spec(a),
{
    let dx = a.x - b.x;
    let dy = a.y - b.y;
    assert(dx * dx == (-dx) * (-dx)) by (nonlinear_arith);
    assert(dy * dy == (-dy) * (-dy)) by (nonlinear_arith);
    assert(b.x - a.x == -dx);
    assert(b.y - a.y == -dy);
}

/// The square of a coordinate difference is at most 2^64.
proof fn lemma_square_bound(d: int)
    requires
        -0x1_0000_0000 < d < 0x1_0000_0000,
    ensures
        0 <= d * d <= 0x1_0000_0000_0000_0000,
{
    assert(0 <= d * d <= 0x1_0000_0000_0000_0000) by (nonlinear_arith)
        requires
            -0x1_0000_0000 < d < 0x1_0000_0000,
    ;
}

} // verus!
