//! Fixed-point plane geometry: points, squared distances, an integer square
//! root, and the scaled division that moves a point a given distance along a
//! direction vector.

use vstd::arithmetic::div_mod::lemma_div_by_multiple;
use vstd::arithmetic::div_mod::lemma_div_is_ordered;
use vstd::arithmetic::div_mod::lemma_div_nonincreasing;
use vstd::arithmetic::div_mod::lemma_div_pos_is_pos;
use vstd::arithmetic::mul::lemma_mul_inequality;
use vstd::arithmetic::mul::lemma_mul_nonnegative;
use vstd::arithmetic::mul::lemma_mul_upper_bound;
use vstd::prelude::*;

verus! {

/// A point or direction of the simulation plane, in milli-units.
///
/// The game board is the horizontal plane; the vertical axis of the rendered
/// scene never enters the rules, so two coordinates suffice.
#[derive(Clone, Copy, Debug, PartialEq, Eq, Structural)]
pub struct Vec2 {
    pub x: i64,
    pub y: i64,
}

/// The point lies on the game board proper.
pub open spec fn in_world(v: Vec2) -> bool {
    &&& -crate::COORD_LIMIT <= v.x <= crate::COORD_LIMIT
    &&& -crate::COORD_LIMIT <= v.y <= crate::COORD_LIMIT
}

/// Squared Euclidean distance between two points.
pub open spec fn dist2(a: Vec2, b: Vec2) -> int {
    (a.x - b.x) * (a.x - b.x) + (a.y - b.y) * (a.y - b.y)
}

/// The integer square root: for `n >= 0`, the greatest `r` with `r * r <= n`.
pub open spec fn isqrt_spec(n: int) -> int
    decreases n,
{
    if n <= 0 {
        0
    } else {
        let p = isqrt_spec(n - 1);
        if (p + 1) * (p + 1) <= n {
            p + 1
        } else {
            p
        }
    }
}

/// `isqrt_spec(n)` is the unique `r >= 0` with `r * r <= n < (r + 1) * (r + 1)`.
pub proof fn lemma_isqrt_bounds(n: int)
    requires
        0 <= n,
    ensures
        0 <= isqrt_spec(n),
        isqrt_spec(n) * isqrt_spec(n) <= n,
        n < (isqrt_spec(n) + 1) * (isqrt_spec(n) + 1),
    decreases n,
{
    if n == 0 {
        assert(isqrt_spec(0) == 0);
    } else {
        lemma_isqrt_bounds(n - 1);
        let p = isqrt_spec(n - 1);
        if (p + 1) * (p + 1) <= n {
            assert(isqrt_spec(n) == p + 1);
            assert(n - 1 < (p + 1) * (p + 1));
            assert(n == (p + 1) * (p + 1));
            assert((p + 1) * (p + 1) < (p + 1 + 1) * (p + 1 + 1)) by (nonlinear_arith)
                requires p >= 0;
        } else {
            assert(isqrt_spec(n) == p);
        }
    }
}

/// Any `r` that satisfies the square-root window is `isqrt_spec(n)`.
pub proof fn lemma_isqrt_unique(n: int, r: int)
    requires
        0 <= r,
        r * r <= n,
        n < (r + 1) * (r + 1),
    ensures
        r == isqrt_spec(n),
{
    lemma_isqrt_bounds(n);
    let s = isqrt_spec(n);
    if r < s {
        assert((r + 1) * (r + 1) <= s * s) by (nonlinear_arith)
            requires 0 <= r < s;
    } else if s < r {
        assert((s + 1) * (s + 1) <= r * r) by (nonlinear_arith)
            requires 0 <= s < r;
    }
}

/// Neither component of a vector exceeds the vector's length.
pub proof fn lemma_axis_within_dist(d: int, e: int)
    ensures
        d * d + e * e >= 0,
        -isqrt_spec(d * d + e * e) <= d <= isqrt_spec(d * d + e * e),
{
    assert(d * d >= 0 && e * e >= 0) by (nonlinear_arith);
    let n = d * d + e * e;
    lemma_isqrt_bounds(n);
    let s = isqrt_spec(n);
    if d > s {
        assert(d * d >= (s + 1) * (s + 1)) by (nonlinear_arith)
            requires d >= s + 1, s >= 0;
    }
    if d < -s {
        assert(d * d >= (s + 1) * (s + 1)) by (nonlinear_arith)
            requires d <= -(s + 1), s >= 0;
    }
}

/// The length of a vector is at most twice its larger component.
pub proof fn lemma_major_axis(d: int, e: int)
    requires
        vstd::math::abs(e) <= vstd::math::abs(d),
    ensures
        isqrt_spec(d * d + e * e) <= 2 * vstd::math::abs(d),
{
    assert(d * d >= 0 && e * e >= 0) by (nonlinear_arith);
    let n = d * d + e * e;
    lemma_isqrt_bounds(n);
    let s = isqrt_spec(n);
    let m = vstd::math::abs(d) as int;
    if s > 2 * m {
        assert(s * s >= (2 * m + 1) * (2 * m + 1)) by (nonlinear_arith)
            requires s >= 2 * m + 1, m >= 0;
        assert(d * d + e * e <= 2 * (m * m)) by (nonlinear_arith)
            requires -m <= d <= m, -m <= e <= m;
        assert((2 * m + 1) * (2 * m + 1) > 2 * (m * m)) by (nonlinear_arith)
            requires m >= 0;
    }
}

/// The integer square root, by bisection.
pub fn isqrt(n: u64) -> (r: u64)
    requires
        n <= 0x7fff_ffff_ffff_ffff,
    ensures
        r == isqrt_spec(n as int),
        r * r <= n < (r + 1) * (r + 1),
{
    let mut lo: u64 = 0;
    let mut hi: u64 = 3_037_000_500;
    assert(3_037_000_500u64 * 3_037_000_500u64 == 9223372037000250000) by (nonlinear_arith);
    while hi - lo > 1
        invariant
            lo < hi <= 3_037_000_500,
            lo * lo <= n,
            n < hi * hi,
        decreases hi - lo,
    {
        let mid: u64 = lo + (hi - lo) / 2;
        assert(lo < mid < hi);
        assert(mid * mid <= 3_037_000_500 * 3_037_000_500) by (nonlinear_arith)
            requires 0 <= mid <= 3_037_000_500;
        if mid * mid <= n {
            lo = mid;
        } else {
            hi = mid;
        }
    }
    proof {
        lemma_isqrt_unique(n as int, lo as int);
    }
    lo
}

/// Move `delta` of the way along an axis whose offset to the goal is `d`,
/// out of a total length `dist`: the integer form of `d * delta / dist`,
/// rounded toward zero.
pub open spec fn scaled_div(d: int, delta: int, dist: int) -> int {
    if d >= 0 {
        (d * delta) / dist
    } else {
        -(((-d) * delta) / dist)
    }
}

/// `scaled_div` never overshoots: it stays between zero and the offset `d`.
pub proof fn lemma_scaled_div_bounds(d: int, delta: int, dist: int)
    requires
        0 <= delta < dist,
        -dist <= d <= dist,
    ensures
        d >= 0 ==> 0 <= scaled_div(d, delta, dist) <= d,
        d < 0 ==> d <= scaled_div(d, delta, dist) <= 0,
        -delta <= scaled_div(d, delta, dist) <= delta,
{
    let a = if d >= 0 { d } else { -d };
    lemma_div_pos_is_pos(a * delta, dist);
    lemma_mul_inequality(delta, dist, a);
    assert(a * delta == delta * a && a * dist == dist * a) by (nonlinear_arith);
    lemma_div_is_ordered(a * delta, a * dist, dist);
    lemma_div_by_multiple(a, dist);
    lemma_mul_inequality(a, dist, delta);
    assert(delta * a == a * delta && delta * dist == dist * delta) by (nonlinear_arith);
    lemma_div_is_ordered(a * delta, delta * dist, dist);
    lemma_div_by_multiple(delta, dist);
}

/// The positive branch of `scaled_div` reaches at least one step whenever
/// `d * delta` covers the whole length `dist`.
pub proof fn lemma_scaled_div_at_least_one(d: int, delta: int, dist: int)
    requires
        0 < dist,
        0 <= d,
        0 <= delta,
        d * delta >= dist,
    ensures
        scaled_div(d, delta, dist) >= 1,
{
    lemma_div_is_ordered(dist, d * delta, dist);
    lemma_div_by_multiple(1, dist);
    assert(1 * dist == dist) by (nonlinear_arith);
}

/// Executable form of `scaled_div`.
pub fn move_component(d: i64, delta: i64, dist: i64) -> (m: i64)
    requires
        0 <= delta < dist,
        dist <= 3_000_000_000,
        -1_000_000_000 <= d <= 1_000_000_000,
    ensures
        m == scaled_div(d as int, delta as int, dist as int),
{
    proof {
        let a = if d >= 0 { d as int } else { -(d as int) };
        lemma_mul_upper_bound(a, 1_000_000_000, delta as int, 3_000_000_000);
        lemma_mul_nonnegative(a, delta as int);
        lemma_div_pos_is_pos(a * (delta as int), dist as int);
        lemma_div_nonincreasing(a * (delta as int), dist as int);
    }
    if d >= 0 {
        (((d as u64) * (delta as u64)) / (dist as u64)) as i64
    } else {
        let nd: u64 = (-d) as u64;
        -(((nd * (delta as u64)) / (dist as u64)) as i64)
    }
}

/// Executable form of `scaled_div` for movement along a stored aim vector,
/// where one tick's movement `delta` may exceed the vector's length.
pub fn move_along(d: i64, delta: i64, norm: i64) -> (m: i64)
    requires
        0 < norm <= 1_000_000_000,
        0 <= delta <= 10_000_000,
        -norm <= d <= norm,
    ensures
        m == scaled_div(d as int, delta as int, norm as int),
{
    proof {
        let a = if d >= 0 { d as int } else { -(d as int) };
        lemma_mul_upper_bound(a, 1_000_000_000, delta as int, 10_000_000);
        lemma_mul_nonnegative(a, delta as int);
        lemma_div_pos_is_pos(a * (delta as int), norm as int);
        lemma_div_nonincreasing(a * (delta as int), norm as int);
    }
    if d >= 0 {
        (((d as u64) * (delta as u64)) / (norm as u64)) as i64
    } else {
        let nd: u64 = (-d) as u64;
        -(((nd * (delta as u64)) / (norm as u64)) as i64)
    }
}

/// Executable squared distance.
pub fn square_dist(a: Vec2, b: Vec2) -> (r: i64)
    requires
        -1_000_000_000 <= a.x <= 1_000_000_000,
        -1_000_000_000 <= a.y <= 1_000_000_000,
        -1_000_000_000 <= b.x <= 1_000_000_000,
        -1_000_000_000 <= b.y <= 1_000_000_000,
    ensures
        r == dist2(a, b),
        0 <= r <= 8_000_000_000_000_000_000,
{
    let dx: i64 = a.x - b.x;
    let dy: i64 = a.y - b.y;
    proof {
        assert(dx * dx >= 0 && dx * dx <= 4_000_000_000_000_000_000) by (nonlinear_arith)
            requires -2_000_000_000 <= dx <= 2_000_000_000;
        assert(dy * dy >= 0 && dy * dy <= 4_000_000_000_000_000_000) by (nonlinear_arith)
            requires -2_000_000_000 <= dy <= 2_000_000_000;
    }
    dx * dx + dy * dy
}

} // verus!
