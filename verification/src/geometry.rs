//! Points on an integer grid, the distance between two of them, and the
//! blend of two points by a fixed-point weight.

use vstd::prelude::*;

verus! {

/// The fixed-point representation of the number one.
///
/// Progress along a segment and the output of an easing function are both
/// counted in parts of `UNIT`: `0` is "not started", `UNIT` is "arrived".
pub const UNIT: i64 = 1_000_000;

/// A position on the plane, in whatever length unit the caller chooses.
#[derive(Clone, Copy, Debug, PartialEq, Eq, Structural)]
pub struct Point {
    pub x: i32,
    pub y: i32,
}

/// `r` is the square root of `n`, rounded down.
pub open spec fn is_floor_sqrt(n: int, r: int) -> bool {
    0 <= r && r * r <= n < (r + 1) * (r + 1)
}

/// The square root of `n`, rounded down (for `n >= 0`).
pub open spec fn floor_sqrt(n: int) -> int {
    choose|r: int| is_floor_sqrt(n, r)
}

/// The square of the Euclidean distance between `a` and `b`.
pub open spec fn squared_distance(a: Point, b: Point) -> int {
    (a.x - b.x) * (a.x - b.x) + (a.y - b.y) * (a.y - b.y)
}

/// The Euclidean distance between `a` and `b`, rounded down.
pub open spec fn distance_spec(a: Point, b: Point) -> int {
    floor_sqrt(squared_distance(a, b))
}

/// `v` brought into the range of a coordinate.
pub open spec fn clamp_coord(v: int) -> int {
    if v < i32::MIN {
        i32::MIN as int
    } else if v > i32::MAX {
        i32::MAX as int
    } else {
        v
    }
}

/// The value `a + (b - a) * s / UNIT`, rounded down: `a` for `s == 0`, `b` for
/// `s == UNIT`, beyond `b` for a weight that overshoots.
pub open spec fn blend_spec(a: int, b: int, s: int) -> int {
    a + ((b - a) * s) / (UNIT as int)
}

/// The blend of two points, coordinate by coordinate, each clamped to the
/// coordinate range.
pub open spec fn interpolate_spec(a: Point, b: Point, s: int) -> Point {
    Point {
        x: clamp_coord(blend_spec(a.x as int, b.x as int, s)) as i32,
        y: clamp_coord(blend_spec(a.y as int, b.y as int, s)) as i32,
    }
}

/// A number has at most one rounded-down square root.
pub proof fn lemma_floor_sqrt_unique(n: int, r1: int, r2: int)
    requires
        is_floor_sqrt(n, r1),
        is_floor_sqrt(n, r2),
    ensures
        r1 == r2,
{
    if r1 < r2 {
        assert((r1 + 1) * (r1 + 1) <= r2 * r2) by (nonlinear_arith)
            requires
                0 <= r1,
                r1 + 1 <= r2,
        ;
    }
    if r2 < r1 {
        assert((r2 + 1) * (r2 + 1) <= r1 * r1) by (nonlinear_arith)
            requires
                0 <= r2,
                r2 + 1 <= r1,
        ;
    }
}

/// Whatever satisfies `is_floor_sqrt` for `n` is `floor_sqrt(n)`.
pub proof fn lemma_floor_sqrt_is(n: int, r: int)
    requires
        is_floor_sqrt(n, r),
    ensures
        floor_sqrt(n) == r,
{
    lemma_floor_sqrt_unique(n, r, floor_sqrt(n));
}

/// Every number that is not negative has a rounded-down square root.
pub proof fn lemma_floor_sqrt_exists(n: int)
    requires
        0 <= n,
    ensures
        is_floor_sqrt(n, floor_sqrt(n)),
    decreases n,
{
    if n == 0 {
        assert(is_floor_sqrt(0, 0));
    } else {
        lemma_floor_sqrt_exists(n - 1);
        let r = floor_sqrt(n - 1);
        if (r + 1) * (r + 1) <= n {
            assert(n < (r + 2) * (r + 2)) by (nonlinear_arith)
                requires
                    n - 1 < (r + 1) * (r + 1),
                    0 <= r,
            ;
            assert(is_floor_sqrt(n, r + 1));
        } else {
            assert(is_floor_sqrt(n, r));
        }
    }
}

/// The distance between two points is not negative, and it is zero exactly
/// between a point and itself.
pub proof fn lemma_distance_zero(a: Point, b: Point)
    ensures
        distance_spec(a, b) >= 0,
        distance_spec(a, b) == 0 <==> a == b,
{
    let dx = a.x - b.x;
    let dy = a.y - b.y;
    let n = squared_distance(a, b);
    assert(dx * dx >= 0 && dy * dy >= 0 && (dx != 0 ==> dx * dx >= 1) && (dy != 0 ==> dy * dy
        >= 1)) by (nonlinear_arith);
    lemma_floor_sqrt_exists(n);
    let r = floor_sqrt(n);
    if a == b {
        assert(dx * dx == 0 && dy * dy == 0) by (nonlinear_arith)
            requires
                dx == 0,
                dy == 0,
        ;
        lemma_floor_sqrt_is(n, 0);
    } else {
        assert(n >= 1);
        if r == 0 {
            assert((r + 1) * (r + 1) == 1) by (nonlinear_arith)
                requires
                    r == 0,
            ;
        }
    }
}

/// The square root of `n`, rounded down.
pub fn isqrt(n: u128) -> (r: u64)
    ensures
        is_floor_sqrt(n as int, r as int),
        r == floor_sqrt(n as int),
{
    let mut lo: u128 = 0;
    let mut hi: u128 = 0x1_0000_0000_0000_0000;
    assert(n < hi * hi) by (nonlinear_arith)
        requires
            hi == 0x1_0000_0000_0000_0000,
            n <= u128::MAX,
    ;
    while hi - lo > 1
        invariant
            lo < hi <= 0x1_0000_0000_0000_0000,
            lo * lo <= n < hi * hi,
        decreases hi - lo,
    {
        let mid: u128 = lo + (hi - lo) / 2;
        assert(mid * mid <= u128::MAX) by (nonlinear_arith)
            requires
                mid < 0x1_0000_0000_0000_0000,
        ;
        if mid * mid <= n {
            lo = mid;
        } else {
            hi = mid;
        }
    }
    proof {
        lemma_floor_sqrt_is(n as int, lo as int);
    }
    lo as u64
}

/// The distance between two coordinates.
fn span(a: i32, b: i32) -> (d: u64)
    ensures
        d == if a >= b { a - b } else { b - a },
        d <= 0xFFFF_FFFF,
{
    if a >= b {
        (a as i64 - b as i64) as u64
    } else {
        (b as i64 - a as i64) as u64
    }
}

/// The Euclidean distance between `a` and `b`, rounded down to a whole number.
pub fn distance(a: &Point, b: &Point) -> (d: u64)
    ensures
        d == distance_spec(*a, *b),
        is_floor_sqrt(squared_distance(*a, *b), d as int),
        d <= 0x2_0000_0000,
{
    let dx: u128 = span(a.x, b.x) as u128;
    let dy: u128 = span(a.y, b.y) as u128;
    assert(dx * dx <= 0xFFFF_FFFE_0000_0001 && dx * dx == (a.x - b.x) * (a.x - b.x))
        by (nonlinear_arith)
        requires
            dx <= 0xFFFF_FFFF,
            dx == a.x - b.x || dx == b.x - a.x,
    ;
    assert(dy * dy <= 0xFFFF_FFFE_0000_0001 && dy * dy == (a.y - b.y) * (a.y - b.y))
        by (nonlinear_arith)
        requires
            dy <= 0xFFFF_FFFF,
            dy == a.y - b.y || dy == b.y - a.y,
    ;
    let sq: u128 = dx * dx + dy * dy;
    let d = isqrt(sq);
    assert(d <= 0x2_0000_0000) by (nonlinear_arith)
        requires
            d * d <= sq,
            sq <= 2 * 0xFFFF_FFFE_0000_0001,
            d >= 0,
    ;
    d
}

/// `x / UNIT`, rounded down, for an `x` of either sign.
fn floor_div_unit(x: i128) -> (q: i128)
    requires
        -0x1_0000_0000_0000_0000_0000_0000 <= x <= 0x1_0000_0000_0000_0000_0000_0000,
    ensures
        q == (x as int) / (UNIT as int),
{
    if x >= 0 {
        x / 1_000_000
    } else {
        -((-x + 999_999) / 1_000_000)
    }
}

/// One coordinate of the blend of two points.
fn blend(a: i32, b: i32, s: i64) -> (r: i32)
    ensures
        r == clamp_coord(blend_spec(a as int, b as int, s as int)),
{
    let delta: i128 = b as i128 - a as i128;
    let weight: i128 = s as i128;
    assert(-0x1_0000_0000_0000_0000_0000_0000 <= delta * weight
        <= 0x1_0000_0000_0000_0000_0000_0000) by (nonlinear_arith)
        requires
            -0x1_0000_0000 <= delta <= 0x1_0000_0000,
            -0x8000_0000_0000_0000 <= weight <= 0x8000_0000_0000_0000,
    ;
    let v: i128 = a as i128 + floor_div_unit(delta * weight);
    if v < -2147483648 {
        -2147483648
    } else if v > 2147483647 {
        2147483647
    } else {
        v as i32
    }
}

/// The point that lies the fraction `s / UNIT` of the way from `a` to `b`.
///
/// Each coordinate is `a + (b - a) * s / UNIT` rounded down. The weight may lie
/// outside `0..=UNIT`; a coordinate that then leaves the coordinate range is
/// clamped to it.
pub fn interpolate(a: Point, b: Point, s: i64) -> (p: Point)
    ensures
        p == interpolate_spec(a, b, s as int),
{
    Point { x: blend(a.x, b.x, s), y: blend(a.y, b.y, s) }
}

/// A weight of zero gives the first point and a weight of `UNIT` the second.
pub proof fn lemma_interpolate_endpoints(a: Point, b: Point)
    ensures
        interpolate_spec(a, b, 0) == a,
        interpolate_spec(a, b, UNIT as int) == b,
{
    lemma_blend_endpoints(a.x as int, b.x as int);
    lemma_blend_endpoints(a.y as int, b.y as int);
}

/// For a weight within `0..=UNIT` each coordinate of the blend lies between
/// the coordinates of the two points, and its distance from the second point
/// is at most the share `(UNIT - s) / UNIT` of their distance, rounded up: the
/// blend closes in on the second point as the weight closes in on `UNIT`.
pub proof fn lemma_interpolate_approaches(a: Point, b: Point, s: int)
    requires
        0 <= s <= UNIT,
    ensures
        ({
            let p = interpolate_spec(a, b, s);
            &&& within(a.x as int, b.x as int, p.x as int)
            &&& within(a.y as int, b.y as int, p.y as int)
            &&& gap(p.x as int, b.x as int) * UNIT <= gap(a.x as int, b.x as int) * (UNIT - s)
                + UNIT
            &&& gap(p.y as int, b.y as int) * UNIT <= gap(a.y as int, b.y as int) * (UNIT - s)
                + UNIT
        }),
{
    lemma_blend_approaches(a.x as int, b.x as int, s);
    lemma_blend_approaches(a.y as int, b.y as int, s);
}

/// `v` lies between `a` and `b`, whichever of the two is the smaller.
pub open spec fn within(a: int, b: int, v: int) -> bool {
    (a <= v <= b) || (b <= v <= a)
}

/// The distance between two numbers.
pub open spec fn gap(a: int, b: int) -> int {
    if a >= b {
        a - b
    } else {
        b - a
    }
}

proof fn lemma_blend_endpoints(a: int, b: int)
    ensures
        blend_spec(a, b, 0) == a,
        blend_spec(a, b, UNIT as int) == b,
{
    assert((b - a) * 0 == 0);
    assert(((b - a) * 1_000_000) / 1_000_000 == b - a);
}

proof fn lemma_blend_approaches(a: int, b: int, s: int)
    requires
        0 <= s <= UNIT,
    ensures
        within(a, b, blend_spec(a, b, s)),
        gap(blend_spec(a, b, s), b) * UNIT <= gap(a, b) * (UNIT - s) + UNIT,
{
    let d = b - a;
    let m = d * s;
    let q = m / 1_000_000;
    assert(1_000_000 * q <= m < 1_000_000 * q + 1_000_000);
    assert(d * (1_000_000 - s) == d * 1_000_000 - m) by (nonlinear_arith)
        requires
            m == d * s,
    ;
    if d >= 0 {
        assert(0 <= m <= d * 1_000_000) by (nonlinear_arith)
            requires
                m == d * s,
                d >= 0,
                0 <= s <= 1_000_000,
        ;
    } else {
        assert(d * 1_000_000 <= m <= 0) by (nonlinear_arith)
            requires
                m == d * s,
                d < 0,
                0 <= s <= 1_000_000,
        ;
        assert((-d) * (1_000_000 - s) == m - d * 1_000_000) by (nonlinear_arith)
            requires
                m == d * s,
        ;
    }
}

} // verus!
