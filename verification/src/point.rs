//! Planar points on the integer grid.
use vstd::prelude::*;
use crate::arith::{ceil_sqrt, isqrt_ceil};

verus! {

/// Largest absolute planar coordinate, and largest radius, that the planner
/// accepts in its configuration. All lengths share one unit: the built-in
/// radii take it to be the millimetre.
pub const LIMIT: i64 = 0x800_0000;

/// A point of the plane, with the height it was recorded at.
#[derive(Clone, Copy, Debug, PartialEq, Eq, Structural)]
pub struct Point {
    pub x: i64,
    pub y: i64,
    pub height: i64,
}

/// The squared planar distance between two points.
pub open spec fn dist_sq(a: Point, b: Point) -> int {
    (a.x - b.x) * (a.x - b.x) + (a.y - b.y) * (a.y - b.y)
}

/// The planar distance between two points, rounded up to a whole unit.
pub open spec fn dist(a: Point, b: Point) -> nat {
    ceil_sqrt(dist_sq(a, b) as nat)
}

/// A product is bounded by the product of the bounds of its factors.
pub proof fn lemma_product_bound(a: int, b: int, m: int, n: int)
    requires
        -m <= a <= m,
        -n <= b <= n,
    ensures
        -(m * n) <= a * b <= m * n,
{
    assert(-(m * n) <= a * b <= m * n) by (nonlinear_arith)
        requires
            -m <= a <= m,
            -n <= b <= n,
    ;
}

/// Two points in reach are no further apart than fits a machine word
/// many times over.
pub proof fn lemma_dist_bound(a: Point, b: Point)
    requires
        a.in_reach(),
        b.in_reach(),
    ensures
        0 <= dist_sq(a, b) <= 0x800_0000_0000_0000,
        dist(a, b) <= 0x4000_0000,
{
    lemma_product_bound(a.x - b.x, a.x - b.x, 0x2000_0000, 0x2000_0000);
    lemma_product_bound(a.y - b.y, a.y - b.y, 0x2000_0000, 0x2000_0000);
    assert((a.x - b.x) * (a.x - b.x) >= 0) by (nonlinear_arith);
    assert((a.y - b.y) * (a.y - b.y) >= 0) by (nonlinear_arith);
    let n = dist_sq(a, b) as nat;
    crate::arith::lemma_floor_sqrt_bounds(n);
    let r = crate::arith::floor_sqrt(n);
    if r >= 0x4000_0000 {
        crate::arith::lemma_square_monotone(0x4000_0000, r as int);
    }
}

/// The way from `a` to `c` is no longer than the way over `b`, rounding up
/// and all.
pub proof fn lemma_dist_triangle(a: Point, b: Point, c: Point)
    ensures
        dist(a, c) <= dist(a, b) + dist(b, c),
{
    let (ux, uy) = (b.x - a.x, b.y - a.y);
    let (vx, vy) = (c.x - b.x, c.y - b.y);
    let aa = ux * ux + uy * uy;
    let bb = vx * vx + vy * vy;
    let cc = (ux + vx) * (ux + vx) + (uy + vy) * (uy + vy);
    let dot = ux * vx + uy * vy;
    let cross = ux * vy - uy * vx;
    assert(dist_sq(a, b) == aa) by (nonlinear_arith)
        requires
            dist_sq(a, b) == (a.x - b.x) * (a.x - b.x) + (a.y - b.y) * (a.y - b.y),
            ux == b.x - a.x,
            uy == b.y - a.y,
            aa == ux * ux + uy * uy,
    ;
    assert(dist_sq(b, c) == bb) by (nonlinear_arith)
        requires
            dist_sq(b, c) == (b.x - c.x) * (b.x - c.x) + (b.y - c.y) * (b.y - c.y),
            vx == c.x - b.x,
            vy == c.y - b.y,
            bb == vx * vx + vy * vy,
    ;
    assert(dist_sq(a, c) == cc) by (nonlinear_arith)
        requires
            dist_sq(a, c) == (a.x - c.x) * (a.x - c.x) + (a.y - c.y) * (a.y - c.y),
            ux + vx == c.x - a.x,
            uy + vy == c.y - a.y,
            cc == (ux + vx) * (ux + vx) + (uy + vy) * (uy + vy),
    ;
    assert(aa >= 0 && bb >= 0 && cc >= 0) by (nonlinear_arith)
        requires
            aa == ux * ux + uy * uy,
            bb == vx * vx + vy * vy,
            cc == (ux + vx) * (ux + vx) + (uy + vy) * (uy + vy),
    ;
    assert(cc == aa + bb + 2 * dot) by (nonlinear_arith)
        requires
            aa == ux * ux + uy * uy,
            bb == vx * vx + vy * vy,
            cc == (ux + vx) * (ux + vx) + (uy + vy) * (uy + vy),
            dot == ux * vx + uy * vy,
    ;
    // the dot product is no more than the product of the lengths
    let p = ux * vx;
    let q = uy * vy;
    let r = ux * vy;
    let t = uy * vx;
    assert(p * q == r * t) by (nonlinear_arith)
        requires
            p == ux * vx,
            q == uy * vy,
            r == ux * vy,
            t == uy * vx,
    ;
    let (a1, a2, b1, b2) = (ux * ux, uy * uy, vx * vx, vy * vy);
    assert(aa * bb == a1 * b1 + a1 * b2 + a2 * b1 + a2 * b2) by (nonlinear_arith)
        requires
            aa == a1 + a2,
            bb == b1 + b2,
    ;
    assert(p * p == a1 * b1) by (nonlinear_arith)
        requires
            p == ux * vx,
            a1 == ux * ux,
            b1 == vx * vx,
    ;
    assert(r * r == a1 * b2) by (nonlinear_arith)
        requires
            r == ux * vy,
            a1 == ux * ux,
            b2 == vy * vy,
    ;
    assert(t * t == a2 * b1) by (nonlinear_arith)
        requires
            t == uy * vx,
            a2 == uy * uy,
            b1 == vx * vx,
    ;
    assert(q * q == a2 * b2) by (nonlinear_arith)
        requires
            q == uy * vy,
            a2 == uy * uy,
            b2 == vy * vy,
    ;
    assert(dot * dot == p * p + 2 * (p * q) + q * q) by (nonlinear_arith)
        requires
            dot == p + q,
    ;
    assert(cross * cross == r * r - 2 * (r * t) + t * t) by (nonlinear_arith)
        requires
            cross == r - t,
    ;
    assert(cross * cross >= 0) by (nonlinear_arith);
    assert(dot * dot <= aa * bb);
    let x = dist(a, b) as int;
    let y = dist(b, c) as int;
    let z = dist(a, c) as int;
    crate::arith::lemma_ceil_sqrt_bounds(aa as nat);
    crate::arith::lemma_ceil_sqrt_bounds(bb as nat);
    crate::arith::lemma_ceil_sqrt_bounds(cc as nat);
    assert(aa * bb <= (x * y) * (x * y)) by (nonlinear_arith)
        requires
            0 <= aa <= x * x,
            0 <= bb <= y * y,
    ;
    assert(x * y >= 0) by (nonlinear_arith)
        requires
            x >= 0,
            y >= 0,
    ;
    crate::circle::lemma_square_root_bound(dot, x * y);
    assert(cc <= (x + y) * (x + y)) by (nonlinear_arith)
        requires
            cc == aa + bb + 2 * dot,
            aa <= x * x,
            bb <= y * y,
            dot <= x * y,
    ;
    if z > x + y {
        crate::arith::lemma_square_monotone(x + y, z - 1);
    }
}

/// The distance from `a` to `b` is the distance from `b` to `a`.
pub proof fn lemma_dist_symmetric(a: Point, b: Point)
    ensures
        dist_sq(a, b) == dist_sq(b, a),
        dist(a, b) == dist(b, a),
{
    assert((a.x - b.x) * (a.x - b.x) == (b.x - a.x) * (b.x - a.x)) by (nonlinear_arith);
    assert((a.y - b.y) * (a.y - b.y) == (b.y - a.y) * (b.y - a.y)) by (nonlinear_arith);
}

impl Point {
    /// Whether both planar coordinates are within `LIMIT` of the origin.
    pub open spec fn in_range(self) -> bool {
        &&& -LIMIT <= self.x <= LIMIT
        &&& -LIMIT <= self.y <= LIMIT
    }

    /// Whether both planar coordinates are within twice `LIMIT` of the
    /// origin: true of every point in range, and of every point no further
    /// than `LIMIT` from one. The geometry kernel works on such points.
    pub open spec fn in_reach(self) -> bool {
        &&& -2 * LIMIT <= self.x <= 2 * LIMIT
        &&& -2 * LIMIT <= self.y <= 2 * LIMIT
    }

    pub fn new(x: i64, y: i64, height: i64) -> (p: Point)
        ensures
            p == (Point { x, y, height }),
    {
        Point { x, y, height }
    }

    /// Run-time test of `in_range`.
    pub fn is_in_range(&self) -> (r: bool)
        ensures
            r == self.in_range(),
    {
        -LIMIT <= self.x && self.x <= LIMIT && -LIMIT <= self.y && self.y <= LIMIT
    }

    /// Run-time test of `in_reach`.
    pub fn is_in_reach(&self) -> (r: bool)
        ensures
            r == self.in_reach(),
    {
        -2 * LIMIT <= self.x && self.x <= 2 * LIMIT && -2 * LIMIT <= self.y && self.y <= 2 * LIMIT
    }

    /// The squared planar distance to `other`.
    pub fn distance_squared(&self, other: &Point) -> (r: u64)
        requires
            self.in_reach(),
            other.in_reach(),
        ensures
            r == dist_sq(*self, *other),
    {
        let dx: i64 = self.x - other.x;
        let dy: i64 = self.y - other.y;
        proof {
            lemma_product_bound(dx as int, dx as int, 0x2000_0000, 0x2000_0000);
            lemma_product_bound(dy as int, dy as int, 0x2000_0000, 0x2000_0000);
            assert(dx * dx >= 0) by (nonlinear_arith);
            assert(dy * dy >= 0) by (nonlinear_arith);
        }
        (dx * dx + dy * dy) as u64
    }

    /// The planar distance to `other`, rounded up to a whole unit.
    pub fn distance(&self, other: &Point) -> (r: u64)
        requires
            self.in_reach(),
            other.in_reach(),
        ensures
            r == dist(*self, *other),
    {
        let sq: u64 = self.distance_squared(other);
        let root: u128 = isqrt_ceil(sq as u128);
        assert(root <= 0x1_0000_0000) by (nonlinear_arith)
            requires
                root > 0 ==> (root - 1) * (root - 1) < sq,
                sq <= u64::MAX,
        ;
        root as u64
    }
}

} // verus!
