//! Where a line meets an obstacle's circle.
use vstd::prelude::*;
use crate::arith::{div_round, floor_sqrt, isqrt, round_div};
use crate::obstacle::Obstacle;
use crate::planner::Pathfinder;
use crate::geometry::runs_along_x;
use crate::point::{dist_sq, lemma_product_bound, Point};

verus! {

/// The cross product of `b - a` with `a - o`. Its size is the distance from
/// `o` to the line `ab` times the length of `ab`.
pub open spec fn line_offset(a: Point, b: Point, o: Point) -> int {
    (b.x - a.x) * (a.y - o.y) - (b.y - a.y) * (a.x - o.x)
}

/// Negative where the line `ab` misses the circle, zero where it touches it,
/// positive where it cuts it: the squared radius times the squared length of
/// `ab`, less the squared `line_offset`.
pub open spec fn discriminant(a: Point, b: Point, ob: Obstacle) -> int {
    ob.radius * ob.radius * dist_sq(a, b) - line_offset(a, b, ob.location) * line_offset(
        a,
        b,
        ob.location,
    )
}

/// 1 where `ab` runs forward along the axis of its greater extent, else
/// -1: the sign of its run along x, unless it extends further along y.
/// Walking the line this way the coordinate along that axis grows.
pub open spec fn leading_sign(a: Point, b: Point) -> int {
    if runs_along_x(a, b) {
        if b.x > a.x {
            1
        } else {
            -1
        }
    } else {
        if b.y > a.y {
            1
        } else {
            -1
        }
    }
}

/// The x of the point where the line `ab` meets the circle, to the nearest
/// unit: the foot of the perpendicular from the centre, moved along the line
/// by the half chord, forward (`side` 1) or backward (`side` -1). The half
/// chord is taken from the floor of the discriminant's square root.
pub open spec fn crossing_x(a: Point, b: Point, ob: Obstacle, side: int) -> int {
    let k = line_offset(a, b, ob.location);
    let s = floor_sqrt(discriminant(a, b, ob) as nat) as int;
    ob.location.x + round_div(-(b.y - a.y) * k + side * ((b.x - a.x) * s), dist_sq(a, b))
}

/// The y of the same point.
pub open spec fn crossing_y(a: Point, b: Point, ob: Obstacle, side: int) -> int {
    let k = line_offset(a, b, ob.location);
    let s = floor_sqrt(discriminant(a, b, ob) as nat) as int;
    ob.location.y + round_div((b.x - a.x) * k + side * ((b.y - a.y) * s), dist_sq(a, b))
}

/// Whether `p` is the crossing on the given side, at the obstacle's height.
pub open spec fn is_crossing(p: Point, a: Point, b: Point, ob: Obstacle, side: int) -> bool {
    &&& p.x == crossing_x(a, b, ob, side)
    &&& p.y == crossing_y(a, b, ob, side)
    &&& p.height == ob.height
}

/// A number whose square is at most `bound` squared is within `bound` of zero.
pub proof fn lemma_square_root_bound(n: int, bound: int)
    requires
        bound >= 0,
        n * n <= bound * bound,
    ensures
        -bound <= n <= bound,
{
    assert(-bound <= n <= bound) by (nonlinear_arith)
        requires
            bound >= 0,
            n * n <= bound * bound,
    ;
}

/// The offsets from the foot of the perpendicular, and the foot's own
/// offset from the centre, make up a vector no longer than the radius.
pub proof fn lemma_crossing_numerators(dx: int, dy: int, k: int, s: int, r: int, m2: int)
    requires
        m2 == dx * dx + dy * dy,
        r >= 0,
        k * k + s * s <= r * r * m2,
    ensures
        -(r * m2) <= -dy * k + dx * s <= r * m2,
        -(r * m2) <= -dy * k - dx * s <= r * m2,
        -(r * m2) <= dx * k + dy * s <= r * m2,
        -(r * m2) <= dx * k - dy * s <= r * m2,
{
    let p = dy * k;
    let q = dx * s;
    let t = dx * k;
    let u = dy * s;
    let n1 = -dy * k + dx * s;
    let n2 = dx * k + dy * s;
    let n3 = -dy * k - dx * s;
    let n4 = dx * k - dy * s;
    assert(-dy * k == -p) by (nonlinear_arith)
        requires
            p == dy * k,
    ;
    assert(p * q == t * u) by (nonlinear_arith)
        requires
            p == dy * k,
            q == dx * s,
            t == dx * k,
            u == dy * s,
    ;
    assert(p * p + t * t == m2 * (k * k)) by (nonlinear_arith)
        requires
            p == dy * k,
            t == dx * k,
            m2 == dx * dx + dy * dy,
    ;
    assert(q * q + u * u == m2 * (s * s)) by (nonlinear_arith)
        requires
            q == dx * s,
            u == dy * s,
            m2 == dx * dx + dy * dy,
    ;
    assert(m2 * (k * k + s * s) == m2 * (k * k) + m2 * (s * s)) by (nonlinear_arith);
    assert(n1 * n1 == p * p - 2 * (p * q) + q * q) by (nonlinear_arith)
        requires
            n1 == q - p,
    ;
    assert(n2 * n2 == t * t + 2 * (t * u) + u * u) by (nonlinear_arith)
        requires
            n2 == t + u,
    ;
    assert(n3 * n3 == p * p + 2 * (p * q) + q * q) by (nonlinear_arith)
        requires
            n3 == -p - q,
    ;
    assert(n4 * n4 == t * t - 2 * (t * u) + u * u) by (nonlinear_arith)
        requires
            n4 == t - u,
    ;
    assert(n1 * n1 + n2 * n2 == m2 * (k * k + s * s));
    assert(n3 * n3 + n4 * n4 == m2 * (k * k + s * s));
    assert(m2 >= 0) by (nonlinear_arith)
        requires
            m2 == dx * dx + dy * dy,
    ;
    assert(m2 * (k * k + s * s) <= (r * m2) * (r * m2)) by (nonlinear_arith)
        requires
            m2 >= 0,
            k * k + s * s <= r * r * m2,
    ;
    assert(r * m2 >= 0) by (nonlinear_arith)
        requires
            r >= 0,
            m2 >= 0,
    ;
    assert(n1 * n1 >= 0 && n2 * n2 >= 0 && n3 * n3 >= 0 && n4 * n4 >= 0) by (nonlinear_arith);
    lemma_square_root_bound(n1, r * m2);
    lemma_square_root_bound(n2, r * m2);
    lemma_square_root_bound(n3, r * m2);
    lemma_square_root_bound(n4, r * m2);
}

/// A quotient of a number within `r * m` of zero rounds to within `r` of zero.
pub proof fn lemma_round_div_bound(n: int, m: int, r: int)
    requires
        m > 0,
        r >= 0,
        -(r * m) <= n <= r * m,
    ensures
        -r <= round_div(n, m) <= r,
{
    let x = 2 * n + m;
    let d = 2 * m;
    let q = x / d;
    vstd::arithmetic::div_mod::lemma_fundamental_div_mod(x, d);
    vstd::arithmetic::div_mod::lemma_mod_bound(x, d);
    assert(-r <= q <= r) by (nonlinear_arith)
        requires
            x == d * q + x % d,
            0 <= x % d < d,
            d == 2 * m,
            x == 2 * n + m,
            m > 0,
            r >= 0,
            -(r * m) <= n <= r * m,
    ;
}

impl Pathfinder {
    /// The points where the line through `a` and `b` meets the circle of
    /// the obstacle `c`: none, the one point where it touches, or two, the
    /// one with the smaller coordinate along the axis of the greater extent
    /// of `ab` first. Two equal points give no line and no crossing.
    pub fn circle_intersect(a: &Point, b: &Point, c: &Obstacle) -> (r: (
        Option<Point>,
        Option<Point>,
    ))
        requires
            a.in_reach(),
            b.in_reach(),
            c.in_range(),
        ensures
            r.0.is_some() <==> dist_sq(*a, *b) > 0 && discriminant(*a, *b, *c) >= 0,
            r.1.is_some() <==> dist_sq(*a, *b) > 0 && discriminant(*a, *b, *c) > 0,
            r.0 matches Some(p) ==> is_crossing(p, *a, *b, *c, -leading_sign(*a, *b)),
            r.1 matches Some(q) ==> is_crossing(q, *a, *b, *c, leading_sign(*a, *b)),
            r.0 matches Some(p) ==> c.location.x - c.radius <= p.x <= c.location.x + c.radius
                && c.location.y - c.radius <= p.y <= c.location.y + c.radius,
            r.1 matches Some(q) ==> c.location.x - c.radius <= q.x <= c.location.x + c.radius
                && c.location.y - c.radius <= q.y <= c.location.y + c.radius,
    {
        let dx: i128 = (b.x - a.x) as i128;
        let dy: i128 = (b.y - a.y) as i128;
        let ox: i128 = (a.x - c.location.x) as i128;
        let oy: i128 = (a.y - c.location.y) as i128;
        let rad: i128 = c.radius as i128;
        proof {
            lemma_product_bound(dx as int, oy as int, 0x2000_0000, 0x2000_0000);
            lemma_product_bound(dy as int, ox as int, 0x2000_0000, 0x2000_0000);
            lemma_product_bound(dx as int, dx as int, 0x2000_0000, 0x2000_0000);
            lemma_product_bound(dy as int, dy as int, 0x2000_0000, 0x2000_0000);
            lemma_product_bound(rad as int, rad as int, 0x1000_0000, 0x1000_0000);
            assert(dx * dx >= 0 && dy * dy >= 0) by (nonlinear_arith);
            assert(dx * dx + dy * dy == dist_sq(*a, *b)) by (nonlinear_arith)
                requires
                    dx == b.x - a.x,
                    dy == b.y - a.y,
                    dist_sq(*a, *b) == (a.x - b.x) * (a.x - b.x) + (a.y - b.y) * (a.y - b.y),
            ;
        }
        let k: i128 = dx * oy - dy * ox;
        let m2: i128 = dx * dx + dy * dy;
        if m2 == 0 {
            return (None, None);
        }
        let rr: i128 = rad * rad;
        proof {
            lemma_product_bound(k as int, k as int, 0x800_0000_0000_0000, 0x800_0000_0000_0000);
            lemma_product_bound(rr as int, m2 as int, 0x100_0000_0000_0000, 0x800_0000_0000_0000);
            assert(k * k >= 0) by (nonlinear_arith);
            assert(rr * m2 >= 0) by (nonlinear_arith)
                requires
                    rr >= 0,
                    m2 >= 0,
            ;
            assert(rad * rad * m2 == rr * m2);
        }
        let disc: i128 = rr * m2 - k * k;
        assert(disc == discriminant(*a, *b, *c));
        if disc < 0 {
            return (None, None);
        }
        let root: u128 = isqrt(disc as u128);
        proof {
            if root > 0x400_0000_0000_0000 {
                crate::arith::lemma_square_monotone(0x400_0000_0000_0001, root as int);
            }
        }
        assert(root <= 0x400_0000_0000_0000);
        let s: i128 = root as i128;
        let along_x: i128 = if dx >= 0 { dx } else { -dx };
        let along_y: i128 = if dy >= 0 { dy } else { -dy };
        let lead: i128 = if along_x >= along_y {
            if dx > 0 { 1 } else { -1 }
        } else {
            if dy > 0 { 1 } else { -1 }
        };
        assert(lead == leading_sign(*a, *b));
        proof {
            assert(s * s <= disc);
            assert(k * k + s * s <= rad * rad * m2);
            lemma_crossing_numerators(dx as int, dy as int, k as int, s as int, rad as int, m2 as int);
            lemma_product_bound(dy as int, k as int, 0x2000_0000, 0x800_0000_0000_0000);
            lemma_product_bound(dx as int, k as int, 0x2000_0000, 0x800_0000_0000_0000);
            lemma_product_bound(dx as int, s as int, 0x2000_0000, 0x800_0000_0000_0000);
            lemma_product_bound(dy as int, s as int, 0x2000_0000, 0x800_0000_0000_0000);
            lemma_product_bound(rad as int, m2 as int, 0x1000_0000, 0x800_0000_0000_0000);
        }
        let fx: i128 = -(dy * k);
        let fy: i128 = dx * k;
        let ex: i128 = lead * (dx * s);
        let ey: i128 = lead * (dy * s);
        proof {
            assert(-dy * k == -(dy * k)) by (nonlinear_arith);
            assert(ex == dx * s || ex == -(dx * s)) by (nonlinear_arith)
                requires
                    ex == lead * (dx * s),
                    lead == 1 || lead == -1,
            ;
            assert(ey == dy * s || ey == -(dy * s)) by (nonlinear_arith)
                requires
                    ey == lead * (dy * s),
                    lead == 1 || lead == -1,
            ;
            assert((-lead) * (dx * s) == -ex) by (nonlinear_arith)
                requires
                    ex == lead * (dx * s),
            ;
            assert((-lead) * (dy * s) == -ey) by (nonlinear_arith)
                requires
                    ey == lead * (dy * s),
            ;
            lemma_round_div_bound(fx - ex, m2 as int, rad as int);
            lemma_round_div_bound(fy - ey, m2 as int, rad as int);
            lemma_round_div_bound(fx + ex, m2 as int, rad as int);
            lemma_round_div_bound(fy + ey, m2 as int, rad as int);
        }
        let x1: i128 = div_round(fx - ex, m2);
        let y1: i128 = div_round(fy - ey, m2);
        let first = Point {
            x: (c.location.x as i128 + x1) as i64,
            y: (c.location.y as i128 + y1) as i64,
            height: c.height,
        };
        if disc == 0 {
            return (Some(first), None);
        }
        let x2: i128 = div_round(fx + ex, m2);
        let y2: i128 = div_round(fy + ey, m2);
        let second = Point {
            x: (c.location.x as i128 + x2) as i64,
            y: (c.location.y as i128 + y2) as i64,
            height: c.height,
        };
        (Some(first), Some(second))
    }
}

} // verus!
