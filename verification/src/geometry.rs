//! The geometry kernel: orientation, containment and intersection tests.
use vstd::prelude::*;
use crate::point::{lemma_product_bound, Point};
use crate::planner::Pathfinder;

verus! {

/// Twice the signed area of the triangle `a`, `b`, `c`: positive when the
/// three points turn counter-clockwise, zero when they lie on one line.
pub open spec fn area_of(a: Point, b: Point, c: Point) -> int {
    (b.x - a.x) * (c.y - a.y) - (c.x - a.x) * (b.y - a.y)
}

/// How far apart two coordinates are.
pub open spec fn span(p: int, q: int) -> int {
    if p >= q {
        p - q
    } else {
        q - p
    }
}

/// Whether the segment `ab` extends at least as far along x as along y.
pub open spec fn runs_along_x(a: Point, b: Point) -> bool {
    span(a.x as int, b.x as int) >= span(a.y as int, b.y as int)
}

/// Whether `c` lies within the extent of `a` and `b` along the axis of
/// their greater extent: x, unless they lie further apart along y.
pub open spec fn lies_between(a: Point, b: Point, c: Point) -> bool {
    if runs_along_x(a, b) {
        (a.x <= c.x <= b.x) || (a.x >= c.x >= b.x)
    } else {
        (a.y <= c.y <= b.y) || (a.y >= c.y >= b.y)
    }
}

/// Whether the segments `ab` and `cd` meet, end points and overlaps on a
/// common line included.
pub open spec fn segments_meet(a: Point, b: Point, c: Point, d: Point) -> bool {
    let a1 = area_of(a, b, c);
    let a2 = area_of(a, b, d);
    let a3 = area_of(c, d, a);
    let a4 = area_of(c, d, b);
    if a1 == 0 {
        lies_between(a, b, c) || (a2 == 0 && (lies_between(c, d, a) || lies_between(c, d, b)))
    } else if a2 == 0 {
        lies_between(a, b, d)
    } else if a3 == 0 {
        lies_between(c, d, a) || (a4 == 0 && (lies_between(a, b, c) || lies_between(a, b, d)))
    } else if a4 == 0 {
        lies_between(c, d, b)
    } else {
        ((a1 > 0) != (a2 > 0)) && ((a3 > 0) != (a4 > 0))
    }
}

/// The area of a triangle of points in reach fits well inside an `i64`.
pub proof fn lemma_area_bound(a: Point, b: Point, c: Point)
    requires
        a.in_reach(),
        b.in_reach(),
        c.in_reach(),
    ensures
        -0x2000_0000_0000_0000 <= area_of(a, b, c) <= 0x2000_0000_0000_0000,
        -0x1000_0000_0000_0000 <= (b.x - a.x) * (c.y - a.y) <= 0x1000_0000_0000_0000,
        -0x1000_0000_0000_0000 <= (c.x - a.x) * (b.y - a.y) <= 0x1000_0000_0000_0000,
{
    lemma_product_bound(b.x - a.x, c.y - a.y, 0x4000_0000, 0x4000_0000);
    lemma_product_bound(c.x - a.x, b.y - a.y, 0x4000_0000, 0x4000_0000);
}

impl Pathfinder {
    /// Twice the signed area of the triangle `a`, `b`, `c`.
    pub fn area(a: &Point, b: &Point, c: &Point) -> (r: i64)
        requires
            a.in_reach(),
            b.in_reach(),
            c.in_reach(),
        ensures
            r == area_of(*a, *b, *c),
    {
        proof {
            lemma_area_bound(*a, *b, *c);
        }
        (b.x - a.x) * (c.y - a.y) - (c.x - a.x) * (b.y - a.y)
    }

    /// Whether an area counts as zero. Every test for three points on one
    /// line goes through here.
    pub fn is_flat(area: i64) -> (r: bool)
        ensures
            r == (area == 0),
    {
        area == 0
    }

    /// Whether `c` lies within the extent of `a` and `b` along the axis of
    /// their greater extent, x where the two extents are the same.
    pub fn between(a: &Point, b: &Point, c: &Point) -> (r: bool)
        ensures
            r == lies_between(*a, *b, *c),
    {
        let along_x: i128 = if a.x >= b.x { a.x as i128 - b.x as i128 } else { b.x as i128 - a.x as i128 };
        let along_y: i128 = if a.y >= b.y { a.y as i128 - b.y as i128 } else { b.y as i128 - a.y as i128 };
        if along_x >= along_y {
            (a.x <= c.x && c.x <= b.x) || (a.x >= c.x && c.x >= b.x)
        } else {
            (a.y <= c.y && c.y <= b.y) || (a.y >= c.y && c.y >= b.y)
        }
    }

    /// Whether the segments `ab` and `cd` meet.
    pub fn intersect(a: &Point, b: &Point, c: &Point, d: &Point) -> (r: bool)
        requires
            a.in_reach(),
            b.in_reach(),
            c.in_reach(),
            d.in_reach(),
        ensures
            r == segments_meet(*a, *b, *c, *d),
    {
        let a1: i64 = Self::area(a, b, c);
        let a2: i64 = Self::area(a, b, d);
        let a3: i64 = Self::area(c, d, a);
        let a4: i64 = Self::area(c, d, b);
        if Self::is_flat(a1) {
            if Self::between(a, b, c) {
                return true;
            } else if Self::is_flat(a2) {
                return Self::between(c, d, a) || Self::between(c, d, b);
            } else {
                return false;
            }
        } else if Self::is_flat(a2) {
            return Self::between(a, b, d);
        }
        if Self::is_flat(a3) {
            if Self::between(c, d, a) {
                true
            } else if Self::is_flat(a4) {
                Self::between(a, b, c) || Self::between(a, b, d)
            } else {
                false
            }
        } else if Self::is_flat(a4) {
            Self::between(c, d, b)
        } else {
            ((a1 > 0) ^ (a2 > 0)) && ((a3 > 0) ^ (a4 > 0))
        }
    }
}

/// A point on the segment from `a` to `b`, `p` parts out of `q` along it,
/// is between `a` and `b` and on one line with them.
pub proof fn lemma_point_on_segment(a: Point, b: Point, c: Point, p: int, q: int)
    requires
        0 <= p <= q,
        0 < q,
        q * (c.x - a.x) == p * (b.x - a.x),
        q * (c.y - a.y) == p * (b.y - a.y),
    ensures
        lies_between(a, b, c),
        area_of(a, b, c) == 0,
{
    let (ux, uy) = (b.x - a.x, b.y - a.y);
    let (vx, vy) = (c.x - a.x, c.y - a.y);
    assert(ux * vy - vx * uy == 0) by (nonlinear_arith)
        requires
            q * vx == p * ux,
            q * vy == p * uy,
            0 < q,
    ;
    assert((ux >= 0 ==> 0 <= vx <= ux) && (ux <= 0 ==> ux <= vx <= 0)) by (nonlinear_arith)
        requires
            q * vx == p * ux,
            0 <= p <= q,
            0 < q,
    ;
    assert((uy >= 0 ==> 0 <= vy <= uy) && (uy <= 0 ==> uy <= vy <= 0)) by (nonlinear_arith)
        requires
            q * vy == p * uy,
            0 <= p <= q,
            0 < q,
    ;
}

/// Two vectors that are each parallel to a third, which is not zero, are
/// parallel to each other.
pub proof fn lemma_parallel(px: int, py: int, qx: int, qy: int, ux: int, uy: int)
    requires
        px * uy == py * ux,
        qx * uy == qy * ux,
        ux != 0 || uy != 0,
    ensures
        px * qy == py * qx,
{
    if ux != 0 {
        assert((px * qy) * ux == (py * qx) * ux) by (nonlinear_arith)
            requires
                px * uy == py * ux,
                qx * uy == qy * ux,
        ;
        assert(px * qy == py * qx) by (nonlinear_arith)
            requires
                (px * qy) * ux == (py * qx) * ux,
                ux != 0,
        ;
    } else {
        assert((px * qy) * uy == (py * qx) * uy) by (nonlinear_arith)
            requires
                px * uy == py * ux,
                qx * uy == qy * ux,
        ;
        assert(px * qy == py * qx) by (nonlinear_arith)
            requires
                (px * qy) * uy == (py * qx) * uy,
                uy != 0,
        ;
    }
}

/// How the area changes when its three points are permuted.
pub proof fn lemma_area_permute(a: Point, b: Point, c: Point)
    ensures
        area_of(b, c, a) == area_of(a, b, c),
        area_of(c, a, b) == area_of(a, b, c),
        area_of(a, c, b) == -area_of(a, b, c),
        area_of(b, a, c) == -area_of(a, b, c),
        area_of(c, b, a) == -area_of(a, b, c),
{
    let (ax, ay, bx, by, cx, cy) = (a.x as int, a.y as int, b.x as int, b.y as int, c.x as int, c.y as int);
    assert((cx - bx) * (ay - by) - (ax - bx) * (cy - by) == (bx - ax) * (cy - ay) - (cx - ax) * (by - ay))
        by (nonlinear_arith);
    assert((ax - cx) * (by - cy) - (bx - cx) * (ay - cy) == (bx - ax) * (cy - ay) - (cx - ax) * (by - ay))
        by (nonlinear_arith);
    assert((cx - ax) * (by - ay) - (bx - ax) * (cy - ay) == -((bx - ax) * (cy - ay) - (cx - ax) * (by - ay)))
        by (nonlinear_arith);
    assert((ax - bx) * (cy - by) - (cx - bx) * (ay - by) == -((bx - ax) * (cy - ay) - (cx - ax) * (by - ay)))
        by (nonlinear_arith);
    assert((bx - cx) * (ay - cy) - (ax - cx) * (by - cy) == -((bx - ax) * (cy - ay) - (cx - ax) * (by - ay)))
        by (nonlinear_arith);
}

/// Two points on the line through two distinct points share that line with
/// each of them.
pub proof fn lemma_common_line(p: Point, q: Point, r: Point, s: Point)
    requires
        p.x != q.x || p.y != q.y,
        area_of(p, q, r) == 0,
        area_of(p, q, s) == 0,
    ensures
        area_of(p, r, s) == 0,
        area_of(q, r, s) == 0,
{
    let (ux, uy) = (q.x - p.x, q.y - p.y);
    let (rx, ry) = (r.x - p.x, r.y - p.y);
    let (sx, sy) = (s.x - p.x, s.y - p.y);
    assert(rx * uy == ry * ux) by (nonlinear_arith)
        requires
            ux * ry - rx * uy == 0,
    ;
    assert(sx * uy == sy * ux) by (nonlinear_arith)
        requires
            ux * sy - sx * uy == 0,
    ;
    lemma_parallel(rx, ry, sx, sy, ux, uy);
    assert(rx * sy - sx * ry == 0) by (nonlinear_arith)
        requires
            rx * sy == ry * sx,
    ;
    // the same with q as the corner
    assert((r.x - q.x) * (s.y - q.y) - (s.x - q.x) * (r.y - q.y) == 0) by (nonlinear_arith)
        requires
            rx * sy - sx * ry == 0,
            ux * ry - rx * uy == 0,
            ux * sy - sx * uy == 0,
            r.x - q.x == rx - ux,
            r.y - q.y == ry - uy,
            s.x - q.x == sx - ux,
            s.y - q.y == sy - uy,
    ;
}

/// If two distinct points of a line share their x, the whole line is
/// upright.
pub proof fn lemma_upright_line(p: Point, q: Point, r: Point)
    requires
        area_of(p, q, r) == 0,
        q.x == r.x,
        q.y != r.y,
    ensures
        p.x == q.x,
{
    assert(p.x == q.x) by (nonlinear_arith)
        requires
            (q.x - p.x) * (r.y - p.y) - (r.x - p.x) * (q.y - p.y) == 0,
            q.x == r.x,
            q.y != r.y,
    ;
}

/// Two vectors that are parallel, and neither of them zero, extend
/// further along the same axis.
pub proof fn lemma_parallel_lean(ux: int, uy: int, vx: int, vy: int)
    requires
        ux * vy == uy * vx,
        ux != 0 || uy != 0,
        vx != 0 || vy != 0,
    ensures
        (span(ux, 0) >= span(uy, 0)) == (span(vx, 0) >= span(vy, 0)),
{
    let (a, b, c, d) = (ux * ux, uy * uy, vx * vx, vy * vy);
    assert((span(ux, 0) >= span(uy, 0)) == (a >= b)) by (nonlinear_arith)
        requires
            a == ux * ux,
            b == uy * uy,
            span(ux, 0) == (if ux >= 0 { ux } else { -ux }),
            span(uy, 0) == (if uy >= 0 { uy } else { -uy }),
    ;
    assert((span(vx, 0) >= span(vy, 0)) == (c >= d)) by (nonlinear_arith)
        requires
            c == vx * vx,
            d == vy * vy,
            span(vx, 0) == (if vx >= 0 { vx } else { -vx }),
            span(vy, 0) == (if vy >= 0 { vy } else { -vy }),
    ;
    assert(a * d == b * c) by (nonlinear_arith)
        requires
            ux * vy == uy * vx,
            a == ux * ux,
            b == uy * uy,
            c == vx * vx,
            d == vy * vy,
    ;
    assert(a >= 0 && b >= 0 && c >= 0 && d >= 0) by (nonlinear_arith)
        requires
            a == ux * ux,
            b == uy * uy,
            c == vx * vx,
            d == vy * vy,
    ;
    assert(a > 0 || b > 0) by (nonlinear_arith)
        requires
            a == ux * ux,
            b == uy * uy,
            ux != 0 || uy != 0,
    ;
    assert(c > 0 || d > 0) by (nonlinear_arith)
        requires
            c == vx * vx,
            d == vy * vy,
            vx != 0 || vy != 0,
    ;
    if a >= b && c < d {
        assert(a * d > b * c) by (nonlinear_arith)
            requires
                a >= b,
                b >= 0,
                a > 0,
                0 <= c < d,
        ;
    }
    if a < b && c >= d {
        assert(b * c > a * d) by (nonlinear_arith)
            requires
                0 <= a < b,
                c >= d,
                d >= 0,
                c > 0,
        ;
    }
}

/// Two segments on one line, neither of them a point, extend further
/// along the same axis.
pub proof fn lemma_same_axis(a: Point, b: Point, c: Point, d: Point)
    requires
        area_of(a, b, c) == 0,
        area_of(a, b, d) == 0,
        a.x != b.x || a.y != b.y,
        c.x != d.x || c.y != d.y,
    ensures
        runs_along_x(a, b) == runs_along_x(c, d),
{
    let (ux, uy) = (b.x - a.x, b.y - a.y);
    let (vx, vy) = (d.x - c.x, d.y - c.y);
    assert(ux * vy == uy * vx) by (nonlinear_arith)
        requires
            ux * (c.y - a.y) - (c.x - a.x) * uy == 0,
            ux * (d.y - a.y) - (d.x - a.x) * uy == 0,
            vx == (d.x - a.x) - (c.x - a.x),
            vy == (d.y - a.y) - (c.y - a.y),
    ;
    lemma_parallel_lean(ux, uy, vx, vy);
}

/// A point is on every line through itself.
pub proof fn lemma_area_of_repeated(p: Point, q: Point, r: Point)
    requires
        p.x == q.x,
        p.y == q.y,
    ensures
        area_of(p, q, r) == 0,
        area_of(p, r, q) == 0,
        area_of(r, p, q) == 0,
{
    lemma_area_permute(r, p, q);
    lemma_area_permute(p, q, r);
    assert((q.x - p.x) * (r.y - p.y) == 0) by (nonlinear_arith)
        requires
            q.x - p.x == 0,
    ;
    assert((r.x - p.x) * (q.y - p.y) == 0) by (nonlinear_arith)
        requires
            q.y - p.y == 0,
    ;
}

/// Where an end of `cd` is on the line `ab`, an end of `ab` is on the line
/// `cd`, and the two ends differ, all four points are on one line.
proof fn lemma_four_on_line(a: Point, b: Point, c: Point, d: Point, e: Point, f: Point)
    requires
        e == c || e == d,
        f == a || f == b,
        e.x != f.x || e.y != f.y,
        area_of(a, b, e) == 0,
        area_of(c, d, f) == 0,
    ensures
        area_of(a, b, c) == 0,
        area_of(a, b, d) == 0,
        area_of(c, d, a) == 0,
        area_of(c, d, b) == 0,
{
    // each of the four points is on the line through e and f
    lemma_area_of_repeated(a, a, b);
    lemma_area_of_repeated(b, b, a);
    lemma_area_of_repeated(c, c, d);
    lemma_area_of_repeated(d, d, c);
    lemma_area_permute(a, b, a);
    lemma_area_permute(a, b, b);
    lemma_area_permute(c, d, c);
    lemma_area_permute(c, d, d);
    assert(area_of(a, b, f) == 0);
    assert(area_of(c, d, e) == 0);
    if a.x != b.x || a.y != b.y {
        lemma_common_line(a, b, e, f);
        lemma_area_permute(a, e, f);
        lemma_area_permute(b, e, f);
    } else {
        lemma_area_of_repeated(a, f, e);
        lemma_area_of_repeated(b, f, e);
        lemma_area_permute(e, f, a);
        lemma_area_permute(e, f, b);
    }
    assert(area_of(e, f, a) == 0);
    assert(area_of(e, f, b) == 0);
    if c.x != d.x || c.y != d.y {
        lemma_common_line(c, d, e, f);
        lemma_area_permute(c, e, f);
        lemma_area_permute(d, e, f);
    } else {
        lemma_area_of_repeated(c, e, f);
        lemma_area_of_repeated(d, e, f);
        lemma_area_permute(e, c, f);
        lemma_area_permute(e, d, f);
    }
    assert(area_of(e, f, c) == 0);
    assert(area_of(e, f, d) == 0);
    // so any three of them are on one line
    lemma_common_line(e, f, a, b);
    lemma_common_line(e, f, c, d);
    lemma_common_line(e, f, a, c);
    lemma_common_line(e, f, a, d);
    lemma_common_line(e, f, b, c);
    lemma_common_line(e, f, b, d);
    lemma_area_permute(a, b, c);
    lemma_area_permute(a, b, d);
    lemma_area_permute(c, d, a);
    lemma_area_permute(c, d, b);
    lemma_area_permute(e, a, b);
    lemma_area_permute(f, a, b);
    lemma_area_permute(e, c, d);
    lemma_area_permute(f, c, d);
    lemma_area_permute(e, a, c);
    lemma_area_permute(f, a, c);
    lemma_area_permute(e, a, d);
    lemma_area_permute(f, a, d);
    lemma_area_permute(e, b, c);
    lemma_area_permute(f, b, c);
    lemma_area_permute(e, b, d);
    lemma_area_permute(f, b, d);
}

/// Whether two segments meet does not depend on which is named first.
pub proof fn lemma_intersect_symmetric(a: Point, b: Point, c: Point, d: Point)
    ensures
        segments_meet(a, b, c, d) == segments_meet(c, d, a, b),
{
    let a1 = area_of(a, b, c);
    let a2 = area_of(a, b, d);
    let a3 = area_of(c, d, a);
    let a4 = area_of(c, d, b);
    if (a1 == 0 || a2 == 0) && (a3 == 0 || a4 == 0) {
        // an end of `cd` lies on the line `ab`, and an end of `ab` on the line `cd`
        let e = if a1 == 0 { c } else { d };
        let f = if a3 == 0 { a } else { b };
        if e.x == f.x && e.y == f.y {
            // the segments share that end, and meet
            assert(segments_meet(a, b, c, d));
            assert(segments_meet(c, d, a, b));
        } else {
            lemma_four_on_line(a, b, c, d, e, f);
            let one_point_ab = a.x == b.x && a.y == b.y;
            let one_point_cd = c.x == d.x && c.y == d.y;
            if !one_point_ab && !one_point_cd {
                lemma_same_axis(a, b, c, d);
            } else if one_point_ab && !one_point_cd {
                // `ab` is a point, told from others by its x
                if !runs_along_x(c, d) && d.x == a.x && d.y != a.y {
                    lemma_area_permute(c, d, a);
                    lemma_upright_line(c, d, a);
                }
                if !runs_along_x(c, d) && c.x == a.x && c.y != a.y {
                    lemma_area_permute(c, d, a);
                    lemma_area_permute(d, c, a);
                    lemma_upright_line(d, c, a);
                }
            } else if !one_point_ab && one_point_cd {
                if !runs_along_x(a, b) && b.x == c.x && b.y != c.y {
                    lemma_upright_line(a, b, c);
                }
                if !runs_along_x(a, b) && a.x == c.x && a.y != c.y {
                    lemma_area_permute(a, b, c);
                    lemma_area_permute(b, a, c);
                    lemma_upright_line(b, a, c);
                }
            }
        }
    }
}

} // verus!
