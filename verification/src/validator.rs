//! The path validator: is a straight segment free of flyzone edges and
//! obstacles?
use vstd::prelude::*;
use crate::circle::line_offset;
use crate::geometry::segments_meet;
use crate::obstacle::Obstacle;
use crate::planner::Pathfinder;
use crate::point::{dist_sq, lemma_product_bound, Point};

verus! {

/// Whether the segment `ab` meets the edge of `zone` that starts at its
/// `i`-th point and ends at the next, the last edge closing the polygon.
pub open spec fn meets_edge(zone: Seq<Point>, i: int, a: Point, b: Point) -> bool {
    segments_meet(a, b, zone[i], zone[(i + 1) % (zone.len() as int)])
}

/// Whether the segment `ab` meets any edge of `zone`.
pub open spec fn crosses_zone(zone: Seq<Point>, a: Point, b: Point) -> bool {
    exists|i: int| 0 <= i < zone.len() && meets_edge(zone, i, a, b)
}

/// Whether the segment `ab` meets any edge of any flyzone.
pub open spec fn crosses_zones(zones: Seq<Seq<Point>>, a: Point, b: Point) -> bool {
    exists|z: int| 0 <= z < zones.len() && crosses_zone(#[trigger] zones[z], a, b)
}

/// The dot product of `o - a` with `b - a`: how far along `ab` the foot of
/// the perpendicular from `o` lies, times the length of `ab`. The foot is
/// on the segment where this is neither negative nor more than the squared
/// length of `ab`.
pub open spec fn along(a: Point, b: Point, o: Point) -> int {
    (o.x - a.x) * (b.x - a.x) + (o.y - a.y) * (b.y - a.y)
}

/// Whether the chord through the obstacle's centre at right angles to
/// `ab`, which reaches the radius to either side, meets the segment `ab`,
/// touching included: `a` and `b` differ, the foot of the perpendicular
/// from the centre is on the segment, and the centre is no further from
/// the line `ab` than the radius.
pub open spec fn chord_meets(ob: Obstacle, a: Point, b: Point) -> bool {
    &&& dist_sq(a, b) > 0
    &&& 0 <= along(a, b, ob.location) <= dist_sq(a, b)
    &&& line_offset(a, b, ob.location) * line_offset(a, b, ob.location) <= ob.radius * ob.radius
        * dist_sq(a, b)
}

/// Whether the obstacle stands in the way of the segment `ab`: an end of
/// the segment is strictly inside its circle, or the segment meets the
/// chord through its centre at right angles to the segment.
pub open spec fn obstacle_blocks(ob: Obstacle, a: Point, b: Point) -> bool {
    ||| dist_sq(a, ob.location) < ob.radius * ob.radius
    ||| dist_sq(b, ob.location) < ob.radius * ob.radius
    ||| chord_meets(ob, a, b)
}

/// Whether any of the obstacles stands in the way of the segment `ab`.
pub open spec fn blocked_by_obstacle(obstacles: Seq<Obstacle>, a: Point, b: Point) -> bool {
    exists|i: int| 0 <= i < obstacles.len() && obstacle_blocks(#[trigger] obstacles[i], a, b)
}

/// Whether the segment `ab` crosses no flyzone edge and clears every obstacle.
pub open spec fn path_is_clear(
    zones: Seq<Seq<Point>>,
    obstacles: Seq<Obstacle>,
    a: Point,
    b: Point,
) -> bool {
    !crosses_zones(zones, a, b) && !blocked_by_obstacle(obstacles, a, b)
}

/// Whether the segment between `a` and `b` is clear when taken from
/// `a` to `b`, or when taken from `b` to `a`. An obstacle blocks it both
/// ways or neither; the two can differ where a flyzone edge is a single
/// point.
pub open spec fn segment_is_clear(
    zones: Seq<Seq<Point>>,
    obstacles: Seq<Obstacle>,
    a: Point,
    b: Point,
) -> bool {
    path_is_clear(zones, obstacles, a, b) || path_is_clear(zones, obstacles, b, a)
}

/// The squared distance from `o` to the point that lies `p` parts out of
/// `q` along the way from `a` to `b`, times `q` squared.
pub open spec fn gap_sq(a: Point, b: Point, o: Point, p: int, q: int) -> int {
    (q * (o.x - a.x) - p * (b.x - a.x)) * (q * (o.x - a.x) - p * (b.x - a.x)) + (q * (o.y - a.y)
        - p * (b.y - a.y)) * (q * (o.y - a.y) - p * (b.y - a.y))
}

/// Whether the segment `ab` passes within the obstacle's radius of its
/// centre: some point of the segment is nearer to the centre than the
/// radius.
pub open spec fn passes_within(ob: Obstacle, a: Point, b: Point) -> bool {
    exists|p: int, q: int|
        0 <= p <= q && 0 < q && #[trigger] gap_sq(a, b, ob.location, p, q) < ob.radius * ob.radius
            * (q * q)
}

/// Whether the segment `ab` stays beyond the obstacle's radius: every
/// point of the segment is further from the centre than the radius.
pub open spec fn stays_beyond(ob: Obstacle, a: Point, b: Point) -> bool {
    forall|p: int, q: int|
        0 <= p <= q && 0 < q ==> #[trigger] gap_sq(a, b, ob.location, p, q) > ob.radius * ob.radius
            * (q * q)
}

/// The squares of the cross product and of the dot product of two vectors
/// add up to the product of their squared lengths.
pub proof fn lemma_cross_and_dot(dx: int, dy: int, wx: int, wy: int)
    ensures
        (dx * wy - dy * wx) * (dx * wy - dy * wx) + (dx * wx + dy * wy) * (dx * wx + dy * wy) == (dx
            * dx + dy * dy) * (wx * wx + wy * wy),
{
    let p = dx * wy;
    let q = dy * wx;
    let t = dx * wx;
    let u = dy * wy;
    let (a1, a2, b1, b2) = (dx * dx, dy * dy, wx * wx, wy * wy);
    assert(p * q == t * u) by (nonlinear_arith)
        requires
            p == dx * wy,
            q == dy * wx,
            t == dx * wx,
            u == dy * wy,
    ;
    assert(p * p == a1 * b2) by (nonlinear_arith)
        requires
            p == dx * wy,
            a1 == dx * dx,
            b2 == wy * wy,
    ;
    assert(q * q == a2 * b1) by (nonlinear_arith)
        requires
            q == dy * wx,
            a2 == dy * dy,
            b1 == wx * wx,
    ;
    assert(t * t == a1 * b1) by (nonlinear_arith)
        requires
            t == dx * wx,
            a1 == dx * dx,
            b1 == wx * wx,
    ;
    assert(u * u == a2 * b2) by (nonlinear_arith)
        requires
            u == dy * wy,
            a2 == dy * dy,
            b2 == wy * wy,
    ;
    assert((p - q) * (p - q) == p * p - 2 * (p * q) + q * q) by (nonlinear_arith);
    assert((t + u) * (t + u) == t * t + 2 * (t * u) + u * u) by (nonlinear_arith);
    assert((a1 + a2) * (b1 + b2) == a1 * b1 + a1 * b2 + a2 * b1 + a2 * b2) by (nonlinear_arith);
}

/// The square of `q * u - p * d`, written out.
pub proof fn lemma_square_of_difference(q: int, u: int, p: int, d: int)
    ensures
        (q * u - p * d) * (q * u - p * d) == (q * q) * (u * u) - 2 * ((p * q) * (u * d)) + (p * p) * (d
            * d),
{
    let a = q * u;
    let b = p * d;
    assert((a - b) * (a - b) == a * a - 2 * (a * b) + b * b) by (nonlinear_arith);
    assert(a * a == (q * q) * (u * u)) by (nonlinear_arith)
        requires
            a == q * u,
    ;
    assert(b * b == (p * p) * (d * d)) by (nonlinear_arith)
        requires
            b == p * d,
    ;
    assert(a * b == (p * q) * (u * d)) by (nonlinear_arith)
        requires
            a == q * u,
            b == p * d,
    ;
}

/// The squared distance from `o` to the point `p` of `q` along the way
/// from `a` to `b`, times `q` squared, written out over the squared
/// distance from `a` to `o`, the foot of the perpendicular and the squared
/// length of `ab`.
pub proof fn lemma_gap_written_out(a: Point, b: Point, o: Point, p: int, q: int)
    ensures
        gap_sq(a, b, o, p, q) == (q * q) * dist_sq(a, o) - 2 * ((p * q) * along(a, b, o)) + (p * p)
            * dist_sq(a, b),
{
    let (ux, uy) = (o.x - a.x, o.y - a.y);
    let (dx, dy) = (b.x - a.x, b.y - a.y);
    let (qq, pq, pp) = (q * q, p * q, p * p);
    lemma_square_of_difference(q, ux, p, dx);
    lemma_square_of_difference(q, uy, p, dy);
    let (x1, x2, x3) = (ux * ux, ux * dx, dx * dx);
    let (y1, y2, y3) = (uy * uy, uy * dy, dy * dy);
    assert(dist_sq(a, o) == x1 + y1) by (nonlinear_arith)
        requires
            dist_sq(a, o) == (a.x - o.x) * (a.x - o.x) + (a.y - o.y) * (a.y - o.y),
            ux == o.x - a.x,
            uy == o.y - a.y,
            x1 == ux * ux,
            y1 == uy * uy,
    ;
    assert(dist_sq(a, b) == x3 + y3) by (nonlinear_arith)
        requires
            dist_sq(a, b) == (a.x - b.x) * (a.x - b.x) + (a.y - b.y) * (a.y - b.y),
            dx == b.x - a.x,
            dy == b.y - a.y,
            x3 == dx * dx,
            y3 == dy * dy,
    ;
    assert(along(a, b, o) == x2 + y2);
    assert(qq * (x1 + y1) == qq * x1 + qq * y1) by (nonlinear_arith);
    assert(pq * (x2 + y2) == pq * x2 + pq * y2) by (nonlinear_arith);
    assert(pp * (x3 + y3) == pp * x3 + pp * y3) by (nonlinear_arith);
}

/// A segment that passes within the radius of an obstacle's centre is
/// blocked by the obstacle.
pub proof fn lemma_near_is_blocked(ob: Obstacle, a: Point, b: Point)
    requires
        passes_within(ob, a, b),
    ensures
        obstacle_blocks(ob, a, b),
{
    let o = ob.location;
    let (p, q) = choose|p: int, q: int|
        0 <= p <= q && 0 < q && #[trigger] gap_sq(a, b, o, p, q) < ob.radius * ob.radius * (q * q);
    let rr = ob.radius * ob.radius;
    let (ux, uy) = (o.x - a.x, o.y - a.y);
    let (dx, dy) = (b.x - a.x, b.y - a.y);
    let (wx, wy) = (q * ux - p * dx, q * uy - p * dy);
    let m2 = dx * dx + dy * dy;
    let uu = ux * ux + uy * uy;
    let foot = ux * dx + uy * dy;
    let gap = wx * wx + wy * wy;
    let qq = q * q;
    assert(gap == gap_sq(a, b, o, p, q));
    assert(qq > 0) by (nonlinear_arith)
        requires
            q > 0,
            qq == q * q,
    ;
    assert(dist_sq(a, o) == uu) by (nonlinear_arith)
        requires
            dist_sq(a, o) == (a.x - o.x) * (a.x - o.x) + (a.y - o.y) * (a.y - o.y),
            ux == o.x - a.x,
            uy == o.y - a.y,
            uu == ux * ux + uy * uy,
    ;
    assert(dist_sq(a, b) == m2) by (nonlinear_arith)
        requires
            dist_sq(a, b) == (a.x - b.x) * (a.x - b.x) + (a.y - b.y) * (a.y - b.y),
            dx == b.x - a.x,
            dy == b.y - a.y,
            m2 == dx * dx + dy * dy,
    ;
    assert(m2 >= 0) by (nonlinear_arith)
        requires
            m2 == dx * dx + dy * dy,
    ;
    assert(foot == along(a, b, o));
    // the squared distance to the point, written out
    lemma_gap_written_out(a, b, o, p, q);
    let pq = p * q;
    let pp = p * p;
    assert(gap == qq * uu - 2 * (pq * foot) + pp * m2);
    assert(pq >= 0 && pp >= 0) by (nonlinear_arith)
        requires
            0 <= p,
            0 < q,
            pq == p * q,
            pp == p * p,
    ;
    if foot < 0 || m2 == 0 {
        // the point of the segment nearest to the centre is `a`
        if m2 == 0 {
            assert(dx == 0 && dy == 0) by (nonlinear_arith)
                requires
                    dx * dx + dy * dy == 0,
            ;
            assert(foot == 0) by (nonlinear_arith)
                requires
                    foot == ux * dx + uy * dy,
                    dx == 0,
                    dy == 0,
            ;
        }
        assert(pq * foot <= 0) by (nonlinear_arith)
            requires
                pq >= 0,
                foot <= 0,
        ;
        assert(pp * m2 >= 0) by (nonlinear_arith)
            requires
                pp >= 0,
                m2 >= 0,
        ;
        assert(qq * uu <= gap);
        assert(uu < rr) by (nonlinear_arith)
            requires
                qq * uu < rr * qq,
                qq > 0,
        ;
    } else if foot > m2 {
        // the point of the segment nearest to the centre is `b`
        let vv = uu - 2 * foot + m2;
        assert(dist_sq(b, o) == vv) by (nonlinear_arith)
            requires
                dist_sq(b, o) == (b.x - o.x) * (b.x - o.x) + (b.y - o.y) * (b.y - o.y),
                ux == o.x - a.x,
                uy == o.y - a.y,
                dx == b.x - a.x,
                dy == b.y - a.y,
                vv == (ux * ux + uy * uy) - 2 * (ux * dx + uy * dy) + (dx * dx + dy * dy),
        ;
        let t = q - p;
        let qt = q * t;
        assert(qq * vv == qq * uu - 2 * (qq * foot) + qq * m2) by (nonlinear_arith)
            requires
                vv == uu - 2 * foot + m2,
        ;
        assert(qq - pq == qt && qq - pp == qt + p * t) by (nonlinear_arith)
            requires
                qq == q * q,
                pq == p * q,
                pp == p * p,
                t == q - p,
                qt == q * t,
        ;
        assert(qq * foot - pq * foot == qt * foot) by (nonlinear_arith)
            requires
                qq - pq == qt,
        ;
        assert(qq * m2 - pp * m2 == (qt + p * t) * m2) by (nonlinear_arith)
            requires
                qq - pp == qt + p * t,
        ;
        // gap - qq * vv is twice qt * foot, less (qt + p * t) * m2
        assert(qt >= 0 && 0 <= p * t <= qt) by (nonlinear_arith)
            requires
                0 <= p <= q,
                t == q - p,
                qt == q * t,
        ;
        assert(qt * foot >= qt * m2) by (nonlinear_arith)
            requires
                qt >= 0,
                foot > m2,
        ;
        assert((qt + p * t) * m2 <= 2 * (qt * m2)) by (nonlinear_arith)
            requires
                0 <= p * t <= qt,
                m2 >= 0,
        ;
        assert(qq * vv <= gap);
        assert(vv < rr) by (nonlinear_arith)
            requires
                qq * vv <= gap,
                gap < rr * qq,
                qq > 0,
        ;
    } else {
        // the foot of the perpendicular is on the segment
        lemma_cross_and_dot(dx, dy, wx, wy);
        let k = line_offset(a, b, o);
        assert(dx * wy - dy * wx == -(q * k)) by (nonlinear_arith)
            requires
                wx == q * ux - p * dx,
                wy == q * uy - p * dy,
                k == dx * (a.y - o.y) - dy * (a.x - o.x),
                ux == o.x - a.x,
                uy == o.y - a.y,
        ;
        let c = dx * wy - dy * wx;
        let e = dx * wx + dy * wy;
        assert(c * c == qq * (k * k)) by (nonlinear_arith)
            requires
                c == -(q * k),
                qq == q * q,
        ;
        assert(e * e >= 0) by (nonlinear_arith);
        assert(qq * (k * k) <= m2 * gap);
        assert(m2 * gap < m2 * (rr * qq) || m2 == 0) by (nonlinear_arith)
            requires
                gap < rr * qq,
                m2 >= 0,
        ;
        assert(k * k < rr * m2) by (nonlinear_arith)
            requires
                qq * (k * k) < m2 * (rr * qq),
                qq > 0,
        ;
        assert(chord_meets(ob, a, b));
    }
}

/// A segment that stays beyond the radius of an obstacle's centre is not
/// blocked by the obstacle.
pub proof fn lemma_far_is_clear(ob: Obstacle, a: Point, b: Point)
    requires
        stays_beyond(ob, a, b),
    ensures
        !obstacle_blocks(ob, a, b),
{
    let o = ob.location;
    let rr = ob.radius * ob.radius;
    let (ux, uy) = (o.x - a.x, o.y - a.y);
    let (dx, dy) = (b.x - a.x, b.y - a.y);
    let m2 = dx * dx + dy * dy;
    let uu = ux * ux + uy * uy;
    let foot = ux * dx + uy * dy;
    let k = line_offset(a, b, o);
    assert(dist_sq(a, b) == m2) by (nonlinear_arith)
        requires
            dist_sq(a, b) == (a.x - b.x) * (a.x - b.x) + (a.y - b.y) * (a.y - b.y),
            dx == b.x - a.x,
            dy == b.y - a.y,
            m2 == dx * dx + dy * dy,
    ;
    // the end `a` is the point 0 of 1 along the way, the end `b` the point 1 of 1
    assert(gap_sq(a, b, o, 0, 1) == dist_sq(a, o)) by (nonlinear_arith)
        requires
            gap_sq(a, b, o, 0, 1) == (1 * (o.x - a.x) - 0 * (b.x - a.x)) * (1 * (o.x - a.x) - 0 * (b.x
                - a.x)) + (1 * (o.y - a.y) - 0 * (b.y - a.y)) * (1 * (o.y - a.y) - 0 * (b.y - a.y)),
            dist_sq(a, o) == (a.x - o.x) * (a.x - o.x) + (a.y - o.y) * (a.y - o.y),
    ;
    assert(gap_sq(a, b, o, 1, 1) == dist_sq(b, o)) by (nonlinear_arith)
        requires
            gap_sq(a, b, o, 1, 1) == (1 * (o.x - a.x) - 1 * (b.x - a.x)) * (1 * (o.x - a.x) - 1 * (b.x
                - a.x)) + (1 * (o.y - a.y) - 1 * (b.y - a.y)) * (1 * (o.y - a.y) - 1 * (b.y - a.y)),
            dist_sq(b, o) == (b.x - o.x) * (b.x - o.x) + (b.y - o.y) * (b.y - o.y),
    ;
    assert(rr * (1 * 1) == rr) by (nonlinear_arith);
    if chord_meets(ob, a, b) {
        // the foot of the perpendicular is the point `foot` of `m2` along the way
        assert(foot == along(a, b, o));
        let (wx, wy) = (m2 * ux - foot * dx, m2 * uy - foot * dy);
        let gap = wx * wx + wy * wy;
        assert(gap == gap_sq(a, b, o, foot, m2));
        lemma_cross_and_dot(dx, dy, ux, uy);
        assert(dx * uy - dy * ux == -k) by (nonlinear_arith)
            requires
                k == dx * (a.y - o.y) - dy * (a.x - o.x),
                ux == o.x - a.x,
                uy == o.y - a.y,
        ;
        let c = dx * uy - dy * ux;
        assert(c * c == k * k) by (nonlinear_arith)
            requires
                c == -k,
        ;
        assert(dx * ux + dy * uy == foot) by (nonlinear_arith)
            requires
                foot == ux * dx + uy * dy,
        ;
        assert(k * k + foot * foot == m2 * uu);
        lemma_gap_written_out(a, b, o, foot, m2);
        assert(dist_sq(a, o) == uu) by (nonlinear_arith)
            requires
                dist_sq(a, o) == (a.x - o.x) * (a.x - o.x) + (a.y - o.y) * (a.y - o.y),
                ux == o.x - a.x,
                uy == o.y - a.y,
                uu == ux * ux + uy * uy,
        ;
        let ff = foot * foot;
        assert(gap == (m2 * m2) * uu - 2 * ((foot * m2) * foot) + ff * m2);
        assert((m2 * m2) * uu == m2 * (m2 * uu)) by (nonlinear_arith);
        assert((foot * m2) * foot == m2 * ff) by (nonlinear_arith)
            requires
                ff == foot * foot,
        ;
        assert(ff * m2 == m2 * ff) by (nonlinear_arith);
        assert(m2 * (m2 * uu) == m2 * (k * k) + m2 * ff) by (nonlinear_arith)
            requires
                k * k + ff == m2 * uu,
        ;
        assert(gap == m2 * (k * k));
        assert(m2 * (k * k) <= rr * (m2 * m2)) by (nonlinear_arith)
            requires
                k * k <= rr * m2,
                m2 > 0,
        ;
        assert(gap_sq(a, b, o, foot, m2) > rr * (m2 * m2));
    }
}

/// An obstacle blocks a segment from either end alike.
pub proof fn lemma_blocks_either_way(ob: Obstacle, a: Point, b: Point)
    ensures
        obstacle_blocks(ob, a, b) == obstacle_blocks(ob, b, a),
{
    let o = ob.location;
    crate::point::lemma_dist_symmetric(a, b);
    assert(along(b, a, o) == dist_sq(a, b) - along(a, b, o)) by (nonlinear_arith)
        requires
            along(b, a, o) == (o.x - b.x) * (a.x - b.x) + (o.y - b.y) * (a.y - b.y),
            along(a, b, o) == (o.x - a.x) * (b.x - a.x) + (o.y - a.y) * (b.y - a.y),
            dist_sq(a, b) == (a.x - b.x) * (a.x - b.x) + (a.y - b.y) * (a.y - b.y),
    ;
    let k = line_offset(a, b, o);
    let j = line_offset(b, a, o);
    assert(j == -k) by (nonlinear_arith)
        requires
            j == (a.x - b.x) * (b.y - o.y) - (a.y - b.y) * (b.x - o.x),
            k == (b.x - a.x) * (a.y - o.y) - (b.y - a.y) * (a.x - o.x),
    ;
    assert(j * j == k * k) by (nonlinear_arith)
        requires
            j == -k,
    ;
}

/// A segment that meets a flyzone edge, or passes within the radius of an
/// obstacle's centre, is no clear path.
pub proof fn lemma_path_rejected(zones: Seq<Seq<Point>>, obstacles: Seq<Obstacle>, a: Point, b: Point)
    requires
        crosses_zones(zones, a, b) || exists|i: int|
            0 <= i < obstacles.len() && passes_within(#[trigger] obstacles[i], a, b),
    ensures
        !path_is_clear(zones, obstacles, a, b),
{
    if !crosses_zones(zones, a, b) {
        let i = choose|i: int| 0 <= i < obstacles.len() && passes_within(#[trigger] obstacles[i], a, b);
        lemma_near_is_blocked(obstacles[i], a, b);
    }
}

/// A segment that meets no flyzone edge, and stays beyond the radius of
/// every obstacle's centre, is a clear path.
pub proof fn lemma_path_accepted(zones: Seq<Seq<Point>>, obstacles: Seq<Obstacle>, a: Point, b: Point)
    requires
        !crosses_zones(zones, a, b),
        forall|i: int| 0 <= i < obstacles.len() ==> stays_beyond(#[trigger] obstacles[i], a, b),
    ensures
        path_is_clear(zones, obstacles, a, b),
{
    assert forall|i: int| 0 <= i < obstacles.len() implies !obstacle_blocks(
        #[trigger] obstacles[i],
        a,
        b,
    ) by {
        lemma_far_is_clear(obstacles[i], a, b);
    }
}

impl Pathfinder {
    /// Whether one obstacle stands in the way of the segment `ab`.
    pub fn blocks(ob: &Obstacle, a: &Point, b: &Point) -> (r: bool)
        requires
            ob.in_range(),
            a.in_reach(),
            b.in_reach(),
        ensures
            r == obstacle_blocks(*ob, *a, *b),
    {
        let rr: u64 = {
            proof {
                lemma_product_bound(ob.radius as int, ob.radius as int, 0x800_0000, 0x800_0000);
                assert(ob.radius * ob.radius >= 0) by (nonlinear_arith);
            }
            (ob.radius * ob.radius) as u64
        };
        if a.distance_squared(&ob.location) < rr || b.distance_squared(&ob.location) < rr {
            return true;
        }
        let m2: u64 = a.distance_squared(b);
        if m2 == 0 {
            return false;
        }
        let dx: i128 = (b.x - a.x) as i128;
        let dy: i128 = (b.y - a.y) as i128;
        let ox: i128 = (ob.location.x - a.x) as i128;
        let oy: i128 = (ob.location.y - a.y) as i128;
        proof {
            lemma_product_bound(ox as int, dx as int, 0x2000_0000, 0x2000_0000);
            lemma_product_bound(oy as int, dy as int, 0x2000_0000, 0x2000_0000);
            lemma_product_bound(dx as int, -oy as int, 0x2000_0000, 0x2000_0000);
            lemma_product_bound(dy as int, -ox as int, 0x2000_0000, 0x2000_0000);
            lemma_product_bound(a.x - b.x, a.x - b.x, 0x2000_0000, 0x2000_0000);
            lemma_product_bound(a.y - b.y, a.y - b.y, 0x2000_0000, 0x2000_0000);
        }
        let foot: i128 = ox * dx + oy * dy;
        assert(foot == along(*a, *b, ob.location));
        if foot < 0 || foot > m2 as i128 {
            return false;
        }
        let offset: i128 = dx * (-oy) - dy * (-ox);
        assert(offset == line_offset(*a, *b, ob.location));
        proof {
            lemma_product_bound(offset as int, offset as int, 0x800_0000_0000_0000, 0x800_0000_0000_0000);
            lemma_product_bound(rr as int, m2 as int, 0x40_0000_0000_0000, 0x800_0000_0000_0000);
            assert(ob.radius * ob.radius * dist_sq(*a, *b) == rr * m2);
        }
        offset * offset <= rr as i128 * m2 as i128
    }

    /// Whether the straight segment from `a` to `b` crosses no flyzone
    /// edge and clears every obstacle.
    pub fn valid_path(&self, a: &Point, b: &Point) -> (r: bool)
        requires
            self.wf(),
            a.in_reach(),
            b.in_reach(),
        ensures
            r == path_is_clear(self.zones(), self.obstacle_seq(), *a, *b),
    {
        proof {
            self.unfold();
        }
        let mut z: usize = 0;
        while z < self.flyzones.len()
            invariant
                self.wf(),
                a.in_reach(),
                b.in_reach(),
                z <= self.flyzones.len(),
                forall|k: int| 0 <= k < z ==> !crosses_zone(#[trigger] self.zones()[k], *a, *b),
            decreases self.flyzones.len() - z,
        {
            let zone = &self.flyzones[z];
            proof {
                self.unfold();
            }
            assert(zone@ == self.zones()[z as int]);
            let n: usize = zone.len();
            let mut i: usize = 0;
            while i < n
                invariant
                    self.wf(),
                    a.in_reach(),
                    b.in_reach(),
                    z < self.flyzones.len(),
                    zone@ == self.zones()[z as int],
                    n == zone.len(),
                    i <= n,
                    forall|k: int| 0 <= k < i ==> !meets_edge(zone@, k, *a, *b),
                decreases n - i,
            {
                let next: usize = if i + 1 == n { 0 } else { i + 1 };
                assert(next == (i + 1) % (n as int)) by {
                    if i + 1 == n {
                        vstd::arithmetic::div_mod::lemma_mod_self_0(n as int);
                    } else {
                        vstd::arithmetic::div_mod::lemma_small_mod((i + 1) as nat, n as nat);
                    }
                }
                proof {
                    self.unfold();
                }
                assert(self.zones()[z as int][i as int].in_range());
                assert(self.zones()[z as int][next as int].in_range());
                if Self::intersect(a, b, &zone[i], &zone[next]) {
                    assert(meets_edge(zone@, i as int, *a, *b));
                    assert(crosses_zone(self.zones()[z as int], *a, *b));
                    return false;
                }
                i += 1;
            }
            z += 1;
        }
        let mut o: usize = 0;
        while o < self.obstacles.len()
            invariant
                self.wf(),
                a.in_reach(),
                b.in_reach(),
                o <= self.obstacles.len(),
                !crosses_zones(self.zones(), *a, *b),
                forall|k: int|
                    0 <= k < o ==> !obstacle_blocks(#[trigger] self.obstacle_seq()[k], *a, *b),
            decreases self.obstacles.len() - o,
        {
            proof {
                self.unfold();
            }
            assert(self.obstacle_seq()[o as int].in_range());
            if Self::blocks(&self.obstacles[o], a, b) {
                assert(obstacle_blocks(self.obstacle_seq()[o as int], *a, *b));
                return false;
            }
            o += 1;
        }
        true
    }
}

} // verus!
