//! The visibility graph: the tangents between nodes that no flyzone edge
//! and no obstacle blocks.
use vstd::prelude::*;
use crate::arith::{floor_sqrt, isqrt, lemma_square_monotone};
use crate::node::Disk;
use crate::obstacle::Obstacle;
use crate::planner::Pathfinder;
use crate::point::{dist, dist_sq, lemma_product_bound, Point};
use crate::trig::{arc_tangent, atan2, HALF_TURN};
use crate::validator::path_is_clear;

verus! {

/// A tangent between two nodes: the angle at which it leaves the first,
/// the angle at which it reaches the second, and its length.
#[derive(Clone, Copy, Debug, PartialEq, Eq, Structural)]
pub struct Tangent {
    pub theta: i64,
    pub phi: i64,
    pub distance: u64,
}

/// Whether two circles whose centres are `m2` apart, squared, have a
/// tangent that leans by `reach`: their centres differ, and `reach` is no
/// more than their distance.
pub open spec fn has_lean(m2: int, reach: int) -> bool {
    m2 > 0 && reach * reach <= m2
}

/// The angle whose cosine is `reach` over the distance of the centres: the
/// direction of the point `(reach, h)`, where `h` is the whole part of the
/// length of the tangent.
pub open spec fn lean(m2: int, reach: int) -> int {
    arc_tangent(floor_sqrt((m2 - reach * reach) as nat) as i32, reach as i32) as int
}

/// The lean of the two tangents that do not cross between the circles.
pub open spec fn outer_reach(a: Disk, b: Disk) -> int {
    if b.radius >= a.radius {
        b.radius - a.radius
    } else {
        a.radius - b.radius
    }
}

/// The lean of the two tangents that cross between the circles.
pub open spec fn inner_reach(a: Disk, b: Disk) -> int {
    a.radius + b.radius
}

/// Whether the `i`-th of the four candidates exists: the two outer ones
/// come first.
pub open spec fn candidate_defined(a: Disk, b: Disk, i: int) -> bool {
    if i < 2 {
        has_lean(dist_sq(a.origin, b.origin), outer_reach(a, b))
    } else {
        has_lean(dist_sq(a.origin, b.origin), inner_reach(a, b))
    }
}

/// The angle at which the `i`-th candidate leaves `a`.
pub open spec fn candidate_theta(a: Disk, b: Disk, i: int) -> int {
    let m2 = dist_sq(a.origin, b.origin);
    if i == 0 {
        lean(m2, outer_reach(a, b))
    } else if i == 1 {
        -lean(m2, outer_reach(a, b))
    } else if i == 2 {
        lean(m2, inner_reach(a, b))
    } else {
        -lean(m2, inner_reach(a, b))
    }
}

/// The angle at which the `i`-th candidate reaches `b`.
pub open spec fn candidate_phi(a: Disk, b: Disk, i: int) -> int {
    let m2 = dist_sq(a.origin, b.origin);
    if i == 0 {
        lean(m2, outer_reach(a, b))
    } else if i == 1 {
        -lean(m2, outer_reach(a, b))
    } else if i == 2 {
        HALF_TURN + lean(m2, inner_reach(a, b))
    } else {
        -(HALF_TURN + lean(m2, inner_reach(a, b)))
    }
}

/// Whether the `i`-th candidate exists and its segment is clear.
pub open spec fn candidate_accepted(
    zones: Seq<Seq<Point>>,
    obstacles: Seq<Obstacle>,
    a: Disk,
    b: Disk,
    i: int,
) -> bool {
    candidate_defined(a, b, i) && path_is_clear(
        zones,
        obstacles,
        a.point_at(candidate_theta(a, b, i)),
        b.point_at(candidate_phi(a, b, i)),
    )
}

/// The `i`-th candidate as a tangent.
pub open spec fn candidate_tangent(a: Disk, b: Disk, i: int) -> Tangent {
    Tangent {
        theta: candidate_theta(a, b, i) as i64,
        phi: candidate_phi(a, b, i) as i64,
        distance: dist(
            a.point_at(candidate_theta(a, b, i)),
            b.point_at(candidate_phi(a, b, i)),
        ) as u64,
    }
}

/// The accepted ones among the first `n` candidates, in their order.
pub open spec fn tangents_upto(
    zones: Seq<Seq<Point>>,
    obstacles: Seq<Obstacle>,
    a: Disk,
    b: Disk,
    n: int,
) -> Seq<Tangent>
    decreases n,
{
    if n <= 0 {
        Seq::empty()
    } else {
        let rest = tangents_upto(zones, obstacles, a, b, n - 1);
        if candidate_accepted(zones, obstacles, a, b, n - 1) {
            rest.push(candidate_tangent(a, b, n - 1))
        } else {
            rest
        }
    }
}

/// The tangents from `a` to `b` that are clear: up to four.
pub open spec fn tangents(zones: Seq<Seq<Point>>, obstacles: Seq<Obstacle>, a: Disk, b: Disk) -> Seq<
    Tangent,
> {
    tangents_upto(zones, obstacles, a, b, 4)
}

/// No more tangents than candidates.
pub proof fn lemma_tangents_len(
    zones: Seq<Seq<Point>>,
    obstacles: Seq<Obstacle>,
    a: Disk,
    b: Disk,
    n: int,
)
    requires
        0 <= n,
    ensures
        tangents_upto(zones, obstacles, a, b, n).len() <= n,
    decreases n,
{
    if n > 0 {
        lemma_tangents_len(zones, obstacles, a, b, n - 1);
    }
}

/// Every tangent is a candidate whose segment is clear, and as long as
/// that segment.
pub proof fn lemma_tangents_clear(
    zones: Seq<Seq<Point>>,
    obstacles: Seq<Obstacle>,
    a: Disk,
    b: Disk,
    n: int,
    k: int,
)
    requires
        a.in_range(),
        b.in_range(),
        0 <= n <= 4,
        0 <= k < tangents_upto(zones, obstacles, a, b, n).len(),
    ensures
        is_clear_tangent(zones, obstacles, a, b, tangents_upto(zones, obstacles, a, b, n)[k]),
    decreases n,
{
    if n > 0 {
        let rest = tangents_upto(zones, obstacles, a, b, n - 1);
        if k < rest.len() {
            lemma_tangents_clear(zones, obstacles, a, b, n - 1, k);
        } else {
            let m2 = dist_sq(a.origin, b.origin);
            assert(-0x8000_0000 <= lean(m2, outer_reach(a, b)) < 0x8000_0000);
            assert(-0x8000_0000 <= lean(m2, inner_reach(a, b)) < 0x8000_0000);
            let theta = candidate_theta(a, b, n - 1);
            let phi = candidate_phi(a, b, n - 1);
            crate::node::lemma_point_on_circle(a, theta);
            crate::node::lemma_point_on_circle(b, phi);
            crate::point::lemma_dist_bound(a.point_at(theta), b.point_at(phi));
        }
    }
}

/// Whether `t` leads from a point of `a` to a point of `b` along a
/// segment that is clear, and is as long as that segment.
pub open spec fn is_clear_tangent(
    zones: Seq<Seq<Point>>,
    obstacles: Seq<Obstacle>,
    a: Disk,
    b: Disk,
    t: Tangent,
) -> bool {
    &&& path_is_clear(zones, obstacles, a.point_at(t.theta as int), b.point_at(t.phi as int))
    &&& t.distance == dist(a.point_at(t.theta as int), b.point_at(t.phi as int))
}

impl Pathfinder {
    /// The angle whose cosine is `reach` over the distance of two centres
    /// that are `m2` apart, squared; none where the centres coincide or
    /// `reach` exceeds their distance.
    pub fn lean_angle(m2: u64, reach: i64) -> (r: Option<i64>)
        requires
            m2 <= 0x200_0000_0000_0000,
            0 <= reach <= 0x1000_0000,
        ensures
            r.is_some() == has_lean(m2 as int, reach as int),
            r matches Some(t) ==> t == lean(m2 as int, reach as int),
    {
        proof {
            lemma_product_bound(reach as int, reach as int, 0x1000_0000, 0x1000_0000);
            assert(reach * reach >= 0) by (nonlinear_arith);
        }
        let rr: u64 = (reach * reach) as u64;
        if m2 == 0 || rr > m2 {
            return None;
        }
        let h: u128 = isqrt((m2 - rr) as u128);
        proof {
            if h > 0x2000_0000 {
                lemma_square_monotone(0x2000_0001, h as int);
            }
        }
        Some(atan2(h as i32, reach as i32) as i64)
    }

    /// The two angles of the `i`-th of the four candidates, from the lean
    /// `t` of its pair: the outer lean for the first two, the inner lean
    /// for the last two. The second of a pair mirrors the first; an inner
    /// tangent reaches the second circle half a turn further round.
    pub fn candidate(t: i64, i: usize) -> (r: (i64, i64))
        requires
            -0x8000_0000 <= t < 0x8000_0000,
            i < 4,
        ensures
            r.0 == (if i == 0 || i == 2 {
                t as int
            } else {
                -t
            }),
            r.1 == (if i == 0 {
                t as int
            } else if i == 1 {
                -t
            } else if i == 2 {
                HALF_TURN + t
            } else {
                -(HALF_TURN + t)
            }),
    {
        if i == 0 {
            (t, t)
        } else if i == 1 {
            (-t, -t)
        } else if i == 2 {
            (t, HALF_TURN + t)
        } else {
            (-t, -(HALF_TURN + t))
        }
    }

    /// The tangents between the circles `a` and `b` that no flyzone edge
    /// and no obstacle blocks, out of the four that two circles can have.
    /// A candidate that does not exist, because the centres coincide or one
    /// circle holds the other, is passed over.
    pub fn find_path(&self, a: &Disk, b: &Disk) -> (r: Vec<Tangent>)
        requires
            self.wf(),
            a.in_range(),
            b.in_range(),
        ensures
            r@ == tangents(self.zones(), self.obstacle_seq(), *a, *b),
    {
        let m2: u64 = a.origin.distance_squared(&b.origin);
        proof {
            lemma_product_bound(a.origin.x - b.origin.x, a.origin.x - b.origin.x, 0x1000_0000, 0x1000_0000);
            lemma_product_bound(a.origin.y - b.origin.y, a.origin.y - b.origin.y, 0x1000_0000, 0x1000_0000);
        }
        let outer: i64 = if b.radius >= a.radius { b.radius - a.radius } else { a.radius - b.radius };
        let inner: i64 = a.radius + b.radius;
        let outer_lean: Option<i64> = Self::lean_angle(m2, outer);
        let inner_lean: Option<i64> = Self::lean_angle(m2, inner);
        let mut found: Vec<Tangent> = Vec::new();
        let mut i: usize = 0;
        while i < 4
            invariant
                self.wf(),
                a.in_range(),
                b.in_range(),
                i <= 4,
                m2 == dist_sq(a.origin, b.origin),
                outer == outer_reach(*a, *b),
                inner == inner_reach(*a, *b),
                outer_lean.is_some() == has_lean(m2 as int, outer as int),
                outer_lean matches Some(t) ==> t == lean(m2 as int, outer as int),
                inner_lean.is_some() == has_lean(m2 as int, inner as int),
                inner_lean matches Some(t) ==> t == lean(m2 as int, inner as int),
                found@ == tangents_upto(self.zones(), self.obstacle_seq(), *a, *b, i as int),
            decreases 4 - i,
        {
            let which: Option<i64> = if i < 2 { outer_lean } else { inner_lean };
            match which {
                None => {},
                Some(t) => {
                    let (theta, phi) = Self::candidate(t, i);
                    let p1: Point = a.to_point(theta);
                    let p2: Point = b.to_point(phi);
                    if self.valid_path(&p1, &p2) {
                        found.push(Tangent { theta, phi, distance: p1.distance(&p2) });
                    }
                },
            }
            i += 1;
        }
        found
    }
}

} // verus!
