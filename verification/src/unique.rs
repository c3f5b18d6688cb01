//! There is one graph of a leg, and one chart of it.
use vstd::prelude::*;
use crate::builder::{arena_matches, planned, woven};
use crate::chart::{arc_part, charted, flat, goal_at, landing_part, offset, out_edges, start_at, takeoff_edges, tangent_part, Chart};
use crate::laws::lemma_unshare;
use crate::network::{disks_of, nodes_wf};
use crate::node::{in_ring, ring_ok, ring_sorted, Disk, Node, Vertex};
use crate::obstacle::Obstacle;
use crate::point::Point;
use crate::route::{has_no_leg_plan, is_leg_plan, leg_dead, leg_route, lemma_unflat};
use crate::search::is_walk;

verus! {

/// Whether the vertex `a` comes before the vertex `b` in the ring of
/// both: by its angle, or, with the same angle, by its place in the arena.
pub open spec fn comes_before(vs: Seq<Vertex>, left: bool, a: int, b: int) -> bool {
    if left {
        vs[a].angle < vs[b].angle || (vs[a].angle == vs[b].angle && a < b)
    } else {
        vs[a].angle > vs[b].angle || (vs[a].angle == vs[b].angle && a < b)
    }
}

/// Whether `m` is the vertex that comes next after `k` in the ring of
/// `k`: it comes after `k`, and no vertex of the ring comes between them.
pub open spec fn follows(vs: Seq<Vertex>, k: int, m: int) -> bool {
    let left = vs[k].angle > 0;
    &&& 0 <= m < vs.len()
    &&& in_ring(left, vs[m].angle as int)
    &&& comes_before(vs, left, k, m)
    &&& forall|j: int|
        0 <= j < vs.len() && in_ring(left, (#[trigger] vs[j]).angle as int) ==> !(comes_before(
            vs,
            left,
            k,
            j,
        ) && comes_before(vs, left, j, m))
}

/// Whether no vertex comes after `k` in the ring of `k`.
pub open spec fn is_last(vs: Seq<Vertex>, k: int) -> bool {
    let left = vs[k].angle > 0;
    forall|j: int|
        0 <= j < vs.len() && in_ring(left, (#[trigger] vs[j]).angle as int) ==> !comes_before(
            vs,
            left,
            k,
            j,
        )
}

/// Of two vertices of a ring the one listed first comes before the other.
proof fn lemma_sorted_pair(vs: Seq<Vertex>, order: Seq<int>, left: bool, i: int, j: int)
    requires
        ring_sorted(vs, order, left),
        0 <= i < j < order.len(),
    ensures
        comes_before(vs, left, order[i], order[j]),
{
    assert(crate::node::stays_before(left, vs[order[i]].angle as int, vs[order[j]].angle as int) && (
    vs[order[i]].angle == vs[order[j]].angle ==> order[i] < order[j]));
}

/// In a well-formed node the `next` of a vertex is the vertex that comes
/// next in its ring; the last vertex of a ring has none.
pub proof fn lemma_next_follows(node: Node, k: int)
    requires
        node.wf(),
        0 <= k < node.vertex_seq().len(),
    ensures
        match node.vertex_seq()[k].next {
            Some(m) => follows(node.vertex_seq(), k, m as int),
            None => is_last(node.vertex_seq(), k),
        },
{
    let vs = node.vertex_seq();
    let left = vs[k].angle > 0;
    let order = node.ring(left);
    assert(ring_ok(vs, node.ring_head(left), order, left));
    assert(in_ring(left, vs[k].angle as int));
    assert(order.contains(k));
    let i = choose|i: int| 0 <= i < order.len() && order[i] == k;
    assert(vs[order[i]].next == (if i + 1 < order.len() {
        Some(order[i + 1] as usize)
    } else {
        None::<usize>
    }));
    assert forall|j: int| 0 <= j < vs.len() && in_ring(left, (#[trigger] vs[j]).angle as int) implies (
    exists|p: int| 0 <= p < order.len() && order[p] == j) by {
        assert(order.contains(j));
    }
    if i + 1 < order.len() {
        let m = order[i + 1];
        assert(0 <= order[i + 1] && order[i + 1] < vs.len());
        assert(order.contains(m));
        assert forall|j: int|
            0 <= j < vs.len() && in_ring(left, (#[trigger] vs[j]).angle as int) implies !(comes_before(
            vs,
            left,
            k,
            j,
        ) && comes_before(vs, left, j, m)) by {
            assert(order.contains(j));
            let p = choose|p: int| 0 <= p < order.len() && order[p] == j;
            if p < i {
                lemma_sorted_pair(vs, order, left, p, i);
            } else if p > i + 1 {
                lemma_sorted_pair(vs, order, left, i + 1, p);
            }
        }
        lemma_sorted_pair(vs, order, left, i, i + 1);
        assert(in_ring(left, vs[m].angle as int));
        assert(vs[k].next == Some(m as usize));
        assert(follows(vs, k, m));
    } else {
        assert forall|j: int|
            0 <= j < vs.len() && in_ring(left, (#[trigger] vs[j]).angle as int) implies !comes_before(
            vs,
            left,
            k,
            j,
        ) by {
            assert(order.contains(j));
            let p = choose|p: int| 0 <= p < order.len() && order[p] == j;
            if p < i {
                lemma_sorted_pair(vs, order, left, p, i);
            }
        }
        assert(vs[k].next == None::<usize>);
        assert(is_last(vs, k));
    }
}

/// Whether two graphs hold the same: as many nodes, on the same circles,
/// with the same vertices.
pub open spec fn same_graph(a: Seq<Node>, b: Seq<Node>) -> bool {
    &&& a.len() == b.len()
    &&& forall|x: int|
        0 <= x < a.len() ==> (#[trigger] a[x]).disk_of() == b[x].disk_of() && a[x].vertex_seq()
            == b[x].vertex_seq()
}

/// Two well-formed nodes with the same vertices but for their links have
/// the same links too.
pub proof fn lemma_same_links(a: Node, b: Node)
    requires
        a.wf(),
        b.wf(),
        a.vertex_seq().len() == b.vertex_seq().len(),
        forall|k: int|
            0 <= k < a.vertex_seq().len() ==> (#[trigger] a.vertex_seq()[k]).angle
                == b.vertex_seq()[k].angle && a.vertex_seq()[k].connection
                == b.vertex_seq()[k].connection,
    ensures
        a.vertex_seq() == b.vertex_seq(),
{
    let va = a.vertex_seq();
    let vb = b.vertex_seq();
    assert forall|k: int| 0 <= k < va.len() implies va[k] == vb[k] by {
        lemma_next_follows(a, k);
        lemma_next_follows(b, k);
        let left = va[k].angle > 0;
        assert(va[k].angle == vb[k].angle);
        assert forall|j: int, i: int| 0 <= j < va.len() && 0 <= i < va.len() implies comes_before(
            va,
            left,
            j,
            i,
        ) == comes_before(vb, left, j, i) by {
            assert(va[j].angle == vb[j].angle);
            assert(va[i].angle == vb[i].angle);
        }
        match (va[k].next, vb[k].next) {
            (Some(m), Some(w)) => {
                assert(va[m as int].angle == vb[m as int].angle);
                assert(va[w as int].angle == vb[w as int].angle);
                if m != w {
                    // one of the two comes between `k` and the other
                    assert(comes_before(va, left, m as int, w as int) || comes_before(
                        va,
                        left,
                        w as int,
                        m as int,
                    ));
                    assert(in_ring(left, va[m as int].angle as int));
                    assert(in_ring(left, vb[w as int].angle as int));
                }
            },
            (Some(m), None) => {
                assert(va[m as int].angle == vb[m as int].angle);
                assert(in_ring(left, vb[m as int].angle as int));
            },
            (None, Some(w)) => {
                assert(va[w as int].angle == vb[w as int].angle);
                assert(in_ring(left, va[w as int].angle as int));
            },
            (None, None) => {},
        }
    }
    assert(va =~= vb);
}

/// The circles, the flyzones and the obstacles leave one graph to weave.
pub proof fn lemma_woven_is_unique(
    zones: Seq<Seq<Point>>,
    obstacles: Seq<Obstacle>,
    disks: Seq<Disk>,
    a: Seq<Node>,
    b: Seq<Node>,
)
    requires
        woven(zones, obstacles, disks, a),
        woven(zones, obstacles, disks, b),
    ensures
        same_graph(a, b),
{
    let n = a.len() as int;
    assert(disks_of(a).len() == disks_of(b).len());
    assert forall|x: int| 0 <= x < a.len() implies (#[trigger] a[x]).disk_of() == b[x].disk_of()
        && a[x].vertex_seq() == b[x].vertex_seq() by {
        assert(disks_of(a)[x] == disks_of(b)[x]);
        assert(arena_matches(a[x].vertex_seq(), zones, obstacles, disks, x, n));
        assert(arena_matches(b[x].vertex_seq(), zones, obstacles, disks, x, n));
        assert forall|k: int| 0 <= k < a[x].vertex_seq().len() implies (
        #[trigger] a[x].vertex_seq()[k]).angle == b[x].vertex_seq()[k].angle
            && a[x].vertex_seq()[k].connection == b[x].vertex_seq()[k].connection by {
            let (y, j) = lemma_unshare(zones, obstacles, disks, x, n, k);
            let p = planned(zones, obstacles, disks, x, y, j);
        }
        assert(a[x].wf());
        assert(b[x].wf());
        lemma_same_links(a[x], b[x]);
    }
}

/// The same graphs number their vertices alike.
pub proof fn lemma_same_offsets(a: Seq<Node>, b: Seq<Node>, x: int)
    requires
        same_graph(a, b),
        0 <= x <= a.len(),
    ensures
        offset(a, x) == offset(b, x),
    decreases x,
{
    if x > 0 {
        lemma_same_offsets(a, b, x - 1);
        assert(a[x - 1].vertex_seq() == b[x - 1].vertex_seq());
    }
}

/// The same graphs have the same edges from every vertex.
pub proof fn lemma_same_out_edges(
    a: Seq<Node>,
    b: Seq<Node>,
    zones: Seq<Seq<Point>>,
    obstacles: Seq<Obstacle>,
    end: Point,
    x: int,
    k: int,
)
    requires
        same_graph(a, b),
        crate::network::links_ok(a),
        nodes_wf(a),
        0 <= x < a.len(),
        0 <= k < a[x].vertex_seq().len(),
    ensures
        out_edges(a, zones, obstacles, end, x, k) == out_edges(b, zones, obstacles, end, x, k),
{
    lemma_same_offsets(a, b, x);
    lemma_same_offsets(a, b, a.len() as int);
    assert(a[x].vertex_seq() == b[x].vertex_seq());
    assert(a[x].disk_of() == b[x].disk_of());
    match a[x].vertex_seq()[k].connection {
        None => {},
        Some(c) => {
            assert(crate::network::link_ok(a, x, k));
            let y = c.neighbor.node as int;
            lemma_same_offsets(a, b, y);
            assert(a[y].vertex_seq() == b[y].vertex_seq());
            assert(a[y].disk_of() == b[y].disk_of());
        },
    }
    assert(tangent_part(a, end, x, k) == tangent_part(b, end, x, k));
    assert(arc_part(a, end, x, k) == arc_part(b, end, x, k));
    assert(landing_part(a, zones, obstacles, end, x, k) == landing_part(b, zones, obstacles, end, x, k));
}

/// The same graphs have the same edges from the start of the leg.
pub proof fn lemma_same_takeoff(
    a: Seq<Node>,
    b: Seq<Node>,
    zones: Seq<Seq<Point>>,
    obstacles: Seq<Obstacle>,
    start: Point,
    end: Point,
    k: int,
)
    requires
        same_graph(a, b),
        a.len() >= 2,
        0 <= k <= a[a.len() - 2].vertex_seq().len(),
    ensures
        takeoff_edges(a, zones, obstacles, start, end, k) == takeoff_edges(
            b,
            zones,
            obstacles,
            start,
            end,
            k,
        ),
    decreases k,
{
    if k > 0 {
        lemma_same_takeoff(a, b, zones, obstacles, start, end, k - 1);
        let x = a.len() - 2;
        lemma_same_offsets(a, b, x);
        assert(a[x].vertex_seq() == b[x].vertex_seq());
        assert(a[x].disk_of() == b[x].disk_of());
    }
}

/// The charts of the same graphs have the same edges.
pub proof fn lemma_same_charts(
    c1: Chart,
    c2: Chart,
    a: Seq<Node>,
    b: Seq<Node>,
    zones: Seq<Seq<Point>>,
    obstacles: Seq<Obstacle>,
    start: Point,
    end: Point,
)
    requires
        same_graph(a, b),
        a.len() >= 2,
        crate::network::links_ok(a),
        nodes_wf(a),
        charted(c1, a, zones, obstacles, start, end),
        charted(c2, b, zones, obstacles, start, end),
    ensures
        c1.graph.edges() == c2.graph.edges(),
        start_at(a) == start_at(b),
{
    let e1 = c1.graph.edges();
    let e2 = c2.graph.edges();
    lemma_same_offsets(a, b, a.len() as int);
    let total = start_at(a);
    assert forall|v: int| 0 <= v < e1.len() implies e1[v] == e2[v] by {
        if v < total {
            let (x, k) = lemma_unflat(a, v, a.len() as int);
            lemma_same_offsets(a, b, x);
            assert(a[x].vertex_seq() == b[x].vertex_seq());
            assert(flat(a, x, k) == flat(b, x, k));
            lemma_same_out_edges(a, b, zones, obstacles, end, x, k);
            assert(e1[flat(a, x, k)] == out_edges(a, zones, obstacles, end, x, k));
            assert(e2[flat(b, x, k)] == out_edges(b, zones, obstacles, end, x, k));
        } else if v == total {
            let x = a.len() - 2;
            assert(a[x].vertex_seq() == b[x].vertex_seq());
            lemma_same_takeoff(a, b, zones, obstacles, start, end, a[x].vertex_seq().len() as int);
        }
    }
    assert(e1 =~= e2);
}

/// A leg that has a plan is no leg without one.
pub proof fn lemma_plan_or_none(
    zones: Seq<Seq<Point>>,
    obstacles: Seq<Obstacle>,
    start: Point,
    end: Point,
    w: Seq<crate::mission::Waypoint>,
)
    requires
        is_leg_plan(zones, obstacles, start, end, w),
    ensures
        !has_no_leg_plan(zones, obstacles, start, end),
{
    let (a, c1, es) = choose|nodes: Seq<Node>, chart: Chart, es: Seq<usize>| #[trigger]
        leg_route(zones, obstacles, start, end, nodes, chart, es) && w
            == crate::route::route_waypoints(chart, nodes, es);
    assert forall|b: Seq<Node>, c2: Chart| !#[trigger] leg_dead(zones, obstacles, start, end, b, c2) by {
        if leg_dead(zones, obstacles, start, end, b, c2) {
            let disks = crate::leg::leg_disks(obstacles, start, end);
            lemma_woven_is_unique(zones, obstacles, disks, a, b);
            lemma_same_offsets(a, b, a.len() as int);
            if start_at(b) + 2 > usize::MAX {
            } else {
                lemma_same_charts(c1, c2, a, b, zones, obstacles, start, end);
                assert(is_walk(c2.graph.edges(), start_at(b), goal_at(b), es));
            }
        }
    }
}

} // verus!
