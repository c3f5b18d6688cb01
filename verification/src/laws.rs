//! What holds of the graph and of the plans, whatever the configuration.
use vstd::prelude::*;
use crate::builder::{arena_matches, built, pair_tangents, planned, share, woven};
use crate::chart::{flat, landing_part, arc_part, lemma_flat_bound, offset, out_edges, place, start_at, takeoff_edges, tangent_part, Chart};
use crate::mission::Waypoint;
use crate::network::{disks_of, link_clear, link_ok};
use crate::node::Node;
use crate::obstacle::Obstacle;
use crate::point::Point;
use crate::route::{is_leg_plan, leg_route, lemma_step, lemma_unflat, route_waypoints, waypoint_at};
use crate::search::{arrives, EdgeKind};
use crate::validator::{path_is_clear, segment_is_clear};

verus! {

/// How many vertices, and so how many connections, the first `upto` nodes
/// of a graph have.
pub open spec fn connection_count(nodes: Seq<Node>, upto: int) -> int {
    offset(nodes, upto)
}

/// Whether two nodes have the same vertices: as many, at the same angles,
/// with the same connections.
pub open spec fn same_vertices(a: Node, b: Node) -> bool {
    &&& a.vertex_seq().len() == b.vertex_seq().len()
    &&& forall|k: int|
        0 <= k < a.vertex_seq().len() ==> (#[trigger] a.vertex_seq()[k]).angle
            == b.vertex_seq()[k].angle && a.vertex_seq()[k].connection
            == b.vertex_seq()[k].connection
}

/// Every vertex that a node has from its tangents with the nodes below
/// `upto` comes from one of those nodes.
pub proof fn lemma_unshare(
    zones: Seq<Seq<Point>>,
    obstacles: Seq<Obstacle>,
    disks: Seq<crate::node::Disk>,
    x: int,
    upto: int,
    v: int,
) -> (r: (int, int))
    requires
        0 <= upto,
        0 <= v < share(zones, obstacles, disks, x, upto),
    ensures
        0 <= r.0 < upto,
        r.0 != x,
        0 <= r.1 < pair_tangents(zones, obstacles, disks, x, r.0).len(),
        share(zones, obstacles, disks, x, r.0) + r.1 == v,
    decreases upto,
{
    crate::builder::lemma_share_monotone(zones, obstacles, disks, x, upto - 1, upto - 1);
    if v >= share(zones, obstacles, disks, x, upto - 1) {
        (upto - 1, v - share(zones, obstacles, disks, x, upto - 1))
    } else {
        lemma_unshare(zones, obstacles, disks, x, upto - 1, v)
    }
}

/// Nodes with as many vertices each have as many in all.
proof fn lemma_same_count(a: Seq<Node>, b: Seq<Node>, upto: int)
    requires
        0 <= upto <= a.len(),
        a.len() == b.len(),
        forall|x: int| 0 <= x < a.len() ==> (#[trigger] a[x]).vertex_seq().len() == b[x].vertex_seq().len(),
    ensures
        offset(a, upto) == offset(b, upto),
    decreases upto,
{
    if upto > 0 {
        lemma_same_count(a, b, upto - 1);
        assert(a[upto - 1].vertex_seq().len() == b[upto - 1].vertex_seq().len());
    }
}

/// Building the graph again from one configuration gives the same graph:
/// the same circles, on each node the same vertices with the same
/// connections, and as many connections in all.
pub proof fn lemma_rebuilt_graph_is_the_same(
    zones: Seq<Seq<Point>>,
    obstacles: Seq<Obstacle>,
    a: Seq<Node>,
    b: Seq<Node>,
)
    requires
        built(zones, obstacles, a),
        built(zones, obstacles, b),
    ensures
        a.len() == b.len(),
        disks_of(a) == disks_of(b),
        forall|x: int| 0 <= x < a.len() ==> same_vertices(#[trigger] a[x], b[x]),
        connection_count(a, a.len() as int) == connection_count(b, b.len() as int),
{
    let disks = crate::builder::obstacle_disks(obstacles);
    let n = a.len() as int;
    assert forall|x: int| 0 <= x < a.len() implies same_vertices(#[trigger] a[x], b[x]) by {
        assert(arena_matches(a[x].vertex_seq(), zones, obstacles, disks, x, n));
        assert(arena_matches(b[x].vertex_seq(), zones, obstacles, disks, x, n));
        assert forall|k: int| 0 <= k < a[x].vertex_seq().len() implies (
        #[trigger] a[x].vertex_seq()[k]).angle == b[x].vertex_seq()[k].angle
            && a[x].vertex_seq()[k].connection == b[x].vertex_seq()[k].connection by {
            let (y, j) = lemma_unshare(zones, obstacles, disks, x, n, k);
            let p = planned(zones, obstacles, disks, x, y, j);
        }
    }
    lemma_same_count(a, b, n);
}

/// In the graph of a configuration every vertex has a connection.
pub proof fn lemma_every_vertex_connected(
    zones: Seq<Seq<Point>>,
    obstacles: Seq<Obstacle>,
    disks: Seq<crate::node::Disk>,
    nodes: Seq<Node>,
    x: int,
    k: int,
)
    requires
        woven(zones, obstacles, disks, nodes),
        0 <= x < nodes.len(),
        0 <= k < nodes[x].vertex_seq().len(),
    ensures
        nodes[x].vertex_seq()[k].connection.is_some(),
{
    assert(arena_matches(nodes[x].vertex_seq(), zones, obstacles, disks, x, nodes.len() as int));
    let (y, j) = lemma_unshare(zones, obstacles, disks, x, nodes.len() as int, k);
    let p = planned(zones, obstacles, disks, x, y, j);
}

/// The plan of a leg has a waypoint, and its last waypoint is the end of
/// the leg.
pub proof fn lemma_plan_reaches_the_goal(
    zones: Seq<Seq<Point>>,
    obstacles: Seq<Obstacle>,
    start: Point,
    end: Point,
    w: Seq<Waypoint>,
)
    requires
        is_leg_plan(zones, obstacles, start, end, w),
    ensures
        w.len() >= 1,
        w.last().location == end,
{
    let (nodes, chart, es) = choose|nodes: Seq<Node>, chart: Chart, es: Seq<usize>| #[trigger]
        leg_route(zones, obstacles, start, end, nodes, chart, es) && w == route_waypoints(
            chart,
            nodes,
            es,
        );
    let edges = chart.graph.edges();
    crate::chart::lemma_offset_monotone(nodes, 0, nodes.len() as int);
    if es.len() == 0 {
        assert(arrives(edges, start_at(nodes), es) == start_at(nodes));
    }
    assert(es.take(es.len() as int) =~= es);
    assert(w[es.len() - 1] == waypoint_at(chart, nodes, es, es.len() - 1));
}

/// Every edge that leaves the start of a leg runs along a clear segment.
proof fn lemma_takeoff_clear(
    nodes: Seq<Node>,
    zones: Seq<Seq<Point>>,
    obstacles: Seq<Obstacle>,
    start: Point,
    end: Point,
    k: int,
    e: int,
) -> (j: int)
    requires
        0 <= k <= nodes[nodes.len() - 2].vertex_seq().len(),
        nodes.len() >= 2,
        start_at(nodes) + 2 <= usize::MAX,
        0 <= e < takeoff_edges(nodes, zones, obstacles, start, end, k).len(),
    ensures
        0 <= j < k,
        takeoff_edges(nodes, zones, obstacles, start, end, k)[e].to == flat(nodes, nodes.len() - 2, j),
        takeoff_edges(nodes, zones, obstacles, start, end, k)[e].kind == EdgeKind::Approach,
        path_is_clear(zones, obstacles, start, place(nodes, nodes.len() - 2, j)),
    decreases k,
{
    let rest = takeoff_edges(nodes, zones, obstacles, start, end, k - 1);
    if e < rest.len() {
        lemma_takeoff_clear(nodes, zones, obstacles, start, end, k - 1, e)
    } else {
        lemma_flat_bound(nodes, nodes.len() - 2, k - 1);
        k - 1
    }
}

/// In the chart of a graph whose connections are as long as their
/// segments, a tangent weighs what its connection is long: along a straight
/// segment the estimate never drops by more than the segment is long, so
/// that nothing is raised.
pub proof fn lemma_tangent_weighs_its_length(
    zones: Seq<Seq<Point>>,
    obstacles: Seq<Obstacle>,
    nodes: Seq<Node>,
    end: Point,
    x: int,
    k: int,
)
    requires
        crate::network::nodes_wf(nodes),
        crate::network::links_ok(nodes),
        crate::network::links_clear(zones, obstacles, nodes),
        end.in_range(),
        0 <= x < nodes.len(),
        0 <= k < nodes[x].vertex_seq().len(),
    ensures
        nodes[x].vertex_seq()[k].connection matches Some(c) ==> tangent_part(nodes, end, x, k)[0].weight
            == c.distance,
{
    match nodes[x].vertex_seq()[k].connection {
        None => {},
        Some(c) => {
            assert(link_ok(nodes, x, k));
            assert(link_clear(zones, obstacles, nodes, x, k));
            let y = c.neighbor.node as int;
            let j = c.neighbor.vertex as int;
            assert(nodes[x].wf());
            assert(nodes[y].wf());
            crate::node::lemma_point_on_circle(nodes[x].disk_of(), nodes[x].vertex_seq()[k].angle as int);
            crate::node::lemma_point_on_circle(nodes[y].disk_of(), nodes[y].vertex_seq()[j].angle as int);
            let here = place(nodes, x, k);
            let there = place(nodes, y, j);
            crate::point::lemma_dist_bound(here, end);
            crate::point::lemma_dist_bound(there, end);
            crate::point::lemma_dist_triangle(here, there, end);
        },
    }
}

/// The way from the start of a leg to a vertex of its node weighs what
/// its segment is long.
pub proof fn lemma_takeoff_weighs_its_length(
    nodes: Seq<Node>,
    zones: Seq<Seq<Point>>,
    obstacles: Seq<Obstacle>,
    start: Point,
    end: Point,
    k: int,
    e: int,
) -> (j: int)
    requires
        crate::network::nodes_wf(nodes),
        start.in_range(),
        end.in_range(),
        nodes.len() >= 2,
        0 <= k <= nodes[nodes.len() - 2].vertex_seq().len(),
        0 <= e < takeoff_edges(nodes, zones, obstacles, start, end, k).len(),
    ensures
        0 <= j < k,
        takeoff_edges(nodes, zones, obstacles, start, end, k)[e].weight == crate::point::dist(
            start,
            place(nodes, nodes.len() - 2, j),
        ),
    decreases k,
{
    let rest = takeoff_edges(nodes, zones, obstacles, start, end, k - 1);
    if e < rest.len() {
        lemma_takeoff_weighs_its_length(nodes, zones, obstacles, start, end, k - 1, e)
    } else {
        let x = nodes.len() - 2;
        assert(nodes[x].wf());
        crate::node::lemma_point_on_circle(nodes[x].disk_of(), nodes[x].vertex_seq()[k - 1].angle as int);
        let there = place(nodes, x, k - 1);
        crate::point::lemma_dist_bound(start, there);
        crate::point::lemma_dist_bound(start, end);
        crate::point::lemma_dist_bound(there, end);
        crate::point::lemma_dist_triangle(start, there, end);
        k - 1
    }
}

/// Whether a step of a walk through a chart is straight: not an arc.
pub open spec fn step_is_straight(chart: Chart, s: int, es: Seq<usize>, i: int) -> bool {
    let edges = chart.graph.edges();
    edges[arrives(edges, s, es.take(i))][es[i] as int].kind != EdgeKind::Arc
}

/// Every straight step of the route of a leg runs along a segment that is
/// clear of every flyzone edge and every obstacle, one way or the other.
pub proof fn lemma_straight_steps_are_clear(
    zones: Seq<Seq<Point>>,
    obstacles: Seq<Obstacle>,
    start: Point,
    end: Point,
    nodes: Seq<Node>,
    chart: Chart,
    es: Seq<usize>,
    i: int,
)
    requires
        leg_route(zones, obstacles, start, end, nodes, chart, es),
        0 <= i < es.len(),
        step_is_straight(chart, start_at(nodes), es, i),
    ensures
        segment_is_clear(
            zones,
            obstacles,
            chart.pos[arrives(chart.graph.edges(), start_at(nodes), es.take(i))],
            chart.pos[arrives(chart.graph.edges(), start_at(nodes), es.take(i + 1))],
        ),
{
    let edges = chart.graph.edges();
    let total = start_at(nodes);
    lemma_step(edges, total, es, i);
    let u = arrives(edges, total, es.take(i));
    let e = es[i] as int;
    crate::chart::lemma_offset_monotone(nodes, 0, nodes.len() as int);
    if u < total {
        let (x, k) = lemma_unflat(nodes, u, nodes.len() as int);
        assert(edges[flat(nodes, x, k)] == out_edges(nodes, zones, obstacles, end, x, k));
        let t = tangent_part(nodes, end, x, k);
        let a = arc_part(nodes, end, x, k);
        let l = landing_part(nodes, zones, obstacles, end, x, k);
        if e < t.len() {
            assert(link_ok(nodes, x, k));
            assert(link_clear(zones, obstacles, nodes, x, k));
            let c = nodes[x].vertex_seq()[k].connection->Some_0;
            lemma_flat_bound(nodes, c.neighbor.node as int, c.neighbor.vertex as int);
            assert(chart.pos[flat(nodes, c.neighbor.node as int, c.neighbor.vertex as int)] == place(
                nodes,
                c.neighbor.node as int,
                c.neighbor.vertex as int,
            ));
        } else if e < t.len() + a.len() {
            assert(edges[u][e] == a[e - t.len()]);
        } else {
            assert(edges[u][e] == l[e - t.len() - a.len()]);
        }
    } else if u == total {
        let j = lemma_takeoff_clear(
            nodes,
            zones,
            obstacles,
            start,
            end,
            nodes[nodes.len() - 2].vertex_seq().len() as int,
            e,
        );
        lemma_flat_bound(nodes, nodes.len() - 2, j);
        assert(chart.pos[flat(nodes, nodes.len() - 2, j)] == place(nodes, nodes.len() - 2, j));
    }
}

} // verus!
