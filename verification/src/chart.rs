//! The chart of a leg: its graph laid out for the search, every vertex of
//! every node numbered in one row, with the two ends of the leg after
//! them.
use vstd::prelude::*;
use crate::network::{link_ok, links_ok, nodes_wf};
use crate::node::{in_ring, lemma_point_on_circle, ring_ok, Node, Vertex, VertexId};
use crate::obstacle::Obstacle;
use crate::planner::Pathfinder;
use crate::point::{dist, lemma_dist_bound, Point};
use crate::search::{consistent, Edge, EdgeKind, SearchGraph};
use crate::validator::path_is_clear;

verus! {

/// The number of the first vertex of the node `x`: how many vertices the
/// nodes before it have.
pub open spec fn offset(nodes: Seq<Node>, x: int) -> int
    decreases x,
{
    if x <= 0 {
        0
    } else {
        offset(nodes, x - 1) + nodes[x - 1].vertex_seq().len()
    }
}

/// The number of the `k`-th vertex of the node `x`.
pub open spec fn flat(nodes: Seq<Node>, x: int, k: int) -> int {
    offset(nodes, x) + k
}

/// The number of the start of the leg: the vertices of all nodes come
/// before it.
pub open spec fn start_at(nodes: Seq<Node>) -> int {
    offset(nodes, nodes.len() as int)
}

/// The number of the goal of the leg.
pub open spec fn goal_at(nodes: Seq<Node>) -> int {
    offset(nodes, nodes.len() as int) + 1
}

/// Where the `k`-th vertex of the node `x` lies.
pub open spec fn place(nodes: Seq<Node>, x: int, k: int) -> Point {
    nodes[x].point_at(nodes[x].vertex_seq()[k].angle as int)
}

/// The estimate for the `k`-th vertex of the node `x`: its distance from
/// the end of the leg.
pub open spec fn estimate(nodes: Seq<Node>, end: Point, x: int, k: int) -> u64 {
    dist(place(nodes, x, k), end) as u64
}

/// The length of the arc of a circle of this radius between two angles,
/// rounded up, and no more than a `u64` holds. Pi is taken as 3.141593.
pub open spec fn arc_length(radius: int, from: int, to: int) -> int {
    let turn = if from >= to {
        from - to
    } else {
        to - from
    };
    let q = (radius * turn * 3141593 + 2147483647999999) / 2147483648000000;
    if q > u64::MAX {
        u64::MAX as int
    } else {
        q
    }
}

/// The weight of an edge of length `w` between vertices with the
/// estimates `here` and `there`: its length, raised where the estimate
/// would else drop by more than the edge is long. Along a straight segment
/// no estimate does; along an arc whose ends are rounded to the grid one
/// may.
pub open spec fn raised(w: u64, here: u64, there: u64) -> u64 {
    if here - there > w {
        (here - there) as u64
    } else {
        w
    }
}

/// The tangent that leaves the `k`-th vertex of the node `x`, if any.
pub open spec fn tangent_part(nodes: Seq<Node>, end: Point, x: int, k: int) -> Seq<Edge> {
    match nodes[x].vertex_seq()[k].connection {
        None => Seq::empty(),
        Some(c) => seq![
            Edge {
                to: flat(nodes, c.neighbor.node as int, c.neighbor.vertex as int) as usize,
                weight: raised(
                    c.distance,
                    estimate(nodes, end, x, k),
                    estimate(nodes, end, c.neighbor.node as int, c.neighbor.vertex as int),
                ),
                kind: EdgeKind::Tangent,
            },
        ],
    }
}

/// The arc from the `k`-th vertex of the node `x` to the next vertex of
/// its ring, if any.
pub open spec fn arc_part(nodes: Seq<Node>, end: Point, x: int, k: int) -> Seq<Edge> {
    match nodes[x].vertex_seq()[k].next {
        None => Seq::empty(),
        Some(m) => seq![
            Edge {
                to: flat(nodes, x, m as int) as usize,
                weight: raised(
                    arc_length(
                        nodes[x].radius as int,
                        nodes[x].vertex_seq()[k].angle as int,
                        nodes[x].vertex_seq()[m as int].angle as int,
                    ) as u64,
                    estimate(nodes, end, x, k),
                    estimate(nodes, end, x, m as int),
                ),
                kind: EdgeKind::Arc,
            },
        ],
    }
}

/// The straight way from the `k`-th vertex of the goal's node to the goal,
/// if it is clear. The goal's node is the last.
pub open spec fn landing_part(
    nodes: Seq<Node>,
    zones: Seq<Seq<Point>>,
    obstacles: Seq<Obstacle>,
    end: Point,
    x: int,
    k: int,
) -> Seq<Edge> {
    if x == nodes.len() - 1 && path_is_clear(zones, obstacles, place(nodes, x, k), end) {
        seq![
            Edge {
                to: goal_at(nodes) as usize,
                weight: estimate(nodes, end, x, k),
                kind: EdgeKind::Approach,
            },
        ]
    } else {
        Seq::empty()
    }
}

/// The edges that leave the `k`-th vertex of the node `x`: its tangent,
/// its arc, and its way to the goal.
pub open spec fn out_edges(
    nodes: Seq<Node>,
    zones: Seq<Seq<Point>>,
    obstacles: Seq<Obstacle>,
    end: Point,
    x: int,
    k: int,
) -> Seq<Edge> {
    tangent_part(nodes, end, x, k) + arc_part(nodes, end, x, k) + landing_part(
        nodes,
        zones,
        obstacles,
        end,
        x,
        k,
    )
}

/// The edges that leave the start of the leg for the first `k` vertices
/// of its node, the last but one: to each that it can reach along a clear
/// segment.
pub open spec fn takeoff_edges(
    nodes: Seq<Node>,
    zones: Seq<Seq<Point>>,
    obstacles: Seq<Obstacle>,
    start: Point,
    end: Point,
    k: int,
) -> Seq<Edge>
    decreases k,
{
    if k <= 0 {
        Seq::empty()
    } else {
        let x = nodes.len() - 2;
        let rest = takeoff_edges(nodes, zones, obstacles, start, end, k - 1);
        if path_is_clear(zones, obstacles, start, place(nodes, x, k - 1)) {
            rest.push(
                Edge {
                    to: flat(nodes, x, k - 1) as usize,
                    weight: raised(
                        dist(start, place(nodes, x, k - 1)) as u64,
                        dist(start, end) as u64,
                        estimate(nodes, end, x, k - 1),
                    ),
                    kind: EdgeKind::Approach,
                },
            )
        } else {
            rest
        }
    }
}

/// A leg laid out for the search.
pub struct Chart {
    pub graph: SearchGraph,
    /// The node and the arena index of each vertex but the two ends.
    pub owner: Vec<VertexId>,
    /// Where each vertex lies.
    pub pos: Vec<Point>,
}

/// Whether `chart` is the chart of the leg from `start` to `end` through
/// the nodes `nodes`, of which the last two are those of the ends.
pub open spec fn charted(
    chart: Chart,
    nodes: Seq<Node>,
    zones: Seq<Seq<Point>>,
    obstacles: Seq<Obstacle>,
    start: Point,
    end: Point,
) -> bool {
    let total = start_at(nodes);
    let edges = chart.graph.edges();
    &&& edges.len() == total + 2
    &&& chart.graph.h.len() == total + 2
    &&& chart.pos.len() == total + 2
    &&& chart.owner.len() == total
    &&& forall|x: int, k: int|
        0 <= x < nodes.len() && 0 <= k < nodes[x].vertex_seq().len() ==> {
            let v = #[trigger] flat(nodes, x, k);
            &&& chart.owner[v] == VertexId { node: x as usize, vertex: k as usize }
            &&& chart.pos[v] == place(nodes, x, k)
            &&& chart.graph.h[v] == estimate(nodes, end, x, k)
            &&& edges[v] == out_edges(nodes, zones, obstacles, end, x, k)
        }
    &&& chart.pos[total] == start
    &&& chart.pos[total + 1] == end
    &&& chart.graph.h[total] == dist(start, end)
    &&& chart.graph.h[total + 1] == 0
    &&& edges[total] == takeoff_edges(
        nodes,
        zones,
        obstacles,
        start,
        end,
        nodes[nodes.len() - 2].vertex_seq().len() as int,
    )
    &&& edges[total + 1] == Seq::<Edge>::empty()
}

/// The vertices of a node are numbered after those of the nodes before it.
pub proof fn lemma_offset_monotone(nodes: Seq<Node>, lo: int, hi: int)
    requires
        0 <= lo <= hi,
    ensures
        0 <= offset(nodes, lo) <= offset(nodes, hi),
    decreases hi,
{
    if lo < hi {
        lemma_offset_monotone(nodes, lo, hi - 1);
    } else if lo > 0 {
        lemma_offset_monotone(nodes, lo - 1, hi - 1);
    }
}

/// Every vertex of a node has a number below that of the start.
pub proof fn lemma_flat_bound(nodes: Seq<Node>, x: int, k: int)
    requires
        0 <= x < nodes.len(),
        0 <= k < nodes[x].vertex_seq().len(),
    ensures
        0 <= offset(nodes, x) <= flat(nodes, x, k) < offset(nodes, x + 1) <= start_at(nodes),
{
    lemma_offset_monotone(nodes, x, x);
    lemma_offset_monotone(nodes, x + 1, nodes.len() as int);
}

/// The `next` of a vertex of a well-formed node is a vertex of that node.
pub proof fn lemma_next_in_arena(node: Node, k: int)
    requires
        node.wf(),
        0 <= k < node.vertex_seq().len(),
    ensures
        node.vertex_seq()[k].next matches Some(m) ==> m < node.vertex_seq().len(),
{
    let vs = node.vertex_seq();
    let left = vs[k].angle > 0;
    let order = node.ring(left);
    assert(ring_ok(vs, node.ring_head(left), order, left));
    assert(in_ring(left, vs[k].angle as int));
    assert(order.contains(k));
    let i = choose|i: int| 0 <= i < order.len() && order[i] == k;
    assert(vs[order[i]].next == (if i + 1 < order.len() {
        Some(order[i + 1] as usize)
    } else {
        None::<usize>
    }));
    if i + 1 < order.len() {
        assert(0 <= order[i + 1] && order[i + 1] < vs.len());
    }
}

/// Whether the numbers of the first `x` nodes have been told: `offsets`
/// holds the number of the first vertex of each, and of the node after them.
pub open spec fn offsets_ok(offsets: Seq<usize>, nodes: Seq<Node>, x: int) -> bool {
    &&& offsets.len() == x + 1
    &&& forall|y: int| 0 <= y <= x ==> #[trigger] offsets[y] == offset(nodes, y)
}

/// Whether the first vertices, up to but not including the `k`-th of the
/// node `x`, have their owner, place and estimate.
pub open spec fn placed(
    owner: Seq<VertexId>,
    pos: Seq<Point>,
    h: Seq<u64>,
    nodes: Seq<Node>,
    end: Point,
    x: int,
    k: int,
) -> bool {
    &&& owner.len() == flat(nodes, x, k)
    &&& pos.len() >= flat(nodes, x, k)
    &&& h.len() >= flat(nodes, x, k)
    &&& forall|y: int, j: int|
        0 <= y < nodes.len() && 0 <= j < nodes[y].vertex_seq().len() && (y < x || (y == x && j < k))
            ==> {
            let v = #[trigger] flat(nodes, y, j);
            &&& owner[v] == VertexId { node: y as usize, vertex: j as usize }
            &&& pos[v] == place(nodes, y, j)
            &&& h[v] == estimate(nodes, end, y, j)
        }
}

/// Whether the first vertices, up to but not including the `k`-th of the
/// node `x`, have their edges.
pub open spec fn edged(
    succ: Seq<Vec<Edge>>,
    nodes: Seq<Node>,
    zones: Seq<Seq<Point>>,
    obstacles: Seq<Obstacle>,
    end: Point,
    x: int,
    k: int,
) -> bool {
    &&& succ.len() == flat(nodes, x, k)
    &&& forall|y: int, j: int|
        0 <= y < nodes.len() && 0 <= j < nodes[y].vertex_seq().len() && (y < x || (y == x && j < k))
            ==> succ[#[trigger] flat(nodes, y, j)]@ == out_edges(nodes, zones, obstacles, end, y, j)
}

/// Whether the edges `out` of the vertex `u` lead into the chart, and the
/// estimate is consistent along them.
pub open spec fn sound_edges(out: Seq<Edge>, h: Seq<u64>, u: int) -> bool {
    forall|e: int|
        0 <= e < out.len() ==> (#[trigger] out[e]).to < h.len() && h[u] <= out[e].weight
            + h[out[e].to as int]
}

/// Whether the edges of the first vertices are sound.
pub open spec fn sound_so_far(succ: Seq<Vec<Edge>>, h: Seq<u64>) -> bool {
    forall|u: int| 0 <= u < succ.len() ==> sound_edges(#[trigger] succ[u]@, h, u)
}

impl Pathfinder {
    /// The length of the arc of a circle of this radius between two angles.
    pub fn arc(radius: i64, from: i64, to: i64) -> (r: u64)
        requires
            0 <= radius <= 0x800_0000,
        ensures
            r == arc_length(radius as int, from as int, to as int),
    {
        let turn: u128 = if from >= to {
            (from as i128 - to as i128) as u128
        } else {
            (to as i128 - from as i128) as u128
        };
        proof {
            assert(radius * turn <= 0x800_0000 * 0x1_0000_0000_0000_0000) by (nonlinear_arith)
                requires
                    0 <= radius <= 0x800_0000,
                    0 <= turn <= 0x1_0000_0000_0000_0000,
            ;
            assert(radius * turn >= 0) by (nonlinear_arith)
                requires
                    0 <= radius,
                    0 <= turn,
            ;
        }
        let swept: u128 = radius as u128 * turn;
        let q: u128 = (swept * 3141593 + 2147483647999999) / 2147483648000000;
        if q > u64::MAX as u128 {
            u64::MAX
        } else {
            q as u64
        }
    }

    /// The weight of an edge of length `w` between vertices with the
    /// estimates `here` and `there`.
    pub fn raise(w: u64, here: u64, there: u64) -> (r: u64)
        ensures
            r == raised(w, here, there),
            here <= r + there,
            r >= w,
    {
        if here > there && here - there > w {
            here - there
        } else {
            w
        }
    }

    /// Numbers the vertices of the nodes: the number of the first vertex of
    /// each node, and after them the number of the start; none if the
    /// vertices, with the two ends, are more than can be numbered.
    pub fn number_vertices(nodes: &Vec<Node>) -> (r: Option<Vec<usize>>)
        ensures
            r.is_none() <==> start_at(nodes@) + 2 > usize::MAX,
            r matches Some(offsets) ==> offsets_ok(offsets@, nodes@, nodes.len() as int),
    {
        let n: usize = nodes.len();
        let mut offsets: Vec<usize> = Vec::new();
        offsets.push(0);
        let mut x: usize = 0;
        while x < n
            invariant
                x <= n,
                n == nodes.len(),
                offsets_ok(offsets@, nodes@, x as int),
            decreases n - x,
        {
            let count: usize = nodes[x].vertex_count();
            let last: usize = offsets[x];
            proof {
                lemma_offset_monotone(nodes@, x + 1, n as int);
            }
            if count > usize::MAX - last {
                return None;
            }
            offsets.push(last + count);
            x += 1;
        }
        if offsets[n] > usize::MAX - 2 {
            return None;
        }
        Some(offsets)
    }

    /// Finds for every vertex of every node its owner, its place and its
    /// estimate.
    pub fn place_vertices(nodes: &Vec<Node>, end: &Point) -> (r: (Vec<VertexId>, Vec<Point>, Vec<u64>))
        requires
            nodes_wf(nodes@),
            end.in_range(),
            start_at(nodes@) <= usize::MAX,
        ensures
            placed(r.0@, r.1@, r.2@, nodes@, *end, nodes.len() as int, 0),
            r.1.len() == start_at(nodes@),
            r.2.len() == start_at(nodes@),
    {
        let n: usize = nodes.len();
        let mut owner: Vec<VertexId> = Vec::new();
        let mut pos: Vec<Point> = Vec::new();
        let mut h: Vec<u64> = Vec::new();
        let mut x: usize = 0;
        while x < n
            invariant
                x <= n,
                n == nodes.len(),
                nodes_wf(nodes@),
                end.in_range(),
                pos.len() == owner.len(),
                h.len() == owner.len(),
                placed(owner@, pos@, h@, nodes@, *end, x as int, 0),
            decreases n - x,
        {
            let node = &nodes[x];
            assert(node.wf());
            let count: usize = node.vertex_count();
            let mut k: usize = 0;
            while k < count
                invariant
                    k <= count,
                    x < n,
                    n == nodes.len(),
                    *node == nodes[x as int],
                    node.wf(),
                    count == node.vertex_seq().len(),
                    end.in_range(),
                    pos.len() == owner.len(),
                    h.len() == owner.len(),
                    placed(owner@, pos@, h@, nodes@, *end, x as int, k as int),
                decreases count - k,
            {
                let ghost owner0 = owner@;
                let at: Point = node.to_point(node.vertex(k).angle);
                owner.push(VertexId { node: x, vertex: k });
                pos.push(at);
                h.push(at.distance(end));
                proof {
                    lemma_dist_bound(at, *end);
                    assert forall|y: int, j: int|
                        0 <= y < nodes.len() && 0 <= j < nodes[y].vertex_seq().len() && (y < x || (y
                            == x && j < k + 1)) implies {
                        let v = #[trigger] flat(nodes@, y, j);
                        &&& owner@[v] == VertexId { node: y as usize, vertex: j as usize }
                        &&& pos@[v] == place(nodes@, y, j)
                        &&& h@[v] == estimate(nodes@, *end, y, j)
                    } by {
                        lemma_flat_bound(nodes@, y, j);
                        if y < x {
                            lemma_offset_monotone(nodes@, y + 1, x as int);
                        }
                        let v = flat(nodes@, y, j);
                        if y == x && j == k {
                        } else {
                            assert(v < owner0.len());
                            assert(owner0[v] == VertexId { node: y as usize, vertex: j as usize });
                        }
                    }
                }
                k += 1;
            }
            x += 1;
        }
        (owner, pos, h)
    }

    /// The edges that leave the `k`-th vertex of the node `x`.
    pub fn edges_from(
        &self,
        nodes: &Vec<Node>,
        offsets: &Vec<usize>,
        owner: &Vec<VertexId>,
        pos: &Vec<Point>,
        h: &Vec<u64>,
        end: &Point,
        x: usize,
        k: usize,
    ) -> (out: Vec<Edge>)
        requires
            self.wf(),
            nodes.len() >= 2,
            nodes_wf(nodes@),
            links_ok(nodes@),
            end.in_range(),
            offsets_ok(offsets@, nodes@, nodes.len() as int),
            start_at(nodes@) + 2 == h.len(),
            h.len() == pos.len(),
            placed(owner@, pos@, h@, nodes@, *end, nodes.len() as int, 0),
            h[start_at(nodes@) + 1] == 0,
            x < nodes.len(),
            k < nodes[x as int].vertex_seq().len(),
        ensures
            out@ == out_edges(nodes@, self.zones(), self.obstacle_seq(), *end, x as int, k as int),
            sound_edges(out@, h@, flat(nodes@, x as int, k as int)),
    {
        let n: usize = nodes.len();
        let node = &nodes[x];
        assert(node.wf());
        let ghost total = start_at(nodes@);
        let v: Vertex = node.vertex(k);
        proof {
            lemma_flat_bound(nodes@, x as int, k as int);
            lemma_point_on_circle(node.disk_of(), v.angle as int);
        }
        let cur: usize = offsets[x] + k;
        assert(cur == flat(nodes@, x as int, k as int));
        let mut out: Vec<Edge> = Vec::new();
        match v.connection {
            None => {},
            Some(c) => {
                proof {
                    assert(link_ok(nodes@, x as int, k as int));
                    lemma_flat_bound(nodes@, c.neighbor.node as int, c.neighbor.vertex as int);
                    assert(h@[flat(nodes@, c.neighbor.node as int, c.neighbor.vertex as int)] == estimate(
                        nodes@,
                        *end,
                        c.neighbor.node as int,
                        c.neighbor.vertex as int,
                    ));
                }
                let to: usize = offsets[c.neighbor.node] + c.neighbor.vertex;
                out.push(
                    Edge { to, weight: Self::raise(c.distance, h[cur], h[to]), kind: EdgeKind::Tangent },
                );
            },
        }
        assert(out@ =~= tangent_part(nodes@, *end, x as int, k as int));
        match v.next {
            None => {},
            Some(m) => {
                proof {
                    lemma_next_in_arena(*node, k as int);
                    lemma_flat_bound(nodes@, x as int, m as int);
                    assert(h@[flat(nodes@, x as int, m as int)] == estimate(nodes@, *end, x as int, m as int));
                }
                let to: usize = offsets[x] + m;
                let sweep: u64 = Self::arc(node.radius, v.angle, node.vertex(m).angle);
                out.push(Edge { to, weight: Self::raise(sweep, h[cur], h[to]), kind: EdgeKind::Arc });
            },
        }
        assert(out@ =~= tangent_part(nodes@, *end, x as int, k as int) + arc_part(
            nodes@,
            *end,
            x as int,
            k as int,
        ));
        if x == n - 1 {
            let here: Point = pos[cur];
            assert(here == place(nodes@, x as int, k as int));
            if self.valid_path(&here, end) {
                out.push(Edge { to: offsets[n] + 1, weight: h[cur], kind: EdgeKind::Approach });
            }
        }
        assert(out@ =~= out_edges(nodes@, self.zones(), self.obstacle_seq(), *end, x as int, k as int));
        out
    }

    /// The edges that leave the start of the leg.
    pub fn takeoff(
        &self,
        nodes: &Vec<Node>,
        offsets: &Vec<usize>,
        owner: &Vec<VertexId>,
        pos: &Vec<Point>,
        h: &Vec<u64>,
        start: &Point,
        end: &Point,
    ) -> (out: Vec<Edge>)
        requires
            self.wf(),
            nodes.len() >= 2,
            nodes_wf(nodes@),
            start.in_range(),
            end.in_range(),
            offsets_ok(offsets@, nodes@, nodes.len() as int),
            start_at(nodes@) + 2 == h.len(),
            h.len() == pos.len(),
            placed(owner@, pos@, h@, nodes@, *end, nodes.len() as int, 0),
            h[start_at(nodes@)] == dist(*start, *end),
        ensures
            out@ == takeoff_edges(
                nodes@,
                self.zones(),
                self.obstacle_seq(),
                *start,
                *end,
                nodes[nodes.len() - 2].vertex_seq().len() as int,
            ),
            sound_edges(out@, h@, start_at(nodes@)),
    {
        let n: usize = nodes.len();
        let from: &Node = &nodes[n - 2];
        assert(from.wf());
        let total: usize = offsets[n];
        let mut out: Vec<Edge> = Vec::new();
        let mut k: usize = 0;
        while k < from.vertex_count()
            invariant
                k <= from.vertex_seq().len(),
                n == nodes.len(),
                n >= 2,
                *from == nodes[n - 2],
                from.wf(),
                self.wf(),
                start.in_range(),
                end.in_range(),
                total == start_at(nodes@),
                offsets_ok(offsets@, nodes@, n as int),
                total + 2 == h.len(),
                h.len() == pos.len(),
                h[total as int] == dist(*start, *end),
                placed(owner@, pos@, h@, nodes@, *end, n as int, 0),
                out@ == takeoff_edges(nodes@, self.zones(), self.obstacle_seq(), *start, *end, k as int),
                sound_edges(out@, h@, total as int),
            decreases from.vertex_seq().len() - k,
        {
            proof {
                lemma_flat_bound(nodes@, n - 2, k as int);
                lemma_point_on_circle(from.disk_of(), from.vertex_seq()[k as int].angle as int);
                assert(h@[flat(nodes@, n - 2, k as int)] == estimate(nodes@, *end, n - 2, k as int));
                assert(pos@[flat(nodes@, n - 2, k as int)] == place(nodes@, n - 2, k as int));
            }
            let to: usize = offsets[n - 2] + k;
            let there: Point = pos[to];
            if self.valid_path(start, &there) {
                proof {
                    lemma_dist_bound(*start, there);
                }
                out.push(
                    Edge {
                        to,
                        weight: Self::raise(start.distance(&there), h[total], h[to]),
                        kind: EdgeKind::Approach,
                    },
                );
            }
            k += 1;
        }
        out
    }

    /// The chart of the leg from `start` to `end` through `nodes`, of which
    /// the last two are the nodes of the two ends; none if the vertices are
    /// too many to number.
    pub fn chart_leg(&self, nodes: &Vec<Node>, start: Point, end: Point) -> (r: Option<Chart>)
        requires
            self.wf(),
            nodes.len() >= 2,
            nodes_wf(nodes@),
            links_ok(nodes@),
            start.in_range(),
            end.in_range(),
        ensures
            r.is_none() <==> start_at(nodes@) + 2 > usize::MAX,
            r matches Some(chart) ==> charted(
                chart,
                nodes@,
                self.zones(),
                self.obstacle_seq(),
                start,
                end,
            ) && chart.graph.wf() && consistent(chart.graph.edges(), chart.graph.h@),
    {
        let ghost zones = self.zones();
        let ghost obstacles = self.obstacle_seq();
        let n: usize = nodes.len();
        let offsets: Vec<usize> = match Self::number_vertices(nodes) {
            None => {
                return None;
            },
            Some(offsets) => offsets,
        };
        let total: usize = offsets[n];
        let (owner, mut pos, mut h) = Self::place_vertices(nodes, &end);
        let ghost pos0 = pos@;
        let ghost h0 = h@;
        pos.push(start);
        pos.push(end);
        h.push(start.distance(&end));
        h.push(0);
        proof {
            lemma_dist_bound(start, end);
            assert forall|y: int, j: int|
                0 <= y < nodes.len() && 0 <= j < nodes[y].vertex_seq().len() implies {
                let v = #[trigger] flat(nodes@, y, j);
                &&& owner@[v] == VertexId { node: y as usize, vertex: j as usize }
                &&& pos@[v] == place(nodes@, y, j)
                &&& h@[v] == estimate(nodes@, end, y, j)
            } by {
                lemma_flat_bound(nodes@, y, j);
                let v = flat(nodes@, y, j);
                assert(pos0[v] == place(nodes@, y, j));
                assert(h0[v] == estimate(nodes@, end, y, j));
            }
        }
        let mut succ: Vec<Vec<Edge>> = Vec::new();
        let mut x: usize = 0;
        while x < n
            invariant
                x <= n,
                n == nodes.len(),
                n >= 2,
                self.wf(),
                zones == self.zones(),
                obstacles == self.obstacle_seq(),
                nodes_wf(nodes@),
                links_ok(nodes@),
                end.in_range(),
                total == start_at(nodes@),
                offsets_ok(offsets@, nodes@, n as int),
                h.len() == total + 2,
                pos.len() == total + 2,
                h[total + 1] == 0,
                placed(owner@, pos@, h@, nodes@, end, n as int, 0),
                edged(succ@, nodes@, zones, obstacles, end, x as int, 0),
                sound_so_far(succ@, h@),
            decreases n - x,
        {
            let count: usize = nodes[x].vertex_count();
            let mut k: usize = 0;
            while k < count
                invariant
                    k <= count,
                    x < n,
                    n == nodes.len(),
                    n >= 2,
                    self.wf(),
                    zones == self.zones(),
                    obstacles == self.obstacle_seq(),
                    count == nodes[x as int].vertex_seq().len(),
                    nodes_wf(nodes@),
                    links_ok(nodes@),
                    end.in_range(),
                    total == start_at(nodes@),
                    offsets_ok(offsets@, nodes@, n as int),
                    h.len() == total + 2,
                    pos.len() == total + 2,
                    h[total + 1] == 0,
                    placed(owner@, pos@, h@, nodes@, end, n as int, 0),
                    edged(succ@, nodes@, zones, obstacles, end, x as int, k as int),
                    sound_so_far(succ@, h@),
                decreases count - k,
            {
                let ghost succ0 = succ@;
                let out: Vec<Edge> = self.edges_from(nodes, &offsets, &owner, &pos, &h, &end, x, k);
                succ.push(out);
                proof {
                    assert forall|y: int, j: int|
                        0 <= y < nodes.len() && 0 <= j < nodes[y].vertex_seq().len() && (y < x || (y
                            == x && j < k + 1)) implies succ@[#[trigger] flat(nodes@, y, j)]@
                        == out_edges(nodes@, zones, obstacles, end, y, j) by {
                        lemma_flat_bound(nodes@, y, j);
                        if y < x {
                            lemma_offset_monotone(nodes@, y + 1, x as int);
                        }
                        if y == x && j == k {
                        } else {
                            assert(flat(nodes@, y, j) < succ0.len());
                            assert(succ0[flat(nodes@, y, j)]@ == out_edges(nodes@, zones, obstacles, end, y, j));
                        }
                    }
                    assert forall|u: int| 0 <= u < succ@.len() implies sound_edges(
                        #[trigger] succ@[u]@,
                        h@,
                        u,
                    ) by {
                        if u < succ0.len() {
                            assert(sound_edges(succ0[u]@, h@, u));
                        }
                    }
                }
                k += 1;
            }
            x += 1;
        }
        let ghost succ1 = succ@;
        let first: Vec<Edge> = self.takeoff(nodes, &offsets, &owner, &pos, &h, &start, &end);
        succ.push(first);
        succ.push(Vec::new());
        let chart = Chart { graph: SearchGraph { succ, h }, owner, pos };
        proof {
            let edges = chart.graph.edges();
            assert forall|y: int, j: int|
                0 <= y < nodes.len() && 0 <= j < nodes[y].vertex_seq().len() implies {
                let v = #[trigger] flat(nodes@, y, j);
                &&& chart.owner[v] == VertexId { node: y as usize, vertex: j as usize }
                &&& chart.pos[v] == place(nodes@, y, j)
                &&& chart.graph.h[v] == estimate(nodes@, end, y, j)
                &&& edges[v] == out_edges(nodes@, zones, obstacles, end, y, j)
            } by {
                lemma_flat_bound(nodes@, y, j);
                let v = flat(nodes@, y, j);
                assert(succ1[v]@ == out_edges(nodes@, zones, obstacles, end, y, j));
            }
            assert forall|u: int, e: int|
                0 <= u < edges.len() && 0 <= e < edges[u].len() implies (#[trigger] edges[u][e]).to
                < edges.len() && chart.graph.h[u] <= edges[u][e].weight
                + chart.graph.h[edges[u][e].to as int] by {
                if u < succ1.len() {
                    assert(sound_edges(succ1[u]@, chart.graph.h@, u));
                } else if u == total {
                    assert(sound_edges(first@, chart.graph.h@, total as int));
                }
            }
        }
        Some(chart)
    }
}

} // verus!
