//! Nodes joined by tangents: the links between their vertices.
use vstd::prelude::*;
use crate::graph::Tangent;
use crate::graph::is_clear_tangent;
use crate::node::{Connection, Disk, Node, Vertex, VertexId};
use crate::obstacle::Obstacle;
use crate::point::{dist, lemma_dist_symmetric, Point};
use crate::validator::segment_is_clear;

verus! {

/// The most nodes a graph may hold.
pub const MAX_NODES: usize = 0xFFFF;

/// The circles of the nodes.
pub open spec fn disks_of(nodes: Seq<Node>) -> Seq<Disk> {
    Seq::new(nodes.len(), |i: int| nodes[i].disk_of())
}

/// Whether every node is well formed.
pub open spec fn nodes_wf(nodes: Seq<Node>) -> bool {
    forall|x: int| 0 <= x < nodes.len() ==> (#[trigger] nodes[x]).wf()
}

/// Whether the connection of the `k`-th vertex of the node `x`, if it has
/// one, leads to a vertex of another node, whose own connection leads back
/// over the same distance.
pub open spec fn link_ok(nodes: Seq<Node>, x: int, k: int) -> bool {
    match nodes[x].vertex_seq()[k].connection {
        None => true,
        Some(c) => {
            &&& c.neighbor.node < nodes.len()
            &&& c.neighbor.node != x
            &&& c.neighbor.vertex < nodes[c.neighbor.node as int].vertex_seq().len()
            &&& nodes[c.neighbor.node as int].vertex_seq()[c.neighbor.vertex as int].connection
                == Some(
                Connection {
                    neighbor: VertexId { node: x as usize, vertex: k as usize },
                    distance: c.distance,
                },
            )
        },
    }
}

/// Whether every connection leads to a vertex that leads back.
pub open spec fn links_ok(nodes: Seq<Node>) -> bool {
    forall|x: int, k: int|
        0 <= x < nodes.len() && 0 <= k < nodes[x].vertex_seq().len() ==> #[trigger] link_ok(
            nodes,
            x,
            k,
        )
}

/// Whether the connection of the `k`-th vertex of the node `x`, if it has
/// one, runs along a segment to the vertex it leads to that is clear one
/// way or the other, and is as long as that segment.
pub open spec fn link_clear(
    zones: Seq<Seq<Point>>,
    obstacles: Seq<Obstacle>,
    nodes: Seq<Node>,
    x: int,
    k: int,
) -> bool {
    match nodes[x].vertex_seq()[k].connection {
        None => true,
        Some(c) => {
            let here = nodes[x].point_at(nodes[x].vertex_seq()[k].angle as int);
            let other = nodes[c.neighbor.node as int];
            let there = other.point_at(other.vertex_seq()[c.neighbor.vertex as int].angle as int);
            segment_is_clear(zones, obstacles, here, there) && c.distance == dist(here, there)
        },
    }
}

/// Whether every connection runs along a clear segment.
pub open spec fn links_clear(zones: Seq<Seq<Point>>, obstacles: Seq<Obstacle>, nodes: Seq<Node>) -> bool {
    forall|x: int, k: int|
        0 <= x < nodes.len() && 0 <= k < nodes[x].vertex_seq().len() ==> #[trigger] link_clear(
            zones,
            obstacles,
            nodes,
            x,
            k,
        )
}

/// Joining two nodes by clear tangents leaves every connection clear.
pub proof fn lemma_connect_keeps_clear(
    zones: Seq<Seq<Point>>,
    obstacles: Seq<Obstacle>,
    before: Seq<Node>,
    after: Seq<Node>,
    i: int,
    j: int,
    ts: Seq<Tangent>,
)
    requires
        0 <= i < before.len(),
        0 <= j < before.len(),
        before.len() <= usize::MAX,
        i != j,
        after.len() == before.len(),
        links_ok(before),
        links_clear(zones, obstacles, before),
        disks_of(after) == disks_of(before),
        forall|x: int| 0 <= x < before.len() && x != i && x != j ==> after[x] == before[x],
        extended(before[i].vertex_seq(), after[i].vertex_seq(), ts, ts.len() as int, true, j, before[j].vertex_seq().len() as int),
        extended(before[j].vertex_seq(), after[j].vertex_seq(), ts, ts.len() as int, false, i, before[i].vertex_seq().len() as int),
        before[i].vertex_seq().len() + ts.len() < usize::MAX,
        before[j].vertex_seq().len() + ts.len() < usize::MAX,
        forall|k: int|
            0 <= k < ts.len() ==> is_clear_tangent(
                zones,
                obstacles,
                before[i].disk_of(),
                before[j].disk_of(),
                #[trigger] ts[k],
            ),
    ensures
        links_clear(zones, obstacles, after),
{
    assert forall|x: int| 0 <= x < before.len() implies after[x].disk_of() == before[x].disk_of() by {
        assert(disks_of(after)[x] == after[x].disk_of());
        assert(disks_of(before)[x] == before[x].disk_of());
    }
    assert forall|x: int, k: int|
        0 <= x < after.len() && 0 <= k < after[x].vertex_seq().len() implies #[trigger] link_clear(
        zones,
        obstacles,
        after,
        x,
        k,
    ) by {
        let base_i = before[i].vertex_seq().len() as int;
        let base_j = before[j].vertex_seq().len() as int;
        assert(after[i].disk_of() == before[i].disk_of());
        assert(after[j].disk_of() == before[j].disk_of());
        if x == i && k >= base_i {
            let m = k - base_i;
            assert(after[i].vertex_seq()[base_i + m].angle == ts[m].theta);
            assert(after[j].vertex_seq()[base_j + m].angle == ts[m].phi);
            assert(after[i].vertex_seq()[base_i + m].connection == Some(
                Connection {
                    neighbor: VertexId { node: j as usize, vertex: (base_j + m) as usize },
                    distance: ts[m].distance,
                },
            ));
            assert(is_clear_tangent(zones, obstacles, before[i].disk_of(), before[j].disk_of(), ts[m]));
        } else if x == j && k >= base_j {
            let m = k - base_j;
            assert(after[i].vertex_seq()[base_i + m].angle == ts[m].theta);
            assert(after[j].vertex_seq()[base_j + m].angle == ts[m].phi);
            assert(after[j].vertex_seq()[base_j + m].connection == Some(
                Connection {
                    neighbor: VertexId { node: i as usize, vertex: (base_i + m) as usize },
                    distance: ts[m].distance,
                },
            ));
            assert(is_clear_tangent(zones, obstacles, before[i].disk_of(), before[j].disk_of(), ts[m]));
            lemma_dist_symmetric(
                before[i].disk_of().point_at(ts[m].theta as int),
                before[j].disk_of().point_at(ts[m].phi as int),
            );
        } else {
            assert(link_ok(before, x, k));
            assert(link_clear(zones, obstacles, before, x, k));
            assert(after[x].vertex_seq()[k].angle == before[x].vertex_seq()[k].angle);
            assert(after[x].vertex_seq()[k].connection == before[x].vertex_seq()[k].connection);
            match before[x].vertex_seq()[k].connection {
                None => {},
                Some(c) => {
                    let y = c.neighbor.node as int;
                    let w = c.neighbor.vertex as int;
                    assert(0 <= w < before[y].vertex_seq().len());
                    assert(after[y].disk_of() == before[y].disk_of());
                    assert(after[x].disk_of() == before[x].disk_of());
                    assert(after[y].vertex_seq()[w].angle == before[y].vertex_seq()[w].angle);
                },
            }
        }
    }
}

/// Whether the arena `after` is the arena `before` with one vertex more
/// for each of the first `n` tangents: at the tangent's angle on this side
/// (`theta` on the first node, `phi` on the second), connected to the
/// vertex that the same tangent adds to the node `other`, whose arena held
/// `base` vertices before.
pub open spec fn extended(
    before: Seq<Vertex>,
    after: Seq<Vertex>,
    ts: Seq<Tangent>,
    n: int,
    first: bool,
    other: int,
    base: int,
) -> bool {
    &&& after.len() == before.len() + n
    &&& forall|k: int|
        0 <= k < before.len() ==> (#[trigger] after[k]).angle == before[k].angle
            && after[k].connection == before[k].connection
    &&& forall|k: int|
        0 <= k < n ==> (#[trigger] after[before.len() + k]).angle == (if first {
            ts[k].theta
        } else {
            ts[k].phi
        }) && after[before.len() + k].connection == Some(
            Connection {
                neighbor: VertexId { node: other as usize, vertex: (base + k) as usize },
                distance: ts[k].distance,
            },
        )
}

/// Joins the nodes `i` and `j` by the tangents `ts`, which lead from `i`
/// to `j`: each tangent gives either node a new vertex, connected to the
/// other's.
pub fn connect(nodes: &mut Vec<Node>, i: usize, j: usize, ts: &Vec<Tangent>)
    requires
        i != j,
        i < old(nodes).len(),
        j < old(nodes).len(),
        nodes_wf(old(nodes)@),
        links_ok(old(nodes)@),
        old(nodes)[i as int].vertex_seq().len() + ts.len() < usize::MAX,
        old(nodes)[j as int].vertex_seq().len() + ts.len() < usize::MAX,
    ensures
        final(nodes).len() == old(nodes).len(),
        nodes_wf(final(nodes)@),
        links_ok(final(nodes)@),
        disks_of(final(nodes)@) == disks_of(old(nodes)@),
        forall|x: int|
            0 <= x < old(nodes).len() && x != i && x != j ==> final(nodes)[x] == old(nodes)[x],
        final(nodes)[i as int].index == old(nodes)[i as int].index,
        final(nodes)[j as int].index == old(nodes)[j as int].index,
        extended(
            old(nodes)[i as int].vertex_seq(),
            final(nodes)[i as int].vertex_seq(),
            ts@,
            ts.len() as int,
            true,
            j as int,
            old(nodes)[j as int].vertex_seq().len() as int,
        ),
        extended(
            old(nodes)[j as int].vertex_seq(),
            final(nodes)[j as int].vertex_seq(),
            ts@,
            ts.len() as int,
            false,
            i as int,
            old(nodes)[i as int].vertex_seq().len() as int,
        ),
{
    let ghost before = nodes@;
    let ghost base_i = nodes[i as int].vertex_seq().len() as int;
    let ghost base_j = nodes[j as int].vertex_seq().len() as int;
    let mut k: usize = 0;
    while k < ts.len()
        invariant
            i != j,
            i < nodes.len(),
            j < nodes.len(),
            k <= ts.len(),
            nodes.len() == before.len(),
            base_i == before[i as int].vertex_seq().len(),
            base_j == before[j as int].vertex_seq().len(),
            base_i + ts.len() < usize::MAX,
            base_j + ts.len() < usize::MAX,
            nodes_wf(nodes@),
            links_ok(nodes@),
            disks_of(nodes@) == disks_of(before),
            forall|x: int| 0 <= x < before.len() && x != i && x != j ==> nodes[x] == before[x],
            nodes[i as int].index == before[i as int].index,
            nodes[j as int].index == before[j as int].index,
            extended(before[i as int].vertex_seq(), nodes[i as int].vertex_seq(), ts@, k as int, true, j as int, base_j),
            extended(before[j as int].vertex_seq(), nodes[j as int].vertex_seq(), ts@, k as int, false, i as int, base_i),
        decreases ts.len() - k,
    {
        let t: Tangent = ts[k];
        let ghost mid = nodes@;
        let at_i: usize = nodes[i].vertex_count();
        let at_j: usize = nodes[j].vertex_count();
        let to_j = Connection::new(VertexId { node: j, vertex: at_j }, t.distance);
        let to_i = Connection::new(VertexId { node: i, vertex: at_i }, t.distance);
        nodes[i].insert_vertex(Vertex::new(t.theta, Some(to_j)));
        let ghost half = nodes@;
        nodes[j].insert_vertex(Vertex::new(t.phi, Some(to_i)));
        proof {
            let now = nodes@;
            assert(disks_of(now) =~= disks_of(before)) by {
                assert forall|x: int| 0 <= x < now.len() implies now[x].disk_of()
                    == before[x].disk_of() by {
                    assert(disks_of(mid)[x] == disks_of(before)[x]);
                }
            }
            assert forall|x: int, v: int|
                0 <= x < now.len() && 0 <= v < now[x].vertex_seq().len() implies #[trigger] link_ok(
                now,
                x,
                v,
            ) by {
                if x == i && v == at_i {
                } else if x == j && v == at_j {
                } else {
                    assert(link_ok(mid, x, v));
                    assert(now[x].vertex_seq()[v].connection == mid[x].vertex_seq()[v].connection);
                    match mid[x].vertex_seq()[v].connection {
                        None => {},
                        Some(c) => {
                            let y = c.neighbor.node as int;
                            let w = c.neighbor.vertex as int;
                            assert(now[y].vertex_seq()[w].connection == mid[y].vertex_seq()[w].connection);
                        },
                    }
                }
            }
        }
        k += 1;
    }
}

} // verus!
