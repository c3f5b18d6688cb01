//! Building the visibility graph: one node for each obstacle, and between
//! every two nodes the tangents that are clear.
use vstd::prelude::*;
use crate::graph::{lemma_tangents_len, tangents, Tangent};
use crate::network::{disks_of, extended, links_clear, links_ok, nodes_wf};
use crate::node::{Connection, Disk, Node, Vertex, VertexId};
use crate::obstacle::Obstacle;
use crate::point::Point;

verus! {

/// The circle of an obstacle.
pub open spec fn obstacle_disk(ob: Obstacle) -> Disk {
    Disk { origin: ob.location, radius: ob.radius, height: ob.height }
}

/// The circles of the obstacles.
pub open spec fn obstacle_disks(obstacles: Seq<Obstacle>) -> Seq<Disk> {
    Seq::new(obstacles.len(), |i: int| obstacle_disk(obstacles[i]))
}

/// The tangents between the nodes `x` and `y`, leading from the one with
/// the smaller index to the other.
pub open spec fn pair_tangents(
    zones: Seq<Seq<Point>>,
    obstacles: Seq<Obstacle>,
    disks: Seq<Disk>,
    x: int,
    y: int,
) -> Seq<Tangent> {
    if x < y {
        tangents(zones, obstacles, disks[x], disks[y])
    } else {
        tangents(zones, obstacles, disks[y], disks[x])
    }
}

/// How many vertices the node `x` has from its tangents with the nodes
/// below `upto`.
pub open spec fn share(
    zones: Seq<Seq<Point>>,
    obstacles: Seq<Obstacle>,
    disks: Seq<Disk>,
    x: int,
    upto: int,
) -> int
    decreases upto,
{
    if upto <= 0 {
        0
    } else {
        share(zones, obstacles, disks, x, upto - 1) + (if upto - 1 == x {
            0
        } else {
            pair_tangents(zones, obstacles, disks, x, upto - 1).len() as int
        })
    }
}

/// The vertex that the `k`-th tangent between the nodes `x` and `y` puts
/// on `x`: at the tangent's angle on that side, connected to the vertex
/// that the same tangent puts on `y`. A node takes the vertices of its
/// tangents with the other nodes in the order of those nodes.
pub open spec fn planned(
    zones: Seq<Seq<Point>>,
    obstacles: Seq<Obstacle>,
    disks: Seq<Disk>,
    x: int,
    y: int,
    k: int,
) -> Vertex {
    let t = pair_tangents(zones, obstacles, disks, x, y)[k];
    Vertex {
        angle: if x < y {
            t.theta
        } else {
            t.phi
        },
        connection: Some(
            Connection {
                neighbor: VertexId {
                    node: y as usize,
                    vertex: (share(zones, obstacles, disks, y, x) + k) as usize,
                },
                distance: t.distance,
            },
        ),
        next: None,
    }
}

/// Whether the arena `vs` of the node `x` holds just the vertices of its
/// tangents with the nodes below `upto`, each where `planned` puts it.
pub open spec fn arena_matches(
    vs: Seq<Vertex>,
    zones: Seq<Seq<Point>>,
    obstacles: Seq<Obstacle>,
    disks: Seq<Disk>,
    x: int,
    upto: int,
) -> bool {
    &&& vs.len() == share(zones, obstacles, disks, x, upto)
    &&& forall|y: int, k: int|
        0 <= y < upto && y != x && 0 <= k < pair_tangents(zones, obstacles, disks, x, y).len() ==> {
            let p = #[trigger] planned(zones, obstacles, disks, x, y, k);
            let v = vs[share(zones, obstacles, disks, x, y) + k];
            v.angle == p.angle && v.connection == p.connection
        }
}

/// Whether `nodes` is the graph of the circles `disks` among the given
/// flyzones and obstacles: a node on each circle, and on each node the
/// vertices of its tangents with all the others, each connected along a
/// clear segment to the vertex at the tangent's other end.
pub open spec fn woven(
    zones: Seq<Seq<Point>>,
    obstacles: Seq<Obstacle>,
    disks: Seq<Disk>,
    nodes: Seq<Node>,
) -> bool {
    &&& disks_of(nodes) == disks
    &&& forall|x: int| 0 <= x < nodes.len() ==> (#[trigger] nodes[x]).index == x
    &&& nodes_wf(nodes)
    &&& links_ok(nodes)
    &&& links_clear(zones, obstacles, nodes)
    &&& forall|x: int|
        0 <= x < nodes.len() ==> arena_matches(
            (#[trigger] nodes[x]).vertex_seq(),
            zones,
            obstacles,
            disks,
            x,
            nodes.len() as int,
        )
}

/// Whether `nodes` is the graph of the configuration: the graph of the
/// circles of its obstacles.
pub open spec fn built(zones: Seq<Seq<Point>>, obstacles: Seq<Obstacle>, nodes: Seq<Node>) -> bool {
    nodes.len() == obstacles.len() && woven(zones, obstacles, obstacle_disks(obstacles), nodes)
}

/// What a node has from the nodes below `upto` depends on the circles
/// below `upto` and on its own alone.
pub proof fn lemma_share_of_prefix(
    zones: Seq<Seq<Point>>,
    obstacles: Seq<Obstacle>,
    disks: Seq<Disk>,
    more: Seq<Disk>,
    x: int,
    upto: int,
)
    requires
        0 <= x < disks.len(),
        0 <= upto <= disks.len(),
        disks.len() <= more.len(),
        forall|i: int| 0 <= i < disks.len() ==> more[i] == disks[i],
    ensures
        share(zones, obstacles, more, x, upto) == share(zones, obstacles, disks, x, upto),
    decreases upto,
{
    if upto > 0 {
        lemma_share_of_prefix(zones, obstacles, disks, more, x, upto - 1);
    }
}

/// An arena that matches among some circles matches among those circles
/// and more.
pub proof fn lemma_arena_of_prefix(
    vs: Seq<Vertex>,
    zones: Seq<Seq<Point>>,
    obstacles: Seq<Obstacle>,
    disks: Seq<Disk>,
    more: Seq<Disk>,
    x: int,
)
    requires
        0 <= x < disks.len(),
        disks.len() <= more.len(),
        forall|i: int| 0 <= i < disks.len() ==> more[i] == disks[i],
        arena_matches(vs, zones, obstacles, disks, x, disks.len() as int),
    ensures
        arena_matches(vs, zones, obstacles, more, x, disks.len() as int),
{
    let n = disks.len() as int;
    lemma_share_of_prefix(zones, obstacles, disks, more, x, n);
    assert forall|y: int, k: int|
        0 <= y < n && y != x && 0 <= k < pair_tangents(zones, obstacles, more, x, y).len() implies {
        let p = #[trigger] planned(zones, obstacles, more, x, y, k);
        let v = vs[share(zones, obstacles, more, x, y) + k];
        v.angle == p.angle && v.connection == p.connection
    } by {
        lemma_share_of_prefix(zones, obstacles, disks, more, x, y);
        lemma_share_of_prefix(zones, obstacles, disks, more, y, x);
        let p = planned(zones, obstacles, disks, x, y, k);
    }
}

/// A node's share grows with the number of its partners, by no more than
/// four for each.
pub proof fn lemma_share_monotone(
    zones: Seq<Seq<Point>>,
    obstacles: Seq<Obstacle>,
    disks: Seq<Disk>,
    x: int,
    lo: int,
    hi: int,
)
    requires
        0 <= lo <= hi,
    ensures
        share(zones, obstacles, disks, x, lo) <= share(zones, obstacles, disks, x, hi),
        0 <= share(zones, obstacles, disks, x, lo) <= 4 * lo,
        share(zones, obstacles, disks, x, hi) <= 4 * hi,
    decreases hi,
{
    if hi > 0 {
        if x < hi - 1 {
            lemma_tangents_len(zones, obstacles, disks[x], disks[hi - 1], 4);
        } else {
            lemma_tangents_len(zones, obstacles, disks[hi - 1], disks[x], 4);
        }
        if lo < hi {
            lemma_share_monotone(zones, obstacles, disks, x, lo, hi - 1);
        } else {
            lemma_share_monotone(zones, obstacles, disks, x, lo - 1, hi - 1);
        }
    }
}

/// An arena that matched up to the node `y`, and was extended by the
/// tangents with `y`, matches up to the node after `y`.
pub proof fn lemma_arena_grows(
    before: Seq<Vertex>,
    after: Seq<Vertex>,
    zones: Seq<Seq<Point>>,
    obstacles: Seq<Obstacle>,
    disks: Seq<Disk>,
    x: int,
    y: int,
)
    requires
        0 <= y,
        x != y,
        0 <= x,
        arena_matches(before, zones, obstacles, disks, x, y),
        extended(
            before,
            after,
            pair_tangents(zones, obstacles, disks, x, y),
            pair_tangents(zones, obstacles, disks, x, y).len() as int,
            x < y,
            y,
            share(zones, obstacles, disks, y, x),
        ),
    ensures
        arena_matches(after, zones, obstacles, disks, x, y + 1),
{
    let ts = pair_tangents(zones, obstacles, disks, x, y);
    assert(share(zones, obstacles, disks, x, y + 1) == share(zones, obstacles, disks, x, y) + ts.len());
    assert forall|z: int, k: int|
        0 <= z < y + 1 && z != x && 0 <= k < pair_tangents(zones, obstacles, disks, x, z).len() implies {
        let p = #[trigger] planned(zones, obstacles, disks, x, z, k);
        let v = after[share(zones, obstacles, disks, x, z) + k];
        v.angle == p.angle && v.connection == p.connection
    } by {
        if z < y {
            lemma_share_monotone(zones, obstacles, disks, x, z + 1, y);
            lemma_share_monotone(zones, obstacles, disks, x, z, z);
            assert(share(zones, obstacles, disks, x, z + 1) == share(zones, obstacles, disks, x, z)
                + pair_tangents(zones, obstacles, disks, x, z).len());
            let s = share(zones, obstacles, disks, x, z) + k;
            assert(0 <= s < before.len());
            assert(after[s].angle == before[s].angle);
            let p = planned(zones, obstacles, disks, x, z, k);
        } else {
            assert(after[before.len() + k].angle == (if x < y {
                ts[k].theta
            } else {
                ts[k].phi
            }));
        }
    }
}

} // verus!
