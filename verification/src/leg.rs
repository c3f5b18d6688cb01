//! One leg of a mission: the graph with a node for either end of the leg
//! woven into it.
use vstd::prelude::*;
use crate::builder::{arena_matches, lemma_arena_grows, lemma_arena_of_prefix, lemma_share_monotone, obstacle_disks, pair_tangents, woven};
use crate::graph::{is_clear_tangent, lemma_tangents_clear, lemma_tangents_len, Tangent};
use crate::network::{connect, disks_of, lemma_connect_keeps_clear, link_clear, link_ok, links_clear, links_ok, nodes_wf, MAX_NODES};
use crate::node::{same_node, Disk, Node, TURNING_RADIUS};
use crate::obstacle::Obstacle;
use crate::planner::{obstacles_in_range, Pathfinder};
use crate::point::Point;

verus! {

/// The circle round an end of a leg: of the turning radius, at the end's
/// height.
pub open spec fn end_disk(p: Point) -> Disk {
    Disk { origin: p, radius: TURNING_RADIUS, height: p.height }
}

/// The circles of a leg: those of the obstacles, then that of the start,
/// then that of the goal.
pub open spec fn leg_disks(obstacles: Seq<Obstacle>, start: Point, end: Point) -> Seq<Disk> {
    obstacle_disks(obstacles).push(end_disk(start)).push(end_disk(end))
}

/// How far each arena is while the ends of a leg are woven in: the nodes
/// below `x` are done, those from `x` on have their tangents with each
/// other, and the two end nodes have theirs with the nodes below `x`.
pub open spec fn leg_progress(
    nodes: Seq<Node>,
    zones: Seq<Seq<Point>>,
    obstacles: Seq<Obstacle>,
    disks: Seq<Disk>,
    x: int,
) -> bool {
    let n = nodes.len() - 2;
    forall|y: int|
        0 <= y < nodes.len() ==> arena_matches(
            (#[trigger] nodes[y]).vertex_seq(),
            zones,
            obstacles,
            disks,
            y,
            if y < x {
                n + 2
            } else if y < n {
                n
            } else {
                x
            },
        )
}

impl Pathfinder {
    /// The graph of a leg from `start` to `end`: a copy of the planner's
    /// graph, with a node of the turning radius round either end woven in.
    pub fn open_leg(&self, start: Point, end: Point) -> (nodes: Vec<Node>)
        requires
            self.wf(),
            self.ready(),
            start.in_range(),
            end.in_range(),
        ensures
            nodes.len() == self.obstacle_seq().len() + 2,
            woven(
                self.zones(),
                self.obstacle_seq(),
                leg_disks(self.obstacle_seq(), start, end),
                nodes@,
            ),
    {
        proof {
            self.unfold();
            self.lemma_wf();
        }
        let n: usize = self.nodes.len();
        let ghost zones = self.zones();
        let ghost obstacles = self.obstacle_seq();
        let ghost base = obstacle_disks(obstacles);
        let ghost disks = leg_disks(obstacles, start, end);
        let mut nodes: Vec<Node> = Vec::new();
        let mut x: usize = 0;
        while x < n
            invariant
                x <= n,
                n == self.nodes.len(),
                nodes.len() == x,
                forall|y: int| 0 <= y < x ==> same_node(#[trigger] nodes[y], self.nodes[y]),
            decreases n - x,
        {
            nodes.push(self.nodes[x].copy());
            x += 1;
        }
        let mut at_start = Node::new(start, TURNING_RADIUS, start.height);
        at_start.set_index(n as u32);
        nodes.push(at_start);
        let mut at_goal = Node::new(end, TURNING_RADIUS, end.height);
        at_goal.set_index((n + 1) as u32);
        nodes.push(at_goal);
        proof {
            let now = nodes@;
            let old = self.nodes@;
            assert(disks_of(now) =~= disks) by {
                assert forall|y: int| 0 <= y < n implies now[y].disk_of() == base[y] by {
                    assert(same_node(now[y], old[y]));
                    assert(disks_of(old)[y] == old[y].disk_of());
                }
            }
            assert forall|y: int| 0 <= y < now.len() implies (#[trigger] now[y]).wf() by {
                if y < n {
                    assert(same_node(now[y], old[y]));
                    assert(old[y].wf());
                }
            }
            assert forall|y: int| 0 <= y < now.len() implies (#[trigger] now[y]).index == y by {
                if y < n {
                    assert(same_node(now[y], old[y]));
                    assert(old[y].index == y);
                }
            }
            assert forall|y: int, k: int|
                0 <= y < now.len() && 0 <= k < now[y].vertex_seq().len() implies #[trigger] link_ok(
                now,
                y,
                k,
            ) by {
                assert(same_node(now[y], old[y]));
                assert(link_ok(old, y, k));
                match old[y].vertex_seq()[k].connection {
                    None => {},
                    Some(c) => {
                        assert(same_node(now[c.neighbor.node as int], old[c.neighbor.node as int]));
                    },
                }
            }
            assert forall|y: int, k: int|
                0 <= y < now.len() && 0 <= k < now[y].vertex_seq().len() implies #[trigger] link_clear(
                zones,
                obstacles,
                now,
                y,
                k,
            ) by {
                assert(same_node(now[y], old[y]));
                assert(link_ok(old, y, k));
                assert(link_clear(zones, obstacles, old, y, k));
                match old[y].vertex_seq()[k].connection {
                    None => {},
                    Some(c) => {
                        assert(same_node(now[c.neighbor.node as int], old[c.neighbor.node as int]));
                    },
                }
            }
            assert forall|y: int| 0 <= y < now.len() implies arena_matches(
                (#[trigger] now[y]).vertex_seq(),
                zones,
                obstacles,
                disks,
                y,
                if y < 0 {
                    n + 2
                } else if y < n {
                    n as int
                } else {
                    0
                },
            ) by {
                if y < n {
                    assert(same_node(now[y], old[y]));
                    assert(arena_matches(old[y].vertex_seq(), zones, obstacles, base, y, n as int));
                    lemma_arena_of_prefix(old[y].vertex_seq(), zones, obstacles, base, disks, y);
                }
            }
        }
        let ds: Disk = nodes[n].disk();
        let dg: Disk = nodes[n + 1].disk();
        let mut x: usize = 0;
        while x < n
            invariant
                x <= n,
                n <= MAX_NODES,
                nodes.len() == n + 2,
                self.wf(),
                zones == self.zones(),
                obstacles == self.obstacle_seq(),
                obstacles_in_range(obstacles),
                n == obstacles.len(),
                disks == leg_disks(obstacles, start, end),
                ds == end_disk(start),
                dg == end_disk(end),
                start.in_range(),
                end.in_range(),
                disks_of(nodes@) == disks,
                forall|y: int| 0 <= y < nodes.len() ==> (#[trigger] nodes[y]).index == y,
                nodes_wf(nodes@),
                links_ok(nodes@),
                links_clear(zones, obstacles, nodes@),
                leg_progress(nodes@, zones, obstacles, disks, x as int),
            decreases n - x,
        {
            let ghost before = nodes@;
            proof {
                assert(disks_of(nodes@)[x as int] == disks[x as int]);
                assert(obstacles[x as int].in_range());
                assert(arena_matches(before[x as int].vertex_seq(), zones, obstacles, disks, x as int, n as int));
                assert(arena_matches(before[n as int].vertex_seq(), zones, obstacles, disks, n as int, x as int));
                assert(arena_matches(before[n + 1].vertex_seq(), zones, obstacles, disks, n + 1, x as int));
                lemma_share_monotone(zones, obstacles, disks, x as int, n as int, n as int);
                lemma_share_monotone(zones, obstacles, disks, n as int, x as int, x as int);
                lemma_share_monotone(zones, obstacles, disks, n + 1, x as int, x as int);
                assert(usize::MAX >= 0xFFFF_FFFF);
            }
            let da: Disk = nodes[x].disk();
            let ts: Vec<Tangent> = self.find_path(&da, &ds);
            proof {
                lemma_tangents_len(zones, obstacles, da, ds, 4);
                assert(ts@ == pair_tangents(zones, obstacles, disks, x as int, n as int));
                assert(ts@ == pair_tangents(zones, obstacles, disks, n as int, x as int));
            }
            connect(&mut nodes, x, n, &ts);
            let ghost mid = nodes@;
            proof {
                assert forall|k: int| 0 <= k < ts@.len() implies is_clear_tangent(
                    zones,
                    obstacles,
                    before[x as int].disk_of(),
                    before[n as int].disk_of(),
                    #[trigger] ts@[k],
                ) by {
                    lemma_tangents_clear(zones, obstacles, da, ds, 4, k);
                    assert(disks_of(before)[n as int] == before[n as int].disk_of());
                }
                lemma_connect_keeps_clear(zones, obstacles, before, mid, x as int, n as int, ts@);
                lemma_arena_grows(before[x as int].vertex_seq(), mid[x as int].vertex_seq(), zones, obstacles, disks, x as int, n as int);
                lemma_arena_grows(before[n as int].vertex_seq(), mid[n as int].vertex_seq(), zones, obstacles, disks, n as int, x as int);
                assert(mid[n + 1] == before[n + 1]);
                lemma_share_monotone(zones, obstacles, disks, x as int, n + 1, n + 1);
            }
            let tg: Vec<Tangent> = self.find_path(&da, &dg);
            proof {
                lemma_tangents_len(zones, obstacles, da, dg, 4);
                assert(tg@ == pair_tangents(zones, obstacles, disks, x as int, n + 1));
                assert(tg@ == pair_tangents(zones, obstacles, disks, n + 1, x as int));
            }
            connect(&mut nodes, x, n + 1, &tg);
            proof {
                let now = nodes@;
                assert forall|k: int| 0 <= k < tg@.len() implies is_clear_tangent(
                    zones,
                    obstacles,
                    mid[x as int].disk_of(),
                    mid[n + 1].disk_of(),
                    #[trigger] tg@[k],
                ) by {
                    lemma_tangents_clear(zones, obstacles, da, dg, 4, k);
                    assert(disks_of(mid)[x as int] == mid[x as int].disk_of());
                    assert(disks_of(mid)[n + 1] == mid[n + 1].disk_of());
                }
                lemma_connect_keeps_clear(zones, obstacles, mid, now, x as int, n + 1, tg@);
                lemma_arena_grows(mid[x as int].vertex_seq(), now[x as int].vertex_seq(), zones, obstacles, disks, x as int, n + 1);
                lemma_arena_grows(mid[n + 1].vertex_seq(), now[n + 1].vertex_seq(), zones, obstacles, disks, n + 1, x as int);
                assert forall|y: int| 0 <= y < now.len() implies arena_matches(
                    (#[trigger] now[y]).vertex_seq(),
                    zones,
                    obstacles,
                    disks,
                    y,
                    if y < x + 1 {
                        n + 2
                    } else if y < n {
                        n as int
                    } else {
                        x + 1
                    },
                ) by {
                    if y != x && y != n && y != n + 1 {
                        assert(now[y] == mid[y]);
                        assert(mid[y] == before[y]);
                        assert(arena_matches(
                            before[y].vertex_seq(),
                            zones,
                            obstacles,
                            disks,
                            y,
                            if y < x {
                                n + 2
                            } else if y < n {
                                n as int
                            } else {
                                x as int
                            },
                        ));
                    } else if y == n {
                        assert(now[y] == mid[y]);
                    }
                }
                assert forall|y: int| 0 <= y < now.len() implies (#[trigger] now[y]).index == y by {
                    if y != x && y != n + 1 {
                        assert(now[y] == mid[y]);
                    }
                    if y != x && y != n {
                        assert(mid[y] == before[y]);
                    }
                    assert(before[y].index == y);
                }
            }
            x += 1;
        }
        // the two ends with each other
        let ghost before = nodes@;
        proof {
            assert(arena_matches(before[n as int].vertex_seq(), zones, obstacles, disks, n as int, n as int));
            assert(arena_matches(before[n + 1].vertex_seq(), zones, obstacles, disks, n + 1, n as int));
            // a node is no partner of its own
            assert(arena_matches(before[n as int].vertex_seq(), zones, obstacles, disks, n as int, n + 1));
            lemma_share_monotone(zones, obstacles, disks, n as int, n + 1, n + 1);
            lemma_share_monotone(zones, obstacles, disks, n + 1, n as int, n as int);
            assert(usize::MAX >= 0xFFFF_FFFF);
        }
        let te: Vec<Tangent> = self.find_path(&ds, &dg);
        proof {
            lemma_tangents_len(zones, obstacles, ds, dg, 4);
            assert(te@ == pair_tangents(zones, obstacles, disks, n as int, n + 1));
            assert(te@ == pair_tangents(zones, obstacles, disks, n + 1, n as int));
        }
        connect(&mut nodes, n, n + 1, &te);
        proof {
            let now = nodes@;
            assert forall|k: int| 0 <= k < te@.len() implies is_clear_tangent(
                zones,
                obstacles,
                before[n as int].disk_of(),
                before[n + 1].disk_of(),
                #[trigger] te@[k],
            ) by {
                lemma_tangents_clear(zones, obstacles, ds, dg, 4, k);
                assert(disks_of(before)[n as int] == before[n as int].disk_of());
                assert(disks_of(before)[n + 1] == before[n + 1].disk_of());
            }
            lemma_connect_keeps_clear(zones, obstacles, before, now, n as int, n + 1, te@);
            lemma_arena_grows(before[n as int].vertex_seq(), now[n as int].vertex_seq(), zones, obstacles, disks, n as int, n + 1);
            lemma_arena_grows(before[n + 1].vertex_seq(), now[n + 1].vertex_seq(), zones, obstacles, disks, n + 1, n as int);
            assert(arena_matches(now[n + 1].vertex_seq(), zones, obstacles, disks, n + 1, n + 2));
            assert forall|y: int| 0 <= y < now.len() implies arena_matches(
                (#[trigger] now[y]).vertex_seq(),
                zones,
                obstacles,
                disks,
                y,
                now.len() as int,
            ) by {
                if y < n {
                    assert(now[y] == before[y]);
                    assert(arena_matches(before[y].vertex_seq(), zones, obstacles, disks, y, n + 2));
                }
            }
            assert forall|y: int| 0 <= y < now.len() implies (#[trigger] now[y]).index == y by {
                if y < n {
                    assert(now[y] == before[y]);
                }
                assert(before[y].index == y);
            }
        }
        nodes
    }
}

} // verus!
