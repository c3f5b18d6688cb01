//! Configuring the planner and building its graph.
use vstd::prelude::*;
use crate::builder::{arena_matches, built, lemma_arena_grows, lemma_share_monotone, obstacle_disks, pair_tangents};
use crate::graph::{is_clear_tangent, lemma_tangents_clear, lemma_tangents_len, Tangent};
use crate::network::{connect, disks_of, lemma_connect_keeps_clear, links_clear, links_ok, nodes_wf, MAX_NODES};
use crate::node::{Disk, Node};
use crate::obstacle::Obstacle;
use crate::planner::{buffer_for, flyzone_error, lemma_populated, populated, storage_error, zones_view, Pathfinder, MIN_BUFFER};
use crate::point::Point;

verus! {

/// With how many of the other nodes the node `x` has been joined, when the
/// pairs are taken in order and `(i, j)` is the next.
pub open spec fn joined(x: int, i: int, j: int, n: int) -> int {
    if x < i {
        n
    } else if x == i {
        j
    } else if x < j {
        i + 1
    } else {
        i
    }
}

/// Whether every arena holds the vertices of the pairs before `(i, j)`.
pub open spec fn progress(
    nodes: Seq<Node>,
    zones: Seq<Seq<Point>>,
    obstacles: Seq<Obstacle>,
    i: int,
    j: int,
) -> bool {
    forall|x: int|
        0 <= x < nodes.len() ==> arena_matches(
            (#[trigger] nodes[x]).vertex_seq(),
            zones,
            obstacles,
            obstacle_disks(obstacles),
            x,
            joined(x, i, j, nodes.len() as int),
        )
}

impl Pathfinder {
    /// Joins every two nodes of a freshly populated graph by the tangents
    /// between them that are clear, each pair once.
    pub fn build_graph(&mut self)
        requires
            old(self).wf(),
            !old(self).ready(),
            populated(old(self).obstacle_seq(), old(self).node_seq()),
        ensures
            final(self).wf(),
            !final(self).ready(),
            final(self).zones() == old(self).zones(),
            final(self).obstacle_seq() == old(self).obstacle_seq(),
            final(self).grid() == old(self).grid(),
            final(self).buffer_of() == old(self).buffer_of(),
            final(self).budget() == old(self).budget(),
            final(self).planned_route() == old(self).planned_route(),
            built(final(self).zones(), final(self).obstacle_seq(), final(self).node_seq()),
    {
        proof {
            self.unfold();
        }
        let n: usize = self.nodes.len();
        let ghost zones = self.zones();
        let ghost obstacles = self.obstacle_seq();
        let ghost disks = obstacle_disks(obstacles);
        proof {
            assert forall|x: int| 0 <= x < n implies arena_matches(
                (#[trigger] self.nodes@[x]).vertex_seq(),
                zones,
                obstacles,
                disks,
                x,
                joined(x, 0, 0, n as int),
            ) by {}
        }
        let mut i: usize = 0;
        while i < n
            invariant
                i <= n,
                n == self.nodes.len(),
                n == obstacles.len(),
                n <= MAX_NODES,
                self.wf(),
                !self.initialized,
                self.flyzones == old(self).flyzones,
                self.obstacles == old(self).obstacles,
                self.grid_size == old(self).grid_size,
                self.buffer == old(self).buffer,
                self.max_process_time == old(self).max_process_time,
                self.wp_list == old(self).wp_list,
                zones == self.zones(),
                obstacles == self.obstacle_seq(),
                disks == obstacle_disks(obstacles),
                disks_of(self.nodes@) == disks,
                forall|x: int| 0 <= x < n ==> (#[trigger] self.nodes[x]).index == x,
                nodes_wf(self.nodes@),
                links_ok(self.nodes@),
                links_clear(zones, obstacles, self.nodes@),
                progress(self.nodes@, zones, obstacles, i as int, i as int),
            decreases n - i,
        {
            proof {
                // the node i itself is no partner of its own
                assert forall|x: int| 0 <= x < n implies arena_matches(
                    (#[trigger] self.nodes@[x]).vertex_seq(),
                    zones,
                    obstacles,
                    disks,
                    x,
                    joined(x, i as int, i + 1, n as int),
                ) by {
                    assert(arena_matches(
                        self.nodes@[x].vertex_seq(),
                        zones,
                        obstacles,
                        disks,
                        x,
                        joined(x, i as int, i as int, n as int),
                    ));
                }
            }
            let mut j: usize = i + 1;
            while j < n
                invariant
                    i < j <= n,
                    n == self.nodes.len(),
                    n == obstacles.len(),
                    n <= MAX_NODES,
                    self.wf(),
                    !self.initialized,
                    self.flyzones == old(self).flyzones,
                    self.obstacles == old(self).obstacles,
                    self.grid_size == old(self).grid_size,
                    self.buffer == old(self).buffer,
                    self.max_process_time == old(self).max_process_time,
                    self.wp_list == old(self).wp_list,
                    zones == self.zones(),
                    obstacles == self.obstacle_seq(),
                    disks == obstacle_disks(obstacles),
                    disks_of(self.nodes@) == disks,
                    forall|x: int| 0 <= x < n ==> (#[trigger] self.nodes[x]).index == x,
                    nodes_wf(self.nodes@),
                    links_ok(self.nodes@),
                    links_clear(zones, obstacles, self.nodes@),
                    progress(self.nodes@, zones, obstacles, i as int, j as int),
                decreases n - j,
            {
                let ghost before = self.nodes@;
                proof {
                    self.unfold();
                    self.lemma_wf();
                    assert(disks_of(self.nodes@)[i as int] == disks[i as int]);
                    assert(disks_of(self.nodes@)[j as int] == disks[j as int]);
                    assert(self.obstacle_seq()[i as int].in_range());
                    assert(self.obstacle_seq()[j as int].in_range());
                }
                let da: Disk = self.nodes[i].disk();
                let db: Disk = self.nodes[j].disk();
                let ts: Vec<Tangent> = self.find_path(&da, &db);
                proof {
                    assert(ts@ == pair_tangents(zones, obstacles, disks, i as int, j as int));
                    assert(ts@ == pair_tangents(zones, obstacles, disks, j as int, i as int));
                    lemma_tangents_len(zones, obstacles, da, db, 4);
                    assert(arena_matches(before[i as int].vertex_seq(), zones, obstacles, disks, i as int, j as int));
                    assert(arena_matches(before[j as int].vertex_seq(), zones, obstacles, disks, j as int, i as int));
                    lemma_share_monotone(zones, obstacles, disks, i as int, j as int, j as int);
                    lemma_share_monotone(zones, obstacles, disks, j as int, i as int, i as int);
                    assert(usize::MAX >= 0xFFFF_FFFF);
                }
                connect(&mut self.nodes, i, j, &ts);
                proof {
                    self.unfold();
                    let now = self.nodes@;
                    assert forall|k: int| 0 <= k < ts@.len() implies is_clear_tangent(
                        zones,
                        obstacles,
                        before[i as int].disk_of(),
                        before[j as int].disk_of(),
                        #[trigger] ts@[k],
                    ) by {
                        lemma_tangents_clear(zones, obstacles, da, db, 4, k);
                        assert(before[i as int].disk_of() == da);
                        assert(before[j as int].disk_of() == db);
                    }
                    lemma_connect_keeps_clear(zones, obstacles, before, now, i as int, j as int, ts@);
                    lemma_arena_grows(before[i as int].vertex_seq(), now[i as int].vertex_seq(), zones, obstacles, disks, i as int, j as int);
                    lemma_arena_grows(before[j as int].vertex_seq(), now[j as int].vertex_seq(), zones, obstacles, disks, j as int, i as int);
                    assert forall|x: int| 0 <= x < n implies arena_matches(
                        (#[trigger] now[x]).vertex_seq(),
                        zones,
                        obstacles,
                        disks,
                        x,
                        joined(x, i as int, j + 1, n as int),
                    ) by {
                        if x != i && x != j {
                            assert(now[x] == before[x]);
                            assert(arena_matches(
                                before[x].vertex_seq(),
                                zones,
                                obstacles,
                                disks,
                                x,
                                joined(x, i as int, j as int, n as int),
                            ));
                        }
                    }
                    assert forall|x: int| 0 <= x < n implies (#[trigger] now[x]).index == x by {
                        if x != i && x != j {
                            assert(now[x] == before[x]);
                        }
                        assert(before[x].index == x);
                    }
                }
                j += 1;
            }
            proof {
                assert forall|x: int| 0 <= x < n implies arena_matches(
                    (#[trigger] self.nodes@[x]).vertex_seq(),
                    zones,
                    obstacles,
                    disks,
                    x,
                    joined(x, i + 1, i + 1, n as int),
                ) by {
                    assert(arena_matches(
                        self.nodes@[x].vertex_seq(),
                        zones,
                        obstacles,
                        disks,
                        x,
                        joined(x, i as int, n as int, n as int),
                    ));
                }
            }
            i += 1;
        }
        proof {
            self.unfold();
            old(self).unfold();
            assert forall|x: int| 0 <= x < n implies arena_matches(
                (#[trigger] self.nodes@[x]).vertex_seq(),
                zones,
                obstacles,
                disks,
                x,
                n as int,
            ) by {
                assert(arena_matches(
                    self.nodes@[x].vertex_seq(),
                    zones,
                    obstacles,
                    disks,
                    x,
                    joined(x, n as int, n as int, n as int),
                ));
            }
        }
    }

    /// Builds the graph anew from the configuration as it stands, and
    /// makes the planner ready. The flyzones must be sound: at least one,
    /// each of three points or more; `check_flyzones` tells.
    pub fn rebuild(&mut self)
        requires
            old(self).wf(),
            flyzone_error(old(self).zones()).is_none(),
        ensures
            final(self).wf(),
            final(self).ready(),
            final(self).zones() == old(self).zones(),
            final(self).obstacle_seq() == old(self).obstacle_seq(),
            final(self).grid() == old(self).grid(),
            final(self).buffer_of() == old(self).buffer_of(),
            final(self).budget() == old(self).budget(),
            final(self).planned_route() == old(self).planned_route(),
    {
        proof {
            self.unfold();
        }
        self.initialized = false;
        self.nodes = Vec::new();
        proof {
            self.unfold();
        }
        self.populate_nodes();
        proof {
            self.unfold();
            lemma_populated(self.obstacle_seq(), self.node_seq());
        }
        self.build_graph();
        proof {
            self.unfold();
        }
        self.initialized = true;
        proof {
            self.unfold();
        }
    }

    /// Takes a new configuration, builds its graph and makes the planner
    /// ready. The configuration must be in range and have room in a graph
    /// (`check_storage` tells), and its flyzones must be sound: at least
    /// one, each of three points or more (`check_flyzones` tells).
    pub fn init(&mut self, grid_size: i64, flyzones: Vec<Vec<Point>>, obstacles: Vec<Obstacle>)
        requires
            old(self).wf(),
            storage_error(zones_view(flyzones), obstacles@).is_none(),
            flyzone_error(zones_view(flyzones)).is_none(),
        ensures
            final(self).wf(),
            final(self).ready(),
            final(self).zones() == zones_view(flyzones),
            final(self).obstacle_seq() == obstacles@,
            final(self).grid() == grid_size,
            final(self).buffer_of() == buffer_for(grid_size),
            final(self).budget() == old(self).budget(),
            final(self).planned_route() == old(self).planned_route(),
    {
        proof {
            self.unfold();
        }
        self.initialized = false;
        self.grid_size = grid_size;
        self.buffer = if grid_size >= MIN_BUFFER { grid_size } else { MIN_BUFFER };
        self.flyzones = flyzones;
        self.obstacles = obstacles;
        proof {
            self.unfold();
        }
        self.rebuild();
    }

    /// Sets the grid size, and with it the buffer: the grid size, but no
    /// less than `MIN_BUFFER`. The graph does not depend on either.
    pub fn set_grid_size(&mut self, grid_size: i64)
        requires
            old(self).wf(),
        ensures
            final(self).wf(),
            final(self).grid() == grid_size,
            final(self).buffer_of() == buffer_for(grid_size),
            final(self).zones() == old(self).zones(),
            final(self).obstacle_seq() == old(self).obstacle_seq(),
            final(self).node_seq() == old(self).node_seq(),
            final(self).budget() == old(self).budget(),
            final(self).ready() == old(self).ready(),
            final(self).planned_route() == old(self).planned_route(),
    {
        proof {
            self.unfold();
        }
        self.grid_size = grid_size;
        self.buffer = if grid_size >= MIN_BUFFER { grid_size } else { MIN_BUFFER };
        proof {
            self.unfold();
        }
    }

    /// Sets the time that the search for one leg may take, in seconds.
    pub fn set_process_time(&mut self, max_process_time: u32)
        requires
            old(self).wf(),
        ensures
            final(self).wf(),
            final(self).budget() == max_process_time,
            final(self).zones() == old(self).zones(),
            final(self).obstacle_seq() == old(self).obstacle_seq(),
            final(self).node_seq() == old(self).node_seq(),
            final(self).grid() == old(self).grid(),
            final(self).buffer_of() == old(self).buffer_of(),
            final(self).ready() == old(self).ready(),
            final(self).planned_route() == old(self).planned_route(),
    {
        proof {
            self.unfold();
        }
        self.max_process_time = max_process_time;
        proof {
            self.unfold();
        }
    }

    /// Replaces the flyzones, which must be in range (`check_storage`
    /// tells). The graph is then out of date, and the planner not ready
    /// until it is rebuilt.
    pub fn set_flyzone(&mut self, flyzone: Vec<Vec<Point>>)
        requires
            old(self).wf(),
            storage_error(zones_view(flyzone), old(self).obstacle_seq()).is_none(),
        ensures
            final(self).wf(),
            !final(self).ready(),
            final(self).zones() == zones_view(flyzone),
            final(self).obstacle_seq() == old(self).obstacle_seq(),
            final(self).node_seq() == old(self).node_seq(),
            final(self).grid() == old(self).grid(),
            final(self).buffer_of() == old(self).buffer_of(),
            final(self).budget() == old(self).budget(),
            final(self).planned_route() == old(self).planned_route(),
    {
        proof {
            self.unfold();
        }
        self.initialized = false;
        self.flyzones = flyzone;
        proof {
            self.unfold();
        }
    }

    /// Replaces the obstacles, which must be in range and no more than a
    /// graph has room for (`check_storage` tells). The graph is then out of
    /// date, and the planner not ready until it is rebuilt.
    pub fn set_obstacle_list(&mut self, obstacle_list: Vec<Obstacle>)
        requires
            old(self).wf(),
            storage_error(old(self).zones(), obstacle_list@).is_none(),
        ensures
            final(self).wf(),
            !final(self).ready(),
            final(self).obstacle_seq() == obstacle_list@,
            final(self).zones() == old(self).zones(),
            final(self).node_seq() == old(self).node_seq(),
            final(self).grid() == old(self).grid(),
            final(self).buffer_of() == old(self).buffer_of(),
            final(self).budget() == old(self).budget(),
            final(self).planned_route() == old(self).planned_route(),
    {
        proof {
            self.unfold();
        }
        self.initialized = false;
        self.obstacles = obstacle_list;
        proof {
            self.unfold();
        }
    }
}

} // verus!
