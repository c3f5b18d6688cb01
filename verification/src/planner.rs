//! The planner: its configuration, and the graph built from it.
use vstd::prelude::*;
use crate::builder::{built, obstacle_disk, obstacle_disks};
use crate::mission::Waypoint;
use crate::network::{disks_of, nodes_wf, MAX_NODES};
use crate::node::Node;
use crate::obstacle::Obstacle;
use crate::point::Point;

verus! {

/// The smallest buffer the planner keeps, whatever the grid size.
pub const MIN_BUFFER: i64 = 5000;

/// What is wrong with a configuration.
#[derive(Clone, Copy, Debug, PartialEq, Eq, Structural)]
pub enum ConfigurationError {
    /// A coordinate or a radius is out of range.
    OutOfRange,
    /// There are more obstacles than a graph has room for.
    TooManyObstacles,
    /// There is no flyzone.
    NoFlyzones,
    /// A flyzone has fewer than three points.
    SmallFlyzone,
}

/// Plans flight legs round obstacles and inside flyzones.
pub struct Pathfinder {
    pub(crate) grid_size: i64,
    pub(crate) buffer: i64,
    pub(crate) max_process_time: u32,
    pub(crate) flyzones: Vec<Vec<Point>>,
    pub(crate) obstacles: Vec<Obstacle>,
    pub(crate) initialized: bool,
    pub(crate) wp_list: Vec<Waypoint>,
    pub(crate) nodes: Vec<Node>,
}

/// The flyzones as sequences of points.
pub open spec fn zones_view(zones: Vec<Vec<Point>>) -> Seq<Seq<Point>> {
    Seq::new(zones@.len(), |i: int| zones@[i]@)
}

/// Whether every point of every flyzone is in range.
pub open spec fn zones_in_range(zones: Seq<Seq<Point>>) -> bool {
    forall|i: int, j: int|
        0 <= i < zones.len() && 0 <= j < zones[i].len() ==> (#[trigger] zones[i][j]).in_range()
}

/// Whether every obstacle is in range.
pub open spec fn obstacles_in_range(obstacles: Seq<Obstacle>) -> bool {
    forall|i: int| 0 <= i < obstacles.len() ==> (#[trigger] obstacles[i]).in_range()
}

/// Whether every flyzone has at least three points.
pub open spec fn zones_closed(zones: Seq<Seq<Point>>) -> bool {
    forall|i: int| 0 <= i < zones.len() ==> (#[trigger] zones[i]).len() >= 3
}

/// What is wrong with a configuration that could not be kept at all.
pub open spec fn storage_error(zones: Seq<Seq<Point>>, obstacles: Seq<Obstacle>) -> Option<
    ConfigurationError,
> {
    if !zones_in_range(zones) || !obstacles_in_range(obstacles) {
        Some(ConfigurationError::OutOfRange)
    } else if obstacles.len() > MAX_NODES {
        Some(ConfigurationError::TooManyObstacles)
    } else {
        None
    }
}

/// What is wrong with the flyzones of a configuration that can be kept.
pub open spec fn flyzone_error(zones: Seq<Seq<Point>>) -> Option<ConfigurationError> {
    if zones.len() == 0 {
        Some(ConfigurationError::NoFlyzones)
    } else if !zones_closed(zones) {
        Some(ConfigurationError::SmallFlyzone)
    } else {
        None
    }
}

/// The buffer for a grid size: the grid size, but no less than `MIN_BUFFER`.
pub open spec fn buffer_for(grid_size: i64) -> i64 {
    if grid_size >= MIN_BUFFER {
        grid_size
    } else {
        MIN_BUFFER
    }
}

/// Whether `node` is a fresh node for the obstacle `ob` at the place
/// `index` of a graph: on the obstacle's circle, numbered by its place,
/// without vertices.
pub open spec fn fresh_node(node: Node, ob: Obstacle, index: int) -> bool {
    &&& node.disk_of() == obstacle_disk(ob)
    &&& node.index == index
    &&& node.is_fresh()
}

/// Whether the graph `after` is the graph `before` with a fresh node for
/// each obstacle after it, in the order of the obstacles.
pub open spec fn appended(before: Seq<Node>, obstacles: Seq<Obstacle>, after: Seq<Node>) -> bool {
    &&& after.len() == before.len() + obstacles.len()
    &&& forall|x: int| 0 <= x < before.len() ==> #[trigger] after[x] == before[x]
    &&& forall|k: int|
        0 <= k < obstacles.len() ==> fresh_node(
            #[trigger] after[before.len() + k],
            obstacles[k],
            before.len() + k,
        )
}

/// A graph without nodes, then populated from obstacles in range, holds a
/// fresh node for each obstacle and nothing else.
pub proof fn lemma_populated(obstacles: Seq<Obstacle>, nodes: Seq<Node>)
    requires
        appended(Seq::<Node>::empty(), obstacles, nodes),
        obstacles_in_range(obstacles),
    ensures
        populated(obstacles, nodes),
{
    assert forall|x: int| 0 <= x < nodes.len() implies (#[trigger] nodes[x]).wf()
        && nodes[x].index == x && nodes[x].vertex_seq().len() == 0 && nodes[x].disk_of()
        == obstacle_disk(obstacles[x]) by {
        assert(fresh_node(nodes[0 + x], obstacles[x], 0 + x));
        assert(obstacles[x].in_range());
        assert forall|k: int| !Seq::<int>::empty().contains(k) by {}
    }
    assert(disks_of(nodes) =~= obstacle_disks(obstacles));
}

/// Whether `nodes` holds a fresh node for each obstacle: on its circle,
/// numbered, without vertices.
pub open spec fn populated(obstacles: Seq<Obstacle>, nodes: Seq<Node>) -> bool {
    &&& nodes.len() == obstacles.len()
    &&& disks_of(nodes) == obstacle_disks(obstacles)
    &&& nodes_wf(nodes)
    &&& forall|x: int|
        0 <= x < nodes.len() ==> (#[trigger] nodes[x]).index == x && nodes[x].vertex_seq().len() == 0
}

impl Pathfinder {
    /// The flyzones that paths must not cross.
    pub closed spec fn zones(&self) -> Seq<Seq<Point>> {
        zones_view(self.flyzones)
    }

    /// The obstacles that paths must keep clear of.
    pub closed spec fn obstacle_seq(&self) -> Seq<Obstacle> {
        self.obstacles@
    }

    /// The nodes of the graph.
    pub closed spec fn node_seq(&self) -> Seq<Node> {
        self.nodes@
    }

    /// Whether the graph is built and fits the configuration.
    pub closed spec fn ready(&self) -> bool {
        self.initialized
    }

    pub closed spec fn grid(&self) -> i64 {
        self.grid_size
    }

    pub closed spec fn buffer_of(&self) -> i64 {
        self.buffer
    }

    /// The time a leg's search may take, in seconds.
    pub closed spec fn budget(&self) -> u32 {
        self.max_process_time
    }

    /// The waypoints of the last plan.
    pub closed spec fn planned_route(&self) -> Seq<Waypoint> {
        self.wp_list@
    }

    /// What holds of every planner: its configuration is in range and has
    /// room in a graph, and once it is ready its graph is that of its
    /// configuration, which has flyzones, each of three points or more.
    pub closed spec fn wf(&self) -> bool {
        &&& storage_error(self.zones(), self.obstacle_seq()).is_none()
        &&& self.initialized ==> flyzone_error(self.zones()).is_none() && built(
            self.zones(),
            self.obstacle_seq(),
            self.nodes@,
        )
    }

    /// What the views and `wf` stand for, for the other modules of the crate.
    pub(crate) proof fn unfold(&self)
        ensures
            self.zones() == zones_view(self.flyzones),
            self.obstacle_seq() == self.obstacles@,
            self.node_seq() == self.nodes@,
            self.ready() == self.initialized,
            self.grid() == self.grid_size,
            self.buffer_of() == self.buffer,
            self.budget() == self.max_process_time,
            self.planned_route() == self.wp_list@,
            self.wf() == (storage_error(self.zones(), self.obstacle_seq()).is_none() && (
            self.initialized ==> flyzone_error(self.zones()).is_none() && built(
                self.zones(),
                self.obstacle_seq(),
                self.nodes@,
            ))),
    {
    }

    /// What `wf` promises, for anyone.
    pub proof fn lemma_wf(&self)
        requires
            self.wf(),
        ensures
            zones_in_range(self.zones()),
            obstacles_in_range(self.obstacle_seq()),
            self.obstacle_seq().len() <= MAX_NODES,
            self.ready() ==> flyzone_error(self.zones()).is_none() && built(
                self.zones(),
                self.obstacle_seq(),
                self.node_seq(),
            ),
    {
    }

    /// A planner without flyzones or obstacles, not ready to plan, with a
    /// grid size and a buffer of one metre and ten seconds for a leg.
    pub fn new() -> (p: Pathfinder)
        ensures
            p.wf(),
            !p.ready(),
            p.grid() == 1000,
            p.buffer_of() == 1000,
            p.budget() == 10,
            p.zones() == Seq::<Seq<Point>>::empty(),
            p.obstacle_seq() == Seq::<Obstacle>::empty(),
            p.node_seq() == Seq::<Node>::empty(),
            p.planned_route() == Seq::<Waypoint>::empty(),
    {
        let p = Pathfinder {
            grid_size: 1000,
            buffer: 1000,
            max_process_time: 10,
            flyzones: Vec::new(),
            obstacles: Vec::new(),
            initialized: false,
            wp_list: Vec::new(),
            nodes: Vec::new(),
        };
        assert(p.zones() =~= Seq::<Seq<Point>>::empty());
        p
    }

    /// Whether every point of every flyzone is in range.
    pub fn flyzones_in_range(flyzones: &Vec<Vec<Point>>) -> (r: bool)
        ensures
            r == zones_in_range(zones_view(*flyzones)),
    {
        let mut z: usize = 0;
        while z < flyzones.len()
            invariant
                z <= flyzones.len(),
                forall|i: int, j: int|
                    0 <= i < z && 0 <= j < flyzones[i].len() ==> (#[trigger] zones_view(
                        *flyzones,
                    )[i][j]).in_range(),
            decreases flyzones.len() - z,
        {
            let zone = &flyzones[z];
            let mut i: usize = 0;
            while i < zone.len()
                invariant
                    z < flyzones.len(),
                    zone@ == zones_view(*flyzones)[z as int],
                    i <= zone.len(),
                    forall|j: int| 0 <= j < i ==> (#[trigger] zone[j]).in_range(),
                decreases zone.len() - i,
            {
                if !zone[i].is_in_range() {
                    assert(!zones_view(*flyzones)[z as int][i as int].in_range());
                    return false;
                }
                i += 1;
            }
            z += 1;
        }
        true
    }

    /// Whether every obstacle is in range.
    pub fn all_obstacles_in_range(obstacles: &Vec<Obstacle>) -> (r: bool)
        ensures
            r == obstacles_in_range(obstacles@),
    {
        let mut i: usize = 0;
        while i < obstacles.len()
            invariant
                i <= obstacles.len(),
                forall|j: int| 0 <= j < i ==> (#[trigger] obstacles[j]).in_range(),
            decreases obstacles.len() - i,
        {
            if !obstacles[i].is_in_range() {
                return false;
            }
            i += 1;
        }
        true
    }

    /// What is wrong with a configuration that could not be kept at all.
    pub fn check_storage(flyzones: &Vec<Vec<Point>>, obstacles: &Vec<Obstacle>) -> (r: Option<
        ConfigurationError,
    >)
        ensures
            r == storage_error(zones_view(*flyzones), obstacles@),
    {
        if !Self::flyzones_in_range(flyzones) || !Self::all_obstacles_in_range(obstacles) {
            Some(ConfigurationError::OutOfRange)
        } else if obstacles.len() > MAX_NODES {
            Some(ConfigurationError::TooManyObstacles)
        } else {
            None
        }
    }

    /// What is wrong with the flyzones.
    pub fn check_flyzones(flyzones: &Vec<Vec<Point>>) -> (r: Option<ConfigurationError>)
        ensures
            r == flyzone_error(zones_view(*flyzones)),
    {
        if flyzones.len() == 0 {
            return Some(ConfigurationError::NoFlyzones);
        }
        let mut z: usize = 0;
        while z < flyzones.len()
            invariant
                z <= flyzones.len(),
                forall|i: int| 0 <= i < z ==> (#[trigger] zones_view(*flyzones)[i]).len() >= 3,
            decreases flyzones.len() - z,
        {
            if flyzones[z].len() < 3 {
                assert(zones_view(*flyzones)[z as int].len() < 3);
                return Some(ConfigurationError::SmallFlyzone);
            }
            z += 1;
        }
        None
    }

    /// Puts a node at the end of the graph, numbered by its place.
    pub(crate) fn add_node(&mut self, node: Node)
        requires
            old(self).nodes.len() < MAX_NODES,
        ensures
            final(self).nodes@ == old(self).nodes@.push(
                Node { index: old(self).nodes.len() as u32, ..node },
            ),
            final(self).flyzones == old(self).flyzones,
            final(self).obstacles == old(self).obstacles,
            final(self).grid_size == old(self).grid_size,
            final(self).buffer == old(self).buffer,
            final(self).max_process_time == old(self).max_process_time,
            final(self).initialized == old(self).initialized,
            final(self).wp_list == old(self).wp_list,
    {
        let mut node = node;
        node.set_index(self.nodes.len() as u32);
        self.nodes.push(node);
    }

    /// Puts a fresh node for each obstacle at the end of the graph, in the
    /// order of the obstacles, each numbered by its place. The nodes that
    /// the graph holds stay as they are.
    pub fn populate_nodes(&mut self)
        requires
            old(self).node_seq().len() + old(self).obstacle_seq().len() <= MAX_NODES,
        ensures
            appended(old(self).node_seq(), final(self).obstacle_seq(), final(self).node_seq()),
            final(self).zones() == old(self).zones(),
            final(self).obstacle_seq() == old(self).obstacle_seq(),
            final(self).grid() == old(self).grid(),
            final(self).buffer_of() == old(self).buffer_of(),
            final(self).budget() == old(self).budget(),
            final(self).ready() == old(self).ready(),
            final(self).planned_route() == old(self).planned_route(),
            old(self).wf() && !old(self).ready() ==> final(self).wf(),
    {
        let ghost before = self.nodes@;
        let base: usize = self.nodes.len();
        let mut i: usize = 0;
        while i < self.obstacles.len()
            invariant
                i <= self.obstacles.len(),
                base == before.len(),
                base + self.obstacles.len() <= MAX_NODES,
                self.nodes.len() == base + i,
                self.flyzones == old(self).flyzones,
                self.obstacles == old(self).obstacles,
                self.grid_size == old(self).grid_size,
                self.buffer == old(self).buffer,
                self.max_process_time == old(self).max_process_time,
                self.initialized == old(self).initialized,
                self.wp_list == old(self).wp_list,
                forall|x: int| 0 <= x < base ==> self.nodes[x] == before[x],
                forall|k: int|
                    0 <= k < i ==> fresh_node(#[trigger] self.nodes[base + k], self.obstacles[k], base + k),
            decreases self.obstacles.len() - i,
        {
            let node = Node::from_obstacle(&self.obstacles[i]);
            self.add_node(node);
            i += 1;
        }
    }

    pub fn get_grid_size(&self) -> (r: i64)
        ensures
            r == self.grid(),
    {
        self.grid_size
    }

    pub fn get_buffer(&self) -> (r: i64)
        ensures
            r == self.buffer_of(),
    {
        self.buffer
    }

    pub fn get_process_time(&self) -> (r: u32)
        ensures
            r == self.budget(),
    {
        self.max_process_time
    }

    pub fn get_flyzone(&self) -> (r: &Vec<Vec<Point>>)
        ensures
            zones_view(*r) == self.zones(),
    {
        &self.flyzones
    }

    pub fn get_obstacle_list(&self) -> (r: &Vec<Obstacle>)
        ensures
            r@ == self.obstacle_seq(),
    {
        &self.obstacles
    }

    /// Whether the graph is built and fits the configuration.
    pub fn is_ready(&self) -> (r: bool)
        ensures
            r == self.ready(),
    {
        self.initialized
    }

    /// The nodes of the graph.
    pub fn get_nodes(&self) -> (r: &Vec<Node>)
        ensures
            r@ == self.node_seq(),
    {
        &self.nodes
    }
}

} // verus!
