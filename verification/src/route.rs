//! From a walk through the chart of a leg to the waypoints of the leg.
use vstd::prelude::*;
use crate::builder::woven;
use crate::chart::{charted, flat, goal_at, offset, start_at, Chart};
use crate::clock::Stopwatch;
use crate::leg::leg_disks;
use crate::mission::{Plane, Waypoint};
use crate::network::nodes_wf;
use crate::node::{Node, VertexId};
use crate::obstacle::Obstacle;
use crate::planner::Pathfinder;
use crate::point::Point;
use crate::search::{arrives, cost, find_route, is_walk, lemma_prefix, Edge, EdgeKind, Outcome, INF};

verus! {

/// Every number below that of the start is the number of a vertex of a
/// node.
pub proof fn lemma_unflat(nodes: Seq<Node>, v: int, upto: int) -> (r: (int, int))
    requires
        0 <= upto <= nodes.len(),
        0 <= v < offset(nodes, upto),
    ensures
        0 <= r.0 < upto,
        0 <= r.1 < nodes[r.0].vertex_seq().len(),
        flat(nodes, r.0, r.1) == v,
    decreases upto,
{
    if v >= offset(nodes, upto - 1) {
        (upto - 1, v - offset(nodes, upto - 1))
    } else {
        lemma_unflat(nodes, v, upto - 1)
    }
}

/// One step of a walk: the vertex it is taken from is in the graph, the
/// edge picked there is an edge of that vertex, and the step ends where
/// that edge leads.
pub proof fn lemma_step(edges: Seq<Seq<Edge>>, s: int, es: Seq<usize>, i: int)
    requires
        arrives(edges, s, es) >= 0,
        0 <= i < es.len(),
    ensures
        0 <= arrives(edges, s, es.take(i)) < edges.len(),
        es[i] < edges[arrives(edges, s, es.take(i))].len(),
        arrives(edges, s, es.take(i + 1)) == edges[arrives(edges, s, es.take(i))][es[i] as int].to,
        (edges[arrives(edges, s, es.take(i))][es[i] as int].to as int) < edges.len(),
{
    lemma_prefix(edges, s, es, i + 1);
    lemma_prefix(edges, s, es, i);
    assert(es.take(i + 1).drop_last() =~= es.take(i));
    assert(es.take(i + 1).last() == es[i]);
}

/// The radius of the turn round the node that owns a vertex: that of the
/// node's circle, taken as positive on the left ring and as negative on
/// the right ring.
pub open spec fn signed_radius(nodes: Seq<Node>, owner: VertexId) -> i64 {
    if nodes[owner.node as int].vertex_seq()[owner.vertex as int].angle > 0 {
        nodes[owner.node as int].radius
    } else {
        (-nodes[owner.node as int].radius) as i64
    }
}

/// The number of a waypoint: its place in the route, as far as a `u32`
/// counts.
pub open spec fn waypoint_number(i: int) -> u32 {
    if i > u32::MAX {
        u32::MAX
    } else {
        i as u32
    }
}

/// The waypoint at the end of the `i`-th step of the walk `es` from the
/// start of the leg: where that vertex lies, and, if the walk leaves it
/// along an arc, the radius of that turn.
pub open spec fn waypoint_at(chart: Chart, nodes: Seq<Node>, es: Seq<usize>, i: int) -> Waypoint {
    let edges = chart.graph.edges();
    let v = arrives(edges, start_at(nodes), es.take(i + 1));
    Waypoint {
        index: waypoint_number(i),
        location: chart.pos[v],
        radius: if i + 1 < es.len() && v < chart.owner.len() && edges[v][es[i + 1] as int].kind
            == EdgeKind::Arc {
            signed_radius(nodes, chart.owner[v])
        } else {
            0
        },
    }
}

/// The waypoints of the walk `es` from the start of the leg: one at the end
/// of each step.
pub open spec fn route_waypoints(chart: Chart, nodes: Seq<Node>, es: Seq<usize>) -> Seq<Waypoint> {
    Seq::new(es.len(), |i: int| waypoint_at(chart, nodes, es, i))
}

/// Whether `es` is a shortest walk from `s` to `t`.
pub open spec fn shortest(edges: Seq<Seq<Edge>>, s: int, t: int, es: Seq<usize>) -> bool {
    &&& is_walk(edges, s, t, es)
    &&& forall|other: Seq<usize>| #[trigger]
        is_walk(edges, s, t, other) ==> cost(edges, s, es) <= cost(edges, s, other)
}

/// Whether `nodes` is the graph of the leg from `start` to `end`, `chart`
/// its chart, and `es` a shortest walk through the chart from the start to
/// the goal.
pub open spec fn leg_route(
    zones: Seq<Seq<Point>>,
    obstacles: Seq<Obstacle>,
    start: Point,
    end: Point,
    nodes: Seq<Node>,
    chart: Chart,
    es: Seq<usize>,
) -> bool {
    &&& nodes.len() == obstacles.len() + 2
    &&& woven(zones, obstacles, leg_disks(obstacles, start, end), nodes)
    &&& charted(chart, nodes, zones, obstacles, start, end)
    &&& shortest(chart.graph.edges(), start_at(nodes), goal_at(nodes), es)
    &&& cost(chart.graph.edges(), start_at(nodes), es) < INF
}

/// Whether the leg from `start` to `end` has a route at all: a walk
/// through its chart, of a length below `INF`.
pub open spec fn leg_has_route(
    zones: Seq<Seq<Point>>,
    obstacles: Seq<Obstacle>,
    start: Point,
    end: Point,
    nodes: Seq<Node>,
    chart: Chart,
) -> bool {
    exists|es: Seq<usize>| #[trigger]
        is_walk(chart.graph.edges(), start_at(nodes), goal_at(nodes), es) && cost(
            chart.graph.edges(),
            start_at(nodes),
            es,
        ) < INF
}

/// Whether the leg from `start` to `end` can have no route: its vertices
/// are too many to number, or no walk through its chart, of a length below
/// `INF`, leads from the start to the goal.
pub open spec fn leg_dead(
    zones: Seq<Seq<Point>>,
    obstacles: Seq<Obstacle>,
    start: Point,
    end: Point,
    nodes: Seq<Node>,
    chart: Chart,
) -> bool {
    &&& nodes.len() == obstacles.len() + 2
    &&& woven(zones, obstacles, leg_disks(obstacles, start, end), nodes)
    &&& start_at(nodes) + 2 > usize::MAX || (charted(chart, nodes, zones, obstacles, start, end)
        && !leg_has_route(zones, obstacles, start, end, nodes, chart))
}

/// Whether `w` is the plan of the leg from `start` to `end`: the
/// waypoints of a shortest walk through the chart of the leg's graph.
pub open spec fn is_leg_plan(
    zones: Seq<Seq<Point>>,
    obstacles: Seq<Obstacle>,
    start: Point,
    end: Point,
    w: Seq<Waypoint>,
) -> bool {
    &&& start.in_range()
    &&& end.in_range()
    &&& exists|nodes: Seq<Node>, chart: Chart, es: Seq<usize>| #[trigger]
        leg_route(zones, obstacles, start, end, nodes, chart, es) && w == route_waypoints(
            chart,
            nodes,
            es,
        )
}

/// Whether the leg from `start` to `end` has no plan.
pub open spec fn has_no_leg_plan(
    zones: Seq<Seq<Point>>,
    obstacles: Seq<Obstacle>,
    start: Point,
    end: Point,
) -> bool {
    ||| !start.in_range()
    ||| !end.in_range()
    ||| exists|nodes: Seq<Node>, chart: Chart| #[trigger]
        leg_dead(zones, obstacles, start, end, nodes, chart)
}

/// Where the `i`-th leg of a mission starts: at the vehicle, or at the
/// waypoint before.
pub open spec fn leg_start(plane: Plane, wps: Seq<Waypoint>, i: int) -> Point {
    if i == 0 {
        plane.location
    } else {
        wps[i - 1].location
    }
}

/// Whether `out` is made up of the plans of the first legs of a mission,
/// one after the other, `cuts` telling where each begins and the last
/// ends.
pub open spec fn plans_in_row(
    zones: Seq<Seq<Point>>,
    obstacles: Seq<Obstacle>,
    plane: Plane,
    wps: Seq<Waypoint>,
    out: Seq<Waypoint>,
    cuts: Seq<int>,
) -> bool {
    &&& 1 <= cuts.len() <= wps.len() + 1
    &&& cuts[0] == 0
    &&& cuts[cuts.len() - 1] == out.len()
    &&& forall|i: int|
        0 <= i < cuts.len() - 1 ==> 0 <= #[trigger] cuts[i] <= cuts[i + 1] <= out.len()
            && is_leg_plan(
            zones,
            obstacles,
            leg_start(plane, wps, i),
            wps[i].location,
            out.subrange(cuts[i], cuts[i + 1]),
        )
}

/// A row of plans with the plan of the next leg after it is a row of
/// plans.
pub proof fn lemma_plans_extend(
    zones: Seq<Seq<Point>>,
    obstacles: Seq<Obstacle>,
    plane: Plane,
    wps: Seq<Waypoint>,
    before: Seq<Waypoint>,
    piece: Seq<Waypoint>,
    cuts: Seq<int>,
)
    requires
        plans_in_row(zones, obstacles, plane, wps, before, cuts),
        cuts.len() <= wps.len(),
        is_leg_plan(
            zones,
            obstacles,
            leg_start(plane, wps, cuts.len() - 1),
            wps[cuts.len() - 1].location,
            piece,
        ),
    ensures
        plans_in_row(
            zones,
            obstacles,
            plane,
            wps,
            before + piece,
            cuts.push((before.len() + piece.len()) as int),
        ),
{
    let out = before + piece;
    let more = cuts.push((before.len() + piece.len()) as int);
    assert(out.subrange(before.len() as int, out.len() as int) =~= piece);
    assert forall|j: int| 0 <= j < more.len() - 1 implies 0 <= #[trigger] more[j] <= more[j + 1]
        <= out.len() && is_leg_plan(
        zones,
        obstacles,
        leg_start(plane, wps, j),
        wps[j].location,
        out.subrange(more[j], more[j + 1]),
    ) by {
        if j < cuts.len() - 1 {
            assert(more[j] == cuts[j] && more[j + 1] == cuts[j + 1]);
            assert(0 <= cuts[j] <= cuts[j + 1] <= before.len());
            assert(out.subrange(more[j], more[j + 1]) =~= before.subrange(cuts[j], cuts[j + 1]));
        } else {
            assert(more[j] == cuts[cuts.len() - 1]);
        }
    }
}

/// Whether `out` is the plan of the whole mission: the plans of all its
/// legs in a row.
pub open spec fn is_mission_plan(
    zones: Seq<Seq<Point>>,
    obstacles: Seq<Obstacle>,
    plane: Plane,
    wps: Seq<Waypoint>,
    out: Seq<Waypoint>,
) -> bool {
    exists|cuts: Seq<int>| #[trigger]
        plans_in_row(zones, obstacles, plane, wps, out, cuts) && cuts.len() == wps.len() + 1
}

/// Whether some leg of the mission has no plan.
pub open spec fn some_leg_has_no_plan(
    zones: Seq<Seq<Point>>,
    obstacles: Seq<Obstacle>,
    plane: Plane,
    wps: Seq<Waypoint>,
) -> bool {
    exists|i: int|
        0 <= i < wps.len() && has_no_leg_plan(
            zones,
            obstacles,
            #[trigger] leg_start(plane, wps, i),
            wps[i].location,
        )
}

/// A mission that has a plan has a plan for each of its legs.
pub proof fn lemma_mission_plan_or_none(
    zones: Seq<Seq<Point>>,
    obstacles: Seq<Obstacle>,
    plane: Plane,
    wps: Seq<Waypoint>,
    out: Seq<Waypoint>,
)
    requires
        is_mission_plan(zones, obstacles, plane, wps, out),
    ensures
        !some_leg_has_no_plan(zones, obstacles, plane, wps),
{
    let cuts = choose|cuts: Seq<int>| #[trigger]
        plans_in_row(zones, obstacles, plane, wps, out, cuts) && cuts.len() == wps.len() + 1;
    assert forall|i: int| 0 <= i < wps.len() implies !has_no_leg_plan(
        zones,
        obstacles,
        #[trigger] leg_start(plane, wps, i),
        wps[i].location,
    ) by {
        assert(0 <= cuts[i] <= cuts[i + 1]);
        crate::unique::lemma_plan_or_none(
            zones,
            obstacles,
            leg_start(plane, wps, i),
            wps[i].location,
            out.subrange(cuts[i], cuts[i + 1]),
        );
    }
}

impl Pathfinder {
    /// Plans the leg from `start` to `end`: the waypoints of the shortest
    /// route through the leg's graph. Without a stopwatch there is a plan
    /// wherever the leg has one. With a stopwatch the search asks the clock
    /// before every step, and gives up once the time is spent.
    pub fn route_leg(&self, start: Point, end: Point, watch: Option<&Stopwatch>) -> (r: Option<
        Vec<Waypoint>,
    >)
        requires
            self.wf(),
            self.ready(),
        ensures
            match r {
                Some(w) => is_leg_plan(self.zones(), self.obstacle_seq(), start, end, w@),
                None => watch.is_some() || has_no_leg_plan(
                    self.zones(),
                    self.obstacle_seq(),
                    start,
                    end,
                ),
            },
            watch.is_none() ==> (r.is_none() <==> has_no_leg_plan(
                self.zones(),
                self.obstacle_seq(),
                start,
                end,
            )),
            watch matches Some(w) ==> w.limit == 0 ==> r.is_none(),
    {
        if !start.is_in_range() || !end.is_in_range() {
            return None;
        }
        let ghost zones = self.zones();
        let ghost obstacles = self.obstacle_seq();
        let nodes: Vec<Node> = self.open_leg(start, end);
        match self.chart_leg(&nodes, start, end) {
            None => {
                proof {
                    assert(leg_dead(zones, obstacles, start, end, nodes@, vstd::pervasive::arbitrary()));
                }
                None
            },
            Some(chart) => {
                let n: usize = chart.owner.len();
                match find_route(&chart.graph, n, n + 1, watch) {
                    Outcome::Found(route) => {
                        let w = Self::waypoints(&chart, &nodes, &route.picks);
                        proof {
                            assert(leg_route(zones, obstacles, start, end, nodes@, chart, route.picks@));
                            crate::unique::lemma_plan_or_none(zones, obstacles, start, end, w@);
                        }
                        Some(w)
                    },
                    Outcome::NoRoute => {
                        proof {
                            assert(leg_dead(zones, obstacles, start, end, nodes@, chart));
                        }
                        None
                    },
                    Outcome::OutOfTime => None,
                }
            },
        }
    }

    /// Plans the leg from `start` to `end` within the time that the
    /// planner allows for a leg. What comes back is the plan of the leg, or
    /// nothing: nothing for a leg that has no plan, nothing where no time
    /// is allowed, and nothing where the time runs out, which the clock
    /// decides.
    pub fn adjust_path(&self, start: Point, end: Point) -> (r: Option<Vec<Waypoint>>)
        requires
            self.wf(),
            self.ready(),
        ensures
            r matches Some(w) ==> is_leg_plan(self.zones(), self.obstacle_seq(), start, end, w@),
            has_no_leg_plan(self.zones(), self.obstacle_seq(), start, end) ==> r.is_none(),
            self.budget() == 0 ==> r.is_none(),
    {
        let watch = Stopwatch::start(self.get_process_time());
        let r = self.route_leg(start, end, Some(&watch));
        proof {
            if r.is_some() {
                crate::unique::lemma_plan_or_none(
                    self.zones(),
                    self.obstacle_seq(),
                    start,
                    end,
                    r->Some_0@,
                );
            }
        }
        r
    }

    /// Plans the mission leg by leg, from the vehicle to the first
    /// waypoint and on from each waypoint to the next. Where every leg has
    /// its plan, the plans in a row are the plan of the mission, which is
    /// kept and handed out. The first leg without a plan ends the planning:
    /// the legs after it are not tried, there is no plan, and nothing is
    /// kept of the plans of the legs before it. Where `timed`, each leg is
    /// given the time that the planner allows for a leg, and a leg whose
    /// time runs out counts as one without a plan.
    pub fn plan_legs(&mut self, plane: Plane, wp_list: Vec<Waypoint>, timed: bool) -> (r: Option<
        &Vec<Waypoint>,
    >)
        requires
            old(self).wf(),
            old(self).ready(),
        ensures
            final(self).wf(),
            final(self).ready(),
            final(self).zones() == old(self).zones(),
            final(self).obstacle_seq() == old(self).obstacle_seq(),
            final(self).node_seq() == old(self).node_seq(),
            final(self).grid() == old(self).grid(),
            final(self).buffer_of() == old(self).buffer_of(),
            final(self).budget() == old(self).budget(),
            match r {
                Some(route) => route@ == final(self).planned_route() && is_mission_plan(
                    final(self).zones(),
                    final(self).obstacle_seq(),
                    plane,
                    wp_list@,
                    route@,
                ),
                None => final(self).planned_route().len() == 0 && wp_list.len() > 0,
            },
            some_leg_has_no_plan(old(self).zones(), old(self).obstacle_seq(), plane, wp_list@)
                ==> r.is_none(),
            !timed ==> (r.is_none() <==> some_leg_has_no_plan(
                old(self).zones(),
                old(self).obstacle_seq(),
                plane,
                wp_list@,
            )),
            timed && old(self).budget() == 0 && wp_list.len() > 0 ==> r.is_none(),
    {
        let ghost zones = self.zones();
        let ghost obstacles = self.obstacle_seq();
        let mut out: Vec<Waypoint> = Vec::new();
        let ghost mut cuts: Seq<int> = seq![0int];
        let mut from: Point = plane.location;
        let mut i: usize = 0;
        let mut going: bool = true;
        while going && i < wp_list.len()
            invariant
                i <= wp_list.len(),
                self.wf(),
                self.ready(),
                *self == *old(self),
                zones == self.zones(),
                obstacles == self.obstacle_seq(),
                from == leg_start(plane, wp_list@, i as int),
                cuts.len() == i + 1,
                plans_in_row(zones, obstacles, plane, wp_list@, out@, cuts),
                !going ==> i < wp_list.len(),
                going && timed && self.budget() == 0 ==> i == 0,
                !going && !timed ==> has_no_leg_plan(
                    zones,
                    obstacles,
                    leg_start(plane, wp_list@, i as int),
                    wp_list[i as int].location,
                ),
            decreases wp_list.len() - i + (if going { 1int } else { 0int }),
        {
            let to: Point = wp_list[i].location;
            let leg: Option<Vec<Waypoint>> = if timed {
                self.adjust_path(from, to)
            } else {
                self.route_leg(from, to, None)
            };
            match leg {
                None => {
                    going = false;
                },
                Some(mut leg) => {
                    let ghost before = out@;
                    let ghost piece = leg@;
                    out.append(&mut leg);
                    proof {
                        lemma_plans_extend(zones, obstacles, plane, wp_list@, before, piece, cuts);
                        cuts = cuts.push((before.len() + piece.len()) as int);
                        assert(out@ =~= before + piece);
                    }
                    from = to;
                    i += 1;
                },
            }
        }
        proof {
            self.unfold();
        }
        if going {
            self.wp_list = out;
            proof {
                self.unfold();
                old(self).unfold();
                assert(plans_in_row(zones, obstacles, plane, wp_list@, self.wp_list@, cuts)
                    && cuts.len() == wp_list@.len() + 1);
                lemma_mission_plan_or_none(zones, obstacles, plane, wp_list@, self.wp_list@);
            }
            Some(&self.wp_list)
        } else {
            self.wp_list = Vec::new();
            proof {
                self.unfold();
                old(self).unfold();
            }
            None
        }
    }

    /// Plans the mission leg by leg within the time that the planner allows
    /// for each leg. What comes back is the plan of the whole mission, or
    /// nothing: nothing where a leg has no plan, nothing where no time is
    /// allowed and there is a leg to plan, and nothing where the time of a
    /// leg runs out, which the clock decides. A mission without legs has
    /// the empty plan. The planner must be ready; `is_ready` tells.
    pub fn get_adjust_path(&mut self, plane: Plane, wp_list: Vec<Waypoint>) -> (r: Option<
        &Vec<Waypoint>,
    >)
        requires
            old(self).wf(),
            old(self).ready(),
        ensures
            final(self).wf(),
            final(self).ready(),
            final(self).zones() == old(self).zones(),
            final(self).obstacle_seq() == old(self).obstacle_seq(),
            final(self).node_seq() == old(self).node_seq(),
            final(self).grid() == old(self).grid(),
            final(self).buffer_of() == old(self).buffer_of(),
            final(self).budget() == old(self).budget(),
            match r {
                Some(route) => route@ == final(self).planned_route() && is_mission_plan(
                    final(self).zones(),
                    final(self).obstacle_seq(),
                    plane,
                    wp_list@,
                    route@,
                ),
                None => final(self).planned_route().len() == 0 && wp_list.len() > 0,
            },
            some_leg_has_no_plan(old(self).zones(), old(self).obstacle_seq(), plane, wp_list@)
                ==> r.is_none(),
            old(self).budget() == 0 && wp_list.len() > 0 ==> r.is_none(),
    {
        self.plan_legs(plane, wp_list, true)
    }

    /// The waypoints of the last plan.
    pub fn get_route(&self) -> (r: &Vec<Waypoint>)
        ensures
            r@ == self.planned_route(),
    {
        proof {
            self.unfold();
        }
        &self.wp_list
    }
}

impl Pathfinder {
    /// The waypoints of a walk through the chart of a leg.
    pub fn waypoints(chart: &Chart, nodes: &Vec<Node>, picks: &Vec<usize>) -> (r: Vec<Waypoint>)
        requires
            nodes_wf(nodes@),
            chart.graph.wf(),
            chart.graph.edges().len() == start_at(nodes@) + 2,
            chart.pos.len() == start_at(nodes@) + 2,
            chart.owner.len() == start_at(nodes@),
            forall|x: int, k: int|
                0 <= x < nodes.len() && 0 <= k < nodes[x].vertex_seq().len() ==> chart.owner[
                #[trigger] flat(nodes@, x, k)] == (VertexId { node: x as usize, vertex: k as usize }),
            arrives(chart.graph.edges(), start_at(nodes@), picks@) >= 0,
        ensures
            r@ == route_waypoints(*chart, nodes@, picks@),
    {
        let ghost edges = chart.graph.edges();
        let ghost s = start_at(nodes@);
        let mut out: Vec<Waypoint> = Vec::new();
        let mut cur: usize = chart.owner.len();
        let mut i: usize = 0;
        proof {
            assert(picks@.take(0) =~= Seq::<usize>::empty());
        }
        while i < picks.len()
            invariant
                i <= picks.len(),
                edges == chart.graph.edges(),
                s == start_at(nodes@),
                nodes_wf(nodes@),
                chart.graph.wf(),
                edges.len() == s + 2,
                chart.pos.len() == s + 2,
                chart.owner.len() == s,
                forall|x: int, k: int|
                    0 <= x < nodes.len() && 0 <= k < nodes[x].vertex_seq().len() ==> chart.owner[
                    #[trigger] flat(nodes@, x, k)] == (VertexId {
                        node: x as usize,
                        vertex: k as usize,
                    }),
                arrives(edges, s, picks@) >= 0,
                cur == arrives(edges, s, picks@.take(i as int)),
                out@ == Seq::new(i as nat, |j: int| waypoint_at(*chart, nodes@, picks@, j)),
            decreases picks.len() - i,
        {
            proof {
                lemma_step(edges, s, picks@, i as int);
            }
            let edge: Edge = chart.graph.succ[cur][picks[i]];
            let v: usize = edge.to;
            let mut radius: i64 = 0;
            if i + 1 < picks.len() && v < chart.owner.len() {
                proof {
                    lemma_step(edges, s, picks@, i + 1);
                }
                let next: Edge = chart.graph.succ[v][picks[i + 1]];
                if next.kind == EdgeKind::Arc {
                    proof {
                        let (x, k) = lemma_unflat(nodes@, v as int, nodes.len() as int);
                        assert(chart.owner[flat(nodes@, x, k)] == VertexId {
                            node: x as usize,
                            vertex: k as usize,
                        });
                    }
                    let owner: VertexId = chart.owner[v];
                    let node = &nodes[owner.node];
                    assert(node.wf());
                    if node.vertex(owner.vertex).angle > 0 {
                        radius = node.radius;
                    } else {
                        radius = -node.radius;
                    }
                }
            }
            let number: u32 = if i > u32::MAX as usize { u32::MAX } else { i as u32 };
            out.push(Waypoint { index: number, location: chart.pos[v], radius });
            assert(out@ =~= Seq::new((i + 1) as nat, |j: int| waypoint_at(*chart, nodes@, picks@, j)));
            cur = v;
            i += 1;
        }
        out
    }
}

} // verus!
