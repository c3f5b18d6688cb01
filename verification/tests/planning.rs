use pathfinder::clock::Stopwatch;
use pathfinder::search::{find_route, Edge, EdgeKind, Outcome, Route, Search, SearchGraph};
use pathfinder::{Obstacle, Pathfinder, Plane, Point, Waypoint};

fn p(x: i64, y: i64) -> Point {
    Point::new(x * 1000, y * 1000, 0)
}

fn edge(to: usize, weight: u64) -> Edge {
    Edge { to, weight, kind: EdgeKind::Tangent }
}

/// Hands the planner its configuration, after the checks that `init`
/// leaves to its caller.
fn init(pathfinder: &mut Pathfinder, grid_size: i64, flyzones: Vec<Vec<Point>>, obstacles: Vec<Obstacle>) {
    assert_eq!(Pathfinder::check_storage(&flyzones, &obstacles), None);
    assert_eq!(Pathfinder::check_flyzones(&flyzones), None);
    pathfinder.init(grid_size, flyzones, obstacles);
    assert!(pathfinder.is_ready());
}

fn square() -> Vec<Point> {
    vec![p(0, 0), p(200, 0), p(200, 200), p(0, 200)]
}

fn found(outcome: Outcome) -> (Vec<usize>, u64) {
    match outcome {
        Outcome::Found(route) => (route.picks, route.cost),
        other => panic!("no route: {:?}", other),
    }
}

#[test]
fn only_route_is_returned() {
    // 0 -> 1 -> 2 -> 3, and a dead end 0 -> 4
    let graph = SearchGraph {
        succ: vec![
            vec![edge(4, 1), edge(1, 5)],
            vec![edge(2, 5)],
            vec![edge(3, 5)],
            vec![],
            vec![],
        ],
        h: vec![0, 0, 0, 0, 0],
    };
    assert_eq!(found(find_route(&graph, 0, 3, None)), (vec![1, 0, 0], 15));
}

#[test]
fn shorter_of_two_routes_is_returned() {
    // 0 -> 1 -> 3 costs 4 + 10, 0 -> 2 -> 3 costs 6 + 3
    let graph = SearchGraph {
        succ: vec![vec![edge(1, 4), edge(2, 6)], vec![edge(3, 10)], vec![edge(3, 3)], vec![]],
        h: vec![0, 0, 0, 0],
    };
    assert_eq!(found(find_route(&graph, 0, 3, None)), (vec![1, 0], 9));
    // with the first route made the shorter one
    let graph = SearchGraph {
        succ: vec![vec![edge(1, 4), edge(2, 6)], vec![edge(3, 1)], vec![edge(3, 3)], vec![]],
        h: vec![0, 0, 0, 0],
    };
    assert_eq!(found(find_route(&graph, 0, 3, None)), (vec![0, 0], 5));
}

#[test]
fn estimate_guides_but_does_not_decide() {
    // a consistent estimate that favours the longer branch at first
    let graph = SearchGraph {
        succ: vec![vec![edge(1, 2), edge(2, 2)], vec![edge(3, 9)], vec![edge(3, 4)], vec![]],
        h: vec![4, 2, 4, 0],
    };
    assert_eq!(found(find_route(&graph, 0, 3, None)), (vec![1, 0], 6));
}

#[test]
fn start_is_goal() {
    let graph = SearchGraph { succ: vec![vec![edge(0, 1)]], h: vec![0] };
    assert_eq!(found(find_route(&graph, 0, 0, None)), (vec![], 0));
}

#[test]
fn unreachable_goal() {
    let graph = SearchGraph { succ: vec![vec![edge(1, 1)], vec![edge(0, 1)], vec![]], h: vec![0, 0, 0] };
    assert_eq!(find_route(&graph, 0, 2, None), Outcome::NoRoute);
}

#[test]
fn no_time_no_route() {
    let graph = SearchGraph { succ: vec![vec![edge(1, 1)], vec![]], h: vec![0, 0] };
    let watch = Stopwatch::start(0);
    assert_eq!(find_route(&graph, 0, 1, Some(&watch)), Outcome::OutOfTime);
    let watch = Stopwatch::start(60);
    assert_eq!(found(find_route(&graph, 0, 1, Some(&watch))), (vec![0], 1));
}

#[test]
fn search_step_by_step() {
    let far = u64::MAX;
    let graph = SearchGraph {
        succ: vec![vec![edge(1, 4), edge(2, 6)], vec![edge(3, 10)], vec![edge(3, 3)], vec![]],
        h: vec![0, 0, 0, 0],
    };
    let mut search = Search::begin(&graph, 0, 3);
    assert_eq!(search.g, vec![0, far, far, far]);
    assert_eq!(search.closed, vec![false, false, false, false]);
    // the time is spent: the search is over, and nothing has changed
    assert_eq!(search.advance(&graph, 0, 3, true), Some(Outcome::OutOfTime));
    assert_eq!(search.g, vec![0, far, far, far]);
    assert_eq!(search.closed, vec![false, false, false, false]);
    // the start is closed, and its edges are followed
    assert_eq!(search.advance(&graph, 0, 3, false), None);
    assert_eq!(search.g, vec![0, 4, 6, far]);
    assert_eq!(search.closed, vec![true, false, false, false]);
    // the nearer vertex is closed; the goal is reached the long way
    assert_eq!(search.advance(&graph, 0, 3, false), None);
    assert_eq!(search.g, vec![0, 4, 6, 14]);
    assert_eq!(search.parent[3], 1);
    // the other vertex is closed; the goal is reached the short way
    assert_eq!(search.advance(&graph, 0, 3, false), None);
    assert_eq!(search.g, vec![0, 4, 6, 9]);
    assert_eq!(search.parent[3], 2);
    assert_eq!(search.closed, vec![true, true, true, false]);
    // a step late, the clock still ends the search
    assert_eq!(search.advance(&graph, 0, 3, true), Some(Outcome::OutOfTime));
    assert_eq!(search.g, vec![0, 4, 6, 9]);
    // the goal is the least open vertex: the route is found
    assert_eq!(
        search.advance(&graph, 0, 3, false),
        Some(Outcome::Found(Route { picks: vec![1, 0], cost: 9 }))
    );
}

#[test]
fn search_step_without_open_vertex() {
    let graph = SearchGraph { succ: vec![vec![], vec![]], h: vec![0, 0] };
    let mut search = Search::begin(&graph, 0, 1);
    assert_eq!(search.advance(&graph, 0, 1, false), None);
    assert_eq!(search.advance(&graph, 0, 1, true), Some(Outcome::OutOfTime));
    assert_eq!(search.advance(&graph, 0, 1, false), Some(Outcome::NoRoute));
}

#[test]
fn leg_without_a_plan_gives_nothing_whatever_the_time() {
    let mut pathfinder = Pathfinder::new();
    init(&mut pathfinder, 1000, vec![square()], Vec::new());
    pathfinder.set_process_time(3600);
    assert_eq!(pathfinder.adjust_path(p(20, 20), p(300, 20)), None);
    assert_eq!(pathfinder.adjust_path(Point::new(0x800_0001, 0, 0), p(20, 20)), None);
    assert!(pathfinder.adjust_path(p(20, 20), p(150, 120)).is_some());
}

#[test]
fn leg_without_obstacles() {
    let mut pathfinder = Pathfinder::new();
    init(&mut pathfinder, 1000, vec![square()], Vec::new());
    let route = pathfinder.adjust_path(p(20, 20), p(150, 120)).expect("a route");
    // from the start to its circle, along a tangent to the goal's circle, and to the goal
    assert_eq!(route.len(), 3);
    assert_eq!(route[2].location, p(150, 120));
    assert_eq!(route[0].index, 0);
    assert_eq!(route[1].index, 1);
    assert_eq!(route[2].index, 2);
    let mut from = p(20, 20);
    for wp in route.iter() {
        assert_eq!(wp.radius, 0);
        assert!(pathfinder.valid_path(&from, &wp.location) || pathfinder.valid_path(&wp.location, &from));
        from = wp.location;
    }
    // either end of the tangent lies on the circle round the end of the leg,
    // to the nearest unit
    let off = p(20, 20).distance_squared(&route[0].location) as i64 - 5000 * 5000;
    assert!(off.abs() <= 2 * 5000);
    let off = route[1].location.distance_squared(&p(150, 120)) as i64 - 5000 * 5000;
    assert!(off.abs() <= 2 * 5000);
}

#[test]
fn leg_with_an_obstacle_in_the_way() {
    let mut pathfinder = Pathfinder::new();
    let wall = Obstacle::new(p(100, 100), 20_000, 0);
    init(&mut pathfinder, 1000, vec![square()], vec![wall]);
    // straight through the obstacle there is no way
    let (start, end) = (p(20, 100), p(180, 100));
    assert!(!pathfinder.valid_path(&start, &end));
    // whatever the plan, none of its straight steps passes within the obstacle
    for (start, end) in [(start, end), (p(20, 20), p(180, 180)), (p(20, 100), p(100, 180)), (p(20, 20), p(180, 30))] {
        if let Some(route) = pathfinder.route_leg(start, end, None) {
            assert_eq!(route.last().map(|w| w.location), Some(end));
            let mut from = start;
            for wp in route.iter() {
                if from != wp.location {
                    assert!(!Pathfinder::blocks(&wall, &from, &wp.location));
                }
                from = wp.location;
            }
        }
    }
    // past the obstacle the leg has a plan, through it none
    assert!(pathfinder.route_leg(p(20, 20), p(180, 30), None).is_some());
    assert_eq!(pathfinder.route_leg(p(20, 100), p(180, 100), None), None);
}

#[test]
fn leg_out_of_range_has_no_route() {
    let mut pathfinder = Pathfinder::new();
    init(&mut pathfinder, 1000, vec![square()], Vec::new());
    let far = Point::new(0x800_0001, 0, 0);
    assert_eq!(pathfinder.route_leg(far, p(10, 10), None), None);
    assert_eq!(pathfinder.route_leg(p(10, 10), far, None), None);
}

#[test]
fn leg_across_the_boundary_has_no_route() {
    let mut pathfinder = Pathfinder::new();
    init(&mut pathfinder, 1000, vec![square()], Vec::new());
    assert_eq!(pathfinder.route_leg(p(20, 20), p(300, 20), None), None);
}

#[test]
fn tiny_budget_gives_no_path() {
    let mut pathfinder = Pathfinder::new();
    init(&mut pathfinder, 1000, vec![square()], Vec::new());
    pathfinder.set_process_time(0);
    assert_eq!(pathfinder.adjust_path(p(20, 20), p(150, 120)), None);
    let plane = Plane::new(p(20, 20));
    let mission = vec![Waypoint::new(0, p(150, 120), 0)];
    // no time, no plan: not an empty one
    assert_eq!(pathfinder.get_adjust_path(plane, mission), None);
    assert!(pathfinder.get_route().is_empty());
    // a mission without legs needs no time
    assert_eq!(pathfinder.get_adjust_path(plane, Vec::new()), Some(&Vec::new()));
}

#[test]
fn mission_is_planned_leg_by_leg() {
    let mut pathfinder = Pathfinder::new();
    init(&mut pathfinder, 1000, vec![square()], Vec::new());
    let plane = Plane::new(p(20, 20));
    let mission = vec![
        Waypoint::new(0, p(150, 120), 0),
        Waypoint::new(1, p(40, 160), 0),
    ];
    let route = pathfinder.get_adjust_path(plane, mission).expect("a plan");
    assert_eq!(route.len(), 6);
    assert_eq!(route[2].location, p(150, 120));
    assert_eq!(route[5].location, p(40, 160));
}

#[test]
fn failed_leg_ends_the_mission() {
    let mut pathfinder = Pathfinder::new();
    init(&mut pathfinder, 1000, vec![square()], Vec::new());
    let plane = Plane::new(p(20, 20));
    let mission = vec![
        Waypoint::new(0, p(150, 120), 0),
        Waypoint::new(1, p(300, 160), 0),
        Waypoint::new(2, p(40, 160), 0),
    ];
    // the second leg has no plan: there is no plan, and nothing is kept of the first leg
    assert_eq!(pathfinder.get_adjust_path(plane, mission.clone()), None);
    assert!(pathfinder.get_route().is_empty());
    assert_eq!(pathfinder.plan_legs(plane, mission.clone(), false), None);
    assert!(pathfinder.get_route().is_empty());
    // without the leg that has no plan, the mission has one
    let sound = vec![mission[0], mission[2]];
    assert_eq!(pathfinder.get_adjust_path(plane, sound).map(|r| r.len()), Some(6));
    assert_eq!(pathfinder.get_route().len(), 6);
    // an empty mission has the empty plan
    assert_eq!(pathfinder.get_adjust_path(plane, Vec::new()), Some(&Vec::new()));
    assert!(pathfinder.get_route().is_empty());
}

#[test]
fn mission_without_time_limit() {
    let mut pathfinder = Pathfinder::new();
    init(&mut pathfinder, 1000, vec![square()], Vec::new());
    pathfinder.set_process_time(0);
    let plane = Plane::new(p(20, 20));
    let mission = vec![Waypoint::new(0, p(150, 120), 0), Waypoint::new(1, p(40, 160), 0)];
    // untimed, the planner plans the mission whatever its budget
    assert_eq!(pathfinder.plan_legs(plane, mission.clone(), false).map(|r| r.len()), Some(6));
    assert_eq!(pathfinder.plan_legs(plane, mission, true), None);
}

#[test]
fn planner_tells_whether_it_may_plan() {
    let mut pathfinder = Pathfinder::new();
    // before a configuration is given the planner is not ready, and may not be asked for a plan
    assert!(!pathfinder.is_ready());
    init(&mut pathfinder, 1000, vec![square()], Vec::new());
    assert!(pathfinder.is_ready());
    pathfinder.set_obstacle_list(Vec::new());
    assert!(!pathfinder.is_ready());
}

#[test]
fn graph_is_the_same_when_built_again() {
    let obstacles = vec![
        Obstacle::new(p(50, 50), 10_000, 0),
        Obstacle::new(p(120, 60), 15_000, 0),
        Obstacle::new(p(90, 150), 5_000, 0),
    ];
    let mut pathfinder = Pathfinder::new();
    init(&mut pathfinder, 1000, vec![square()], obstacles.clone());
    let first: Vec<(Point, i64, usize)> = pathfinder
        .get_nodes()
        .iter()
        .map(|n| (n.origin, n.radius, n.vertex_count()))
        .collect();
    assert_eq!(Pathfinder::check_flyzones(pathfinder.get_flyzone()), None);
    pathfinder.rebuild();
    let second: Vec<(Point, i64, usize)> = pathfinder
        .get_nodes()
        .iter()
        .map(|n| (n.origin, n.radius, n.vertex_count()))
        .collect();
    assert_eq!(first, second);
    assert_eq!(first.len(), 3);
    let mut other = Pathfinder::new();
    init(&mut other, 1000, vec![square()], obstacles);
    let third: Vec<(Point, i64, usize)> =
        other.get_nodes().iter().map(|n| (n.origin, n.radius, n.vertex_count())).collect();
    assert_eq!(first, third);
}
