use pathfinder::arith::{div_round, isqrt, isqrt_ceil};
use pathfinder::clock::{over_budget, Stopwatch};
use pathfinder::node::TURNING_RADIUS;
use pathfinder::trig::{phase_of, HALF_TURN};
use pathfinder::network::connect;
use pathfinder::{Connection, Disk, Node, Obstacle, Pathfinder, Plane, Point, Tangent, Vertex, VertexId, Waypoint};

fn p(x: i64, y: i64) -> Point {
    Point::new(x * 1000, y * 1000, 0)
}

/// Hands the planner its configuration, after the checks that `init`
/// leaves to its caller.
fn init(pathfinder: &mut Pathfinder, grid_size: i64, flyzones: Vec<Vec<Point>>, obstacles: Vec<Obstacle>) {
    assert_eq!(Pathfinder::check_storage(&flyzones, &obstacles), None);
    assert_eq!(Pathfinder::check_flyzones(&flyzones), None);
    pathfinder.init(grid_size, flyzones, obstacles);
    assert!(pathfinder.is_ready());
}

fn square() -> Vec<Point> {
    vec![p(0, 0), p(200, 0), p(200, 200), p(0, 200)]
}

fn near(a: Point, x: i64, y: i64) -> bool {
    (a.x - x).abs() <= 1 && (a.y - y).abs() <= 1
}

fn ring(node: &Node, left: bool) -> Vec<(usize, i64)> {
    let mut out = Vec::new();
    let mut current = node.head(left);
    while let Some(k) = current {
        let v = node.vertex(k);
        out.push((k, v.angle));
        current = v.next;
    }
    out
}

#[test]
fn integer_square_roots() {
    assert_eq!(isqrt(0), 0);
    assert_eq!(isqrt(15), 3);
    assert_eq!(isqrt(16), 4);
    assert_eq!(isqrt(17), 4);
    assert_eq!(isqrt(u128::MAX), u64::MAX as u128);
    assert_eq!(isqrt_ceil(0), 0);
    assert_eq!(isqrt_ceil(16), 4);
    assert_eq!(isqrt_ceil(17), 5);
}

#[test]
fn division_rounds_to_nearest_halves_up() {
    assert_eq!(div_round(7, 2), 4);
    assert_eq!(div_round(-7, 2), -3);
    assert_eq!(div_round(5, 10), 1);
    assert_eq!(div_round(-5, 10), 0);
    assert_eq!(div_round(-6, 10), -1);
    assert_eq!(div_round(14, 10), 1);
    assert_eq!(div_round(0, 3), 0);
}

#[test]
fn angles_wrap_to_one_turn() {
    assert_eq!(phase_of(0), 0);
    assert_eq!(phase_of(HALF_TURN - 1), i32::MAX);
    assert_eq!(phase_of(HALF_TURN), i32::MIN);
    assert_eq!(phase_of(-HALF_TURN), i32::MIN);
    assert_eq!(phase_of(2 * HALF_TURN + 5), 5);
    assert_eq!(phase_of(-2 * HALF_TURN - 5), -5);
    assert_eq!(phase_of(i64::MAX), -1);
    assert_eq!(phase_of(i64::MIN), 0);
}

#[test]
fn points_of_a_circle() {
    let node = Node::new(p(100, 100), 10_000, 30);
    assert!(near(node.to_point(0), 110_000, 100_000));
    assert!(near(node.to_point(HALF_TURN / 2), 100_000, 110_000));
    assert!(near(node.to_point(HALF_TURN), 90_000, 100_000));
    assert!(near(node.to_point(-HALF_TURN / 2), 100_000, 90_000));
    assert!(near(node.to_point(HALF_TURN / 4), 107_071, 107_071));
    assert_eq!(node.to_point(HALF_TURN / 3 + 2 * HALF_TURN), node.to_point(HALF_TURN / 3));
    assert_eq!(node.to_point(0).height, 30);
    // a circle without radius is one point
    let dot = Node::new(p(100, 100), 0, 0);
    assert_eq!(dot.to_point(12345), p(100, 100));
}

#[test]
fn lean_of_a_tangent() {
    let quarter = HALF_TURN / 2;
    // no lean: a right angle
    let t = Pathfinder::lean_angle(100 * 100, 0).expect("a tangent");
    assert!((t - quarter).abs() < quarter / 10_000);
    // the circles touch from inside: no angle left
    assert_eq!(Pathfinder::lean_angle(100 * 100, 100), Some(0));
    // cosine one half: a sixth of a turn
    let t = Pathfinder::lean_angle(200_000 * 200_000, 100_000).expect("a tangent");
    assert!((t - HALF_TURN / 3).abs() < quarter / 10_000);
    // one circle holds the other, or the centres coincide
    assert_eq!(Pathfinder::lean_angle(100 * 100, 101), None);
    assert_eq!(Pathfinder::lean_angle(0, 0), None);
}

#[test]
fn vertices_enter_their_ring_in_order() {
    let mut node = Node::new(p(50, 50), 1000, 0);
    assert_eq!(node.insert_vertex(Vertex::new(5, None)), 0);
    assert_eq!(node.insert_vertex(Vertex::new(3, None)), 1);
    assert_eq!(node.insert_vertex(Vertex::new(9, None)), 2);
    assert_eq!(node.insert_vertex(Vertex::new(3, None)), 3);
    assert_eq!(node.insert_vertex(Vertex::new(0, None)), 4);
    assert_eq!(node.insert_vertex(Vertex::new(-4, None)), 5);
    assert_eq!(node.insert_vertex(Vertex::new(-2, None)), 6);
    assert_eq!(node.insert_vertex(Vertex::new(-4, None)), 7);
    assert_eq!(node.vertex_count(), 8);
    // the left ring ascends, the right ring descends, equal angles in the order they came
    assert_eq!(ring(&node, true), vec![(1, 3), (3, 3), (0, 5), (2, 9)]);
    assert_eq!(ring(&node, false), vec![(4, 0), (6, -2), (5, -4), (7, -4)]);
}

#[test]
fn vertex_keeps_its_connection() {
    let mut node = Node::new(p(50, 50), 1000, 0);
    let link = Connection::new(VertexId { node: 3, vertex: 7 }, 42);
    let id = node.insert_vertex(Vertex::new(11, Some(link)));
    let v = node.vertex(id);
    assert_eq!(v.angle, 11);
    let c = v.connection.expect("a connection");
    assert_eq!(c.neighbor, VertexId { node: 3, vertex: 7 });
    assert_eq!(c.distance, 42);
    assert_eq!(v.next, None);
    assert_eq!(node.head(true), Some(id));
    assert_eq!(node.head(false), None);
}

#[test]
fn nodes_of_obstacles_corners_vehicles_and_waypoints() {
    let ob = Obstacle::new(p(10, 20), 7000, 30_000);
    let node = Node::from_obstacle(&ob);
    assert_eq!((node.origin, node.radius, node.height()), (p(10, 20), 7000, 30_000));
    let node = Node::from_location(&p(1, 2));
    assert_eq!((node.origin, node.radius, node.height()), (p(1, 2), TURNING_RADIUS, 0));
    let plane = Plane::new(Point::new(5, 6, 77));
    let node = Node::from_plane(&plane);
    assert_eq!((node.origin, node.radius, node.height()), (plane.location, TURNING_RADIUS, 77));
    let node = Node::from_waypoint(&Waypoint::new(4, p(3, 4), 2500));
    assert_eq!((node.origin, node.radius, node.height()), (p(3, 4), 2500, 0));
    assert_eq!(node.vertex_count(), 0);
    assert_eq!(node.index(), 0);
    assert_eq!(node.disk(), Disk { origin: p(3, 4), radius: 2500, height: 0 });
}

#[test]
fn tangents_between_two_circles() {
    let mut pathfinder = Pathfinder::new();
    init(&mut pathfinder, 1000, vec![square()], Vec::new());
    let a = Disk { origin: p(50, 100), radius: 10_000, height: 0 };
    let b = Disk { origin: p(150, 100), radius: 20_000, height: 0 };
    let found = pathfinder.find_path(&a, &b);
    assert_eq!(found.len(), 4);
    // the two outer tangents mirror each other, and so do the two inner ones
    assert_eq!(found[0].theta, found[0].phi);
    assert_eq!(found[1].theta, -found[0].theta);
    assert_eq!(found[1].phi, -found[0].phi);
    assert_eq!(found[2].phi, HALF_TURN + found[2].theta);
    assert_eq!(found[3].theta, -found[2].theta);
    assert_eq!(found[3].phi, -found[2].phi);
    for t in found.iter() {
        let from = a.to_point(t.theta);
        let to = b.to_point(t.phi);
        assert_eq!(t.distance, from.distance(&to));
        assert!(pathfinder.valid_path(&from, &to));
    }
    // circles that overlap have no inner tangents
    let c = Disk { origin: p(70, 100), radius: 15_000, height: 0 };
    assert_eq!(pathfinder.find_path(&a, &c).len(), 2);
    // a circle inside another, and two circles round one centre, have none
    let d = Disk { origin: p(52, 100), radius: 2_000, height: 0 };
    assert_eq!(pathfinder.find_path(&a, &d).len(), 0);
    assert_eq!(pathfinder.find_path(&a, &a).len(), 0);
}

#[test]
fn tangents_are_kept_only_where_clear() {
    let mut pathfinder = Pathfinder::new();
    let wall = Obstacle::new(p(100, 100), 30_000, 0);
    init(&mut pathfinder, 1000, vec![square()], vec![wall]);
    let a = Disk { origin: p(40, 100), radius: 5_000, height: 0 };
    let b = Disk { origin: p(160, 100), radius: 5_000, height: 0 };
    assert_eq!(pathfinder.find_path(&a, &b).len(), 0);
}

#[test]
fn connections_lead_back() {
    let obstacles = vec![
        Obstacle::new(p(50, 50), 10_000, 0),
        Obstacle::new(p(120, 60), 15_000, 0),
        Obstacle::new(p(90, 150), 5_000, 0),
        Obstacle::new(p(90, 150), 5_000, 0),
    ];
    let mut pathfinder = Pathfinder::new();
    init(&mut pathfinder, 1000, vec![square()], obstacles);
    let nodes = pathfinder.get_nodes();
    assert_eq!(nodes.len(), 4);
    let mut total = 0;
    for (x, node) in nodes.iter().enumerate() {
        assert_eq!(node.index() as usize, x);
        for k in 0..node.vertex_count() {
            let c = node.vertex(k).connection.expect("a connection");
            assert_ne!(c.neighbor.node, x);
            let back = nodes[c.neighbor.node].vertex(c.neighbor.vertex).connection.expect("a connection");
            assert_eq!(back.neighbor, VertexId { node: x, vertex: k });
            assert_eq!(back.distance, c.distance);
            total += 1;
        }
    }
    assert_eq!(total % 2, 0);
}

#[test]
fn nodes_are_put_after_those_present() {
    let mut pathfinder = Pathfinder::new();
    let obstacles = vec![Obstacle::new(p(50, 50), 10_000, 7), Obstacle::new(p(120, 60), 15_000, 9)];
    assert_eq!(Pathfinder::check_storage(pathfinder.get_flyzone(), &obstacles), None);
    pathfinder.set_obstacle_list(obstacles);
    pathfinder.populate_nodes();
    pathfinder.populate_nodes();
    let nodes = pathfinder.get_nodes();
    assert_eq!(nodes.len(), 4);
    for (x, node) in nodes.iter().enumerate() {
        assert_eq!(node.index() as usize, x);
        assert_eq!(node.vertex_count(), 0);
    }
    assert_eq!((nodes[0].origin, nodes[0].radius, nodes[0].height()), (p(50, 50), 10_000, 7));
    assert_eq!((nodes[1].origin, nodes[1].radius, nodes[1].height()), (p(120, 60), 15_000, 9));
    assert_eq!((nodes[2].origin, nodes[2].radius, nodes[2].height()), (p(50, 50), 10_000, 7));
    assert_eq!((nodes[3].origin, nodes[3].radius, nodes[3].height()), (p(120, 60), 15_000, 9));
    assert!(!pathfinder.is_ready());
}

#[test]
fn point_from_cosine_and_sine() {
    let disk = Disk { origin: p(100, 100), radius: 10_000, height: 30 };
    let one = i32::MAX;
    assert_eq!(disk.point_from(one, 0), Point::new(110_000, 100_000, 30));
    assert_eq!(disk.point_from(0, i32::MIN), Point::new(100_000, 90_000, 30));
    assert_eq!(disk.point_from(1 << 30, -(1 << 30)), Point::new(105_000, 95_000, 30));
    // a half rounds up, also below zero
    let small = Disk { origin: p(0, 0), radius: 1, height: 0 };
    assert_eq!(small.point_from(1 << 30, -(1 << 30)), Point::new(1, 0, 0));
    assert_eq!(small.point_from((1 << 30) - 1, -(1 << 30) - 1), Point::new(0, -1, 0));
}

#[test]
fn angles_of_the_four_candidates() {
    assert_eq!(Pathfinder::candidate(100, 0), (100, 100));
    assert_eq!(Pathfinder::candidate(100, 1), (-100, -100));
    assert_eq!(Pathfinder::candidate(100, 2), (100, HALF_TURN + 100));
    assert_eq!(Pathfinder::candidate(100, 3), (-100, -(HALF_TURN + 100)));
    assert_eq!(Pathfinder::candidate(-7, 2), (-7, HALF_TURN - 7));
}

#[test]
fn connect_joins_two_nodes_both_ways() {
    let mut nodes = vec![
        Node::new(p(10, 10), 1000, 0),
        Node::new(p(50, 10), 2000, 0),
        Node::new(p(90, 10), 3000, 0),
    ];
    let first = vec![
        Tangent { theta: 5, phi: -7, distance: 42 },
        Tangent { theta: -3, phi: 9, distance: 43 },
    ];
    connect(&mut nodes, 0, 2, &first);
    connect(&mut nodes, 2, 1, &vec![Tangent { theta: 8, phi: 1, distance: 44 }]);
    assert_eq!(nodes[0].vertex_count(), 2);
    assert_eq!(nodes[1].vertex_count(), 1);
    assert_eq!(nodes[2].vertex_count(), 3);
    // each tangent has an end on either node, at its angle there
    assert_eq!(nodes[0].vertex(0).angle, 5);
    assert_eq!(nodes[0].vertex(1).angle, -3);
    assert_eq!(nodes[2].vertex(0).angle, -7);
    assert_eq!(nodes[2].vertex(1).angle, 9);
    assert_eq!(nodes[2].vertex(2).angle, 8);
    assert_eq!(nodes[1].vertex(0).angle, 1);
    // and each end leads to the other over the same distance
    let mut total = 0;
    for x in 0..nodes.len() {
        for k in 0..nodes[x].vertex_count() {
            let c = nodes[x].vertex(k).connection.expect("a connection");
            let back = nodes[c.neighbor.node].vertex(c.neighbor.vertex).connection.expect("a connection");
            assert_eq!(back.neighbor, VertexId { node: x, vertex: k });
            assert_eq!(back.distance, c.distance);
            total += 1;
        }
    }
    assert_eq!(total, 6);
    assert_eq!(nodes[0].vertex(1).connection.unwrap().neighbor, VertexId { node: 2, vertex: 1 });
    assert_eq!(nodes[0].vertex(1).connection.unwrap().distance, 43);
    assert_eq!(nodes[1].vertex(0).connection.unwrap().neighbor, VertexId { node: 2, vertex: 2 });
    // the rings take the new vertices in
    assert_eq!(ring(&nodes[2], true), vec![(2, 8), (1, 9)]);
    assert_eq!(ring(&nodes[2], false), vec![(0, -7)]);
}

#[test]
fn arcs_and_raised_weights() {
    // half a turn round a circle of radius 1000
    assert_eq!(Pathfinder::arc(1000, 0, HALF_TURN), 3142);
    assert_eq!(Pathfinder::arc(1000, HALF_TURN, 0), 3142);
    assert_eq!(Pathfinder::arc(1000, -HALF_TURN / 2, HALF_TURN / 2), 3142);
    assert_eq!(Pathfinder::arc(1000, 7, 7), 0);
    assert_eq!(Pathfinder::arc(0, 0, HALF_TURN), 0);
    assert_eq!(Pathfinder::raise(5, 10, 2), 8);
    assert_eq!(Pathfinder::raise(5, 3, 2), 5);
    assert_eq!(Pathfinder::raise(5, 2, 10), 5);
}

#[test]
fn stopwatch_and_budget() {
    assert!(over_budget(5, 5));
    assert!(over_budget(6, 5));
    assert!(!over_budget(4, 5));
    assert!(over_budget(0, 0));
    assert!(Stopwatch::start(0).expired());
    assert!(!Stopwatch::start(3600).expired());
    assert_eq!(Stopwatch::start(2).limit, 2000);
}

#[test]
fn chart_of_a_leg() {
    let mut pathfinder = Pathfinder::new();
    let ob = Obstacle::new(p(100, 170), 10_000, 0);
    init(&mut pathfinder, 1000, vec![square()], vec![ob]);
    let nodes = pathfinder.open_leg(p(20, 20), p(150, 120));
    assert_eq!(nodes.len(), 3);
    assert_eq!(nodes[1].origin, p(20, 20));
    assert_eq!(nodes[2].origin, p(150, 120));
    assert_eq!(nodes[1].radius, TURNING_RADIUS);
    let count: usize = nodes.iter().map(|n| n.vertex_count()).sum();
    let chart = pathfinder.chart_leg(&nodes, p(20, 20), p(150, 120)).expect("a chart");
    assert_eq!(chart.graph.succ.len(), count + 2);
    assert_eq!(chart.graph.h.len(), count + 2);
    assert_eq!(chart.pos[count], p(20, 20));
    assert_eq!(chart.pos[count + 1], p(150, 120));
    assert_eq!(chart.graph.h[count + 1], 0);
    assert_eq!(chart.graph.h[count], p(20, 20).distance(&p(150, 120)));
    assert!(chart.graph.succ[count + 1].is_empty());
    // the estimate never drops along an edge by more than the edge weighs
    for (u, out) in chart.graph.succ.iter().enumerate() {
        for e in out.iter() {
            assert!(chart.graph.h[u] <= e.weight + chart.graph.h[e.to]);
        }
    }
    // the planner's own graph is left as it was
    assert_eq!(pathfinder.get_nodes()[0].vertex_count(), 0);
}
