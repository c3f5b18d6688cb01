use pathfinder::{ConfigurationError, Obstacle, Pathfinder, Point};

/// Hands the planner its configuration, after the checks that `init`
/// leaves to its caller.
fn init(pathfinder: &mut Pathfinder, grid_size: i64, flyzones: Vec<Vec<Point>>, obstacles: Vec<Obstacle>) {
    assert_eq!(Pathfinder::check_storage(&flyzones, &obstacles), None);
    assert_eq!(Pathfinder::check_flyzones(&flyzones), None);
    pathfinder.init(grid_size, flyzones, obstacles);
    assert!(pathfinder.is_ready());
}

fn p(x: i64, y: i64, height: i64) -> Point {
    Point::new(x * 1000, y * 1000, height * 1000)
}

#[test]
#[should_panic]
fn invalid_flyzones_test() {
    init(&mut Pathfinder::new(), 1000, vec![], Vec::new())
}

#[test]
#[should_panic]
fn invalid_flyzone_test() {
    init(&mut Pathfinder::new(), 1000, vec![vec![]], Vec::new())
}

#[test]
fn flyzone_pathing() {
    let a = p(40, 0, 10);
    let b = p(40, 40, 10);
    let c = p(0, 0, 10);
    let d = p(0, 40, 10);
    let flyzone = vec![a, b, d, c];
    let flyzones = vec![flyzone];

    let mut pathfinder = Pathfinder::new();
    init(&mut pathfinder, 1000, flyzones, Vec::new());

    let e = p(20, 20, 10);
    let f = p(30, 30, 10);
    let g = p(20, 50, 10);

    let h = p(50, 50, 10);
    let i = p(50, 0, 10);

    assert_eq!(pathfinder.valid_path(&e, &f), true);
    assert_eq!(pathfinder.valid_path(&e, &g), false);
    assert_eq!(pathfinder.valid_path(&f, &g), false);
    assert_eq!(pathfinder.valid_path(&a, &b), false);
    assert_eq!(pathfinder.valid_path(&a, &h), false);

    // both ends outside the flyzone, and no edge crossed
    assert_eq!(pathfinder.valid_path(&h, &i), true);
    assert_eq!(pathfinder.valid_path(&h, &e), false);
}

#[test]
fn flyzones_pathing() {
    let a = p(40, 0, 10);
    let b = p(40, 40, 10);
    let c = p(0, 0, 10);
    let d = p(0, 40, 10);

    let e = p(30, 10, 10);
    let f = p(30, 30, 10);
    let g = p(10, 10, 10);
    let h = p(10, 30, 10);

    let flyzone1 = vec![a, b, d, c];
    let flyzone2 = vec![e, f, h, g];

    let flyzones = vec![flyzone1, flyzone2];

    let mut pathfinder = Pathfinder::new();
    init(&mut pathfinder, 1000, flyzones, Vec::new());

    let i = p(15, 15, 10);
    let j = p(25, 25, 10);
    let k = p(35, 5, 10);
    let l = p(50, 50, 10);
    let m = p(35, 25, 10);

    assert_eq!(pathfinder.valid_path(&i, &j), true);
    assert_eq!(pathfinder.valid_path(&i, &k), false);
    assert_eq!(pathfinder.valid_path(&i, &l), false);
    assert_eq!(pathfinder.valid_path(&k, &l), false);
    assert_eq!(pathfinder.valid_path(&k, &m), true);
}

#[test]
fn obstacles_pathing() {
    let a = p(40, 20, 10);
    let b = p(0, 20, 10);
    let c = p(60, 20, 10);
    let d = p(20, 60, 10);
    let e = p(30, 20, 10);

    let ob = Obstacle::new(p(20, 20, 10), 20 * 1000, 10 * 1000);

    let obstacles = vec![ob];

    let mut pathfinder = Pathfinder::new();
    // without a flyzone the planner cannot be made ready, but it can hold obstacles
    assert_eq!(Pathfinder::check_storage(pathfinder.get_flyzone(), &obstacles), None);
    pathfinder.set_obstacle_list(obstacles);

    assert_eq!(pathfinder.valid_path(&a, &b), false);
    assert_eq!(pathfinder.valid_path(&c, &d), true);
    assert_eq!(pathfinder.valid_path(&c, &e), false);
}

#[test]
fn square_flyzone_with_obstacle_inside() {
    let zone = vec![p(0, 0, 0), p(100, 0, 0), p(100, 100, 0), p(0, 100, 0)];
    let ob = Obstacle::new(p(50, 50, 0), 10 * 1000, 30 * 1000);
    let mut pathfinder = Pathfinder::new();
    init(&mut pathfinder, 1000, vec![zone], vec![ob]);
    // through the obstacle
    assert_eq!(pathfinder.valid_path(&p(20, 50, 0), &p(80, 50, 0)), false);
    // skirting it
    assert_eq!(pathfinder.valid_path(&p(20, 20, 0), &p(80, 20, 0)), true);
    // just inside its radius, and just outside
    assert_eq!(pathfinder.valid_path(&p(20, 41, 0), &p(80, 41, 0)), false);
    assert_eq!(pathfinder.valid_path(&p(20, 39, 0), &p(80, 39, 0)), true);
    // across the boundary
    assert_eq!(pathfinder.valid_path(&p(20, 20, 0), &p(120, 20, 0)), false);
    // an end inside the obstacle
    assert_eq!(pathfinder.valid_path(&p(20, 20, 0), &p(50, 45, 0)), false);
    // a segment of one point lies on every line: it meets each edge whose
    // extent covers it
    assert_eq!(pathfinder.valid_path(&p(20, 20, 0), &p(20, 20, 0)), false);
}

#[test]
fn obstacle_blocks_what_passes_within_its_radius() {
    let o = Point::new(0, 0, 0);
    // just inside the radius, the foot of the perpendicular on the segment
    let ob = Obstacle::new(o, 5, 0);
    assert_eq!(Pathfinder::blocks(&ob, &Point::new(3, -5, 0), &Point::new(7, 3, 0)), true);
    let ob = Obstacle::new(o, 5000, 0);
    assert_eq!(
        Pathfinder::blocks(&ob, &Point::new(-1464, -8535, 0), &Point::new(8536, 1465, 0)),
        true
    );
    // far away from a small obstacle
    let ob = Obstacle::new(o, 1, 0);
    assert_eq!(Pathfinder::blocks(&ob, &Point::new(-3, 10, 0), &Point::new(3, 11, 0)), false);
    // touching counts
    let ob = Obstacle::new(o, 5, 0);
    assert_eq!(Pathfinder::blocks(&ob, &Point::new(-10, 5, 0), &Point::new(10, 5, 0)), true);
    assert_eq!(Pathfinder::blocks(&ob, &Point::new(-10, 6, 0), &Point::new(10, 6, 0)), false);
    // the line passes within the radius, the segment does not
    assert_eq!(Pathfinder::blocks(&ob, &Point::new(6, 1, 0), &Point::new(20, 1, 0)), false);
    assert_eq!(Pathfinder::blocks(&ob, &Point::new(-20, 1, 0), &Point::new(-6, 1, 0)), false);
    // an end on the circle is not inside: a segment that leads away from
    // there is free, one that leaves along the circle touches it
    assert_eq!(Pathfinder::blocks(&ob, &Point::new(5, 0, 0), &Point::new(20, 1, 0)), false);
    assert_eq!(Pathfinder::blocks(&ob, &Point::new(5, 0, 0), &Point::new(5, 10, 0)), true);
    assert_eq!(Pathfinder::blocks(&ob, &Point::new(6, 0, 0), &Point::new(20, 0, 0)), false);
    // an end inside
    assert_eq!(Pathfinder::blocks(&ob, &Point::new(4, 0, 0), &Point::new(20, 0, 0)), true);
    // a segment of one point: only where it is inside
    assert_eq!(Pathfinder::blocks(&ob, &Point::new(5, 0, 0), &Point::new(5, 0, 0)), false);
    assert_eq!(Pathfinder::blocks(&ob, &Point::new(3, 3, 0), &Point::new(3, 3, 0)), true);
    // an obstacle without radius blocks what passes through its centre
    let dot = Obstacle::new(o, 0, 0);
    assert_eq!(Pathfinder::blocks(&dot, &Point::new(-3, -3, 0), &Point::new(3, 3, 0)), true);
    assert_eq!(Pathfinder::blocks(&dot, &Point::new(10, 0, 0), &Point::new(20, 5, 0)), false);
    // through the planner, without flyzones
    let mut pathfinder = Pathfinder::new();
    pathfinder.set_obstacle_list(vec![Obstacle::new(o, 5, 0)]);
    assert_eq!(pathfinder.valid_path(&Point::new(3, -5, 0), &Point::new(7, 3, 0)), false);
    pathfinder.set_obstacle_list(vec![Obstacle::new(o, 1, 0)]);
    assert_eq!(pathfinder.valid_path(&Point::new(-3, 10, 0), &Point::new(3, 11, 0)), true);
}

#[test]
fn configuration_errors() {
    let zone = vec![p(0, 0, 0), p(100, 0, 0), p(100, 100, 0)];
    assert_eq!(Pathfinder::check_flyzones(&vec![]), Some(ConfigurationError::NoFlyzones));
    assert_eq!(
        Pathfinder::check_flyzones(&vec![zone.clone(), vec![p(0, 0, 0), p(1, 1, 0)]]),
        Some(ConfigurationError::SmallFlyzone)
    );
    assert_eq!(Pathfinder::check_flyzones(&vec![zone.clone()]), None);
    let far = Point::new(0x800_0001, 0, 0);
    assert_eq!(
        Pathfinder::check_storage(&vec![vec![far, p(1, 1, 0), p(2, 0, 0)]], &Vec::new()),
        Some(ConfigurationError::OutOfRange)
    );
    let wide = Obstacle::new(p(0, 0, 0), 0x800_0001, 0);
    assert_eq!(
        Pathfinder::check_storage(&vec![zone.clone()], &vec![wide]),
        Some(ConfigurationError::OutOfRange)
    );
    let many = vec![Obstacle::new(p(0, 0, 0), 0, 0); 0x10000];
    assert_eq!(
        Pathfinder::check_storage(&vec![zone.clone()], &many),
        Some(ConfigurationError::TooManyObstacles)
    );
    assert_eq!(Pathfinder::check_storage(&vec![zone.clone()], &many[1..].to_vec()), None);
    // a small flyzone is in range, and can be kept, but not built on
    assert_eq!(Pathfinder::check_storage(&vec![vec![p(0, 0, 0), p(1, 1, 0)]], &Vec::new()), None);
    let mut pathfinder = Pathfinder::new();
    assert!(!pathfinder.is_ready());
    init(&mut pathfinder, 1000, vec![zone], Vec::new());
    assert!(pathfinder.is_ready());
}

#[test]
fn getters_and_setters() {
    let mut pathfinder = Pathfinder::new();
    assert_eq!(pathfinder.get_grid_size(), 1000);
    assert_eq!(pathfinder.get_buffer(), 1000);
    assert_eq!(pathfinder.get_process_time(), 10);
    assert!(pathfinder.get_flyzone().is_empty());
    assert!(pathfinder.get_obstacle_list().is_empty());
    let zone = vec![p(0, 0, 0), p(100, 0, 0), p(100, 100, 0)];
    init(&mut pathfinder, 7000, vec![zone.clone()], Vec::new());
    assert_eq!(pathfinder.get_grid_size(), 7000);
    assert_eq!(pathfinder.get_buffer(), 7000);
    init(&mut pathfinder, 1000, vec![zone.clone()], Vec::new());
    assert_eq!(pathfinder.get_buffer(), 5000);
    pathfinder.set_grid_size(6000);
    assert_eq!(pathfinder.get_grid_size(), 6000);
    assert_eq!(pathfinder.get_buffer(), 6000);
    pathfinder.set_grid_size(10);
    assert_eq!(pathfinder.get_grid_size(), 10);
    assert_eq!(pathfinder.get_buffer(), 5000);
    pathfinder.set_process_time(3);
    assert_eq!(pathfinder.get_process_time(), 3);
    assert!(pathfinder.is_ready());
    let obstacles = vec![Obstacle::new(p(50, 20, 0), 5000, 0)];
    assert_eq!(Pathfinder::check_storage(pathfinder.get_flyzone(), &obstacles), None);
    pathfinder.set_obstacle_list(obstacles);
    assert!(!pathfinder.is_ready());
    assert_eq!(pathfinder.get_obstacle_list().len(), 1);
    assert_eq!(Pathfinder::check_flyzones(pathfinder.get_flyzone()), None);
    pathfinder.rebuild();
    assert!(pathfinder.is_ready());
    assert_eq!(pathfinder.get_nodes().len(), 1);
    let zones = vec![zone.clone(), zone];
    assert_eq!(Pathfinder::check_storage(&zones, pathfinder.get_obstacle_list()), None);
    pathfinder.set_flyzone(zones);
    assert!(!pathfinder.is_ready());
    assert_eq!(pathfinder.get_flyzone().len(), 2);
}
