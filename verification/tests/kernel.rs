use pathfinder::{Obstacle, Pathfinder, Point};

fn mm(metres: f64) -> i64 {
    (metres * 1000.0).round() as i64
}

fn pt(x: f64, y: f64, height: f32) -> Point {
    Point::new(mm(x), mm(y), mm(height as f64))
}

fn ob(x: f64, y: f64, radius: f32, height: f32) -> Obstacle {
    Obstacle::new(pt(x, y, height), mm(radius as f64), mm(height as f64))
}

#[test]
fn is_between() {
    let a = pt(40f64, 40f64, 10f32);
    let b = pt(40f64, 50f64, 10f32);
    let c = pt(40f64, 60f64, 10f32);
    assert_eq!(Pathfinder::between(&a, &c, &b), true);
    assert_eq!(Pathfinder::between(&a, &b, &c), false);
}

#[test]
fn is_colinear() {
    let a = pt(40f64, 40f64, 10f32);
    let b = pt(40f64, 50f64, 10f32);
    let c = pt(40f64, 60f64, 10f32);
    assert_eq!(Pathfinder::area(&a, &b, &c), 0);
}

#[test]
fn yes_intersect() {
    let a = pt(40f64, 0f64, 10f32);
    let b = pt(40f64, 40f64, 10f32);
    let c = pt(0f64, 0f64, 10f32);
    let d = pt(0f64, 40f64, 10f32);
    assert_eq!(Pathfinder::intersect(&a, &d, &b, &c), true);
}

#[test]
fn no_intersect() {
    let a = pt(40f64, 0f64, 10f32);
    let b = pt(40f64, 40f64, 10f32);
    let c = pt(0f64, 0f64, 10f32);
    let d = pt(0f64, 40f64, 10f32);
    assert_eq!(Pathfinder::intersect(&a, &c, &b, &d), false);
    assert_eq!(Pathfinder::intersect(&c, &d, &a, &b), false);
}

#[test]
fn special_intersect() {
    let a = pt(0f64, 0f64, 10f32);
    let b = pt(10f64, 5f64, 10f32);
    let c = pt(20f64, 10f64, 10f32);
    let d = pt(30f64, 15f64, 10f32);
    assert_eq!(Pathfinder::intersect(&a, &b, &c, &d), false);
    assert_eq!(Pathfinder::intersect(&a, &c, &b, &d), true);
}

#[test]
fn intersects_circle() {
    let ob = ob(15f64, 0f64, 5f32, 20f32);

    // two crossings
    let a = pt(0f64, 0f64, 0f32);
    let b = pt(30f64, 0f64, 0f32);

    let (c1, c2) = Pathfinder::circle_intersect(&a, &b, &ob);
    assert!(c1.is_some());
    assert_eq!(c1.unwrap().x, mm(10f64));
    assert_eq!(c1.unwrap().y, mm(0f64));

    assert!(c2.is_some());
    assert_eq!(c2.unwrap().x, mm(20f64));
    assert_eq!(c2.unwrap().y, mm(0f64));

    // the line touches the circle from above
    let d = pt(0f64, 5f64, 0f32);
    let e = pt(30f64, 5f64, 0f32);

    let (f1, f2) = Pathfinder::circle_intersect(&d, &e, &ob);
    assert!(f1.is_some());
    assert_eq!(f1.unwrap().x, mm(15f64));
    assert_eq!(f1.unwrap().y, mm(5f64));

    assert!(f2.is_none());

    // the upright line touches the circle on its left
    let g = pt(10f64, -5f64, 0f32);
    let h = pt(10f64, 5f64, 0f32);

    let (i1, i2) = Pathfinder::circle_intersect(&g, &h, &ob);
    assert!(i1.is_some());
    assert_eq!(i1.unwrap().x, mm(10f64));
    assert_eq!(i1.unwrap().y, mm(0f64));

    assert!(i2.is_none());

    // y = x - 15 through the centre
    let j = pt(10f64, -5f64, 0f32);
    let k = pt(20f64, 5f64, 0f32);

    let (l1, l2) = Pathfinder::circle_intersect(&j, &k, &ob);
    assert!(l1.is_some());
    assert_eq!(l1.unwrap().x, mm(11.464f64));
    assert_eq!(l1.unwrap().y, mm(-3.536f64));

    assert!(l2.is_some());
    assert_eq!(l2.unwrap().x, mm(18.536f64));
    assert_eq!(l2.unwrap().y, mm(3.536f64));

    // a steep line from (10,10) to (15,-10)
    let m = pt(10f64, 10f64, 0f32);
    let n = pt(15f64, -10f64, 0f32);

    // the line extends further along y, so the lower crossing comes first
    let (o1, o2) = Pathfinder::circle_intersect(&m, &n, &ob);
    assert!(o1.is_some());
    assert_eq!(o1.unwrap().x, mm(13.708f64));
    assert_eq!(o1.unwrap().y, mm(-4.83f64));

    assert!(o2.is_some());
    assert_eq!(o2.unwrap().x, mm(11.587f64));
    assert_eq!(o2.unwrap().y, mm(3.654f64));
}

#[test]
fn between_goes_by_the_axis_of_greater_extent() {
    let a = Point::new(0, 0, 0);
    let b = Point::new(2, 20, 0);
    assert_eq!(Pathfinder::between(&a, &b, &Point::new(1, 100, 0)), false);
    assert_eq!(Pathfinder::between(&a, &b, &Point::new(100, 10, 0)), true);
    let c = Point::new(20, 2, 0);
    assert_eq!(Pathfinder::between(&a, &c, &Point::new(1, 100, 0)), true);
    assert_eq!(Pathfinder::between(&a, &c, &Point::new(100, 1, 0)), false);
    // the same extent along both: x decides
    let d = Point::new(20, -20, 0);
    assert_eq!(Pathfinder::between(&a, &d, &Point::new(10, 30, 0)), true);
    assert_eq!(Pathfinder::between(&a, &d, &Point::new(30, -10, 0)), false);
}

#[test]
fn circle_missed_by_line() {
    let ob = ob(15f64, 0f64, 5f32, 20f32);
    let a = pt(0f64, 6f64, 0f32);
    let b = pt(30f64, 6f64, 0f32);
    assert_eq!(Pathfinder::circle_intersect(&a, &b, &ob), (None, None));
    // no line through one point
    assert_eq!(Pathfinder::circle_intersect(&a, &a, &ob), (None, None));
}

#[test]
fn circle_crossings_take_obstacle_height() {
    let ob = ob(15f64, 0f64, 5f32, 20f32);
    let a = pt(0f64, 0f64, 3f32);
    let b = pt(30f64, 0f64, 7f32);
    let (c1, c2) = Pathfinder::circle_intersect(&a, &b, &ob);
    assert_eq!(c1.unwrap().height, mm(20f64));
    assert_eq!(c2.unwrap().height, mm(20f64));
}

#[test]
fn circle_crossings_ordered_along_leading_axis() {
    let ob = ob(15f64, 0f64, 5f32, 20f32);
    // walking the line backwards gives the same order
    let a = pt(30f64, 0f64, 0f32);
    let b = pt(0f64, 0f64, 0f32);
    let (c1, c2) = Pathfinder::circle_intersect(&a, &b, &ob);
    assert_eq!(c1.unwrap().x, mm(10f64));
    assert_eq!(c2.unwrap().x, mm(20f64));
    // an upright line pointing down: the lower crossing first
    let g = pt(15f64, 10f64, 0f32);
    let h = pt(15f64, -10f64, 0f32);
    let (i1, i2) = Pathfinder::circle_intersect(&g, &h, &ob);
    assert_eq!((i1.unwrap().x, i1.unwrap().y), (mm(15f64), mm(-5f64)));
    assert_eq!((i2.unwrap().x, i2.unwrap().y), (mm(15f64), mm(5f64)));
}

#[test]
fn intersect_is_symmetric_on_samples() {
    let pts = [
        pt(0f64, 0f64, 0f32),
        pt(10f64, 5f64, 0f32),
        pt(20f64, 10f64, 0f32),
        pt(5f64, 0f64, 0f32),
        pt(5f64, 3f64, 0f32),
        pt(10f64, 10f64, 0f32),
    ];
    for a in pts.iter() {
        for b in pts.iter() {
            for c in pts.iter() {
                for d in pts.iter() {
                    assert_eq!(
                        Pathfinder::intersect(a, b, c, d),
                        Pathfinder::intersect(c, d, a, b)
                    );
                }
            }
        }
    }
}

#[test]
fn point_on_segment_is_between_and_colinear() {
    let a = pt(0f64, 0f64, 0f32);
    let b = pt(30f64, 15f64, 0f32);
    let c = pt(10f64, 5f64, 0f32);
    assert_eq!(Pathfinder::area(&a, &b, &c), 0);
    assert!(Pathfinder::between(&a, &b, &c));
}

#[test]
fn area_is_twice_the_signed_triangle() {
    let a = Point::new(0, 0, 0);
    let b = Point::new(4, 0, 0);
    let c = Point::new(0, 3, 0);
    assert_eq!(Pathfinder::area(&a, &b, &c), 12);
    assert_eq!(Pathfinder::area(&a, &c, &b), -12);
}

#[test]
fn distance_rounds_up() {
    let a = Point::new(0, 0, 0);
    assert_eq!(a.distance(&Point::new(3, 4, 0)), 5);
    assert_eq!(a.distance(&Point::new(1, 1, 0)), 2);
    assert_eq!(a.distance(&a), 0);
    assert_eq!(a.distance_squared(&Point::new(1, 1, 0)), 2);
}
