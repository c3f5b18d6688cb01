//! The vehicle and the waypoints of its mission.
use vstd::prelude::*;
use crate::point::Point;

verus! {

/// The vehicle, where it is now.
#[derive(Clone, Copy, Debug, PartialEq, Eq, Structural)]
pub struct Plane {
    pub location: Point,
}

/// A point to fly to. A radius other than zero marks a point where a turn
/// of that radius begins: positive to the left, negative to the right.
#[derive(Clone, Copy, Debug, PartialEq, Eq, Structural)]
pub struct Waypoint {
    pub index: u32,
    pub location: Point,
    pub radius: i64,
}

impl Plane {
    pub fn new(location: Point) -> (p: Plane)
        ensures
            p == (Plane { location }),
    {
        Plane { location }
    }
}

impl Waypoint {
    pub fn new(index: u32, location: Point, radius: i64) -> (w: Waypoint)
        ensures
            w == (Waypoint { index, location, radius }),
    {
        Waypoint { index, location, radius }
    }
}

} // verus!
