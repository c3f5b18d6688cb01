//! Cylindrical obstacles.
use vstd::prelude::*;
use crate::point::{Point, LIMIT};

verus! {

/// A cylinder that no path may enter: a disk of `radius` around `location`,
/// up to `height`.
#[derive(Clone, Copy, Debug, PartialEq, Eq, Structural)]
pub struct Obstacle {
    pub location: Point,
    pub radius: i64,
    pub height: i64,
}

impl Obstacle {
    /// Whether the centre is in range and the radius is between 0 and `LIMIT`.
    pub open spec fn in_range(self) -> bool {
        &&& self.location.in_range()
        &&& 0 <= self.radius <= LIMIT
    }

    pub fn new(location: Point, radius: i64, height: i64) -> (o: Obstacle)
        ensures
            o == (Obstacle { location, radius, height }),
    {
        Obstacle { location, radius, height }
    }

    /// Run-time test of `in_range`.
    pub fn is_in_range(&self) -> (r: bool)
        ensures
            r == self.in_range(),
    {
        self.location.is_in_range() && 0 <= self.radius && self.radius <= LIMIT
    }
}

} // verus!
