//! Path planning for a fixed-wing vehicle among cylindrical obstacles and
//! polygonal flyzones.
//!
//! The planner works on an integer grid. Every length is a whole number of
//! one unit, which the built-in radii take to be the millimetre; every
//! angle is a whole number of a unit of which `trig::HALF_TURN` make up pi.
//! On the grid the tests of the geometry kernel are exact.
//!
//! From its configuration the planner builds a graph: a node, which is a
//! circle, round every obstacle, and on the nodes the vertices where the
//! tangents between two circles touch them, each connected to the vertex
//! at the other end of its tangent if the segment between them is clear.
//! To plan a leg it weaves a node for either end of the leg into a copy of
//! the graph, lays the result out as a chart, and searches the chart for
//! the shortest route.
pub mod arith;
pub mod builder;
pub mod chart;
pub mod circle;
pub mod clock;
pub mod geometry;
pub mod graph;
pub mod laws;
pub mod leg;
pub mod mission;
pub mod network;
pub mod node;
pub mod obstacle;
pub mod planner;
pub mod point;
pub mod route;
pub mod search;
pub mod setup;
pub mod trig;
pub mod unique;
pub mod validator;

pub use chart::Chart;
pub use clock::Stopwatch;
pub use graph::Tangent;
pub use mission::{Plane, Waypoint};
pub use node::{Connection, Disk, Node, Vertex, VertexId};
pub use obstacle::Obstacle;
pub use planner::{ConfigurationError, Pathfinder};
pub use point::Point;
pub use search::{Edge, EdgeKind, Outcome, Route, Search, SearchGraph};
