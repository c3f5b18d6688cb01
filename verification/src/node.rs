//! Nodes, their vertices and the rings that order them.
//!
//! A node is a circle. Its vertices are points of that circle, each given
//! by its angle. The vertices live in the node's arena and keep their
//! index there for good; a ring threads some of them in order of angle
//! through their `next` links.
use vstd::prelude::*;
use crate::arith::{div_round, round_div};
use crate::mission::{Plane, Waypoint};
use crate::obstacle::Obstacle;
use crate::point::{lemma_product_bound, Point, LIMIT};
use crate::trig::{cos_sin_of, cos_sin_table, wrap_phase, UNIT};

verus! {

/// The radius of the tightest turn the vehicle can fly.
pub const TURNING_RADIUS: i64 = 5000;

/// Names a vertex: the index of its node, and its own index in the node's
/// arena.
#[derive(Clone, Copy, Debug, PartialEq, Eq, Structural)]
pub struct VertexId {
    pub node: usize,
    pub vertex: usize,
}

/// One direction of a tangent between two nodes: the vertex it leads to,
/// on the other node, and its length.
#[derive(Clone, Copy, Debug)]
pub struct Connection {
    pub neighbor: VertexId,
    pub distance: u64,
}

/// A point on a node's circle.
#[derive(Clone, Copy, Debug)]
pub struct Vertex {
    /// The angle of the point, seen from the node's origin.
    pub angle: i64,
    /// The tangent that leaves the node here.
    pub connection: Option<Connection>,
    /// The arena index of the vertex that follows in the same ring.
    pub next: Option<usize>,
}

impl Connection {
    pub fn new(neighbor: VertexId, distance: u64) -> (c: Connection)
        ensures
            c == (Connection { neighbor, distance }),
    {
        Connection { neighbor, distance }
    }
}

impl Vertex {
    /// A vertex that is in no ring yet.
    pub fn new(angle: i64, connection: Option<Connection>) -> (v: Vertex)
        ensures
            v == (Vertex { angle, connection, next: None }),
    {
        Vertex { angle, connection, next: None }
    }
}

/// A circle round an obstacle, a flyzone corner, the vehicle or a waypoint,
/// with the tangent points found on it so far.
pub struct Node {
    pub origin: Point,
    pub radius: i64,
    pub height: i64,
    pub index: u32,
    /// The arena.
    pub vertices: Vec<Vertex>,
    /// The first vertex of the ring of angles above zero.
    pub left_ring: Option<usize>,
    /// The first vertex of the ring of the other angles.
    pub right_ring: Option<usize>,
    /// The left ring written out, first vertex first.
    pub left_order: Ghost<Seq<int>>,
    /// The right ring written out.
    pub right_order: Ghost<Seq<int>>,
}

/// The circle of a node, at its height.
#[derive(Clone, Copy, Debug, PartialEq, Eq, Structural)]
pub struct Disk {
    pub origin: Point,
    pub radius: i64,
    pub height: i64,
}

impl Disk {
    /// Whether the centre is in range and the radius is between 0 and `LIMIT`.
    pub open spec fn in_range(self) -> bool {
        self.origin.in_range() && 0 <= self.radius <= LIMIT
    }

    /// The point of the circle at `angle`.
    pub open spec fn point_at(self, angle: int) -> Point {
        point_on_circle(self.origin, self.radius as int, self.height, angle)
    }
}

/// Whether a vertex with this angle belongs to the left ring (angles above
/// zero) or to the right ring (the others).
pub open spec fn in_ring(left: bool, angle: int) -> bool {
    if left {
        angle > 0
    } else {
        angle <= 0
    }
}

/// Whether a vertex at `existing` may stand before a new one at `new`: the
/// left ring ascends, the right ring descends, and equal angles keep the
/// order in which they came.
pub open spec fn stays_before(left: bool, existing: int, new: int) -> bool {
    if left {
        existing <= new
    } else {
        existing >= new
    }
}

/// The point of the circle round `origin` at `angle`, each coordinate
/// rounded to the nearest unit.
pub open spec fn point_on_circle(origin: Point, radius: int, height: i64, angle: int) -> Point {
    let cs = cos_sin_table(wrap_phase(angle) as i32);
    Point {
        x: (origin.x + round_div(radius * cs.0, UNIT as int)) as i64,
        y: (origin.y + round_div(radius * cs.1, UNIT as int)) as i64,
        height,
    }
}

/// A point of a circle in range is no further from the centre than the
/// radius, along either axis, and so in reach.
pub proof fn lemma_point_on_circle(d: Disk, angle: int)
    requires
        d.in_range(),
    ensures
        d.origin.x - d.radius <= d.point_at(angle).x <= d.origin.x + d.radius,
        d.origin.y - d.radius <= d.point_at(angle).y <= d.origin.y + d.radius,
        d.point_at(angle).in_reach(),
{
    let cs = cos_sin_table(wrap_phase(angle) as i32);
    lemma_product_bound(d.radius as int, cs.0 as int, d.radius as int, 0x8000_0000);
    lemma_product_bound(d.radius as int, cs.1 as int, d.radius as int, 0x8000_0000);
    crate::circle::lemma_round_div_bound(d.radius * cs.0, 0x8000_0000, d.radius as int);
    crate::circle::lemma_round_div_bound(d.radius * cs.1, 0x8000_0000, d.radius as int);
}

/// Whether `order` lists vertices of the arena, none of them twice.
pub open spec fn ring_in_arena(vs: Seq<Vertex>, order: Seq<int>) -> bool {
    &&& forall|i: int| 0 <= i < order.len() ==> 0 <= #[trigger] order[i] && order[i] < vs.len()
    &&& forall|i: int, j: int| 0 <= i < j < order.len() ==> order[i] != order[j]
}

/// Whether each vertex that `order` lists names the one listed after it
/// as its `next`, and the last names none.
pub open spec fn ring_linked(vs: Seq<Vertex>, order: Seq<int>) -> bool {
    forall|i: int|
        0 <= i < order.len() ==> (#[trigger] vs[order[i]]).next == (if i + 1 < order.len() {
            Some(order[i + 1] as usize)
        } else {
            None::<usize>
        })
}

/// Whether `order` lists just the vertices whose angle puts them in this
/// ring.
pub open spec fn ring_members(vs: Seq<Vertex>, order: Seq<int>, left: bool) -> bool {
    forall|k: int| 0 <= k < vs.len() ==> (in_ring(left, vs[k].angle as int) <==> order.contains(k))
}

/// Whether `order` lists its vertices in the order of their angles, those
/// of one angle in the order of the arena.
pub open spec fn ring_sorted(vs: Seq<Vertex>, order: Seq<int>, left: bool) -> bool {
    forall|i: int, j: int|
        #![trigger order[i], order[j]]
        0 <= i < j < order.len() ==> stays_before(
            left,
            vs[order[i]].angle as int,
            vs[order[j]].angle as int,
        ) && (vs[order[i]].angle == vs[order[j]].angle ==> order[i] < order[j])
}

/// Whether `order` is a ring of the arena `vs` that starts at `head`: it
/// lists, without repeating any, the vertices whose angle puts them in this
/// ring, in the order of their angles, those of one angle in the order of
/// the arena, and each vertex's `next` names the one listed after it.
pub open spec fn ring_ok(vs: Seq<Vertex>, head: Option<usize>, order: Seq<int>, left: bool) -> bool {
    &&& ring_in_arena(vs, order)
    &&& head == (if order.len() == 0 {
        None::<usize>
    } else {
        Some(order[0] as usize)
    })
    &&& ring_linked(vs, order)
    &&& ring_members(vs, order, left)
    &&& ring_sorted(vs, order, left)
}

/// Whether `pos` is where a new vertex at `angle` enters a ring: after every
/// vertex that may stand before it, and before the first that may not.
pub open spec fn is_entry(vs: Seq<Vertex>, order: Seq<int>, left: bool, angle: int, pos: int) -> bool {
    &&& 0 <= pos <= order.len()
    &&& forall|i: int| 0 <= i < pos ==> stays_before(left, vs[#[trigger] order[i]].angle as int, angle)
    &&& pos < order.len() ==> !stays_before(left, vs[order[pos]].angle as int, angle)
}

impl Node {
    /// The vertices in the order in which they were inserted.
    pub open spec fn vertex_seq(&self) -> Seq<Vertex> {
        self.vertices@
    }

    /// The arena indices of the vertices of a ring, in ring order.
    pub open spec fn ring(&self, left: bool) -> Seq<int> {
        if left {
            self.left_order@
        } else {
            self.right_order@
        }
    }

    /// The arena index of the first vertex of a ring.
    pub open spec fn ring_head(&self, left: bool) -> Option<usize> {
        if left {
            self.left_ring
        } else {
            self.right_ring
        }
    }

    pub open spec fn height_of(&self) -> i64 {
        self.height
    }

    pub open spec fn index_of(&self) -> u32 {
        self.index
    }

    /// Whether the node has no vertices, and so two empty rings.
    pub open spec fn is_fresh(&self) -> bool {
        &&& self.vertex_seq() == Seq::<Vertex>::empty()
        &&& self.ring(true) == Seq::<int>::empty()
        &&& self.ring(false) == Seq::<int>::empty()
        &&& self.ring_head(true).is_none()
        &&& self.ring_head(false).is_none()
    }

    /// The circle lies in range, the vertices are no more than can be
    /// numbered, and both rings are rings of the arena.
    pub open spec fn wf(&self) -> bool {
        &&& self.origin.in_range()
        &&& 0 <= self.radius <= LIMIT
        &&& self.vertex_seq().len() <= usize::MAX
        &&& ring_ok(self.vertex_seq(), self.ring_head(true), self.ring(true), true)
        &&& ring_ok(self.vertex_seq(), self.ring_head(false), self.ring(false), false)
    }

    /// The node's circle.
    pub open spec fn disk_of(&self) -> Disk {
        Disk { origin: self.origin, radius: self.radius, height: self.height }
    }

    /// The point of the node's circle at `angle`.
    pub open spec fn point_at(&self, angle: int) -> Point {
        self.disk_of().point_at(angle)
    }

    /// A node without vertices.
    pub fn new(origin: Point, radius: i64, height: i64) -> (n: Node)
        ensures
            n.origin == origin,
            n.radius == radius,
            n.height_of() == height,
            n.index_of() == 0,
            n.is_fresh(),
            n.wf() <==> origin.in_range() && 0 <= radius <= LIMIT,
    {
        let n = Node {
            origin,
            radius,
            height,
            index: 0,
            vertices: Vec::new(),
            left_ring: None,
            right_ring: None,
            left_order: Ghost(Seq::empty()),
            right_order: Ghost(Seq::empty()),
        };
        assert(forall|k: int| !Seq::<int>::empty().contains(k));
        n
    }

    /// The node of an obstacle: its circle at its height.
    pub fn from_obstacle(obs: &Obstacle) -> (n: Node)
        ensures
            n.origin == obs.location,
            n.radius == obs.radius,
            n.height_of() == obs.height,
            n.index_of() == 0,
            n.is_fresh(),
            n.wf() <==> obs.in_range(),
    {
        Node::new(obs.location, obs.radius, obs.height)
    }

    /// The node of a flyzone corner: a circle of the turning radius on the
    /// ground.
    pub fn from_location(p: &Point) -> (n: Node)
        ensures
            n.origin == *p,
            n.radius == TURNING_RADIUS,
            n.height_of() == 0,
            n.index_of() == 0,
            n.is_fresh(),
            n.wf() <==> p.in_range(),
    {
        Node::new(*p, TURNING_RADIUS, 0)
    }

    /// The node of the vehicle: a circle of the turning radius at its height.
    pub fn from_plane(plane: &Plane) -> (n: Node)
        ensures
            n.origin == plane.location,
            n.radius == TURNING_RADIUS,
            n.height_of() == plane.location.height,
            n.index_of() == 0,
            n.is_fresh(),
            n.wf() <==> plane.location.in_range(),
    {
        Node::new(plane.location, TURNING_RADIUS, plane.location.height)
    }

    /// The node of a waypoint: a circle of the waypoint's radius on the
    /// ground.
    pub fn from_waypoint(waypoint: &Waypoint) -> (n: Node)
        ensures
            n.origin == waypoint.location,
            n.radius == waypoint.radius,
            n.height_of() == 0,
            n.index_of() == 0,
            n.is_fresh(),
            n.wf() <==> waypoint.location.in_range() && 0 <= waypoint.radius <= LIMIT,
    {
        Node::new(waypoint.location, waypoint.radius, 0)
    }

    pub fn height(&self) -> (h: i64)
        ensures
            h == self.height_of(),
    {
        self.height
    }

    pub fn index(&self) -> (i: u32)
        ensures
            i == self.index_of(),
    {
        self.index
    }

    /// Gives the node its place in the graph.
    pub fn set_index(&mut self, index: u32)
        ensures
            *final(self) == (Node { index, ..*old(self) }),
    {
        self.index = index;
    }

    /// The node's circle.
    pub fn disk(&self) -> (d: Disk)
        ensures
            d == self.disk_of(),
    {
        Disk { origin: self.origin, radius: self.radius, height: self.height }
    }

    /// How many vertices the node has.
    pub fn vertex_count(&self) -> (n: usize)
        ensures
            n == self.vertex_seq().len(),
    {
        self.vertices.len()
    }

    /// The vertex with arena index `k`.
    pub fn vertex(&self, k: usize) -> (v: Vertex)
        requires
            k < self.vertex_seq().len(),
        ensures
            v == self.vertex_seq()[k as int],
    {
        self.vertices[k]
    }

    /// The first vertex of a ring.
    pub fn head(&self, left: bool) -> (h: Option<usize>)
        ensures
            h == self.ring_head(left),
    {
        if left {
            self.left_ring
        } else {
            self.right_ring
        }
    }

    /// The point of the node's circle at `angle`.
    pub fn to_point(&self, angle: i64) -> (p: Point)
        requires
            self.disk_of().in_range(),
        ensures
            p == self.point_at(angle as int),
            p.in_reach(),
            self.origin.x - self.radius <= p.x <= self.origin.x + self.radius,
            self.origin.y - self.radius <= p.y <= self.origin.y + self.radius,
    {
        self.disk().to_point(angle)
    }
}

impl Disk {
    /// The point of the circle in the direction whose cosine and sine,
    /// each scaled by `UNIT`, are `cos` and `sin`: the centre moved by the
    /// radius times either, each coordinate rounded to the nearest unit.
    pub fn point_from(&self, cos: i32, sin: i32) -> (p: Point)
        requires
            self.in_range(),
        ensures
            p == (Point {
                x: (self.origin.x + round_div(self.radius * cos, UNIT as int)) as i64,
                y: (self.origin.y + round_div(self.radius * sin, UNIT as int)) as i64,
                height: self.height,
            }),
            p.in_reach(),
            self.origin.x - self.radius <= p.x <= self.origin.x + self.radius,
            self.origin.y - self.radius <= p.y <= self.origin.y + self.radius,
    {
        proof {
            lemma_product_bound(self.radius as int, cos as int, 0x800_0000, 0x8000_0000);
            lemma_product_bound(self.radius as int, sin as int, 0x800_0000, 0x8000_0000);
            lemma_product_bound(self.radius as int, cos as int, self.radius as int, 0x8000_0000);
            lemma_product_bound(self.radius as int, sin as int, self.radius as int, 0x8000_0000);
            crate::circle::lemma_round_div_bound(self.radius * cos, 0x8000_0000, self.radius as int);
            crate::circle::lemma_round_div_bound(self.radius * sin, 0x8000_0000, self.radius as int);
        }
        let dx: i128 = div_round(self.radius as i128 * cos as i128, 0x8000_0000);
        let dy: i128 = div_round(self.radius as i128 * sin as i128, 0x8000_0000);
        Point { x: (self.origin.x as i128 + dx) as i64, y: (self.origin.y as i128 + dy) as i64, height: self.height }
    }

    /// The point of the circle at `angle`.
    pub fn to_point(&self, angle: i64) -> (p: Point)
        requires
            self.in_range(),
        ensures
            p == self.point_at(angle as int),
            p.in_reach(),
            self.origin.x - self.radius <= p.x <= self.origin.x + self.radius,
            self.origin.y - self.radius <= p.y <= self.origin.y + self.radius,
    {
        let (c, s) = cos_sin_of(angle);
        self.point_from(c, s)
    }
}

/// Whether two nodes hold the same: one circle, one place in the graph,
/// the same vertices and the same rings.
pub open spec fn same_node(a: Node, b: Node) -> bool {
    &&& a.disk_of() == b.disk_of()
    &&& a.index == b.index
    &&& a.vertex_seq() == b.vertex_seq()
    &&& a.ring(true) == b.ring(true)
    &&& a.ring(false) == b.ring(false)
    &&& a.ring_head(true) == b.ring_head(true)
    &&& a.ring_head(false) == b.ring_head(false)
}

impl Node {
    /// A node that holds the same as this one.
    pub fn copy(&self) -> (n: Node)
        ensures
            same_node(n, *self),
    {
        let mut vertices: Vec<Vertex> = Vec::new();
        let mut k: usize = 0;
        while k < self.vertices.len()
            invariant
                k <= self.vertices.len(),
                vertices@ == self.vertices@.take(k as int),
            decreases self.vertices.len() - k,
        {
            vertices.push(self.vertices[k]);
            assert(vertices@ =~= self.vertices@.take(k + 1));
            k += 1;
        }
        assert(vertices@ =~= self.vertices@);
        Node {
            origin: self.origin,
            radius: self.radius,
            height: self.height,
            index: self.index,
            vertices,
            left_ring: self.left_ring,
            right_ring: self.right_ring,
            left_order: Ghost(self.left_order@),
            right_order: Ghost(self.right_order@),
        }
    }
}

impl Node {
    /// Puts a vertex into the arena and threads it into the ring that its
    /// angle calls for: the left ring, ascending, for an angle above zero,
    /// else the right ring, descending. Scanning from the ring's head, the
    /// vertex goes before the first vertex that may not stand before it,
    /// or to the tail. Returns the vertex's index in the arena.
    pub fn insert_vertex(&mut self, v: Vertex) -> (id: usize)
        requires
            old(self).wf(),
            old(self).vertices.len() < usize::MAX,
        ensures
            final(self).wf(),
            final(self).origin == old(self).origin,
            final(self).radius == old(self).radius,
            final(self).height == old(self).height,
            final(self).index == old(self).index,
            id == old(self).vertex_seq().len(),
            final(self).vertex_seq().len() == id + 1,
            final(self).vertex_seq()[id as int].angle == v.angle,
            final(self).vertex_seq()[id as int].connection == v.connection,
            forall|k: int|
                0 <= k < id ==> (#[trigger] final(self).vertex_seq()[k]).angle == old(
                    self,
                ).vertex_seq()[k].angle && final(self).vertex_seq()[k].connection == old(
                    self,
                ).vertex_seq()[k].connection,
            exists|pos: int| #[trigger] entered(*old(self), *final(self), v.angle as int, pos),
            final(self).ring(!(v.angle > 0)) == old(self).ring(!(v.angle > 0)),
    {
        let left: bool = v.angle > 0;
        let id: usize = self.vertices.len();
        let ghost vs0 = self.vertices@;
        let ghost order = self.ring(left);
        let ghost other = self.ring(!left);
        let mut prev: Option<usize> = None;
        let mut cur: Option<usize> = if left { self.left_ring } else { self.right_ring };
        let mut scanning: bool = true;
        let ghost mut pos: int = 0;
        while scanning
            invariant
                *self == *old(self),
                self.wf(),
                vs0 == self.vertices@,
                vs0.len() < usize::MAX,
                order == self.ring(left),
                left == (v.angle > 0),
                0 <= pos <= order.len(),
                cur == (if pos < order.len() {
                    Some(order[pos] as usize)
                } else {
                    None::<usize>
                }),
                prev == (if pos > 0 {
                    Some(order[pos - 1] as usize)
                } else {
                    None::<usize>
                }),
                forall|i: int| 0 <= i < pos ==> stays_before(left, vs0[#[trigger] order[i]].angle as int, v.angle as int),
                !scanning ==> (pos < order.len() ==> !stays_before(
                    left,
                    vs0[order[pos]].angle as int,
                    v.angle as int,
                )),
            decreases (order.len() - pos) + (if scanning { 1int } else { 0int }),
        {
            match cur {
                None => {
                    scanning = false;
                },
                Some(c) => {
                    proof {
                        assert(pos < order.len());
                        assert(0 <= order[pos] && order[pos] < vs0.len());
                        assert(c == order[pos]);
                        assert(ring_ok(vs0, self.ring_head(left), order, left));
                        assert(vs0[order[pos]].next == (if pos + 1 < order.len() {
                            Some(order[pos + 1] as usize)
                        } else {
                            None::<usize>
                        }));
                    }
                    let e = self.vertices[c];
                    let keep: bool = if left { e.angle <= v.angle } else { e.angle >= v.angle };
                    if keep {
                        prev = cur;
                        cur = e.next;
                        proof {
                            pos = pos + 1;
                        }
                    } else {
                        scanning = false;
                    }
                },
            }
        }
        assert(is_entry(vs0, order, left, v.angle as int, pos));
        self.vertices.push(Vertex { angle: v.angle, connection: v.connection, next: cur });
        match prev {
            None => {
                if left {
                    self.left_ring = Some(id);
                } else {
                    self.right_ring = Some(id);
                }
            },
            Some(before) => {
                let mut e = self.vertices[before];
                e.next = Some(id);
                self.vertices[before] = e;
            },
        }
        if left {
            self.left_order = Ghost(order.insert(pos, id as int));
        } else {
            self.right_order = Ghost(order.insert(pos, id as int));
        }
        proof {
            let vs1 = self.vertices@;
            let ord1 = order.insert(pos, id as int);
            order.insert_ensures(pos, id as int);
            assert(self.ring(left) == ord1);
            assert(self.ring(!left) == other);
            // the arena keeps every angle, and every link but the one before the entry
            assert forall|k: int| 0 <= k < id implies (#[trigger] vs1[k]).angle == vs0[k].angle
                && vs1[k].connection == vs0[k].connection && ((pos == 0 || k != order[pos - 1])
                ==> vs1[k].next == vs0[k].next) by {}
            assert(ring_ok(vs0, old(self).ring_head(left), order, left));
            assert(ring_ok(vs0, old(self).ring_head(!left), other, !left));
            if pos > 0 {
                assert(0 <= order[pos - 1] && order[pos - 1] < vs0.len());
            }
            assert(spliced(vs0, vs1, order, v.angle as int, pos));
            lemma_ring_after_entry(vs0, vs1, old(self).ring_head(left), self.ring_head(left), order, left, v.angle as int, pos);
            lemma_ring_untouched(vs0, vs1, old(self).ring_head(!left), other, order, left, v.angle as int, pos);
            assert(entered(*old(self), *self, v.angle as int, pos));
        }
        id
    }
}

/// Whether the ring for `angle` of the node `after` is that of the node
/// `before` with a new vertex, the next of the arena, entered at `pos`.
pub open spec fn entered(before: Node, after: Node, angle: int, pos: int) -> bool {
    &&& is_entry(before.vertex_seq(), before.ring(angle > 0), angle > 0, angle, pos)
    &&& after.ring(angle > 0) == before.ring(angle > 0).insert(pos, before.vertex_seq().len() as int)
}

/// Whether the arena `vs1` is the arena `vs0` with one vertex more, at
/// `angle`, entered at `pos` of the ring `order`: the new vertex names the
/// vertex at `pos` as its next, the vertex before `pos` names the new
/// one, and nothing else has changed.
pub open spec fn spliced(vs0: Seq<Vertex>, vs1: Seq<Vertex>, order: Seq<int>, angle: int, pos: int) -> bool {
    &&& vs0.len() < usize::MAX
    &&& vs1.len() == vs0.len() + 1
    &&& 0 <= pos <= order.len()
    &&& vs1[vs0.len() as int].angle == angle
    &&& vs1[vs0.len() as int].next == (if pos < order.len() {
        Some(order[pos] as usize)
    } else {
        None::<usize>
    })
    &&& forall|k: int|
        0 <= k < vs0.len() ==> (#[trigger] vs1[k]).angle == vs0[k].angle && ((pos == 0 || k
            != order[pos - 1]) ==> vs1[k].next == vs0[k].next)
    &&& pos > 0 ==> vs1[order[pos - 1]].next == Some(vs0.len() as usize)
}

/// Where each entry of a ring comes from after a vertex entered it.
proof fn lemma_entries(order: Seq<int>, pos: int, id: int)
    requires
        0 <= pos <= order.len(),
    ensures
        order.insert(pos, id).len() == order.len() + 1,
        forall|i: int| 0 <= i < pos ==> #[trigger] order.insert(pos, id)[i] == order[i],
        order.insert(pos, id)[pos] == id,
        forall|i: int| pos < i <= order.len() ==> #[trigger] order.insert(pos, id)[i] == order[i - 1],
{
    order.insert_ensures(pos, id);
    assert forall|i: int| pos < i <= order.len() implies #[trigger] order.insert(pos, id)[i]
        == order[i - 1] by {
        assert(order.insert(pos, id)[(i - 1) + 1] == order[i - 1]);
    }
}

proof fn lemma_entry_in_arena(vs0: Seq<Vertex>, vs1: Seq<Vertex>, order: Seq<int>, angle: int, pos: int)
    requires
        ring_in_arena(vs0, order),
        spliced(vs0, vs1, order, angle, pos),
    ensures
        ring_in_arena(vs1, order.insert(pos, vs0.len() as int)),
{
    let id = vs0.len() as int;
    let ord1 = order.insert(pos, id);
    lemma_entries(order, pos, id);
    assert forall|i: int| 0 <= i < ord1.len() implies 0 <= #[trigger] ord1[i] && ord1[i] < vs1.len() by {
        if i > pos {
            assert(0 <= order[i - 1] && order[i - 1] < vs0.len());
        } else if i < pos {
            assert(0 <= order[i] && order[i] < vs0.len());
        }
    }
    assert forall|i: int, j: int| 0 <= i < j < ord1.len() implies ord1[i] != ord1[j] by {
        let a = if i < pos { i } else { i - 1 };
        let b = if j < pos { j } else { j - 1 };
        if i != pos && j != pos {
            assert(order[a] != order[b]);
        } else if i == pos {
            assert(0 <= order[b] && order[b] < vs0.len());
        } else {
            assert(0 <= order[a] && order[a] < vs0.len());
        }
    }
}

proof fn lemma_entry_linked(vs0: Seq<Vertex>, vs1: Seq<Vertex>, order: Seq<int>, angle: int, pos: int)
    requires
        ring_in_arena(vs0, order),
        ring_linked(vs0, order),
        spliced(vs0, vs1, order, angle, pos),
    ensures
        ring_linked(vs1, order.insert(pos, vs0.len() as int)),
{
    let id = vs0.len() as int;
    let ord1 = order.insert(pos, id);
    lemma_entries(order, pos, id);
    assert forall|i: int| 0 <= i < ord1.len() implies (#[trigger] vs1[ord1[i]]).next == (if i + 1
        < ord1.len() {
        Some(ord1[i + 1] as usize)
    } else {
        None::<usize>
    }) by {
        if i < pos {
            assert(0 <= order[i] && order[i] < vs0.len());
            assert(ord1[i] == order[i]);
            if i == pos - 1 {
                assert(ord1[i + 1] == id);
            } else {
                assert(order[i] != order[pos - 1]);
                assert(vs1[order[i]].next == vs0[order[i]].next);
                assert(vs0[order[i]].next == Some(order[i + 1] as usize));
                assert(ord1[i + 1] == order[i + 1]);
            }
        } else if i == pos {
            assert(ord1[i] == id);
            if pos < order.len() {
                assert(ord1[pos + 1] == order[pos]);
            }
        } else {
            assert(ord1[i] == order[i - 1]);
            assert(0 <= order[i - 1] && order[i - 1] < vs0.len());
            if pos > 0 {
                assert(order[i - 1] != order[pos - 1]);
            }
            assert(vs1[order[i - 1]].next == vs0[order[i - 1]].next);
            if i + 1 < ord1.len() {
                assert(ord1[i + 1] == order[i]);
                assert(vs0[order[i - 1]].next == Some(order[i] as usize));
            } else {
                assert(vs0[order[i - 1]].next == None::<usize>);
            }
        }
    }
}

proof fn lemma_entry_members(
    vs0: Seq<Vertex>,
    vs1: Seq<Vertex>,
    order: Seq<int>,
    left: bool,
    angle: int,
    pos: int,
)
    requires
        ring_in_arena(vs0, order),
        ring_members(vs0, order, left),
        in_ring(left, angle),
        spliced(vs0, vs1, order, angle, pos),
    ensures
        ring_members(vs1, order.insert(pos, vs0.len() as int), left),
{
    let id = vs0.len() as int;
    let ord1 = order.insert(pos, id);
    lemma_entries(order, pos, id);
    assert forall|k: int| 0 <= k < vs1.len() implies (in_ring(left, vs1[k].angle as int)
        <==> ord1.contains(k)) by {
        if k == id {
            assert(ord1[pos] == k);
        } else {
            assert(vs1[k].angle == vs0[k].angle);
            if order.contains(k) {
                let i = choose|i: int| 0 <= i < order.len() && order[i] == k;
                if i < pos {
                    assert(ord1[i] == k);
                } else {
                    assert(ord1[i + 1] == k);
                }
            }
            if ord1.contains(k) {
                let i = choose|i: int| 0 <= i < ord1.len() && ord1[i] == k;
                if i < pos {
                    assert(order[i] == k);
                } else {
                    assert(order[i - 1] == k);
                }
            }
        }
    }
}

proof fn lemma_entry_sorted(
    vs0: Seq<Vertex>,
    vs1: Seq<Vertex>,
    order: Seq<int>,
    left: bool,
    angle: int,
    pos: int,
)
    requires
        ring_in_arena(vs0, order),
        ring_sorted(vs0, order, left),
        is_entry(vs0, order, left, angle, pos),
        spliced(vs0, vs1, order, angle, pos),
    ensures
        ring_sorted(vs1, order.insert(pos, vs0.len() as int), left),
{
    let id = vs0.len() as int;
    let ord1 = order.insert(pos, id);
    lemma_entries(order, pos, id);
    assert forall|i: int, j: int|
        #![trigger ord1[i], ord1[j]]
        0 <= i < j < ord1.len() implies stays_before(
        left,
        vs1[ord1[i]].angle as int,
        vs1[ord1[j]].angle as int,
    ) && (vs1[ord1[i]].angle == vs1[ord1[j]].angle ==> ord1[i] < ord1[j]) by {
        let a = if i < pos { i } else { i - 1 };
        let b = if j < pos { j } else { j - 1 };
        if i != pos && j != pos {
            assert(ord1[i] == order[a] && ord1[j] == order[b]);
            assert(0 <= order[a] && order[a] < vs0.len());
            assert(0 <= order[b] && order[b] < vs0.len());
            assert(vs1[order[a]].angle == vs0[order[a]].angle);
            assert(vs1[order[b]].angle == vs0[order[b]].angle);
            assert(stays_before(left, vs0[order[a]].angle as int, vs0[order[b]].angle as int));
        } else if j == pos {
            assert(ord1[i] == order[a] && ord1[j] == id);
            assert(0 <= order[a] && order[a] < vs0.len());
            assert(vs1[order[a]].angle == vs0[order[a]].angle);
            assert(stays_before(left, vs0[order[a]].angle as int, angle));
        } else {
            // i == pos < j: the vertex at the entry may not stand before the new one
            assert(ord1[i] == id && ord1[j] == order[b]);
            assert(0 <= order[b] && order[b] < vs0.len());
            assert(0 <= order[pos] && order[pos] < vs0.len());
            assert(vs1[order[b]].angle == vs0[order[b]].angle);
            assert(!stays_before(left, vs0[order[pos]].angle as int, angle));
            if b > pos {
                assert(stays_before(left, vs0[order[pos]].angle as int, vs0[order[b]].angle as int));
            }
        }
    }
}

/// The ring that a vertex entered is a ring of the new arena.
proof fn lemma_ring_after_entry(
    vs0: Seq<Vertex>,
    vs1: Seq<Vertex>,
    head0: Option<usize>,
    head1: Option<usize>,
    order: Seq<int>,
    left: bool,
    angle: int,
    pos: int,
)
    requires
        ring_ok(vs0, head0, order, left),
        is_entry(vs0, order, left, angle, pos),
        in_ring(left, angle),
        spliced(vs0, vs1, order, angle, pos),
        head1 == (if pos == 0 {
            Some(vs0.len() as usize)
        } else {
            head0
        }),
    ensures
        ring_ok(vs1, head1, order.insert(pos, vs0.len() as int), left),
{
    lemma_entries(order, pos, vs0.len() as int);
    lemma_entry_in_arena(vs0, vs1, order, angle, pos);
    lemma_entry_linked(vs0, vs1, order, angle, pos);
    lemma_entry_members(vs0, vs1, order, left, angle, pos);
    lemma_entry_sorted(vs0, vs1, order, left, angle, pos);
}

/// The ring that the vertex did not enter is a ring of the new arena too.
proof fn lemma_ring_untouched(
    vs0: Seq<Vertex>,
    vs1: Seq<Vertex>,
    head: Option<usize>,
    other: Seq<int>,
    order: Seq<int>,
    left: bool,
    angle: int,
    pos: int,
)
    requires
        ring_ok(vs0, head, other, !left),
        ring_in_arena(vs0, order),
        ring_members(vs0, order, left),
        in_ring(left, angle),
        spliced(vs0, vs1, order, angle, pos),
    ensures
        ring_ok(vs1, head, other, !left),
{
    assert forall|i: int| 0 <= i < other.len() implies 0 <= #[trigger] other[i] && other[i]
        < vs1.len() by {
        assert(0 <= other[i] && other[i] < vs0.len());
    }
    assert forall|i: int| 0 <= i < other.len() implies (#[trigger] vs1[other[i]]).next == (if i + 1
        < other.len() {
        Some(other[i + 1] as usize)
    } else {
        None::<usize>
    }) by {
        let k = other[i];
        assert(0 <= k && k < vs0.len());
        assert(other.contains(k));
        if pos > 0 && k == order[pos - 1] {
            assert(order.contains(k));
        }
        assert(vs1[k].next == vs0[k].next);
        assert((#[trigger] vs0[other[i]]).next == (if i + 1 < other.len() {
            Some(other[i + 1] as usize)
        } else {
            None::<usize>
        }));
    }
    assert forall|k: int| 0 <= k < vs1.len() implies (in_ring(!left, vs1[k].angle as int)
        <==> other.contains(k)) by {
        if k == vs0.len() {
            if other.contains(k) {
                let i = choose|i: int| 0 <= i < other.len() && other[i] == k;
                assert(0 <= other[i] && other[i] < vs0.len());
            }
        } else {
            assert(vs1[k].angle == vs0[k].angle);
        }
    }
    assert forall|i: int, j: int|
        #![trigger other[i], other[j]]
        0 <= i < j < other.len() implies stays_before(
        !left,
        vs1[other[i]].angle as int,
        vs1[other[j]].angle as int,
    ) && (vs1[other[i]].angle == vs1[other[j]].angle ==> other[i] < other[j]) by {
        assert(0 <= other[i] && other[i] < vs0.len());
        assert(0 <= other[j] && other[j] < vs0.len());
        assert(vs1[other[i]].angle == vs0[other[i]].angle);
        assert(vs1[other[j]].angle == vs0[other[j]].angle);
    }
}

} // verus!
