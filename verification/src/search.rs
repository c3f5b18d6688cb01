//! Best-first search for the shortest route in a weighted graph.
//!
//! Vertices are numbered from zero. A walk is given by the vertex it
//! starts at and the edges it picks: at each vertex the place of the next
//! edge among those that leave it.
use vstd::prelude::*;
use crate::clock::Stopwatch;

verus! {

/// The length that stands for "no route": a vertex this far off has not
/// been reached.
pub const INF: u64 = u64::MAX;

/// What an edge stands for. The search makes no difference between the
/// kinds.
#[derive(Clone, Copy, Debug, PartialEq, Eq, Structural)]
pub enum EdgeKind {
    /// A straight tangent between two nodes.
    Tangent,
    /// An arc of a node's circle, from one vertex of a ring to the next.
    Arc,
    /// The straight way between an end of a leg and a vertex of its node.
    Approach,
}

/// An edge to the vertex `to`.
#[derive(Clone, Copy, Debug, PartialEq, Eq, Structural)]
pub struct Edge {
    pub to: usize,
    pub weight: u64,
    pub kind: EdgeKind,
}

/// A graph to search: the edges that leave each vertex, and for each
/// vertex an estimate of what is left from there to the goal.
pub struct SearchGraph {
    pub succ: Vec<Vec<Edge>>,
    pub h: Vec<u64>,
}

/// A route: the edges picked from the start on, and the sum of their
/// weights.
#[derive(Debug, PartialEq, Eq)]
pub struct Route {
    pub picks: Vec<usize>,
    pub cost: u64,
}

/// How a search ended.
#[derive(Debug, PartialEq, Eq)]
pub enum Outcome {
    /// The shortest route.
    Found(Route),
    /// The goal cannot be reached from the start.
    NoRoute,
    /// The time ran out.
    OutOfTime,
}

/// Whether every edge leads to a vertex of the graph, and every vertex
/// has its estimate.
pub open spec fn graph_ok(edges: Seq<Seq<Edge>>, h: Seq<u64>) -> bool {
    &&& h.len() == edges.len()
    &&& forall|u: int, e: int|
        0 <= u < edges.len() && 0 <= e < edges[u].len() ==> (#[trigger] edges[u][e]).to
            < edges.len()
}

/// Whether the estimate never drops along an edge by more than the edge
/// weighs.
pub open spec fn consistent(edges: Seq<Seq<Edge>>, h: Seq<u64>) -> bool {
    forall|u: int, e: int|
        0 <= u < edges.len() && 0 <= e < edges[u].len() ==> h[u] <= (#[trigger] edges[u][e]).weight
            + h[edges[u][e].to as int]
}

/// Where the walk from `s` along the picks `es` ends; -1 if it leaves the
/// graph or picks an edge that is not there.
pub open spec fn arrives(edges: Seq<Seq<Edge>>, s: int, es: Seq<usize>) -> int
    decreases es.len(),
{
    if es.len() == 0 {
        if 0 <= s < edges.len() {
            s
        } else {
            -1
        }
    } else {
        let u = arrives(edges, s, es.drop_last());
        if 0 <= u < edges.len() && es.last() < edges[u].len() && edges[u][es.last() as int].to
            < edges.len() {
            edges[u][es.last() as int].to as int
        } else {
            -1
        }
    }
}

/// The sum of the weights along the walk from `s` along the picks `es`.
pub open spec fn cost(edges: Seq<Seq<Edge>>, s: int, es: Seq<usize>) -> int
    decreases es.len(),
{
    if es.len() == 0 {
        0
    } else {
        let u = arrives(edges, s, es.drop_last());
        cost(edges, s, es.drop_last()) + (if 0 <= u < edges.len() && es.last() < edges[u].len() {
            edges[u][es.last() as int].weight as int
        } else {
            0
        })
    }
}

/// Whether `es` is a walk from `s` to `t`.
pub open spec fn is_walk(edges: Seq<Seq<Edge>>, s: int, t: int, es: Seq<usize>) -> bool {
    arrives(edges, s, es) == t && t >= 0
}

impl SearchGraph {
    /// The edges that leave each vertex.
    pub open spec fn edges(&self) -> Seq<Seq<Edge>> {
        Seq::new(self.succ@.len(), |u: int| self.succ@[u]@)
    }

    /// Every edge leads to a vertex of the graph, and every vertex has its
    /// estimate.
    pub open spec fn wf(&self) -> bool {
        graph_ok(self.edges(), self.h@)
    }
}

/// A walk that stays in the graph does so from its first step on, and
/// its cost only grows.
pub proof fn lemma_prefix(edges: Seq<Seq<Edge>>, s: int, es: Seq<usize>, k: int)
    requires
        arrives(edges, s, es) >= 0,
        0 <= k <= es.len(),
    ensures
        0 <= arrives(edges, s, es.take(k)) < edges.len(),
        0 <= cost(edges, s, es.take(k)) <= cost(edges, s, es),
    decreases es.len(),
{
    if k == es.len() {
        assert(es.take(k) =~= es);
        if es.len() > 0 {
            lemma_prefix(edges, s, es.drop_last(), k - 1);
            assert(es.drop_last().take(k - 1) =~= es.drop_last());
        }
    } else {
        lemma_prefix(edges, s, es.drop_last(), k);
        assert(es.drop_last().take(k) =~= es.take(k));
    }
}

/// Along a walk a consistent estimate drops by no more than the walk
/// costs.
pub proof fn lemma_estimate_drop(edges: Seq<Seq<Edge>>, h: Seq<u64>, s: int, es: Seq<usize>, k: int)
    requires
        graph_ok(edges, h),
        consistent(edges, h),
        arrives(edges, s, es) >= 0,
        0 <= k <= es.len(),
    ensures
        0 <= arrives(edges, s, es.take(k)) < edges.len(),
        h[arrives(edges, s, es.take(k))] + cost(edges, s, es.take(k)) <= cost(edges, s, es)
            + h[arrives(edges, s, es)],
    decreases es.len(),
{
    lemma_prefix(edges, s, es, k);
    if k == es.len() {
        assert(es.take(k) =~= es);
    } else {
        let rest = es.drop_last();
        lemma_estimate_drop(edges, h, s, rest, k);
        assert(rest.take(k) =~= es.take(k));
        let u = arrives(edges, s, rest);
        assert(h[u] <= edges[u][es.last() as int].weight + h[edges[u][es.last() as int].to as int]);
    }
}

/// Whether every edge that leaves a closed vertex has been followed: its
/// end is no further off than the vertex and the edge together.
pub open spec fn relaxed(edges: Seq<Seq<Edge>>, g: Seq<u64>, closed: Seq<bool>) -> bool {
    forall|u: int, e: int|
        0 <= u < edges.len() && 0 <= e < edges[u].len() && closed[u] ==> g[(
        #[trigger] edges[u][e]).to as int] <= g[u] + edges[u][e].weight
}

/// Every walk from the start passes a vertex that is no further off
/// than the walk has come, and is not closed, unless the walk's own end
/// is such a vertex.
pub proof fn lemma_frontier(
    edges: Seq<Seq<Edge>>,
    s: int,
    g: Seq<u64>,
    closed: Seq<bool>,
    es: Seq<usize>,
) -> (k: int)
    requires
        g.len() == edges.len(),
        closed.len() == edges.len(),
        0 <= s < edges.len(),
        g[s] == 0,
        relaxed(edges, g, closed),
        arrives(edges, s, es) >= 0,
    ensures
        0 <= k <= es.len(),
        0 <= arrives(edges, s, es.take(k)) < edges.len(),
        g[arrives(edges, s, es.take(k))] <= cost(edges, s, es.take(k)),
        !closed[arrives(edges, s, es.take(k))] || k == es.len(),
    decreases es.len(),
{
    if es.len() == 0 {
        assert(es.take(0) =~= es);
        0
    } else {
        let rest = es.drop_last();
        let k1 = lemma_frontier(edges, s, g, closed, rest);
        if k1 < rest.len() {
            assert(rest.take(k1) =~= es.take(k1));
            k1
        } else {
            assert(rest.take(k1) =~= rest);
            let u = arrives(edges, s, rest);
            if !closed[u] {
                assert(es.take(k1) =~= rest);
                k1
            } else {
                assert(es.take(es.len() as int) =~= es);
                let e = es.last() as int;
                assert(g[edges[u][e].to as int] <= g[u] + edges[u][e].weight);
                es.len() as int
            }
        }
    }
}

/// Whether the vertex `v` is open: reached, and not closed.
pub open spec fn is_open(g: Seq<u64>, closed: Seq<bool>, v: int) -> bool {
    g[v] < INF && !closed[v]
}

/// An open vertex whose distance and estimate together are least is no
/// further off than any walk to it is long.
pub proof fn lemma_least_is_settled(
    edges: Seq<Seq<Edge>>,
    h: Seq<u64>,
    s: int,
    g: Seq<u64>,
    closed: Seq<bool>,
    u: int,
    es: Seq<usize>,
)
    requires
        graph_ok(edges, h),
        consistent(edges, h),
        g.len() == edges.len(),
        closed.len() == edges.len(),
        0 <= s < edges.len(),
        g[s] == 0,
        relaxed(edges, g, closed),
        0 <= u < edges.len(),
        forall|v: int| 0 <= v < edges.len() && is_open(g, closed, v) ==> g[u] + h[u] <= g[v] + h[v],
        arrives(edges, s, es) == u,
    ensures
        g[u] <= cost(edges, s, es),
{
    let k = lemma_frontier(edges, s, g, closed, es);
    let v = arrives(edges, s, es.take(k));
    lemma_prefix(edges, s, es, k);
    if k == es.len() {
        assert(es.take(k) =~= es);
    } else if cost(edges, s, es.take(k)) >= INF {
    } else {
        lemma_estimate_drop(edges, h, s, es, k);
        assert(is_open(g, closed, v));
    }
}

/// Whether `u` is the open vertex whose distance and estimate together
/// are least, and of several such the one with the lowest number.
pub open spec fn is_least_open(g: Seq<u64>, closed: Seq<bool>, h: Seq<u64>, u: int) -> bool {
    &&& 0 <= u < g.len()
    &&& is_open(g, closed, u)
    &&& forall|v: int| 0 <= v < g.len() && is_open(g, closed, v) ==> g[u] + h[u] <= g[v] + h[v]
    &&& forall|v: int| 0 <= v < u && is_open(g, closed, v) ==> g[u] + h[u] < g[v] + h[v]
}

/// The open vertex whose distance and estimate together are least, the
/// one with the lowest number if there are several; none if no vertex is
/// open.
pub fn pick_least(g: &Vec<u64>, closed: &Vec<bool>, h: &Vec<u64>) -> (r: Option<usize>)
    requires
        g.len() == closed.len(),
        g.len() == h.len(),
    ensures
        match r {
            Some(u) => is_least_open(g@, closed@, h@, u as int),
            None => forall|v: int| 0 <= v < g.len() ==> !is_open(g@, closed@, v),
        },
{
    let mut best: Option<usize> = None;
    let mut v: usize = 0;
    while v < g.len()
        invariant
            v <= g.len(),
            g.len() == closed.len(),
            g.len() == h.len(),
            match best {
                Some(u) => u < v && is_open(g@, closed@, u as int) && (forall|w: int|
                    0 <= w < v && is_open(g@, closed@, w) ==> g[u as int] + h[u as int] <= g[w]
                        + h[w]) && (forall|w: int|
                    0 <= w < u && is_open(g@, closed@, w) ==> g[u as int] + h[u as int] < g[w]
                        + h[w]),
                None => forall|w: int| 0 <= w < v ==> !is_open(g@, closed@, w),
            },
        decreases g.len() - v,
    {
        if g[v] < INF && !closed[v] {
            match best {
                None => {
                    best = Some(v);
                },
                Some(u) => {
                    if (g[v] as u128) + (h[v] as u128) < (g[u] as u128) + (h[u] as u128) {
                        best = Some(v);
                    }
                },
            }
        }
        v += 1;
    }
    best
}

/// Whether every closed vertex is no further off than any walk to it is
/// long.
pub open spec fn settled(edges: Seq<Seq<Edge>>, s: int, g: Seq<u64>, closed: Seq<bool>) -> bool {
    forall|es: Seq<usize>|
        0 <= #[trigger] arrives(edges, s, es) < edges.len() && closed[arrives(edges, s, es)]
            ==> g[arrives(edges, s, es)] <= cost(edges, s, es)
}

/// What the search keeps for each vertex: `g` is how far off the vertex
/// is by the best walk found, `closed` whether its edges have been
/// followed, `parent` and `inlet` the vertex before it on that walk and
/// the edge from there, `wit` the walk itself, `order` the turn in which
/// the vertex was closed, and `turn` the turn that comes next.
pub struct Progress {
    pub g: Seq<u64>,
    pub closed: Seq<bool>,
    pub parent: Seq<usize>,
    pub inlet: Seq<usize>,
    pub wit: Seq<Seq<usize>>,
    pub order: Seq<int>,
    pub turn: int,
}

/// Whether the walks found so far are what the search takes them for:
/// each reached vertex has its walk, of the length noted for it, which
/// is the walk of its parent and one edge more, and a closed vertex was
/// closed after its parent.
pub open spec fn tree_ok(edges: Seq<Seq<Edge>>, s: int, p: Progress) -> bool {
    let n = edges.len();
    &&& p.g.len() == n && p.closed.len() == n && p.parent.len() == n && p.inlet.len() == n
        && p.wit.len() == n && p.order.len() == n
    &&& 0 <= s < n
    &&& p.g[s] == 0
    &&& p.wit[s] == Seq::<usize>::empty()
    &&& 0 <= p.turn
    &&& forall|v: int| 0 <= v < n && #[trigger] p.closed[v] ==> p.g[v] < INF
    &&& forall|v: int| 0 <= v < n && p.closed[v] ==> 0 <= #[trigger] p.order[v] && p.order[v] < p.turn
    &&& forall|v: int|
        0 <= v < n && p.g[v] < INF ==> arrives(edges, s, #[trigger] p.wit[v]) == v && cost(
            edges,
            s,
            p.wit[v],
        ) == p.g[v]
    &&& forall|v: int|
        0 <= v < n && p.g[v] < INF && v != s ==> {
            let u = (#[trigger] p.parent[v]) as int;
            let e = p.inlet[v] as int;
            &&& 0 <= u < n
            &&& p.closed[u]
            &&& 0 <= e < edges[u].len()
            &&& edges[u][e].to == v
            &&& p.wit[v] == p.wit[u].push(p.inlet[v])
            &&& p.closed[v] ==> p.order[u] < p.order[v]
        }
}

/// Whether every edge that leaves a closed vertex has been followed, but
/// for the edges of `u` from the `e`-th on.
pub open spec fn relaxed_but(edges: Seq<Seq<Edge>>, g: Seq<u64>, closed: Seq<bool>, u: int, e: int) -> bool {
    forall|w: int, x: int|
        0 <= w < edges.len() && 0 <= x < edges[w].len() && closed[w] && (w != u || x < e) ==> g[(
        #[trigger] edges[w][x]).to as int] <= g[w] + edges[w][x].weight
}

/// What holds between two steps of the search.
pub open spec fn search_inv(edges: Seq<Seq<Edge>>, s: int, p: Progress) -> bool {
    &&& tree_ok(edges, s, p)
    &&& relaxed(edges, p.g, p.closed)
    &&& settled(edges, s, p.g, p.closed)
}

/// What holds while the edges of the vertex `u` are followed, before the
/// `e`-th.
pub open spec fn expanding_inv(edges: Seq<Seq<Edge>>, s: int, p: Progress, u: int, e: int) -> bool {
    &&& tree_ok(edges, s, p)
    &&& relaxed_but(edges, p.g, p.closed, u, e)
    &&& settled(edges, s, p.g, p.closed)
    &&& 0 <= u < edges.len()
    &&& p.closed[u]
}

/// The state after the least open vertex `u` was closed.
pub open spec fn close(p: Progress, u: int) -> Progress {
    Progress { closed: p.closed.update(u, true), order: p.order.update(u, p.turn), turn: p.turn + 1, ..p }
}

/// The state after the `e`-th edge of `u` was found to shorten the way
/// to its end `x`.
pub open spec fn shorten(edges: Seq<Seq<Edge>>, p: Progress, u: usize, e: usize) -> Progress {
    let x = edges[u as int][e as int].to as int;
    Progress {
        g: p.g.update(x, (p.g[u as int] + edges[u as int][e as int].weight) as u64),
        parent: p.parent.update(x, u),
        inlet: p.inlet.update(x, e),
        wit: p.wit.update(x, p.wit[u as int].push(e)),
        ..p
    }
}

/// Closing the least open vertex keeps what the search relies on.
pub proof fn lemma_close(edges: Seq<Seq<Edge>>, h: Seq<u64>, s: int, p: Progress, u: int)
    requires
        graph_ok(edges, h),
        consistent(edges, h),
        search_inv(edges, s, p),
        0 <= u < edges.len(),
        is_open(p.g, p.closed, u),
        forall|v: int|
            0 <= v < edges.len() && is_open(p.g, p.closed, v) ==> p.g[u] + h[u] <= p.g[v] + h[v],
    ensures
        expanding_inv(edges, s, close(p, u), u, 0),
{
    let q = close(p, u);
    assert forall|es: Seq<usize>|
        0 <= #[trigger] arrives(edges, s, es) < edges.len() && q.closed[arrives(
            edges,
            s,
            es,
        )] implies q.g[arrives(edges, s, es)] <= cost(edges, s, es) by {
        if arrives(edges, s, es) == u {
            lemma_least_is_settled(edges, h, s, p.g, p.closed, u, es);
        }
    }
    assert forall|v: int| 0 <= v < edges.len() && q.g[v] < INF && v != s implies {
        let w = (#[trigger] q.parent[v]) as int;
        let e = q.inlet[v] as int;
        &&& 0 <= w < edges.len()
        &&& q.closed[w]
        &&& 0 <= e < edges[w].len()
        &&& edges[w][e].to == v
        &&& q.wit[v] == q.wit[w].push(q.inlet[v])
        &&& q.closed[v] ==> q.order[w] < q.order[v]
    } by {
        let w = p.parent[v] as int;
        assert(p.closed[w]);
        assert(0 <= p.order[w] < p.turn);
    }
    assert forall|v: int| 0 <= v < edges.len() && q.closed[v] implies 0 <= #[trigger] q.order[v]
        && q.order[v] < q.turn by {
        if v != u {
            assert(p.closed[v]);
            assert(0 <= p.order[v] && p.order[v] < p.turn);
        }
    }
    assert forall|v: int| 0 <= v < edges.len() && q.g[v] < INF implies arrives(
        edges,
        s,
        #[trigger] q.wit[v],
    ) == v && cost(edges, s, q.wit[v]) == q.g[v] by {
        assert(q.wit[v] == p.wit[v]);
    }
    assert(tree_ok(edges, s, q));
    assert forall|w: int, x: int|
        0 <= w < edges.len() && 0 <= x < edges[w].len() && q.closed[w] && (w != u || x < 0) implies q.g[(
        #[trigger] edges[w][x]).to as int] <= q.g[w] + edges[w][x].weight by {
        assert(p.closed[w]);
    }
    assert(relaxed_but(edges, q.g, q.closed, u, 0));
    assert(settled(edges, s, q.g, q.closed));
}

/// Following one edge of the vertex being expanded keeps what the search
/// relies on, whether the edge shortens the way to its end or not.
pub proof fn lemma_follow(edges: Seq<Seq<Edge>>, h: Seq<u64>, s: int, p: Progress, u: usize, e: usize)
    requires
        graph_ok(edges, h),
        expanding_inv(edges, s, p, u as int, e as int),
        0 <= e < edges[u as int].len(),
    ensures
        ({
            let x = edges[u as int][e as int].to as int;
            if !p.closed[x] && p.g[u as int] + edges[u as int][e as int].weight < p.g[x] {
                expanding_inv(edges, s, shorten(edges, p, u, e), u as int, e + 1)
            } else {
                expanding_inv(edges, s, p, u as int, e + 1)
            }
        }),
{
    let x = edges[u as int][e as int].to as int;
    let reach = p.g[u as int] + edges[u as int][e as int].weight;
    let along = p.wit[u as int].push(e);
    assert(0 <= p.order[u as int]);
    assert(p.g[u as int] < INF);
    assert(arrives(edges, s, p.wit[u as int]) == u);
    assert(along.drop_last() =~= p.wit[u as int]);
    assert(along.last() == e);
    assert(arrives(edges, s, along) == x);
    assert(cost(edges, s, along) == reach);
    if !p.closed[x] && reach < p.g[x] {
        let q = shorten(edges, p, u, e);
        assert(x != u && x != s);
        assert forall|v: int| 0 <= v < edges.len() && q.g[v] < INF implies arrives(
            edges,
            s,
            #[trigger] q.wit[v],
        ) == v && cost(edges, s, q.wit[v]) == q.g[v] by {
            if v != x {
                assert(q.wit[v] == p.wit[v]);
            }
        }
        assert forall|v: int| 0 <= v < edges.len() && q.g[v] < INF && v != s implies {
            let w = (#[trigger] q.parent[v]) as int;
            let y = q.inlet[v] as int;
            &&& 0 <= w < edges.len()
            &&& q.closed[w]
            &&& 0 <= y < edges[w].len()
            &&& edges[w][y].to == v
            &&& q.wit[v] == q.wit[w].push(q.inlet[v])
            &&& q.closed[v] ==> q.order[w] < q.order[v]
        } by {
            if v != x {
                let w = p.parent[v] as int;
                assert(p.closed[w]);
                assert(w != x);
            }
        }
        assert forall|v: int| 0 <= v < edges.len() && #[trigger] q.closed[v] implies q.g[v]
            < INF by {
            assert(p.closed[v]);
        }
        assert forall|w: int, y: int|
            0 <= w < edges.len() && 0 <= y < edges[w].len() && q.closed[w] && (w != u || y < e + 1) implies q.g[(
            #[trigger] edges[w][y]).to as int] <= q.g[w] + edges[w][y].weight by {
            assert(0 <= p.order[w]);
            if w == u && y == e {
            } else {
                assert(p.g[edges[w][y].to as int] <= p.g[w] + edges[w][y].weight);
            }
        }
        assert forall|es: Seq<usize>|
            0 <= #[trigger] arrives(edges, s, es) < edges.len() && q.closed[arrives(
                edges,
                s,
                es,
            )] implies q.g[arrives(edges, s, es)] <= cost(edges, s, es) by {
            assert(p.g[arrives(edges, s, es)] <= cost(edges, s, es));
        }
        assert(tree_ok(edges, s, q));
        assert(relaxed_but(edges, q.g, q.closed, u as int, e + 1));
        assert(settled(edges, s, q.g, q.closed));
    } else {
        assert forall|w: int, y: int|
            0 <= w < edges.len() && 0 <= y < edges[w].len() && p.closed[w] && (w != u || y < e + 1) implies p.g[(
            #[trigger] edges[w][y]).to as int] <= p.g[w] + edges[w][y].weight by {
            if w == u && y == e {
                if p.closed[x] {
                    assert(p.g[arrives(edges, s, along)] <= cost(edges, s, along));
                }
            }
        }
    }
}

/// Where no vertex is open, no walk of a length below `INF` leads
/// anywhere but to a closed vertex.
pub proof fn lemma_exhausted(edges: Seq<Seq<Edge>>, s: int, p: Progress, es: Seq<usize>)
    requires
        search_inv(edges, s, p),
        forall|v: int| 0 <= v < edges.len() ==> !is_open(p.g, p.closed, v),
        arrives(edges, s, es) >= 0,
        cost(edges, s, es) < INF,
    ensures
        p.closed[arrives(edges, s, es)],
{
    let k = lemma_frontier(edges, s, p.g, p.closed, es);
    lemma_prefix(edges, s, es, k);
    let v = arrives(edges, s, es.take(k));
    if k == es.len() {
        assert(es.take(k) =~= es);
    }
    assert(!is_open(p.g, p.closed, v));
}

/// The state in which a search starts.
pub open spec fn at_start(n: nat, s: int) -> Progress {
    Progress {
        g: Seq::new(n, |v: int| if v == s { 0u64 } else { INF }),
        closed: Seq::new(n, |v: int| false),
        parent: Seq::new(n, |v: int| 0usize),
        inlet: Seq::new(n, |v: int| 0usize),
        wit: Seq::new(n, |v: int| Seq::<usize>::empty()),
        order: Seq::new(n, |v: int| 0int),
        turn: 0,
    }
}

/// A search starts in a state that it can rely on.
pub proof fn lemma_start(edges: Seq<Seq<Edge>>, s: int)
    requires
        0 <= s < edges.len(),
    ensures
        search_inv(edges, s, at_start(edges.len(), s)),
        unclosed(at_start(edges.len(), s).closed) == edges.len(),
{
    let p = at_start(edges.len(), s);
    assert(arrives(edges, s, Seq::<usize>::empty()) == s);
    lemma_unclosed_none(p.closed);
}

/// A search between two steps: for each vertex how far off it is by the
/// best walk found, whether it is closed, and the vertex and the edge by
/// which that walk reaches it.
pub struct Search {
    pub g: Vec<u64>,
    pub closed: Vec<bool>,
    pub parent: Vec<usize>,
    pub inlet: Vec<usize>,
    /// The same, with the walks themselves and the turns in which the
    /// vertices were closed.
    pub progress: Ghost<Progress>,
}

impl Search {
    /// What holds of a search for the way from `start` to `goal` between
    /// two steps: it can rely on what it holds, and the goal is not closed.
    pub open spec fn inv(&self, graph: &SearchGraph, start: usize, goal: usize) -> bool {
        &&& search_inv(graph.edges(), start as int, self.progress@)
        &&& self.progress@.g == self.g@
        &&& self.progress@.closed == self.closed@
        &&& self.progress@.parent == self.parent@
        &&& self.progress@.inlet == self.inlet@
        &&& goal < graph.succ.len()
        &&& !self.closed@[goal as int]
    }

    /// Whether no vertex is open.
    pub open spec fn exhausted(&self) -> bool {
        forall|v: int| 0 <= v < self.g@.len() ==> !is_open(self.g@, self.closed@, v)
    }

    /// A search that has reached the start alone, and closed nothing.
    pub fn begin(graph: &SearchGraph, start: usize, goal: usize) -> (r: Search)
        requires
            start < graph.succ.len(),
            goal < graph.succ.len(),
        ensures
            r.inv(graph, start, goal),
            r.progress@ == at_start(graph.succ.len() as nat, start as int),
    {
        let n: usize = graph.succ.len();
        let mut g: Vec<u64> = Vec::new();
        let mut closed: Vec<bool> = Vec::new();
        let mut parent: Vec<usize> = Vec::new();
        let mut inlet: Vec<usize> = Vec::new();
        let mut i: usize = 0;
        while i < n
            invariant
                i <= n,
                start < n,
                g.len() == i,
                closed.len() == i,
                parent.len() == i,
                inlet.len() == i,
                forall|v: int| 0 <= v < i ==> g[v] == (if v == start { 0 } else { INF }),
                forall|v: int| 0 <= v < i ==> !closed[v] && parent[v] == 0 && inlet[v] == 0,
            decreases n - i,
        {
            g.push(if i == start { 0 } else { INF });
            closed.push(false);
            parent.push(0);
            inlet.push(0);
            i += 1;
        }
        let ghost p: Progress = at_start(n as nat, start as int);
        proof {
            lemma_start(graph.edges(), start as int);
            assert(p.g =~= g@);
            assert(p.closed =~= closed@);
            assert(p.parent =~= parent@);
            assert(p.inlet =~= inlet@);
        }
        Search { g, closed, parent, inlet, progress: Ghost(p) }
    }

    /// One step of the search, after the clock was asked whether the time
    /// is `spent`. If it is, the search is over, out of time, and nothing
    /// has changed. If it is not: where no vertex is open the search is
    /// over and there is no route; else the open vertex whose distance and
    /// estimate together are least is closed, and either it is the goal,
    /// and the search is over with the shortest route, or its edges are
    /// followed and the search goes on, with one vertex fewer to close.
    pub fn advance(&mut self, graph: &SearchGraph, start: usize, goal: usize, spent: bool) -> (r:
        Option<Outcome>)
        requires
            graph.wf(),
            consistent(graph.edges(), graph.h@),
            start < graph.succ.len(),
            old(self).inv(graph, start, goal),
        ensures
            spent ==> r == Some(Outcome::OutOfTime) && *final(self) == *old(self),
            !spent ==> match r {
                Some(Outcome::Found(route)) => {
                    &&& is_walk(graph.edges(), start as int, goal as int, route.picks@)
                    &&& cost(graph.edges(), start as int, route.picks@) == route.cost
                    &&& route.cost < INF
                    &&& forall|es: Seq<usize>| #[trigger]
                        is_walk(graph.edges(), start as int, goal as int, es) ==> route.cost <= cost(
                            graph.edges(),
                            start as int,
                            es,
                        )
                },
                Some(Outcome::NoRoute) => forall|es: Seq<usize>| #[trigger]
                    is_walk(graph.edges(), start as int, goal as int, es) ==> cost(
                        graph.edges(),
                        start as int,
                        es,
                    ) >= INF,
                Some(Outcome::OutOfTime) => false,
                None => final(self).inv(graph, start, goal) && unclosed(final(self).closed@)
                    < unclosed(old(self).closed@),
            },
            !spent ==> (r == Some(Outcome::NoRoute) <==> old(self).exhausted()),
    {
        if spent {
            return Some(Outcome::OutOfTime);
        }
        let ghost edges = graph.edges();
        let ghost s = start as int;
        let ghost mut p: Progress = self.progress@;
        let ghost count = unclosed(p.closed);
        let u: usize = match pick_least(&self.g, &self.closed, &graph.h) {
            None => {
                proof {
                    assert forall|es: Seq<usize>| #[trigger]
                        is_walk(edges, s, goal as int, es) implies cost(edges, s, es) >= INF by {
                        if cost(edges, s, es) < INF {
                            lemma_exhausted(edges, s, p, es);
                        }
                    }
                }
                return Some(Outcome::NoRoute);
            },
            Some(u) => u,
        };
        proof {
            lemma_close(edges, graph.h@, s, p, u as int);
            lemma_unclosed_drops(p.closed, u as int);
            p = close(p, u as int);
        }
        self.closed[u] = true;
        assert(p.closed == self.closed@);
        if u == goal {
            let route = trace(graph, start, goal, &self.g, &self.parent, &self.inlet, Ghost(p));
            proof {
                assert forall|es: Seq<usize>| #[trigger]
                    is_walk(edges, s, goal as int, es) implies route.cost <= cost(edges, s, es) by {
                    assert(p.g[arrives(edges, s, es)] <= cost(edges, s, es));
                }
            }
            return Some(Outcome::Found(route));
        }
        let n: usize = graph.succ.len();
        let mut e: usize = 0;
        while e < graph.succ[u].len()
            invariant
                n == graph.succ.len(),
                edges == graph.edges(),
                s == start as int,
                graph.wf(),
                u < n,
                u != goal,
                goal < n,
                e <= graph.succ[u as int].len(),
                expanding_inv(edges, s, p, u as int, e as int),
                p.g == self.g@,
                p.closed == self.closed@,
                p.parent == self.parent@,
                p.inlet == self.inlet@,
                !p.closed[goal as int],
                unclosed(p.closed) < count,
            decreases graph.succ[u as int].len() - e,
        {
            let edge: Edge = graph.succ[u][e];
            assert(edge == edges[u as int][e as int]);
            let x: usize = edge.to;
            let reach: u128 = self.g[u] as u128 + edge.weight as u128;
            proof {
                lemma_follow(edges, graph.h@, s, p, u, e);
            }
            if !self.closed[x] && reach < self.g[x] as u128 {
                proof {
                    p = shorten(edges, p, u, e);
                }
                self.g[x] = reach as u64;
                self.parent[x] = u;
                self.inlet[x] = e;
            }
            e += 1;
        }
        assert(relaxed(edges, p.g, p.closed)) by {
            assert forall|w: int, x: int|
                0 <= w < edges.len() && 0 <= x < edges[w].len() && p.closed[w] implies p.g[(
                #[trigger] edges[w][x]).to as int] <= p.g[w] + edges[w][x].weight by {}
        }
        self.progress = Ghost(p);
        None
    }
}

/// The shortest route from `start` to `goal`, found step by step: from the
/// open vertex whose distance and estimate together are least every edge
/// is followed, until that vertex is the goal. With a stopwatch the clock
/// is asked before every step, and the search gives up as soon as it says
/// that the time is spent.
pub fn find_route(graph: &SearchGraph, start: usize, goal: usize, watch: Option<&Stopwatch>) -> (r:
    Outcome)
    requires
        graph.wf(),
        consistent(graph.edges(), graph.h@),
        start < graph.succ.len(),
        goal < graph.succ.len(),
    ensures
        match r {
            Outcome::Found(route) => {
                &&& is_walk(graph.edges(), start as int, goal as int, route.picks@)
                &&& cost(graph.edges(), start as int, route.picks@) == route.cost
                &&& route.cost < INF
                &&& forall|es: Seq<usize>| #[trigger]
                    is_walk(graph.edges(), start as int, goal as int, es) ==> route.cost <= cost(
                        graph.edges(),
                        start as int,
                        es,
                    )
            },
            Outcome::NoRoute => forall|es: Seq<usize>| #[trigger]
                is_walk(graph.edges(), start as int, goal as int, es) ==> cost(
                    graph.edges(),
                    start as int,
                    es,
                ) >= INF,
            Outcome::OutOfTime => watch.is_some(),
        },
        watch matches Some(w) ==> w.limit == 0 ==> r == Outcome::OutOfTime,
{
    let mut search = Search::begin(graph, start, goal);
    loop
        invariant
            graph.wf(),
            consistent(graph.edges(), graph.h@),
            start < graph.succ.len(),
            search.inv(graph, start, goal),
        decreases unclosed(search.closed@),
    {
        let spent: bool = match watch {
            Some(w) => w.expired(),
            None => false,
        };
        match search.advance(graph, start, goal, spent) {
            Some(outcome) => {
                return outcome;
            },
            None => {
                proof {
                    lemma_unclosed_bounds(search.closed@);
                }
            },
        }
    }
}

/// How many vertices are not closed.
pub open spec fn unclosed(closed: Seq<bool>) -> int
    decreases closed.len(),
{
    if closed.len() == 0 {
        0
    } else {
        unclosed(closed.drop_last()) + (if closed.last() {
            0int
        } else {
            1int
        })
    }
}

/// Closing a vertex leaves one vertex fewer that is not closed.
pub proof fn lemma_unclosed_drops(closed: Seq<bool>, u: int)
    requires
        0 <= u < closed.len(),
        !closed[u],
    ensures
        unclosed(closed.update(u, true)) == unclosed(closed) - 1,
        unclosed(closed) >= 1,
    decreases closed.len(),
{
    let after = closed.update(u, true);
    lemma_unclosed_bounds(closed.drop_last());
    if u == closed.len() - 1 {
        assert(after.drop_last() =~= closed.drop_last());
    } else {
        assert(after.drop_last() =~= closed.drop_last().update(u, true));
        lemma_unclosed_drops(closed.drop_last(), u);
    }
}

/// No fewer than none are not closed.
pub proof fn lemma_unclosed_bounds(closed: Seq<bool>)
    ensures
        0 <= unclosed(closed) <= closed.len(),
    decreases closed.len(),
{
    if closed.len() > 0 {
        lemma_unclosed_bounds(closed.drop_last());
    }
}

/// Nothing is closed: every vertex counts.
pub proof fn lemma_unclosed_none(closed: Seq<bool>)
    requires
        forall|v: int| 0 <= v < closed.len() ==> !closed[v],
    ensures
        unclosed(closed) == closed.len(),
    decreases closed.len(),
{
    if closed.len() > 0 {
        lemma_unclosed_none(closed.drop_last());
    }
}

/// Reads the walk to the goal off the edges by which each of its
/// vertices was reached, last edge first, and turns it round.
fn trace(
    graph: &SearchGraph,
    start: usize,
    goal: usize,
    g: &Vec<u64>,
    parent: &Vec<usize>,
    inlet: &Vec<usize>,
    Ghost(p): Ghost<Progress>,
) -> (route: Route)
    requires
        goal < graph.succ.len(),
        tree_ok(graph.edges(), start as int, p),
        p.closed[goal as int],
        p.g == g@,
        p.parent == parent@,
        p.inlet == inlet@,
    ensures
        route.picks@ == p.wit[goal as int],
        route.cost == g[goal as int],
        route.cost < INF,
        is_walk(graph.edges(), start as int, goal as int, route.picks@),
        cost(graph.edges(), start as int, route.picks@) == route.cost,
{
    let mut back: Vec<usize> = Vec::new();
    let mut cur: usize = goal;
    while cur != start
        invariant
            cur < g.len(),
            goal < g.len(),
            tree_ok(graph.edges(), start as int, p),
            p.closed[cur as int],
            p.g == g@,
            p.parent == parent@,
            p.inlet == inlet@,
            p.wit[goal as int] == p.wit[cur as int] + back@.reverse(),
        decreases p.order[cur as int],
    {
        let ghost before = back@;
        let ghost up = parent[cur as int] as int;
        assert(0 <= p.order[cur as int]);
        assert(p.g[cur as int] < INF);
        assert(p.closed[p.parent[cur as int] as int]);
        back.push(inlet[cur]);
        proof {
            assert(back@.reverse() =~= seq![inlet[cur as int]] + before.reverse());
            assert(p.wit[cur as int] + before.reverse() =~= p.wit[up] + back@.reverse());
            assert(0 <= p.order[up] < p.order[cur as int]);
        }
        cur = parent[cur];
    }
    let mut picks: Vec<usize> = Vec::new();
    let mut k: usize = back.len();
    while k > 0
        invariant
            k <= back.len(),
            picks.len() == back.len() - k,
            forall|j: int| 0 <= j < picks.len() ==> picks[j] == back[back.len() - 1 - j],
        decreases k,
    {
        k -= 1;
        picks.push(back[k]);
    }
    assert(picks@ =~= back@.reverse());
    assert(p.wit[start as int] + back@.reverse() =~= back@.reverse());
    assert(0 <= p.order[goal as int]);
    Route { picks, cost: g[goal] }
}

} // verus!
