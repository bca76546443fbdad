//! The world graph: petgraph's adjacency structure behind a trusted boundary.
//!
//! The graph value itself is opaque to the verifier. Its contents are named
//! by the two uninterpreted functions `graph_nodes` and `graph_edges`, and
//! every operation the simulation performs goes through a small wrapper
//! whose contract states, over those names, what petgraph's source shows.

use vstd::prelude::*;
use crate::simulation::{Planet, HyperLane};

verus! {

#[verifier::external_type_specification]
#[verifier::external_body]
#[verifier::reject_recursive_types(N)]
#[verifier::reject_recursive_types(E)]
#[verifier::reject_recursive_types(Ty)]
#[verifier::reject_recursive_types(Ix)]
pub struct ExGraph<N, E, Ty, Ix>(petgraph::graph::Graph<N, E, Ty, Ix>);

#[verifier::external_type_specification]
#[verifier::external_body]
pub struct ExUndirected(petgraph::Undirected);

/// The undirected world graph of planets and hyperlanes.
pub type WorldGraph = petgraph::graph::Graph<Planet, HyperLane, petgraph::Undirected, u16>;

/// One edge of the graph view: its two endpoints and its lane contents.
pub ghost struct EdgeV {
    pub a: usize,
    pub b: usize,
    pub lane: crate::simulation::LaneV,
}

/// The node weights of a world graph, in index order.
pub uninterp spec fn graph_nodes(g: WorldGraph) -> Seq<Planet>;

/// The edges of a world graph, in index order.
pub uninterp spec fn graph_edges(g: WorldGraph) -> Seq<EdgeV>;

/// Largest node or edge count admitted by the `u16` index type.
pub const MAX_GRAPH_INDEX: usize = 65534;

/// Relies on petgraph's `Graph::with_capacity`: a graph with no nodes or edges.
#[verifier::external_body]
pub fn wg_new() -> (g: WorldGraph)
    ensures
        graph_nodes(g) == Seq::<Planet>::empty(),
        graph_edges(g) == Seq::<EdgeV>::empty(),
{
    petgraph::graph::Graph::with_capacity(0, 0)
}

/// Relies on petgraph's `Clone for Graph`: the clone has the same nodes and
/// edges under the same indices.
#[verifier::external_body]
pub fn wg_clone(g: &WorldGraph) -> (r: WorldGraph)
    ensures
        graph_nodes(r) == graph_nodes(*g),
        graph_edges(r) == graph_edges(*g),
{
    g.clone()
}

/// Relies on petgraph's `Graph::node_count`: the length of the node list.
#[verifier::external_body]
pub fn wg_node_count(g: &WorldGraph) -> (n: usize)
    ensures
        n == graph_nodes(*g).len(),
{
    g.node_count()
}

/// Relies on petgraph's `Graph::edge_count`: the length of the edge list.
#[verifier::external_body]
pub fn wg_edge_count(g: &WorldGraph) -> (n: usize)
    ensures
        n == graph_edges(*g).len(),
{
    g.edge_count()
}

/// Relies on petgraph's `Index<NodeIndex> for Graph`: the weight of node `i`.
#[verifier::external_body]
pub fn wg_get_node(g: &WorldGraph, i: usize) -> (r: Planet)
    requires
        i < graph_nodes(*g).len(),
    ensures
        r == graph_nodes(*g)[i as int],
{
    g[petgraph::graph::NodeIndex::<u16>::new(i)]
}

/// Relies on petgraph's `IndexMut<NodeIndex> for Graph`: replaces the weight
/// of node `i`, leaving every other node and all edges unchanged.
#[verifier::external_body]
pub fn wg_set_node(g: &mut WorldGraph, i: usize, p: Planet)
    requires
        i < graph_nodes(*old(g)).len(),
    ensures
        graph_nodes(*final(g)) == graph_nodes(*old(g)).update(i as int, p),
        graph_edges(*final(g)) == graph_edges(*old(g)),
{
    g[petgraph::graph::NodeIndex::<u16>::new(i)] = p;
}

/// Relies on petgraph's `Graph::edge_endpoints`: the two endpoints of edge
/// `e`, which exist because `e` is in bounds.
#[verifier::external_body]
pub fn wg_edge_ends(g: &WorldGraph, e: usize) -> (r: (usize, usize))
    requires
        e < graph_edges(*g).len(),
    ensures
        r.0 == graph_edges(*g)[e as int].a,
        r.1 == graph_edges(*g)[e as int].b,
{
    match g.edge_endpoints(petgraph::graph::EdgeIndex::<u16>::new(e)) {
        Some((s, t)) => (s.index(), t.index()),
        None => (0, 0),
    }
}

/// Relies on petgraph's `Index<EdgeIndex> for Graph`: the weight of edge `e`.
#[verifier::external_body]
pub fn wg_get_lane(g: &WorldGraph, e: usize) -> (r: HyperLane)
    requires
        e < graph_edges(*g).len(),
    ensures
        r@ == graph_edges(*g)[e as int].lane,
{
    g[petgraph::graph::EdgeIndex::<u16>::new(e)].clone()
}

/// Relies on petgraph's `IndexMut<EdgeIndex> for Graph`: replaces the weight
/// of edge `e`, leaving its endpoints, every other edge and all nodes
/// unchanged.
#[verifier::external_body]
pub fn wg_set_lane(g: &mut WorldGraph, e: usize, lane: HyperLane)
    requires
        e < graph_edges(*old(g)).len(),
    ensures
        graph_edges(*final(g)) == graph_edges(*old(g)).update(
            e as int,
            EdgeV {
                a: graph_edges(*old(g))[e as int].a,
                b: graph_edges(*old(g))[e as int].b,
                lane: lane@,
            },
        ),
        graph_nodes(*final(g)) == graph_nodes(*old(g)),
{
    g[petgraph::graph::EdgeIndex::<u16>::new(e)] = lane;
}

/// Relies on petgraph's `Graph::add_node`: appends a node and returns its
/// index, the previous node count.
#[verifier::external_body]
pub fn wg_add_node(g: &mut WorldGraph, p: Planet) -> (i: usize)
    requires
        graph_nodes(*old(g)).len() < MAX_GRAPH_INDEX,
    ensures
        graph_nodes(*final(g)) == graph_nodes(*old(g)).push(p),
        graph_edges(*final(g)) == graph_edges(*old(g)),
        i == graph_nodes(*old(g)).len(),
{
    g.add_node(p).index()
}

/// Relies on petgraph's `Graph::add_edge`: appends an edge between the two
/// in-bounds endpoints and returns its index, the previous edge count.
#[verifier::external_body]
pub fn wg_add_edge(g: &mut WorldGraph, a: usize, b: usize, lane: HyperLane) -> (i: usize)
    requires
        a < graph_nodes(*old(g)).len(),
        b < graph_nodes(*old(g)).len(),
        graph_edges(*old(g)).len() < MAX_GRAPH_INDEX,
    ensures
        graph_edges(*final(g)) == graph_edges(*old(g)).push(EdgeV { a, b, lane: lane@ }),
        graph_nodes(*final(g)) == graph_nodes(*old(g)),
        i == graph_edges(*old(g)).len(),
{
    g.add_edge(
        petgraph::graph::NodeIndex::<u16>::new(a),
        petgraph::graph::NodeIndex::<u16>::new(b),
        lane,
    ).index()
}

/// Relies on petgraph's `Graph::find_edge_undirected`: an edge between `a`
/// and `b` in either orientation, with `true` meaning it runs from `a` to
/// `b`; `None` exactly when no such edge exists.
#[verifier::external_body]
pub fn wg_find_edge_undirected(g: &WorldGraph, a: usize, b: usize) -> (r: Option<(usize, bool)>)
    requires
        a < graph_nodes(*g).len(),
        b < graph_nodes(*g).len(),
    ensures
        match r {
            Some(ef) => {
                &&& ef.0 < graph_edges(*g).len()
                &&& ef.1 ==> graph_edges(*g)[ef.0 as int].a == a && graph_edges(
                    *g,
                )[ef.0 as int].b == b
                &&& !ef.1 ==> graph_edges(*g)[ef.0 as int].a == b && graph_edges(
                    *g,
                )[ef.0 as int].b == a
            },
            None => forall|e: int|
                0 <= e < graph_edges(*g).len() ==> !((graph_edges(*g)[e].a == a && graph_edges(
                    *g,
                )[e].b == b) || (graph_edges(*g)[e].a == b && graph_edges(*g)[e].b == a)),
        },
{
    match g.find_edge_undirected(
        petgraph::graph::NodeIndex::<u16>::new(a),
        petgraph::graph::NodeIndex::<u16>::new(b),
    ) {
        Some((e, d)) => Some(
            (
                e.index(),
                match d {
                    petgraph::Direction::Outgoing => true,
                    petgraph::Direction::Incoming => false,
                },
            ),
        ),
        None => None,
    }
}

} // verus!
