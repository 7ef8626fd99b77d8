//! Trusted boundary around the petgraph directed graph that stores the type
//! hierarchy. Nodes carry MIME type names; an edge runs from a parent type to
//! a more specific child type.
//!
//! The graph's contents are named by two uninterpreted spec functions: the
//! sequence of node names in insertion order, and the sequence of edges in
//! insertion order. Every wrapper states its effect on those two names, as
//! petgraph's source and documentation show it.

use vstd::prelude::*;

verus! {

#[verifier::external_type_specification]
#[verifier::external_body]
#[verifier::reject_recursive_types(N)]
#[verifier::reject_recursive_types(E)]
#[verifier::reject_recursive_types(Ty)]
#[verifier::reject_recursive_types(Ix)]
pub struct ExGraph<N, E, Ty, Ix>(petgraph::graph::Graph<N, E, Ty, Ix>);

#[verifier::external_type_specification]
#[verifier::external_body]
pub struct ExDirected(petgraph::Directed);

/// The node names of `g`, indexed by node index, in insertion order.
pub uninterp spec fn graph_nodes(g: petgraph::graph::DiGraph<String, u32>) -> Seq<Seq<char>>;

/// The edges of `g` as (source, target) node indices, in insertion order.
pub uninterp spec fn graph_edges(g: petgraph::graph::DiGraph<String, u32>) -> Seq<(int, int)>;

/// The child node indices of node `i`: the targets of the edges leaving `i`,
/// most recently inserted edge first.
pub open spec fn child_seq(edges: Seq<(int, int)>, i: int) -> Seq<int> {
    edges.filter(|e: (int, int)| e.0 == i).map_values(|e: (int, int)| e.1).reverse()
}

/// Relies on petgraph's `Graph::new`: it returns a graph with no nodes and no
/// edges.
#[verifier::external_body]
pub fn graph_new() -> (g: petgraph::graph::DiGraph<String, u32>)
    ensures
        graph_nodes(g) == Seq::<Seq<char>>::empty(),
        graph_edges(g) == Seq::<(int, int)>::empty(),
{
    petgraph::graph::DiGraph::new()
}

/// Relies on petgraph's `Graph::add_node`: it appends one node and returns its
/// index, which equals the previous node count. It panics only when the node
/// count has reached the index type's maximum, which the precondition rules
/// out.
#[verifier::external_body]
pub fn graph_add_node(g: &mut petgraph::graph::DiGraph<String, u32>, name: String) -> (i: usize)
    requires
        graph_nodes(*old(g)).len() < u32::MAX,
    ensures
        graph_nodes(*final(g)) == graph_nodes(*old(g)).push(name@),
        graph_edges(*final(g)) == graph_edges(*old(g)),
        i == graph_nodes(*old(g)).len(),
{
    g.add_node(name).index()
}

/// Relies on petgraph's `Graph::add_edge`: it appends one edge from `a` to
/// `b`. It panics only when an endpoint does not exist or the edge count has
/// reached the index type's maximum, which the preconditions rule out.
#[verifier::external_body]
pub fn graph_add_edge(g: &mut petgraph::graph::DiGraph<String, u32>, a: usize, b: usize)
    requires
        a < graph_nodes(*old(g)).len(),
        b < graph_nodes(*old(g)).len(),
        graph_edges(*old(g)).len() < u32::MAX,
    ensures
        graph_nodes(*final(g)) == graph_nodes(*old(g)),
        graph_edges(*final(g)) == graph_edges(*old(g)).push((a as int, b as int)),
{
    g.add_edge(
        petgraph::graph::NodeIndex::new(a),
        petgraph::graph::NodeIndex::new(b),
        0,
    );
}

/// Relies on petgraph's `Graph::neighbors_directed` with the outgoing
/// direction: it yields the target of every edge leaving `a`, most recently
/// added edge first.
#[verifier::external_body]
pub fn graph_children(g: &petgraph::graph::DiGraph<String, u32>, a: usize) -> (v: Vec<usize>)
    requires
        a < graph_nodes(*g).len(),
    ensures
        v@.map_values(|x: usize| x as int) == child_seq(graph_edges(*g), a as int),
        forall|k: int| 0 <= k < v@.len() ==> v@[k] < graph_nodes(*g).len(),
{
    g.neighbors_directed(petgraph::graph::NodeIndex::new(a), petgraph::Outgoing)
        .map(|n| n.index())
        .collect()
}

} // verus!
