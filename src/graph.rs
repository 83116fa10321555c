use vstd::prelude::*;
use petgraph::graph::{Graph, NodeIndex};
use petgraph::{Directed, Direction};

verus! {

#[verifier::external_type_specification]
#[verifier::external_body]
#[verifier::reject_recursive_types(N)]
#[verifier::reject_recursive_types(E)]
#[verifier::reject_recursive_types(Ty)]
#[verifier::reject_recursive_types(Ix)]
pub struct ExGraph<N, E, Ty, Ix>(Graph<N, E, Ty, Ix>);

#[verifier::external_type_specification]
#[verifier::external_body]
pub struct ExDirected(Directed);

/// A directed multigraph whose nodes are numbered from zero in insertion order.
pub type FlightGraph = Graph<(), (), Directed, usize>;

/// The edges of a graph, as (source, target) node numbers in insertion order.
pub uninterp spec fn graph_edges(g: FlightGraph) -> Seq<(nat, nat)>;

/// The number of nodes of a graph.
pub uninterp spec fn graph_node_count(g: FlightGraph) -> nat;

/// The number of edges of `edges` that leave node `n`.
pub open spec fn count_from(edges: Seq<(nat, nat)>, n: nat) -> nat
    decreases edges.len(),
{
    if edges.len() == 0 {
        0
    } else {
        count_from(edges.drop_last(), n) + if edges.last().0 == n { 1nat } else { 0nat }
    }
}

/// The number of edges of `edges` that enter node `n`.
pub open spec fn count_into(edges: Seq<(nat, nat)>, n: nat) -> nat
    decreases edges.len(),
{
    if edges.len() == 0 {
        0
    } else {
        count_into(edges.drop_last(), n) + if edges.last().1 == n { 1nat } else { 0nat }
    }
}

/// Relies on petgraph's `Graph::default`: a graph with no nodes and no edges.
#[verifier::external_body]
pub(crate) fn new_graph() -> (g: FlightGraph)
    ensures
        graph_node_count(g) == 0,
        graph_edges(g) == Seq::<(nat, nat)>::empty(),
{
    Graph::default()
}

/// Relies on petgraph's `Graph::add_node`: the new node is numbered by the old
/// node count; edges are untouched. With `usize` indices it never panics.
#[verifier::external_body]
pub(crate) fn add_node(g: &mut FlightGraph) -> (i: usize)
    ensures
        i == graph_node_count(*old(g)),
        graph_node_count(*final(g)) == graph_node_count(*old(g)) + 1,
        graph_edges(*final(g)) == graph_edges(*old(g)),
{
    g.add_node(()).index()
}

/// Relies on petgraph's `Graph::add_edge`: one more edge from `a` to `b`,
/// parallel edges kept. It panics unless both nodes exist.
#[verifier::external_body]
pub(crate) fn add_edge(g: &mut FlightGraph, a: usize, b: usize)
    requires
        a < graph_node_count(*old(g)),
        b < graph_node_count(*old(g)),
    ensures
        graph_node_count(*final(g)) == graph_node_count(*old(g)),
        graph_edges(*final(g)) == graph_edges(*old(g)).push((a as nat, b as nat)),
{
    g.add_edge(NodeIndex::new(a), NodeIndex::new(b), ());
}

/// Relies on petgraph's `Graph::edges`: on a directed graph, every edge that
/// leaves node `n`, once each.
#[verifier::external_body]
pub(crate) fn out_degree(g: &FlightGraph, n: usize) -> (r: usize)
    ensures
        r == count_from(graph_edges(*g), n as nat),
{
    g.edges(NodeIndex::new(n)).count()
}

/// Relies on petgraph's `Graph::edges_directed` with `Incoming`: on a directed
/// graph, every edge that enters node `n`, once each.
#[verifier::external_body]
pub(crate) fn in_degree(g: &FlightGraph, n: usize) -> (r: usize)
    ensures
        r == count_into(graph_edges(*g), n as nat),
{
    g.edges_directed(NodeIndex::new(n), Direction::Incoming).count()
}

} // verus!
