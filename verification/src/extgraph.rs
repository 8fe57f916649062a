use vstd::prelude::*;
use crate::edges::has_directed_cycle;

verus! {

#[verifier::external_type_specification]
#[verifier::external_body]
pub struct ExDirected(petgraph::Directed);

#[verifier::external_type_specification]
#[verifier::external_body]
#[verifier::reject_recursive_types(N)]
#[verifier::reject_recursive_types(E)]
#[verifier::reject_recursive_types(Ty)]
#[verifier::reject_recursive_types(Ix)]
pub struct ExGraph<N, E, Ty, Ix>(petgraph::graph::Graph<N, E, Ty, Ix>);

/// The node weights the graph stores, in insertion order.
pub uninterp spec fn graph_nodes(g: petgraph::graph::DiGraph<String, ()>) -> Seq<Seq<char>>;

/// The directed edges the graph stores, as pairs of node positions.
pub uninterp spec fn graph_edge_set(g: petgraph::graph::DiGraph<String, ()>) -> Set<(int, int)>;

/// How many edges the graph stores, parallel edges counted apart.
pub uninterp spec fn graph_edge_count(g: petgraph::graph::DiGraph<String, ()>) -> nat;

/// Relies on petgraph's `Graph::new`: a directed graph with no nodes and no
/// edges.
#[verifier::external_body]
pub fn graph_new() -> (g: petgraph::graph::DiGraph<String, ()>)
    ensures
        graph_nodes(g) == Seq::<Seq<char>>::empty(),
        graph_edge_set(g) == Set::<(int, int)>::empty(),
        graph_edge_count(g) == 0,
{
    petgraph::graph::DiGraph::new()
}

/// Relies on petgraph's `Graph::add_node`: appends one node and returns its
/// position; positions are handed out consecutively from zero. Stays below
/// the index limit at which petgraph panics.
#[verifier::external_body]
pub fn graph_add_node(g: &mut petgraph::graph::DiGraph<String, ()>, id: String) -> (r: usize)
    requires
        graph_nodes(*old(g)).len() < 0xFFFF_FFFF,
    ensures
        graph_nodes(*final(g)) == graph_nodes(*old(g)).push(id@),
        graph_edge_set(*final(g)) == graph_edge_set(*old(g)),
        graph_edge_count(*final(g)) == graph_edge_count(*old(g)),
        r == graph_nodes(*old(g)).len(),
{
    g.add_node(id).index()
}

/// Relies on petgraph's `Graph::add_edge`: records one directed edge between
/// two existing node positions, keeping parallel edges apart. Stays below
/// the index limit at which petgraph panics.
#[verifier::external_body]
pub fn graph_add_edge(g: &mut petgraph::graph::DiGraph<String, ()>, a: usize, b: usize)
    requires
        a < graph_nodes(*old(g)).len(),
        b < graph_nodes(*old(g)).len(),
        graph_edge_count(*old(g)) < 0xFFFF_FFFF,
    ensures
        graph_nodes(*final(g)) == graph_nodes(*old(g)),
        graph_edge_set(*final(g)) == graph_edge_set(*old(g)).insert((a as int, b as int)),
        graph_edge_count(*final(g)) == graph_edge_count(*old(g)) + 1,
{
    g.add_edge(
        petgraph::graph::NodeIndex::new(a),
        petgraph::graph::NodeIndex::new(b),
        (),
    );
}

/// Relies on petgraph's `algo::is_cyclic_directed`: true exactly when the
/// directed graph contains a cycle, that is, a closed directed walk.
#[verifier::external_body]
pub fn graph_is_cyclic(g: &petgraph::graph::DiGraph<String, ()>) -> (r: bool)
    ensures
        r == has_directed_cycle(graph_edge_set(*g)),
{
    petgraph::algo::is_cyclic_directed(g)
}

} // verus!
