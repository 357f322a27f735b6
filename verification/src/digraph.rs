//! The trusted surface over petgraph's directed graph: the graph type itself,
//! names for what it holds, and wrappers for the few operations the library
//! performs on it.
//!
//! The graph is opaque to the verifier; everything proved about it rests on
//! the contracts in this file, each checked against petgraph's source.

use vstd::prelude::*;
use crate::paths::reaches;
use petgraph::graph::DiGraph;
use petgraph::graph::NodeIndex;

verus! {

#[verifier::external_type_specification]
#[verifier::external_body]
#[verifier::reject_recursive_types(N)]
#[verifier::reject_recursive_types(E)]
#[verifier::reject_recursive_types(Ty)]
#[verifier::reject_recursive_types(Ix)]
pub struct ExGraph<N, E, Ty, Ix>(petgraph::graph::Graph<N, E, Ty, Ix>);

#[verifier::external_type_specification]
#[verifier::external_body]
pub struct ExDirected(petgraph::Directed);

/// The labels of the graph's nodes, in creation order: the node with index
/// `i` carries the label at position `i`.
pub uninterp spec fn graph_labels(g: DiGraph<String, ()>) -> Seq<Seq<char>>;

/// The graph's directed edges, as (source, target) node indices, in creation
/// order.
pub uninterp spec fn graph_edge_list(g: DiGraph<String, ()>) -> Seq<(int, int)>;

/// Relies on petgraph::graph::Graph::new: the new graph has no nodes and no
/// edges.
#[verifier::external_body]
pub(crate) fn graph_new() -> (g: DiGraph<String, ()>)
    ensures
        graph_labels(g) == Seq::<Seq<char>>::empty(),
        graph_edge_list(g) == Seq::<(int, int)>::empty(),
{
    DiGraph::new()
}

/// Relies on petgraph::graph::Graph::add_node: appends one node carrying
/// `label` and returns its index, which equals the previous node count.
/// It panics only when the node count has hit the u32 index limit, which the
/// precondition rules out.
#[verifier::external_body]
pub(crate) fn graph_add_node(g: &mut DiGraph<String, ()>, label: String) -> (ix: usize)
    requires
        graph_labels(*old(g)).len() < 0xFFFF_FFFF,
    ensures
        graph_labels(*final(g)) == graph_labels(*old(g)).push(label@),
        graph_edge_list(*final(g)) == graph_edge_list(*old(g)),
        ix as nat == graph_labels(*old(g)).len(),
{
    g.add_node(label).index()
}

/// Relies on petgraph::graph::Graph::add_edge: appends one directed edge from
/// `a` to `b` and touches nothing else. It panics only on a missing endpoint
/// or when the edge count has hit the u32 index limit, which the
/// preconditions rule out.
#[verifier::external_body]
pub(crate) fn graph_add_edge(g: &mut DiGraph<String, ()>, a: usize, b: usize)
    requires
        (a as nat) < graph_labels(*old(g)).len(),
        (b as nat) < graph_labels(*old(g)).len(),
        graph_edge_list(*old(g)).len() < 0xFFFF_FFFF,
    ensures
        graph_labels(*final(g)) == graph_labels(*old(g)),
        graph_edge_list(*final(g)) == graph_edge_list(*old(g)).push((a as int, b as int)),
{
    g.add_edge(NodeIndex::new(a), NodeIndex::new(b), ());
}

/// Relies on petgraph::graph::Graph::node_count: the number of nodes.
#[verifier::external_body]
pub(crate) fn graph_node_count(g: &DiGraph<String, ()>) -> (n: usize)
    ensures
        n as nat == graph_labels(*g).len(),
{
    g.node_count()
}

/// Relies on petgraph::graph::Graph::edge_count: the number of edges.
#[verifier::external_body]
pub(crate) fn graph_edge_count(g: &DiGraph<String, ()>) -> (n: usize)
    ensures
        n as nat == graph_edge_list(*g).len(),
{
    g.edge_count()
}

/// Relies on petgraph::graph::Graph::node_weight: the weight of an existing
/// node index (indices are assigned sequentially from zero), None past the
/// node count. The precondition keeps `i` within the graph's 32-bit index
/// type: NodeIndex::new truncates a larger value, which would make the
/// lookup wrap around to a lower node.
#[verifier::external_body]
pub(crate) fn graph_node_label(g: &DiGraph<String, ()>, i: usize) -> (r: Option<String>)
    requires
        i as nat <= 0xFFFF_FFFF,
    ensures
        match r {
            Some(lab) => (i as nat) < graph_labels(*g).len() && lab@ == graph_labels(*g)[
                i as int
            ],
            None => (i as nat) >= graph_labels(*g).len(),
        },
{
    g.node_weight(NodeIndex::new(i)).cloned()
}

/// Relies on petgraph::algo::dijkstra with no goal node: the returned map
/// assigns a path cost to exactly the nodes reachable from `start`, the start
/// node itself included. Every key is a node of the graph, so each returned
/// index is below the node count and fits the graph's 32-bit index type.
/// Only the key set is relied upon; the unit edge cost and the costs
/// themselves play no part, and the order of the returned indices is
/// arbitrary.
#[verifier::external_body]
pub(crate) fn graph_reachable(g: &DiGraph<String, ()>, start: usize) -> (r: Vec<usize>)
    requires
        (start as nat) < graph_labels(*g).len(),
    ensures
        forall|j: int| 0 <= j < r@.len() ==> ((#[trigger] r@[j]) as nat) < graph_labels(
            *g,
        ).len() && r@[j] as nat <= 0xFFFF_FFFF,
        forall|j: int| 0 <= j < r@.len() ==> reaches(
            graph_edge_list(*g),
            start as int,
            #[trigger] r@[j] as int,
        ),
        forall|k: int| #[trigger] reaches(graph_edge_list(*g), start as int, k) ==> exists|
            j: int,
        | 0 <= j < r@.len() && r@[j] as int == k,
{
    petgraph::algo::dijkstra(g, NodeIndex::new(start), None, |_| 1usize)
        .into_iter()
        .map(|(k, _)| k.index())
        .collect()
}

} // verus!
