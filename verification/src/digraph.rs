//! The graph container: `petgraph`'s directed graph, with nodes and edges known by their positions.

use crate::types::{Edge, Node};
use petgraph::graph::{DiGraph, EdgeIndex, NodeIndex};
use petgraph::visit::EdgeRef;
use petgraph::Direction;
use vstd::prelude::*;

verus! {

/// `petgraph::Directed`, the mark of a graph whose edges have a direction.
#[verifier::external_type_specification]
#[verifier::external_body]
pub struct ExDirected(petgraph::Directed);

/// `petgraph::graph::Graph`, of which `DiGraph` is the directed form.
#[verifier::external_type_specification]
#[verifier::external_body]
#[verifier::reject_recursive_types(N)]
#[verifier::reject_recursive_types(E)]
#[verifier::reject_recursive_types(Ty)]
#[verifier::reject_recursive_types(Ix)]
pub struct ExGraph<N, E, Ty, Ix>(petgraph::graph::Graph<N, E, Ty, Ix>);

/// The nodes of a graph, by position.
pub uninterp spec fn graph_nodes(g: DiGraph<Node, Edge>) -> Seq<Node>;

/// The edges of a graph, by position: source, target and weight.
pub uninterp spec fn graph_edges(g: DiGraph<Node, Edge>) -> Seq<(usize, usize, Edge)>;

/// For each node of a graph, the positions of the edges that leave it, in the order in which the
/// graph lists them.
pub uninterp spec fn graph_outgoing(g: DiGraph<Node, Edge>) -> Seq<Seq<usize>>;

/// For each node of a graph, the positions of the edges that enter it, in the order in which the
/// graph lists them.
pub uninterp spec fn graph_incoming(g: DiGraph<Node, Edge>) -> Seq<Seq<usize>>;

/// `DiGraph::new`: a graph without nodes and edges.
#[verifier::external_body]
pub(crate) fn empty_graph() -> (r: DiGraph<Node, Edge>)
    ensures
        graph_nodes(r) == Seq::<Node>::empty(),
        graph_edges(r) == Seq::<(usize, usize, Edge)>::empty(),
        graph_outgoing(r) == Seq::<Seq<usize>>::empty(),
        graph_incoming(r) == Seq::<Seq<usize>>::empty(),
{
    DiGraph::new()
}

/// `Graph::add_node`: adds a node behind the others, without edges. It panics where the positions
/// of nodes are used up.
#[verifier::external_body]
pub(crate) fn push_node(g: &mut DiGraph<Node, Edge>, node: Node) -> (r: usize)
    requires
        graph_nodes(*old(g)).len() < u32::MAX,
    ensures
        r == graph_nodes(*old(g)).len(),
        graph_nodes(*final(g)) == graph_nodes(*old(g)).push(node),
        graph_edges(*final(g)) == graph_edges(*old(g)),
        graph_outgoing(*final(g)) == graph_outgoing(*old(g)).push(Seq::empty()),
        graph_incoming(*final(g)) == graph_incoming(*old(g)).push(Seq::empty()),
{
    g.add_node(node).index()
}

/// `Graph::add_edge`: adds an edge behind the others. Among the edges that leave its source, and
/// among those that enter its target, it comes first. It panics where one of its ends is not in
/// the graph, or where the positions of edges are used up.
#[verifier::external_body]
pub(crate) fn push_edge(g: &mut DiGraph<Node, Edge>, from: usize, to: usize, edge: Edge) -> (r:
    usize)
    requires
        from < graph_nodes(*old(g)).len(),
        to < graph_nodes(*old(g)).len(),
        graph_edges(*old(g)).len() < u32::MAX,
    ensures
        r == graph_edges(*old(g)).len(),
        graph_nodes(*final(g)) == graph_nodes(*old(g)),
        graph_edges(*final(g)) == graph_edges(*old(g)).push((from, to, edge)),
        graph_outgoing(*final(g)) == graph_outgoing(*old(g)).update(
            from as int,
            seq![r] + graph_outgoing(*old(g))[from as int],
        ),
        graph_incoming(*final(g)) == graph_incoming(*old(g)).update(
            to as int,
            seq![r] + graph_incoming(*old(g))[to as int],
        ),
{
    g.add_edge(NodeIndex::new(from), NodeIndex::new(to), edge).index()
}

/// `Graph`'s indexing by a `NodeIndex`.
#[verifier::external_body]
pub(crate) fn node_at(g: &DiGraph<Node, Edge>, ix: usize) -> (r: &Node)
    requires
        ix < graph_nodes(*g).len(),
    ensures
        *r == graph_nodes(*g)[ix as int],
{
    &g[NodeIndex::new(ix)]
}

/// `Graph`'s indexing by a `NodeIndex`, for changing the node.
#[verifier::external_body]
pub(crate) fn node_at_mut(g: &mut DiGraph<Node, Edge>, ix: usize) -> (r: &mut Node)
    requires
        ix < graph_nodes(*old(g)).len(),
    ensures
        *r == graph_nodes(*old(g))[ix as int],
        graph_nodes(*final(g)) == graph_nodes(*old(g)).update(ix as int, *final(r)),
        graph_edges(*final(g)) == graph_edges(*old(g)),
        graph_outgoing(*final(g)) == graph_outgoing(*old(g)),
        graph_incoming(*final(g)) == graph_incoming(*old(g)),
{
    &mut g[NodeIndex::new(ix)]
}

/// `Graph`'s indexing by an `EdgeIndex`.
#[verifier::external_body]
pub(crate) fn edge_at(g: &DiGraph<Node, Edge>, e: usize) -> (r: &Edge)
    requires
        e < graph_edges(*g).len(),
    ensures
        *r == graph_edges(*g)[e as int].2,
{
    &g[EdgeIndex::new(e)]
}

/// `Graph::edge_endpoints`: the source and the target of an edge.
#[verifier::external_body]
pub(crate) fn ends_at(g: &DiGraph<Node, Edge>, e: usize) -> (r: Option<(usize, usize)>)
    requires
        e < graph_edges(*g).len(),
    ensures
        r == Some((graph_edges(*g)[e as int].0, graph_edges(*g)[e as int].1)),
{
    g.edge_endpoints(EdgeIndex::new(e)).map(|ends| (ends.0.index(), ends.1.index()))
}

/// `Graph::edges_directed` with `Direction::Outgoing`: the positions of the edges that leave a
/// node.
#[verifier::external_body]
pub(crate) fn edges_out_of(g: &DiGraph<Node, Edge>, ix: usize) -> (r: Vec<usize>)
    requires
        ix < graph_nodes(*g).len(),
    ensures
        r@ == graph_outgoing(*g)[ix as int],
{
    g.edges_directed(NodeIndex::new(ix), Direction::Outgoing).map(|e| e.id().index()).collect()
}

/// `Graph::edges_directed` with `Direction::Incoming`: the positions of the edges that enter a
/// node.
#[verifier::external_body]
pub(crate) fn edges_into(g: &DiGraph<Node, Edge>, ix: usize) -> (r: Vec<usize>)
    requires
        ix < graph_nodes(*g).len(),
    ensures
        r@ == graph_incoming(*g)[ix as int],
{
    g.edges_directed(NodeIndex::new(ix), Direction::Incoming).map(|e| e.id().index()).collect()
}

/// `Graph::node_count`.
#[verifier::external_body]
pub(crate) fn count_nodes(g: &DiGraph<Node, Edge>) -> (r: usize)
    ensures
        r == graph_nodes(*g).len(),
{
    g.node_count()
}

/// `Graph::edge_count`.
#[verifier::external_body]
pub(crate) fn count_edges(g: &DiGraph<Node, Edge>) -> (r: usize)
    ensures
        r == graph_edges(*g).len(),
{
    g.edge_count()
}

} // verus!
