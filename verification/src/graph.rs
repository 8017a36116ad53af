//! The `petgraph` directed graphs the projection is built on, seen through
//! what each call does to the graph's node and edge lists.
//!
//! A `petgraph::graph::Graph` keeps its nodes and its edges in two dense
//! lists: node `i` and edge `e` are positions in them. Adding appends;
//! removing an edge moves the last edge into the freed position; removing a
//! node first removes every edge at it, then moves the last node into the
//! freed position and renumbers that node's edges.

use vstd::prelude::*;

use petgraph::graph::{DiGraph, EdgeIndex, Graph, NodeIndex};
use petgraph::visit::EdgeRef;
use petgraph::Directed;

use crate::projection::{EdgeNode, ElementNode};

verus! {

/// `petgraph::graph::Graph`, carried through opaquely.
#[verifier::external_type_specification]
#[verifier::external_body]
#[verifier::reject_recursive_types(N)]
#[verifier::reject_recursive_types(E)]
#[verifier::reject_recursive_types(Ty)]
#[verifier::reject_recursive_types(Ix)]
pub struct ExGraph<N, E, Ty, Ix>(Graph<N, E, Ty, Ix>);

/// `petgraph::Directed`, the edge-type marker of a directed graph.
#[verifier::external_type_specification]
#[verifier::external_body]
pub struct ExDirected(Directed);

/// The node weights of a projection graph, by node index.
pub uninterp spec fn element_graph_nodes(g: DiGraph<ElementNode, EdgeNode, usize>) -> Seq<ElementNode>;

/// The edges of a projection graph, by edge index: source node, target
/// node, weight.
pub uninterp spec fn element_graph_edges(g: DiGraph<ElementNode, EdgeNode, usize>) -> Seq<(usize, usize, EdgeNode)>;

/// The number of nodes of a weightless graph.
pub uninterp spec fn plain_graph_size(g: DiGraph<(), (), usize>) -> nat;

/// The edges of a weightless graph, by edge index: source node, target node.
pub uninterp spec fn plain_graph_edges(g: DiGraph<(), (), usize>) -> Seq<(usize, usize)>;

/// Where node `x` sits after node `a` of `n` nodes was removed: the last node
/// takes `a`'s place, every other node keeps its own.
pub open spec fn relocated(x: usize, a: usize, n: nat) -> usize {
    if x == n - 1 {
        a
    } else {
        x
    }
}

/// The edge does not touch node `a`.
pub open spec fn avoids(a: usize) -> spec_fn((usize, usize, EdgeNode)) -> bool {
    |e: (usize, usize, EdgeNode)| e.0 != a && e.1 != a
}

/// The edge with its endpoints renumbered after the removal of node `a` of
/// `n` nodes.
pub open spec fn renumbered(a: usize, n: nat) -> spec_fn((usize, usize, EdgeNode)) -> (usize, usize, EdgeNode) {
    |e: (usize, usize, EdgeNode)| (relocated(e.0, a, n), relocated(e.1, a, n), e.2)
}

/// The edges that survive the removal of node `a` of `n` nodes, with their
/// endpoints renumbered.
pub open spec fn kept_edges(es: Seq<(usize, usize, EdgeNode)>, a: usize, n: nat) -> Seq<(usize, usize, EdgeNode)> {
    es.filter(avoids(a)).map_values(renumbered(a, n))
}

/// The successor of position `i` around the closed walk `w`.
pub open spec fn next_on(w: Seq<usize>, i: int) -> usize {
    if i + 1 == w.len() {
        w[0]
    } else {
        w[i + 1]
    }
}

/// `w` is a cycle of the graph with `n` nodes and these edges: a non-empty
/// closed walk, each step along an edge.
pub open spec fn is_cycle(n: nat, edges: Seq<(usize, usize)>, w: Seq<usize>) -> bool {
    &&& w.len() >= 1
    &&& forall|i: int| 0 <= i < w.len() ==> #[trigger] w[i] < n
    &&& forall|i: int| 0 <= i < w.len() ==> edges.contains((#[trigger] w[i], next_on(w, i)))
}

/// The graph contains a cycle.
pub open spec fn has_cycle(n: nat, edges: Seq<(usize, usize)>) -> bool {
    exists|w: Seq<usize>| is_cycle(n, edges, w)
}

/// Calls `Graph::default`: a graph with no nodes and no edges.
#[verifier::external_body]
pub(crate) fn element_graph_new() -> (g: DiGraph<ElementNode, EdgeNode, usize>)
    ensures
        element_graph_nodes(g) == Seq::<ElementNode>::empty(),
        element_graph_edges(g) == Seq::<(usize, usize, EdgeNode)>::empty(),
{
    DiGraph::default()
}

/// Calls `Graph::node_count`: the length of the node list.
#[verifier::external_body]
pub(crate) fn element_graph_node_count(g: &DiGraph<ElementNode, EdgeNode, usize>) -> (n: usize)
    ensures
        n == element_graph_nodes(*g).len(),
{
    g.node_count()
}

/// Calls `Graph::edge_count`: the length of the edge list.
#[verifier::external_body]
pub(crate) fn element_graph_edge_count(g: &DiGraph<ElementNode, EdgeNode, usize>) -> (n: usize)
    ensures
        n == element_graph_edges(*g).len(),
{
    g.edge_count()
}

/// Calls `Graph::add_node`: appends the node and returns its index (with
/// `usize` indices the crate sets no limit of its own).
#[verifier::external_body]
pub(crate) fn element_graph_add_node(g: &mut DiGraph<ElementNode, EdgeNode, usize>, weight: ElementNode) -> (ix: usize)
    ensures
        ix == element_graph_nodes(*old(g)).len(),
        element_graph_nodes(*final(g)) == element_graph_nodes(*old(g)).push(weight),
        element_graph_edges(*final(g)) == element_graph_edges(*old(g)),
{
    g.add_node(weight).index()
}

/// Calls `Graph::add_edge`: appends the edge `a → b` and returns its index.
/// The crate panics on a missing endpoint.
#[verifier::external_body]
pub(crate) fn element_graph_add_edge(
    g: &mut DiGraph<ElementNode, EdgeNode, usize>,
    a: usize,
    b: usize,
    weight: EdgeNode,
) -> (ix: usize)
    requires
        a < element_graph_nodes(*old(g)).len(),
        b < element_graph_nodes(*old(g)).len(),
    ensures
        ix == element_graph_edges(*old(g)).len(),
        element_graph_edges(*final(g)) == element_graph_edges(*old(g)).push((a, b, weight)),
        element_graph_nodes(*final(g)) == element_graph_nodes(*old(g)),
{
    g.add_edge(NodeIndex::new(a), NodeIndex::new(b), weight).index()
}

/// Calls `Graph::remove_edge`: removes edge `e` and returns its weight; the
/// last edge takes its index.
#[verifier::external_body]
pub(crate) fn element_graph_remove_edge(g: &mut DiGraph<ElementNode, EdgeNode, usize>, e: usize) -> (r: Option<EdgeNode>)
    requires
        e < element_graph_edges(*old(g)).len(),
    ensures
        r == Some(element_graph_edges(*old(g))[e as int].2),
        element_graph_edges(*final(g)) == element_graph_edges(*old(g)).update(
            e as int,
            element_graph_edges(*old(g)).last(),
        ).drop_last(),
        element_graph_nodes(*final(g)) == element_graph_nodes(*old(g)),
{
    g.remove_edge(EdgeIndex::new(e))
}

/// Calls `Graph::remove_node`: removes every edge at node `a`, then the node
/// itself, and returns its weight. The last node takes index `a` and its
/// edges are renumbered. In which order the surviving edges end up the
/// crate's source does not make plain, so only what the edge list holds is
/// stated.
#[verifier::external_body]
pub(crate) fn element_graph_remove_node(g: &mut DiGraph<ElementNode, EdgeNode, usize>, a: usize) -> (r: Option<ElementNode>)
    requires
        a < element_graph_nodes(*old(g)).len(),
    ensures
        r == Some(element_graph_nodes(*old(g))[a as int]),
        element_graph_nodes(*final(g)) == element_graph_nodes(*old(g)).update(
            a as int,
            element_graph_nodes(*old(g)).last(),
        ).drop_last(),
        element_graph_edges(*final(g)).to_multiset() == kept_edges(
            element_graph_edges(*old(g)),
            a,
            element_graph_nodes(*old(g)).len(),
        ).to_multiset(),
{
    g.remove_node(NodeIndex::new(a))
}

/// Indexes the graph by `NodeIndex`: the weight of node `a`.
#[verifier::external_body]
pub(crate) fn element_graph_node(g: &DiGraph<ElementNode, EdgeNode, usize>, a: usize) -> (w: &ElementNode)
    requires
        a < element_graph_nodes(*g).len(),
    ensures
        *w == element_graph_nodes(*g)[a as int],
{
    &g[NodeIndex::new(a)]
}

/// Indexes the graph mutably by `NodeIndex`: replaces the weight of node `a`.
#[verifier::external_body]
pub(crate) fn element_graph_set_node(g: &mut DiGraph<ElementNode, EdgeNode, usize>, a: usize, weight: ElementNode)
    requires
        a < element_graph_nodes(*old(g)).len(),
    ensures
        element_graph_nodes(*final(g)) == element_graph_nodes(*old(g)).update(a as int, weight),
        element_graph_edges(*final(g)) == element_graph_edges(*old(g)),
{
    g[NodeIndex::new(a)] = weight;
}

/// Calls `Graph::edges` on node `a` and collects the index of each edge it
/// yields: in a directed graph, every edge leaving `a`, each once.
#[verifier::external_body]
pub(crate) fn element_graph_out_edges(g: &DiGraph<ElementNode, EdgeNode, usize>, a: usize) -> (out: Vec<usize>)
    requires
        a < element_graph_nodes(*g).len(),
    ensures
        out@.no_duplicates(),
        forall|e: usize| out@.contains(e) == (e < element_graph_edges(*g).len() && element_graph_edges(*g)[e as int].0 == a),
{
    g.edges(NodeIndex::new(a)).map(|e| e.id().index()).collect()
}

/// Calls `Graph::edge_endpoints`: the source and target of edge `e`.
#[verifier::external_body]
pub(crate) fn element_graph_edge_endpoints(g: &DiGraph<ElementNode, EdgeNode, usize>, e: usize) -> (r: Option<(usize, usize)>)
    requires
        e < element_graph_edges(*g).len(),
    ensures
        r == Some((element_graph_edges(*g)[e as int].0, element_graph_edges(*g)[e as int].1)),
{
    g.edge_endpoints(EdgeIndex::new(e)).map(|(s, t)| (s.index(), t.index()))
}

/// Indexes the graph by `EdgeIndex`: the weight of edge `e`.
#[verifier::external_body]
pub(crate) fn element_graph_edge_weight(g: &DiGraph<ElementNode, EdgeNode, usize>, e: usize) -> (w: &EdgeNode)
    requires
        e < element_graph_edges(*g).len(),
    ensures
        *w == element_graph_edges(*g)[e as int].2,
{
    &g[EdgeIndex::new(e)]
}

/// Calls `Graph::default` for a weightless graph: no nodes, no edges.
#[verifier::external_body]
pub(crate) fn plain_graph_new() -> (g: DiGraph<(), (), usize>)
    ensures
        plain_graph_size(g) == 0,
        plain_graph_edges(g) == Seq::<(usize, usize)>::empty(),
{
    DiGraph::default()
}

/// Calls `Graph::add_node` on a weightless graph: appends a node and returns
/// its index.
#[verifier::external_body]
pub(crate) fn plain_graph_add_node(g: &mut DiGraph<(), (), usize>) -> (ix: usize)
    ensures
        ix == plain_graph_size(*old(g)),
        plain_graph_size(*final(g)) == plain_graph_size(*old(g)) + 1,
        plain_graph_edges(*final(g)) == plain_graph_edges(*old(g)),
{
    g.add_node(()).index()
}

/// Calls `Graph::add_edge` on a weightless graph: appends the edge `a → b`
/// (the crate panics on a missing endpoint).
#[verifier::external_body]
pub(crate) fn plain_graph_add_edge(g: &mut DiGraph<(), (), usize>, a: usize, b: usize)
    requires
        a < plain_graph_size(*old(g)),
        b < plain_graph_size(*old(g)),
    ensures
        plain_graph_size(*final(g)) == plain_graph_size(*old(g)),
        plain_graph_edges(*final(g)) == plain_graph_edges(*old(g)).push((a, b)),
{
    g.add_edge(NodeIndex::new(a), NodeIndex::new(b), ());
}

/// Calls `petgraph::algo::is_cyclic_directed`, which, as its documentation
/// says, tells whether the directed graph contains a cycle (a self-loop
/// counts). The search it runs is recursive; that the stack suffices for the
/// graph's depth is not stated.
#[verifier::external_body]
pub(crate) fn plain_graph_is_cyclic(g: &DiGraph<(), (), usize>) -> (r: bool)
    ensures
        r == has_cycle(plain_graph_size(*g), plain_graph_edges(*g)),
{
    petgraph::algo::is_cyclic_directed(g)
}

} // verus!
