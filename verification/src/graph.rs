//! The undirected link graph that a grid keeps, held in a `petgraph` graph map
//! whose nodes are integer triples.
//!
//! Nothing here is proved: each function states what the graph map's own
//! source shows of the method it calls, over two names for what a graph holds,
//! its node list and its set of edge keys.

use petgraph::graphmap::GraphMap;
use petgraph::Undirected;
use std::hash::BuildHasher;
use std::hash::RandomState;
use vstd::prelude::*;

verus! {

/// A graph node: the integer triple that stands for one cell.
pub type Node = (isize, isize, usize);

/// The graph type that holds the links of a grid.
pub type LinkGraph = GraphMap<Node, (), Undirected, RandomState>;

/// The marker type of undirected graphs.
#[verifier::external_type_specification]
#[verifier::external_body]
pub struct ExUndirected(Undirected);

/// The graph map, opaque to the verifier.
#[verifier::external_type_specification]
#[verifier::external_body]
#[verifier::reject_recursive_types(N)]
#[verifier::reject_recursive_types(E)]
#[verifier::reject_recursive_types(Ty)]
#[verifier::reject_recursive_types(S)]
pub struct ExGraphMap<N, E, Ty, S: BuildHasher>(GraphMap<N, E, Ty, S>);

/// The nodes of a graph, in the order in which the graph lists them.
pub uninterp spec fn graph_nodes(g: LinkGraph) -> Seq<Node>;

/// The edges of a graph, each under its ordered key (see [`edge_key`]).
pub uninterp spec fn graph_edges(g: LinkGraph) -> Set<(Node, Node)>;

/// Lexicographic order on nodes, the order of integer tuples.
pub open spec fn node_le(a: Node, b: Node) -> bool {
    a.0 < b.0 || (a.0 == b.0 && (a.1 < b.1 || (a.1 == b.1 && a.2 <= b.2)))
}

/// The key under which the undirected edge between `a` and `b` is stored:
/// the smaller node first.
pub open spec fn edge_key(a: Node, b: Node) -> (Node, Node) {
    if node_le(a, b) {
        (a, b)
    } else {
        (b, a)
    }
}

/// A sequence after the element at `i` was replaced by the last one and the
/// last one dropped.
pub open spec fn swap_removed(s: Seq<Node>, i: int) -> Seq<Node>
    recommends
        0 <= i < s.len(),
{
    s.update(i, s.last()).drop_last()
}

/// A node list with `n` appended unless it is there already.
pub open spec fn with_node(s: Seq<Node>, n: Node) -> Seq<Node> {
    if s.contains(n) {
        s
    } else {
        s.push(n)
    }
}

/// Calls `GraphMap::new`: a graph without nodes and without edges.
#[verifier::external_body]
pub(crate) fn graph_new() -> (g: LinkGraph)
    ensures
        graph_nodes(g) == Seq::<Node>::empty(),
        graph_edges(g) == Set::<(Node, Node)>::empty(),
{
    GraphMap::new()
}

/// Calls `GraphMap::add_node`: the node is appended to the node list unless
/// the graph already holds it; the edges stay.
#[verifier::external_body]
pub(crate) fn graph_add_node(g: &mut LinkGraph, n: Node)
    ensures
        graph_nodes(*final(g)) == with_node(graph_nodes(*old(g)), n),
        graph_edges(*final(g)) == graph_edges(*old(g)),
{
    g.add_node(n);
}

/// Calls `GraphMap::add_edge`: the edge's key joins the edge set, and each
/// endpoint that the graph did not hold is appended to the node list, `a`
/// before `b`.
#[verifier::external_body]
pub(crate) fn graph_add_edge(g: &mut LinkGraph, a: Node, b: Node)
    ensures
        graph_edges(*final(g)) == graph_edges(*old(g)).insert(edge_key(a, b)),
        graph_nodes(*final(g)) == with_node(with_node(graph_nodes(*old(g)), a), b),
{
    g.add_edge(a, b, ());
}

/// Calls `GraphMap::remove_edge`: the edge's key leaves the edge set; the
/// nodes stay as they are.
#[verifier::external_body]
pub(crate) fn graph_remove_edge(g: &mut LinkGraph, a: Node, b: Node)
    ensures
        graph_edges(*final(g)) == graph_edges(*old(g)).remove(edge_key(a, b)),
        graph_nodes(*final(g)) == graph_nodes(*old(g)),
{
    g.remove_edge(a, b);
}

/// Calls `GraphMap::remove_node`: a node that the graph holds is swapped with
/// the last node of the list and dropped, and every edge that touches it
/// leaves the edge set. Returns whether the graph held the node.
#[verifier::external_body]
pub(crate) fn graph_remove_node(g: &mut LinkGraph, n: Node) -> (held: bool)
    ensures
        held == graph_nodes(*old(g)).contains(n),
        graph_nodes(*final(g)) == if held {
            swap_removed(graph_nodes(*old(g)), graph_nodes(*old(g)).index_of(n))
        } else {
            graph_nodes(*old(g))
        },
        graph_edges(*final(g)) == graph_edges(*old(g)).filter(
            |e: (Node, Node)| e.0 != n && e.1 != n,
        ),
{
    g.remove_node(n)
}

/// Calls `GraphMap::contains_node`.
#[verifier::external_body]
pub(crate) fn graph_contains_node(g: &LinkGraph, n: Node) -> (held: bool)
    ensures
        held == graph_nodes(*g).contains(n),
{
    g.contains_node(n)
}

/// Calls `GraphMap::contains_edge`, which looks the pair up under its ordered
/// key.
#[verifier::external_body]
pub(crate) fn graph_contains_edge(g: &LinkGraph, a: Node, b: Node) -> (held: bool)
    ensures
        held == graph_edges(*g).contains(edge_key(a, b)),
{
    g.contains_edge(a, b)
}

/// Calls `GraphMap::node_count`.
#[verifier::external_body]
pub(crate) fn graph_node_count(g: &LinkGraph) -> (n: usize)
    ensures
        n == graph_nodes(*g).len(),
{
    g.node_count()
}

/// Calls `GraphMap::nodes` and collects what it yields: the node list, in
/// the graph's order.
#[verifier::external_body]
pub(crate) fn graph_node_list(g: &LinkGraph) -> (list: Vec<Node>)
    ensures
        list@ == graph_nodes(*g),
{
    g.nodes().collect()
}

/// Calls `GraphMap::neighbors` and collects what it yields: each node that
/// shares an edge with `a`, once. The order is the graph's own and is left
/// open here.
#[verifier::external_body]
pub(crate) fn graph_neighbors(g: &LinkGraph, a: Node) -> (list: Vec<Node>)
    ensures
        list@.no_duplicates(),
        forall|b: Node| #[trigger] list@.contains(b) <==> graph_edges(*g).contains(edge_key(a, b)),
{
    g.neighbors(a).collect()
}

} // verus!
