//! Contracts for the directed graph of the `petgraph` crate.
//!
//! The library reads and edits a `petgraph::Graph<(), (), Directed>` through
//! the functions below. To the verifier such a graph is two things: its
//! number of nodes, and the list of its arcs in the order of their edge
//! indices. None of the contracts in this file is proved; each one restates
//! what the source of `petgraph` does.
use petgraph::graph::{EdgeIndex, NodeIndex};
use vstd::prelude::*;

verus! {

/// `petgraph::graph::Graph`, an adjacency list over two vectors.
#[verifier::external_type_specification]
#[verifier::external_body]
#[verifier::reject_recursive_types(N)]
#[verifier::reject_recursive_types(E)]
#[verifier::reject_recursive_types(Ty)]
#[verifier::reject_recursive_types(Ix)]
pub struct ExGraph<N, E, Ty, Ix>(petgraph::graph::Graph<N, E, Ty, Ix>);

/// `petgraph::Directed`, the marker of a graph with directed edges.
#[verifier::external_type_specification]
#[verifier::external_body]
pub struct ExDirected(petgraph::Directed);

/// A directed graph without node or edge weights, indexed by `u32`.
pub type DiGraph = petgraph::graph::Graph<(), (), petgraph::Directed, u32>;

/// The arcs of `g` as (source, target), in the order of their edge indices.
pub uninterp spec fn arcs_of(g: DiGraph) -> Seq<(int, int)>;

/// The number of nodes of `g`.
pub uninterp spec fn order_of(g: DiGraph) -> nat;

/// `Graph::node_count`: the length of the node vector. The last `u32` is
/// kept as an end marker, so no graph has more nodes than `u32::MAX`.
#[verifier::external_body]
pub(crate) fn node_count(g: &DiGraph) -> (n: usize)
    ensures
        n == order_of(*g),
        n <= u32::MAX,
{
    g.node_count()
}

/// `Graph::edge_count`: the length of the edge vector. The last `u32` is
/// kept as an end marker, so no graph has more edges than `u32::MAX`.
#[verifier::external_body]
pub(crate) fn edge_count(g: &DiGraph) -> (m: usize)
    ensures
        m == arcs_of(*g).len(),
        m <= u32::MAX,
{
    g.edge_count()
}

/// `Graph::edge_endpoints`: source and target of the edge at index `e`, or
/// `None` past the last edge. An edge index is a `u32`, so `e` must fit one.
/// Both ends are nodes of the graph: `add_edge` refuses any other.
#[verifier::external_body]
pub(crate) fn edge_endpoints(g: &DiGraph, e: usize) -> (r: Option<(usize, usize)>)
    requires
        e <= u32::MAX,
    ensures
        e < arcs_of(*g).len() ==> r.is_some() && r.unwrap().0 == arcs_of(*g)[e as int].0
            && r.unwrap().1 == arcs_of(*g)[e as int].1 && r.unwrap().0 < order_of(*g)
            && r.unwrap().1 < order_of(*g),
        e >= arcs_of(*g).len() ==> r.is_none(),
{
    g.edge_endpoints(EdgeIndex::new(e)).map(|(a, b)| (a.index(), b.index()))
}

/// `Graph::remove_edge`: unlinks the edge at index `e` and removes it from
/// the edge vector by `swap_remove`, so the last edge takes its index. Past
/// the last edge nothing changes. The nodes stay.
#[verifier::external_body]
pub(crate) fn remove_edge(g: &mut DiGraph, e: usize)
    requires
        e <= u32::MAX,
    ensures
        order_of(*final(g)) == order_of(*old(g)),
        e < arcs_of(*old(g)).len() ==> arcs_of(*final(g)) == arcs_of(*old(g)).update(
            e as int,
            arcs_of(*old(g)).last(),
        ).drop_last(),
        e >= arcs_of(*old(g)).len() ==> arcs_of(*final(g)) == arcs_of(*old(g)),
{
    g.remove_edge(EdgeIndex::new(e));
}

/// `Graph::add_edge`: appends an arc from `a` to `b`, parallel arcs
/// included. It panics when either node is missing or when the edge vector
/// has reached the last `u32` index.
#[verifier::external_body]
pub(crate) fn add_edge(g: &mut DiGraph, a: usize, b: usize)
    requires
        a < order_of(*old(g)),
        b < order_of(*old(g)),
        order_of(*old(g)) <= u32::MAX,
        arcs_of(*old(g)).len() < u32::MAX,
    ensures
        order_of(*final(g)) == order_of(*old(g)),
        arcs_of(*final(g)) == arcs_of(*old(g)).push((a as int, b as int)),
{
    g.add_edge(NodeIndex::new(a), NodeIndex::new(b), ());
}

/// `Graph::neighbors` on a directed graph, collected: the target of every
/// arc that leaves `v`, once per arc. Targets are nodes of the graph.
#[verifier::external_body]
pub(crate) fn successors(g: &DiGraph, v: usize) -> (r: Vec<usize>)
    requires
        v <= u32::MAX,
    ensures
        forall|i: int| 0 <= i < r@.len() ==> (#[trigger] r@[i]) < order_of(*g),
        forall|i: int|
            0 <= i < r@.len() ==> arcs_of(*g).contains((v as int, #[trigger] r@[i] as int)),
        forall|b: int|
            arcs_of(*g).contains((v as int, b)) ==> exists|i: int|
                0 <= i < r@.len() && #[trigger] r@[i] == b,
{
    g.neighbors(NodeIndex::new(v)).map(|w| w.index()).collect()
}

/// `Graph::neighbors_undirected`, collected: the other end of every arc that
/// leaves or enters `v`. A loop at `v` is listed from its outgoing side only.
#[verifier::external_body]
pub(crate) fn neighbors_undirected(g: &DiGraph, v: usize) -> (r: Vec<usize>)
    requires
        v <= u32::MAX,
    ensures
        forall|i: int| 0 <= i < r@.len() ==> (#[trigger] r@[i]) < order_of(*g),
        forall|i: int|
            0 <= i < r@.len() ==> arcs_of(*g).contains((v as int, #[trigger] r@[i] as int))
                || arcs_of(*g).contains((r@[i] as int, v as int)),
        forall|b: int|
            arcs_of(*g).contains((v as int, b)) || arcs_of(*g).contains((b, v as int))
                ==> exists|i: int| 0 <= i < r@.len() && #[trigger] r@[i] == b,
{
    g.neighbors_undirected(NodeIndex::new(v)).map(|w| w.index()).collect()
}

/// `<Graph as Clone>::clone`: the same nodes and the same arcs at the same
/// indices.
#[verifier::external_body]
pub(crate) fn clone_graph(g: &DiGraph) -> (r: DiGraph)
    ensures
        order_of(r) == order_of(*g),
        arcs_of(r) == arcs_of(*g),
{
    g.clone()
}

/// The number of nodes that the edges `edges` ask for: one more than the
/// greatest end of an edge, and none where there is no edge.
pub open spec fn span(edges: Seq<(u32, u32)>) -> nat
    decreases edges.len(),
{
    if edges.len() == 0 {
        0
    } else {
        let before = span(edges.drop_last());
        let a = edges.last().0 as nat + 1;
        let b = edges.last().1 as nat + 1;
        if before >= a && before >= b {
            before
        } else if a >= b {
            a
        } else {
            b
        }
    }
}

/// `Graph::from_edges`: a graph with the arcs `edges` at the indices of the
/// list, and with as many nodes as the ends of the edges ask for. It panics
/// where a node or an edge would get the last `u32` as its index.
#[verifier::external_body]
pub(crate) fn from_edges(edges: &Vec<(u32, u32)>) -> (g: DiGraph)
    requires
        edges@.len() <= u32::MAX,
        forall|i: int| 0 <= i < edges@.len() ==> (#[trigger] edges@[i]).0 < u32::MAX && edges@[i].1
            < u32::MAX,
    ensures
        order_of(g) == span(edges@),
        arcs_of(g).len() == edges@.len(),
        forall|i: int|
            0 <= i < edges@.len() ==> (#[trigger] arcs_of(g)[i]) == (
                edges@[i].0 as int,
                edges@[i].1 as int,
            ),
{
    DiGraph::from_edges(edges)
}

/// `Graph::with_capacity`: a graph without nodes and without edges.
#[verifier::external_body]
pub(crate) fn graph_with_capacity(nodes: usize, edges: usize) -> (g: DiGraph)
    ensures
        order_of(g) == 0,
        arcs_of(g).len() == 0,
{
    DiGraph::with_capacity(nodes, edges)
}

/// `Graph::add_node`: one more node, numbered after those that are there. It
/// panics where the node would get the last `u32` as its index.
#[verifier::external_body]
pub(crate) fn add_node(g: &mut DiGraph)
    requires
        order_of(*old(g)) < u32::MAX,
    ensures
        order_of(*final(g)) == order_of(*old(g)) + 1,
        arcs_of(*final(g)) == arcs_of(*old(g)),
{
    g.add_node(());
}

} // verus!
