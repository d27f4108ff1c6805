use memoesu::bitgraph::{directed_neighbors, undirected_neighbors, BitGraph};
use memoesu::graph::DiGraph;

fn build_graph() -> DiGraph {
    let edges: [(u32, u32); 5] = [(0, 1), (0, 2), (0, 3), (1, 2), (2, 3)];
    DiGraph::from_edges(&edges)
}

#[test]
fn bitgraph_test_undirected_neighbors() {
    let graph = build_graph();
    let neighbors = undirected_neighbors(&graph, 1);
    assert_eq!(neighbors.len(), 4);
    assert_eq!(neighbors.count_ones(..), 2);
    assert!(neighbors.contains(0));
    assert!(neighbors.contains(2));
}

#[test]
fn bitgraph_test_directed_neighbors() {
    let graph = build_graph();
    let neighbors = directed_neighbors(&graph, 1);
    assert_eq!(neighbors.len(), 4);
    assert_eq!(neighbors.count_ones(..), 1);
    assert!(!neighbors.contains(0));
    assert!(neighbors.contains(2));
}

#[test]
fn bitgraph_test_bitgraph_directed() {
    let graph = build_graph();
    let bitgraph = BitGraph::from_graph(&graph, true);
    assert_eq!(bitgraph.n, 4);
    assert_eq!(bitgraph.u_adj.len(), 4);
    assert_eq!(bitgraph.d_adj.len(), 4);
    assert_ne!(bitgraph.neighbors(1), bitgraph.neighbors_directed(1));
}

#[test]
fn bitgraph_test_bitgraph_undirected() {
    let graph = build_graph();
    let bitgraph = BitGraph::from_graph(&graph, false);
    assert_eq!(bitgraph.n, 4);
    assert_eq!(bitgraph.u_adj.len(), 4);
    assert_eq!(bitgraph.d_adj.len(), 4);
    assert_eq!(bitgraph.neighbors(1), bitgraph.neighbors_directed(1));
}

#[test]
fn bitgraph_answers_as_the_edges_say() {
    let graph = build_graph();
    let directed = BitGraph::from_graph(&graph, true);
    assert!(directed.is_connected(0, 1));
    assert!(directed.is_connected(1, 0));
    assert!(directed.is_connected_directed(0, 1));
    assert!(!directed.is_connected_directed(1, 0));
    assert!(!directed.is_connected(1, 3));
    assert_eq!(directed.num_neighbors_directed(0), 3);
    assert_eq!(directed.num_neighbors_directed(3), 0);
    assert_eq!(directed.neighbors_directed_unchecked(2).ones().collect::<Vec<_>>(), vec![3]);
    let undirected = BitGraph::from_graph(&graph, false);
    assert!(undirected.is_connected_directed(1, 0));
    assert_eq!(undirected.num_neighbors_directed(3), 2);
}

#[test]
fn a_loop_makes_no_neighbor() {
    let edges: [(u32, u32); 3] = [(0, 0), (0, 1), (1, 2)];
    let graph = DiGraph::from_edges(&edges);
    let directed = BitGraph::from_graph(&graph, true);
    assert!(!directed.is_connected(0, 0));
    assert!(directed.is_connected_directed(0, 0));
    assert_eq!(directed.neighbors(0).ones().collect::<Vec<_>>(), vec![1]);
    let undirected = BitGraph::from_graph(&graph, false);
    assert!(!undirected.is_connected(0, 0));
    assert!(!undirected.is_connected_directed(0, 0));
}

#[test]
fn parallel_arcs_collapse() {
    let edges: [(u32, u32); 3] = [(0, 1), (0, 1), (1, 0)];
    let graph = DiGraph::from_edges(&edges);
    let bitgraph = BitGraph::from_graph(&graph, true);
    assert_eq!(bitgraph.num_neighbors_directed(0), 1);
    assert_eq!(bitgraph.neighbors(0).count_ones(..), 1);
}
