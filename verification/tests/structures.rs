use fixedbitset::FixedBitSet;
use memoesu::bitgraph::BitGraph;
use memoesu::counts::{add_capped, copy_words, same_words, Counts};
use memoesu::graph::DiGraph;
use memoesu::multibitset::MultiBitSet;
use memoesu::ngraph::{empty_graph, flatten_bits, setwords_needed, test_bit, NautyGraph, Nodes};
use memoesu::result::{check_labels, merge_by_label, EnumResult, EsuError};
use memoesu::subgraph::{build_subgraph, into_subgraph, populate_edges, populate_nodes};
use memoesu::utils::{
    append_exclusive, append_subgraph, exclusive_neighborhood, initial_extension,
    initial_neighborhood, overwrite_extension, pop_extension,
};

fn ones(set: &FixedBitSet) -> Vec<usize> {
    set.ones().collect()
}

fn set_of(width: usize, bits: &[usize]) -> FixedBitSet {
    let mut set = FixedBitSet::with_capacity(width);
    for &b in bits {
        set.insert(b);
    }
    set
}

#[test]
fn rows_are_changed_one_at_a_time() {
    let mut rows = MultiBitSet::new(10, 3);
    assert_eq!(rows.n(), 10);
    assert_eq!(rows.len(), 3);
    assert_eq!(rows.bitsize(), 30);
    rows.set(0, 2, true);
    rows.set(0, 7, true);
    rows.set(2, 7, true);
    rows.set(2, 9, true);
    assert_eq!(ones(rows.get_row(0)), vec![2, 7]);
    assert_eq!(rows.ones(0), vec![2, 7]);
    assert_eq!(rows.ones(2), vec![7, 9]);
    assert_eq!(ones(rows.get_row(1)), Vec::<usize>::new());
    rows.inplace_union(1, 0);
    assert_eq!(ones(rows.get_row(1)), vec![2, 7]);
    assert_eq!(ones(rows.get_row(0)), vec![2, 7]);
    rows.inplace_union(1, 2);
    assert_eq!(ones(rows.get_row(1)), vec![2, 7, 9]);
    rows.inplace_union(0, 2);
    assert_eq!(ones(rows.get_row(0)), vec![2, 7, 9]);
    assert_eq!(ones(rows.get_row(2)), vec![7, 9]);
    rows.inplace_difference(1, 2);
    assert_eq!(ones(rows.get_row(1)), vec![2]);
    rows.inplace_difference(2, 0);
    assert_eq!(ones(rows.get_row(2)), Vec::<usize>::new());
    rows.set(0, 2, false);
    assert_eq!(ones(rows.get_row(0)), vec![7, 9]);
    rows.clear(0);
    assert_eq!(ones(rows.get_row(0)), Vec::<usize>::new());
    assert_eq!(ones(rows.get_row(1)), vec![2]);
}

#[test]
fn rows_take_bit_sets_from_outside() {
    let mut rows = MultiBitSet::new(8, 2);
    let outside = set_of(8, &[1, 3, 5]);
    rows.inplace_external_union(1, &outside);
    assert_eq!(ones(rows.get_row(1)), vec![1, 3, 5]);
    assert_eq!(rows.get_row(1).len(), 8);
    rows.inplace_external_difference(1, &set_of(8, &[3, 4]));
    assert_eq!(ones(rows.get_row(1)), vec![1, 5]);
    rows.set_range(1, 0, 2, false);
    assert_eq!(ones(rows.get_row(1)), vec![5]);
    rows.set_range(0, 2, 5, true);
    assert_eq!(ones(rows.get_row(0)), vec![2, 3, 4]);
    rows.set_range(0, 3, 3, false);
    assert_eq!(ones(rows.get_row(0)), vec![2, 3, 4]);
    let mut other = MultiBitSet::new(8, 3);
    other.set(2, 7, true);
    other.set(2, 2, true);
    rows.union_with(&other, 0, 2);
    assert_eq!(ones(rows.get_row(0)), vec![2, 3, 4, 7]);
    rows.difference_with(&other, 0, 2);
    assert_eq!(ones(rows.get_row(0)), vec![3, 4]);
    assert_eq!(ones(rows.get_row(1)), vec![5]);
}

#[test]
fn the_buffer_packs_bits_from_the_top() {
    assert_eq!(setwords_needed(0), 0);
    assert_eq!(setwords_needed(1), 1);
    assert_eq!(setwords_needed(64), 1);
    assert_eq!(setwords_needed(65), 2);
    assert_eq!(empty_graph(2, 3), vec![0; 6]);
    let mut graph = NautyGraph::new(3, true);
    assert_eq!((graph.n, graph.m, graph.e), (3, 1, 0));
    assert!(graph.directed);
    assert_eq!(graph.nodes.lab, vec![0, 1, 2]);
    assert_eq!(graph.nodes.ptn, vec![0, 0, 0]);
    assert_eq!(graph.nodes.orbits, vec![0, 0, 0]);
    graph.add_arc(0, 1);
    graph.add_arc(2, 0);
    graph.add_arc(2, 2);
    assert_eq!(graph.graph(), &vec![0x4000_0000_0000_0000, 0, 0xA000_0000_0000_0000]);
    assert_eq!(graph.e, 3);
    assert_eq!(graph.pprint_graph(), vec![0, 1, 0, 0, 0, 0, 1, 0, 1]);
    graph.rm_arc(2, 0);
    assert_eq!(graph.graph(), &vec![0x4000_0000_0000_0000, 0, 0x2000_0000_0000_0000]);
    assert_eq!(graph.e, 2);
    graph.rm_arc(1, 1);
    assert_eq!(graph.graph(), &vec![0x4000_0000_0000_0000, 0, 0x2000_0000_0000_0000]);
    graph.canon[1] = 5;
    graph.clear_canon();
    assert_eq!(graph.canon(), &vec![0, 0, 0]);
    assert_eq!(graph.graph()[0], 0x4000_0000_0000_0000);
    graph.clear_graph();
    assert_eq!(graph.graph(), &vec![0, 0, 0]);
    assert!(!NautyGraph::new_undirected(2).directed);
    assert!(NautyGraph::new_directed(2).directed);
}

#[test]
fn a_wide_buffer_has_several_words_to_a_row() {
    let mut graph = NautyGraph::new(70, false);
    assert_eq!(graph.m, 2);
    assert_eq!(graph.graph.len(), 140);
    graph.add_arc(1, 69);
    graph.add_arc(69, 0);
    assert_eq!(graph.graph[3], 1 << (63 - 5));
    assert_eq!(graph.graph[138], 1 << 63);
    assert_eq!(graph.graph.iter().filter(|&&w| w != 0).count(), 2);
    assert_eq!(Nodes::new(70).lab[69], 69);
}

#[test]
fn bits_are_counted_from_the_most_significant() {
    assert!(test_bit(1 << 63, 0));
    assert!(!test_bit(1 << 63, 1));
    assert!(test_bit(1, 63));
    assert_eq!(flatten_bits(&vec![0xC000_0000_0000_0000, 1], 3), vec![1, 1, 0, 0, 0, 0]);
    assert_eq!(flatten_bits(&vec![1], 64), {
        let mut bits = vec![0u8; 64];
        bits[63] = 1;
        bits
    });
    assert_eq!(flatten_bits(&vec![1], 100).len(), 64);
}

#[test]
fn counts_keep_their_keys_in_the_order_of_their_coming() {
    let mut counts = Counts::new();
    assert_eq!(counts.len(), 0);
    assert_eq!(counts.add(&vec![3, 1], 1), 0);
    assert_eq!(counts.add(&vec![2], 4), 1);
    assert_eq!(counts.add(&vec![3, 1], 2), 0);
    assert_eq!(counts.len(), 2);
    assert_eq!(counts.keys, vec![vec![3, 1], vec![2]]);
    assert_eq!(counts.vals, vec![3, 4]);
    assert_eq!(counts.get(&vec![3, 1]), Some(3));
    assert_eq!(counts.get(&vec![1, 3]), None);
    assert_eq!(counts.position(&vec![2]), Some(1));
    assert_eq!(counts.position(&vec![]), None);
}

#[test]
fn a_count_stops_at_the_greatest_number() {
    assert_eq!(add_capped(2, 3), 5);
    assert_eq!(add_capped(usize::MAX, 1), usize::MAX);
    assert_eq!(add_capped(usize::MAX - 1, 1), usize::MAX);
    assert_eq!(add_capped(usize::MAX - 1, 2), usize::MAX);
    let mut counts = Counts::new();
    counts.add(&vec![1], usize::MAX - 1);
    counts.add(&vec![1], 5);
    assert_eq!(counts.get(&vec![1]), Some(usize::MAX));
}

#[test]
fn word_vectors_are_compared_word_by_word() {
    assert!(same_words(&vec![], &vec![]));
    assert!(same_words(&vec![1, 2], &vec![1, 2]));
    assert!(!same_words(&vec![1, 2], &vec![1, 3]));
    assert!(!same_words(&vec![1, 2], &vec![1]));
    assert_eq!(copy_words(&vec![9, 8, 7]), vec![9, 8, 7]);
}

#[test]
fn counts_are_merged_under_their_labels() {
    let labels = vec![vec![1], vec![2], vec![1], vec![3]];
    let merged = merge_by_label(&labels, &vec![5, 1, 2, 0]);
    assert_eq!(merged.keys, vec![vec![1], vec![2], vec![3]]);
    assert_eq!(merged.vals, vec![7, 1, 0]);
    let mut counts = Counts::new();
    counts.add(&vec![10], 5);
    counts.add(&vec![20], 1);
    counts.add(&vec![30], 2);
    let result = EnumResult::new(counts, 8);
    let relabelled = result.relabel(&vec![vec![1], vec![2], vec![1]]).unwrap();
    assert_eq!(relabelled.total_subgraphs(), 8);
    assert_eq!(relabelled.unique_subgraphs(), 2);
    assert_eq!(relabelled.counts().get(&vec![1]), Some(7));
    assert_eq!(relabelled.counts().get(&vec![2]), Some(1));
    assert_eq!(relabelled.counts().vals.iter().sum::<usize>(), 8);
    assert_eq!(result.relabel(&vec![vec![1]]).err(), Some(EsuError::LabelMismatch));
    assert_eq!(
        result.relabel(&vec![vec![1], vec![2, 2], vec![1]]).err(),
        Some(EsuError::LabelMismatch)
    );
    assert!(check_labels(&vec![vec![0]], &vec![vec![5]]));
    assert!(!check_labels(&vec![], &vec![vec![5]]));
}

fn example_graph() -> DiGraph {
    let edges: [(u32, u32); 9] =
        [(0, 1), (1, 2), (2, 0), (3, 0), (0, 4), (5, 1), (1, 6), (7, 2), (2, 8)];
    DiGraph::from_edges(&edges)
}

#[test]
fn test_initial_extension() {
    let edges: [(u32, u32); 6] = [(0, 1), (0, 2), (0, 3), (1, 2), (1, 3), (2, 3)];
    let graph = BitGraph::from_graph(&DiGraph::from_edges(&edges), true);
    let ext_u = initial_extension(&graph, 0);
    let ext_v = initial_extension(&graph, 1);
    let ext_w = initial_extension(&graph, 2);
    let ext_y = initial_extension(&graph, 3);
    assert_eq!(ext_u.count_ones(..), 3);
    assert_eq!(ext_v.count_ones(..), 2);
    assert_eq!(ext_w.count_ones(..), 1);
    assert_eq!(ext_y.count_ones(..), 0);
}

#[test]
fn test_exclusive_neighborhood() {
    let graph = BitGraph::from_graph(&example_graph(), true);
    let ext = initial_extension(&graph, 0);
    let cnh = initial_neighborhood(&ext, 0);
    let exc = exclusive_neighborhood(&graph, &cnh, 1);

    assert_eq!(exc.count_ones(..), 2);
    for n in exc.ones() {
        assert!(!cnh.contains(n));
    }
    assert_eq!(ones(&exc), vec![5, 6]);
}

#[test]
fn build_undirected_test_graph() {
    let _edges = [(0, 1), (0, 2), (1, 2), (3, 0), (4, 0), (5, 1), (6, 1), (7, 2), (8, 2)];
}

#[test]
fn one_step_of_the_search_in_sets() {
    let graph = BitGraph::from_graph(&example_graph(), true);
    let mut ext = initial_extension(&graph, 0);
    assert_eq!(ones(&ext), vec![1, 2, 3, 4]);
    let cnh = initial_neighborhood(&ext, 0);
    assert_eq!(ones(&cnh), vec![0, 1, 2, 3, 4]);
    let w = pop_extension(&mut ext);
    assert_eq!(w, 1);
    assert_eq!(ones(&ext), vec![2, 3, 4]);
    let subgraph = append_subgraph(&set_of(9, &[0]), w);
    assert_eq!(ones(&subgraph), vec![0, 1]);
    let exc = exclusive_neighborhood(&graph, &cnh, w);
    let new_cnh = append_exclusive(&cnh, &exc);
    assert_eq!(ones(&new_cnh), vec![0, 1, 2, 3, 4, 5, 6]);
    let new_ext = overwrite_extension(&exc, &ext, 0, w);
    assert_eq!(ones(&new_ext), vec![2, 3, 4, 5, 6]);
    let above = overwrite_extension(&set_of(9, &[1, 5]), &set_of(9, &[2, 3, 7]), 2, 7);
    assert_eq!(ones(&above), vec![3, 5]);
}

#[test]
fn a_subgraph_is_a_graph_of_its_own() {
    let graph = example_graph();
    let sub = into_subgraph(&graph, &vec![2, 0, 7]).unwrap();
    assert_eq!(sub.node_count(), 3);
    let ends: Vec<(usize, usize)> = sub
        .edge_indices()
        .map(|e| sub.edge_endpoints(e).unwrap())
        .map(|(a, b)| (a.index(), b.index()))
        .collect();
    // 2 -> 0 and 7 -> 2, by the places of their ends
    assert_eq!(ends, vec![(0, 1), (2, 0)]);
    let none = into_subgraph(&graph, &vec![3, 4]).unwrap();
    assert_eq!(none.node_count(), 0);
    assert_eq!(none.edge_count(), 0);
}

#[test]
fn a_subgraph_is_built_from_a_flat_adjacency() {
    // 0 -> 1, 1 -> 2, 2 -> 0 and 2 -> 3 in a graph of four vertices
    let adj = set_of(16, &[1, 6, 8, 11]);
    let sub = build_subgraph(&adj, 4, &vec![2, 3, 0]).unwrap();
    assert_eq!(sub.node_count(), 3);
    let ends: Vec<(usize, usize)> = sub
        .edge_indices()
        .map(|e| sub.edge_endpoints(e).unwrap())
        .map(|(a, b)| (a.index(), b.index()))
        .collect();
    assert_eq!(ends, vec![(0, 1), (0, 2)]);
    assert!(build_subgraph(&adj, 4, &vec![4]).is_none());
    let mut graph = DiGraph::with_capacity(0, 0);
    populate_nodes(&mut graph, &vec![5, 6]);
    assert_eq!(graph.node_count(), 2);
}

#[test]
fn the_arcs_of_a_subgraph_come_row_by_row() {
    // 0 -> 1, 1 -> 2, 2 -> 0 and 2 -> 3 in a graph of four vertices
    let adj = set_of(16, &[1, 6, 8, 11]);
    let indices = vec![3, 2, 1, 0];
    let mut graph = DiGraph::with_capacity(0, 0);
    populate_nodes(&mut graph, &indices);
    assert!(populate_edges(&mut graph, &adj, 4, &indices));
    let ends: Vec<(usize, usize)> = graph
        .edge_indices()
        .map(|e| graph.edge_endpoints(e).unwrap())
        .map(|(a, b)| (a.index(), b.index()))
        .collect();
    assert_eq!(ends, vec![(1, 0), (1, 3), (2, 1), (3, 2)]);
}

#[test]
fn a_vertex_may_stand_twice_in_a_subgraph() {
    let adj = set_of(4, &[1]);
    let sub = build_subgraph(&adj, 2, &vec![0, 1, 0]).unwrap();
    assert_eq!(sub.node_count(), 3);
    let ends: Vec<(usize, usize)> = sub
        .edge_indices()
        .map(|e| sub.edge_endpoints(e).unwrap())
        .map(|(a, b)| (a.index(), b.index()))
        .collect();
    assert_eq!(ends, vec![(0, 1), (2, 1)]);
    assert!(build_subgraph(&adj, 2, &vec![0, 2]).is_none());
    assert_eq!(build_subgraph(&adj, 2, &Vec::new()).unwrap().node_count(), 0);
}
