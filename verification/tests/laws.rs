use memoesu::bitgraph::BitGraph;
use memoesu::enrichment::{null_counts, submodule_enrichment};
use memoesu::esu::{check_motif_size, enumerate_subgraphs, group_subgraphs, Esu};
use memoesu::graph::DiGraph;
use memoesu::result::{EnumResult, EsuError};
use petgraph::Direction::{Incoming, Outgoing};

fn example_graph() -> DiGraph {
    let edges: [(u32, u32); 9] =
        [(0, 1), (1, 2), (2, 0), (3, 0), (0, 4), (5, 1), (1, 6), (7, 2), (2, 8)];
    DiGraph::from_edges(&edges)
}

fn acyclic_example() -> DiGraph {
    let edges: [(u32, u32); 9] =
        [(0, 1), (0, 2), (1, 2), (3, 0), (0, 4), (5, 1), (1, 6), (7, 2), (2, 8)];
    DiGraph::from_edges(&edges)
}

fn permutations(k: usize) -> Vec<Vec<usize>> {
    if k == 0 {
        return vec![vec![]];
    }
    let mut all = Vec::new();
    for shorter in permutations(k - 1) {
        for at in 0..k {
            let mut longer = shorter.clone();
            longer.insert(at, k - 1);
            all.push(longer);
        }
    }
    all
}

fn canonical(words: &Vec<u64>, k: usize) -> Vec<u64> {
    let bit = |i: usize, j: usize| (words[i] >> (63 - j)) & 1 == 1;
    let mut best: Vec<u64> = Vec::new();
    for order in permutations(k) {
        let mut rows = vec![0u64; k];
        for i in 0..k {
            for j in 0..k {
                if bit(order[i], order[j]) {
                    rows[i] |= 1u64 << (63 - j);
                }
            }
        }
        if best.is_empty() || rows > best {
            best = rows;
        }
    }
    best
}

fn classes(found: &EnumResult, k: usize) -> EnumResult {
    let labels: Vec<Vec<u64>> =
        found.counts().keys.iter().map(|words| canonical(words, k)).collect();
    found.relabel(&labels).unwrap()
}

fn sorted_counts(result: &EnumResult) -> Vec<usize> {
    let mut counts = result.counts().vals.clone();
    counts.sort();
    counts
}

fn sorted(result: &EnumResult) -> Vec<(Vec<u64>, usize)> {
    let counts = result.counts();
    let mut entries: Vec<(Vec<u64>, usize)> =
        counts.keys.iter().cloned().zip(counts.vals.iter().cloned()).collect();
    entries.sort();
    entries
}

/// Every set of `k` vertices that holds together, found by trying them all.
fn connected_sets(graph: &BitGraph, k: usize) -> usize {
    let n = graph.n;
    let mut count = 0;
    for mask in 0u32..(1 << n) {
        if mask.count_ones() as usize != k {
            continue;
        }
        let members: Vec<usize> = (0..n).filter(|&v| mask & (1 << v) != 0).collect();
        let mut reached = vec![members[0]];
        let mut grew = true;
        while grew {
            grew = false;
            for &v in members.iter() {
                if !reached.contains(&v) && reached.iter().any(|&u| graph.is_connected(u, v)) {
                    reached.push(v);
                    grew = true;
                }
            }
        }
        if reached.len() == k {
            count += 1;
        }
    }
    count
}

#[test]
fn the_example_with_an_acyclic_triangle() {
    let graph = acyclic_example();
    let three = classes(&enumerate_subgraphs(&graph, 3, true).unwrap(), 3);
    assert_eq!(three.total_subgraphs(), 16);
    assert_eq!(three.unique_subgraphs(), 4);
    assert_eq!(sorted_counts(&three), vec![1, 3, 3, 9]);
    let undirected = classes(&enumerate_subgraphs(&graph, 3, false).unwrap(), 3);
    assert_eq!(undirected.total_subgraphs(), 16);
    assert_eq!(sorted_counts(&undirected), vec![1, 15]);
    // the three vertices of an acyclic triangle can be told apart, so the
    // subgraphs of four vertices fall into more classes than with a cycle
    let four = classes(&enumerate_subgraphs(&graph, 4, true).unwrap(), 4);
    assert_eq!(four.total_subgraphs(), 24);
    assert_eq!(four.unique_subgraphs(), 12);
    assert_eq!(four.counts().vals.iter().sum::<usize>(), 24);
    let four_undirected = classes(&enumerate_subgraphs(&graph, 4, false).unwrap(), 4);
    assert_eq!(four_undirected.total_subgraphs(), 24);
    assert_eq!(sorted_counts(&four_undirected), vec![6, 6, 12]);
}

#[test]
fn every_connected_set_is_counted_once() {
    let graph = example_graph();
    for directed in [true, false] {
        let bitgraph = BitGraph::from_graph(&graph, directed);
        for k in 2..=6 {
            let found = enumerate_subgraphs(&graph, k, directed).unwrap();
            assert_eq!(found.total_subgraphs(), connected_sets(&bitgraph, k));
        }
    }
}

#[test]
fn the_counts_add_up_to_the_total() {
    let graph = example_graph();
    for directed in [true, false] {
        for k in 2..=5 {
            let found = enumerate_subgraphs(&graph, k, directed).unwrap();
            assert_eq!(found.counts().vals.iter().sum::<usize>(), found.total_subgraphs());
            let merged = classes(&found, k);
            assert_eq!(merged.counts().vals.iter().sum::<usize>(), merged.total_subgraphs());
            assert_eq!(merged.total_subgraphs(), found.total_subgraphs());
        }
    }
}

#[test]
fn an_enumeration_run_twice_counts_the_same() {
    let graph = example_graph();
    let first = enumerate_subgraphs(&graph, 4, true).unwrap();
    let second = enumerate_subgraphs(&graph, 4, true).unwrap();
    assert_eq!(first.total_subgraphs(), second.total_subgraphs());
    assert_eq!(first.counts().keys, second.counts().keys);
    assert_eq!(first.counts().vals, second.counts().vals);
}

#[test]
fn labels_given_in_another_order_change_no_count() {
    // the same counts whether an adjacency is labelled once for all its
    // subgraphs or again for each: the labels are merged by adjacency
    let graph = example_graph();
    let found = enumerate_subgraphs(&graph, 3, true).unwrap();
    let merged = classes(&found, 3);
    let mut by_hand: Vec<(Vec<u64>, usize)> = Vec::new();
    for (key, &count) in found.counts().keys.iter().zip(found.counts().vals.iter()) {
        let label = canonical(key, 3);
        match by_hand.iter_mut().find(|(l, _)| *l == label) {
            Some((_, c)) => *c += count,
            None => by_hand.push((label, count)),
        }
    }
    by_hand.sort();
    assert_eq!(sorted(&merged), by_hand);
}

#[test]
fn pairs_are_the_edges() {
    let graph = example_graph();
    let directed = classes(&enumerate_subgraphs(&graph, 2, true).unwrap(), 2);
    assert_eq!(directed.total_subgraphs(), 9);
    assert_eq!(directed.unique_subgraphs(), 1);
    let undirected = classes(&enumerate_subgraphs(&graph, 2, false).unwrap(), 2);
    assert_eq!(undirected.total_subgraphs(), 9);
    assert_eq!(undirected.unique_subgraphs(), 1);
    // an arc and a pair of opposite arcs are the two classes of directed pairs
    let edges: [(u32, u32); 4] = [(0, 1), (1, 0), (1, 2), (3, 2)];
    let both = DiGraph::from_edges(&edges);
    let two = classes(&enumerate_subgraphs(&both, 2, true).unwrap(), 2);
    assert_eq!(two.total_subgraphs(), 3);
    assert_eq!(two.unique_subgraphs(), 2);
    assert_eq!(sorted_counts(&two), vec![1, 2]);
    let one = classes(&enumerate_subgraphs(&both, 2, false).unwrap(), 2);
    assert_eq!(one.total_subgraphs(), 3);
    assert_eq!(one.unique_subgraphs(), 1);
}

#[test]
fn the_whole_graph_is_one_subgraph_if_it_is_connected() {
    let graph = example_graph();
    let whole = enumerate_subgraphs(&graph, 9, true).unwrap();
    assert_eq!(whole.total_subgraphs(), 1);
    assert_eq!(whole.unique_subgraphs(), 1);
    let edges: [(u32, u32); 3] = [(0, 1), (2, 3), (3, 4)];
    let parted = DiGraph::from_edges(&edges);
    assert_eq!(enumerate_subgraphs(&parted, 5, true).unwrap().total_subgraphs(), 0);
    assert_eq!(enumerate_subgraphs(&parted, 5, false).unwrap().total_subgraphs(), 0);
    assert_eq!(enumerate_subgraphs(&parted, 6, true).unwrap().total_subgraphs(), 0);
    assert_eq!(enumerate_subgraphs(&parted, 3, true).unwrap().total_subgraphs(), 1);
}

#[test]
fn a_vertex_without_edges_is_in_no_subgraph() {
    // vertex 2 has no edge
    let edges: [(u32, u32); 3] = [(0, 1), (1, 3), (3, 4)];
    let graph = DiGraph::from_edges(&edges);
    for k in 2..=4 {
        let found = group_subgraphs(&graph, k, true).unwrap();
        assert!(!found.groups().contains_key(2));
        assert!(found.groups().contains_key(1));
    }
    assert_eq!(enumerate_subgraphs(&graph, 2, true).unwrap().total_subgraphs(), 3);
    assert_eq!(enumerate_subgraphs(&graph, 4, true).unwrap().total_subgraphs(), 1);
    assert_eq!(enumerate_subgraphs(&graph, 5, true).unwrap().total_subgraphs(), 0);
}

#[test]
fn a_loop_does_not_extend_its_vertex() {
    let edges: [(u32, u32); 4] = [(0, 0), (0, 1), (1, 2), (2, 2)];
    let graph = DiGraph::from_edges(&edges);
    let with_loops = enumerate_subgraphs(&graph, 2, true).unwrap();
    assert_eq!(with_loops.total_subgraphs(), 2);
    // the loops show in the adjacency of the directed subgraphs
    assert_eq!(with_loops.unique_subgraphs(), 2);
    let three = enumerate_subgraphs(&graph, 3, true).unwrap();
    assert_eq!(three.total_subgraphs(), 1);
    assert_eq!(
        three.counts().keys[0],
        vec![0xC000_0000_0000_0000, 0x2000_0000_0000_0000, 0x2000_0000_0000_0000]
    );
    let undirected = enumerate_subgraphs(&graph, 3, false).unwrap();
    assert_eq!(
        undirected.counts().keys[0],
        vec![0x4000_0000_0000_0000, 0xA000_0000_0000_0000, 0x4000_0000_0000_0000]
    );
}

#[test]
fn the_size_of_the_subgraphs_is_checked() {
    assert_eq!(check_motif_size(0), Err(EsuError::MotifTooSmall));
    assert_eq!(check_motif_size(1), Err(EsuError::MotifTooSmall));
    assert_eq!(check_motif_size(2), Ok(()));
    assert_eq!(check_motif_size(i32::MAX as usize), Ok(()));
    assert_eq!(check_motif_size(i32::MAX as usize + 1), Err(EsuError::MotifTooLarge));
    assert_eq!(check_motif_size(usize::MAX), Err(EsuError::MotifTooLarge));
    let graph = example_graph();
    assert_eq!(
        enumerate_subgraphs(&graph, usize::MAX, true).err(),
        Some(EsuError::MotifTooLarge)
    );
    assert_eq!(group_subgraphs(&graph, 1, true).err(), Some(EsuError::MotifTooSmall));
}

#[test]
fn an_enumeration_can_be_run_step_by_step() {
    let graph = example_graph();
    let mut esu = Esu::new(3, &graph, true);
    assert_eq!(esu.n_total(), 0);
    assert_eq!(esu.n_unique(), 0);
    let ext = vec![0; 9];
    esu.go(2, 0, 0, &ext);
    assert_eq!(esu.n_total(), 1);
    esu.go(1, 0, 0, &ext);
    assert_eq!(esu.n_total(), 6);
    esu.current = vec![0, 1, 2];
    esu.build_nauty();
    assert_eq!(
        esu.ngraph.graph(),
        &vec![0x4000_0000_0000_0000, 0x2000_0000_0000_0000, 0x8000_0000_0000_0000]
    );
    esu.ngraph.clear_graph();
    esu.build_nauty_dir();
    assert_eq!(esu.ngraph.graph()[2], 0x8000_0000_0000_0000);
    esu.ngraph.clear_graph();
    let mut whole = Esu::new(3, &graph, false);
    whole.current = vec![0, 1, 2];
    whole.build_nauty_undir();
    assert_eq!(
        whole.ngraph.graph(),
        &vec![0x6000_0000_0000_0000, 0xA000_0000_0000_0000, 0xC000_0000_0000_0000]
    );
    whole.ngraph.clear_graph();
    whole.enumerate();
    assert_eq!(whole.n_total(), 16);
    assert_eq!(whole.result().total_subgraphs(), 16);
    let mut groups = Esu::new(3, &graph, true);
    groups.identify_groups();
    let result = groups.group_results();
    assert_eq!(result.total_subgraphs(), 16);
    assert!(result.groups().contains_key(8));
}

#[test]
fn the_random_graphs_of_an_ensemble_keep_the_degrees() {
    let graph = example_graph();
    let ensemble = submodule_enrichment(&graph, 3, 4, 3, 11).unwrap();
    assert_eq!(ensemble.observed.total_subgraphs(), 16);
    assert_eq!(ensemble.graphs.len(), 4);
    assert_eq!(ensemble.randoms.len(), 4);
    for (random, counts) in ensemble.graphs.iter().zip(ensemble.randoms.iter()) {
        assert_eq!(random.node_count(), 9);
        assert_eq!(random.edge_count(), 9);
        for n in graph.node_indices() {
            assert_eq!(
                graph.neighbors_directed(n, Outgoing).count(),
                random.neighbors_directed(n, Outgoing).count()
            );
            assert_eq!(
                graph.neighbors_directed(n, Incoming).count(),
                random.neighbors_directed(n, Incoming).count()
            );
        }
        let again = enumerate_subgraphs(random, 3, true).unwrap();
        assert_eq!(again.total_subgraphs(), counts.total_subgraphs());
        assert_eq!(again.counts().vals, counts.counts().vals);
    }
    assert_eq!(
        submodule_enrichment(&graph, 1, 4, 3, 11).err(),
        Some(EsuError::MotifTooSmall)
    );
    assert_eq!(submodule_enrichment(&graph, 3, 0, 3, 11).unwrap().graphs.len(), 0);
}

#[test]
fn an_ensemble_is_settled_by_its_seed() {
    let graph = example_graph();
    let first = submodule_enrichment(&graph, 3, 3, 3, 5).unwrap();
    let second = submodule_enrichment(&graph, 3, 3, 3, 5).unwrap();
    let ends = |g: &DiGraph| -> Vec<(usize, usize)> {
        g.edge_indices()
            .map(|e| g.edge_endpoints(e).unwrap())
            .map(|(a, b)| (a.index(), b.index()))
            .collect()
    };
    for (a, b) in first.graphs.iter().zip(second.graphs.iter()) {
        assert_eq!(ends(a), ends(b));
    }
    for (a, b) in first.randoms.iter().zip(second.randoms.iter()) {
        assert_eq!(a.counts().keys, b.counts().keys);
        assert_eq!(a.counts().vals, b.counts().vals);
    }
    assert_ne!(ends(&first.graphs[0]), ends(&first.graphs[1]));
}

#[test]
fn the_table_of_the_random_counts_follows_the_observed_keys() {
    let graph = example_graph();
    let ensemble = submodule_enrichment(&graph, 3, 2, 3, 1).unwrap();
    let observed = classes(&ensemble.observed, 3);
    let randoms: Vec<EnumResult> = ensemble.randoms.iter().map(|r| classes(r, 3)).collect();
    let table = null_counts(observed.counts(), &randoms);
    assert_eq!(table.len(), observed.unique_subgraphs());
    for (i, row) in table.iter().enumerate() {
        assert_eq!(row.len(), 2);
        for (r, &count) in row.iter().enumerate() {
            assert_eq!(count, randoms[r].counts().get(&observed.counts().keys[i]).unwrap_or(0));
        }
    }
    let mut lone = memoesu::counts::Counts::new();
    lone.add(&vec![1, 2, 3], 4);
    assert_eq!(null_counts(&lone, &randoms), vec![vec![0, 0]]);
}

#[test]
fn loops_change_no_total_with_direction_or_without() {
    let plain: [(u32, u32); 9] =
        [(0, 1), (1, 2), (2, 0), (3, 0), (0, 4), (5, 1), (1, 6), (7, 2), (2, 8)];
    let mut looped: Vec<(u32, u32)> = plain.to_vec();
    looped.push((0, 0));
    looped.push((4, 4));
    looped.push((7, 7));
    let without = DiGraph::from_edges(&plain);
    let with = DiGraph::from_edges(&looped);
    for directed in [true, false] {
        for k in 2..=5 {
            let a = enumerate_subgraphs(&without, k, directed).unwrap();
            let b = enumerate_subgraphs(&with, k, directed).unwrap();
            assert_eq!(a.total_subgraphs(), b.total_subgraphs());
            if !directed {
                assert_eq!(sorted(&a), sorted(&b));
            }
        }
    }
    assert_eq!(enumerate_subgraphs(&with, 3, true).unwrap().total_subgraphs(), 16);
}

#[test]
fn pairs_fall_into_two_classes_with_direction_and_one_without() {
    // one arc, an arc each way, and one arc the other way round
    let edges: [(u32, u32); 5] = [(0, 1), (1, 2), (2, 1), (3, 2), (3, 4)];
    let graph = DiGraph::from_edges(&edges);
    let directed = classes(&enumerate_subgraphs(&graph, 2, true).unwrap(), 2);
    assert_eq!(directed.total_subgraphs(), 4);
    assert_eq!(directed.unique_subgraphs(), 2);
    assert_eq!(sorted_counts(&directed), vec![1, 3]);
    let undirected = classes(&enumerate_subgraphs(&graph, 2, false).unwrap(), 2);
    assert_eq!(undirected.total_subgraphs(), 4);
    assert_eq!(undirected.unique_subgraphs(), 1);
    assert_eq!(sorted_counts(&undirected), vec![4]);
}

#[test]
fn the_keys_under_canonical_labels_are_the_classes() {
    // two paths of three vertices along the arcs, one with the arcs apart
    // and one with the arcs together: three classes
    let edges: [(u32, u32); 6] = [(0, 1), (1, 2), (3, 4), (5, 4), (7, 6), (7, 8)];
    let graph = DiGraph::from_edges(&edges);
    let found = enumerate_subgraphs(&graph, 3, true).unwrap();
    assert_eq!(found.total_subgraphs(), 3);
    let merged = classes(&found, 3);
    assert_eq!(merged.unique_subgraphs(), 3);
    assert_eq!(sorted_counts(&merged), vec![1, 1, 1]);
    let undirected = classes(&enumerate_subgraphs(&graph, 3, false).unwrap(), 3);
    assert_eq!(undirected.unique_subgraphs(), 1);
    assert_eq!(sorted_counts(&undirected), vec![3]);
}

#[test]
fn loops_tell_pairs_apart_where_the_arcs_have_a_direction() {
    // a loop at the tail of an arc, a loop at the head of an arc, and no loop
    let edges: [(u32, u32); 5] = [(0, 0), (0, 1), (1, 2), (2, 2), (3, 4)];
    let graph = DiGraph::from_edges(&edges);
    let directed = classes(&enumerate_subgraphs(&graph, 2, true).unwrap(), 2);
    assert_eq!(directed.total_subgraphs(), 3);
    assert_eq!(directed.unique_subgraphs(), 3);
    let undirected = classes(&enumerate_subgraphs(&graph, 2, false).unwrap(), 2);
    assert_eq!(undirected.total_subgraphs(), 3);
    assert_eq!(undirected.unique_subgraphs(), 1);
}
