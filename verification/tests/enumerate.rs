use memoesu::esu::enumerate_subgraphs;
use memoesu::graph::DiGraph;
use memoesu::result::{EnumResult, EsuError};

fn example_graph() -> DiGraph {
    let edges: [(u32, u32); 9] =
        [(0, 1), (1, 2), (2, 0), (3, 0), (0, 4), (5, 1), (1, 6), (7, 2), (2, 8)];
    DiGraph::from_edges(&edges)
}

fn permutations(k: usize) -> Vec<Vec<usize>> {
    if k == 0 {
        return vec![vec![]];
    }
    let mut all = Vec::new();
    for shorter in permutations(k - 1) {
        for at in 0..k {
            let mut longer = shorter.clone();
            longer.insert(at, k - 1);
            all.push(longer);
        }
    }
    all
}

/// The greatest dense adjacency among those of all orders of the vertices.
fn canonical(words: &Vec<u64>, k: usize) -> Vec<u64> {
    let bit = |i: usize, j: usize| (words[i] >> (63 - j)) & 1 == 1;
    let mut best: Vec<u64> = Vec::new();
    for order in permutations(k) {
        let mut rows = vec![0u64; k];
        for i in 0..k {
            for j in 0..k {
                if bit(order[i], order[j]) {
                    rows[i] |= 1u64 << (63 - j);
                }
            }
        }
        if best.is_empty() || rows > best {
            best = rows;
        }
    }
    best
}

fn classes(graph: &DiGraph, k: usize, directed: bool) -> EnumResult {
    let found = enumerate_subgraphs(graph, k, directed).unwrap();
    let labels: Vec<Vec<u64>> =
        found.counts().keys.iter().map(|words| canonical(words, k)).collect();
    found.relabel(&labels).unwrap()
}

fn sorted_counts(result: &EnumResult) -> Vec<usize> {
    let mut counts = result.counts().vals.clone();
    counts.sort();
    counts
}

#[test]
fn dir_example_s3() {
    let graph = example_graph();
    let result = classes(&graph, 3, true);
    assert_eq!(result.total_subgraphs(), 16);
    assert_eq!(result.unique_subgraphs(), 4);
    for &count in result.counts().vals.iter() {
        let cond = count == 1 || count == 3 || count == 9;
        assert!(cond);
    }
    assert_eq!(sorted_counts(&result), vec![1, 3, 3, 9]);
}

#[test]
fn undir_example_s3() {
    let graph = example_graph();
    let result = classes(&graph, 3, false);
    assert_eq!(result.total_subgraphs(), 16);
    assert_eq!(result.unique_subgraphs(), 2);
    for &count in result.counts().vals.iter() {
        let cond = count == 1 || count == 15;
        assert!(cond);
    }
    assert_eq!(sorted_counts(&result), vec![1, 15]);
}

#[test]
fn dir_example_s4() {
    let graph = example_graph();
    let result = classes(&graph, 4, true);
    assert_eq!(result.total_subgraphs(), 24);
    assert_eq!(result.unique_subgraphs(), 8);
    for &count in result.counts().vals.iter() {
        let cond = count == 3;
        assert!(cond);
    }
}

#[test]
fn undir_example_s4() {
    let graph = example_graph();
    let result = classes(&graph, 4, false);
    assert_eq!(result.total_subgraphs(), 24);
    assert_eq!(result.unique_subgraphs(), 3);
    for &count in result.counts().vals.iter() {
        let cond = count == 6 || count == 12;
        assert!(cond);
    }
    assert_eq!(sorted_counts(&result), vec![6, 6, 12]);
}

#[test]
fn motif_size_below_two_is_refused() {
    let graph = example_graph();
    assert_eq!(enumerate_subgraphs(&graph, 1, true).err(), Some(EsuError::MotifTooSmall));
    assert_eq!(enumerate_subgraphs(&graph, 0, false).err(), Some(EsuError::MotifTooSmall));
}
