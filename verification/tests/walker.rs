use memoesu::bitgraph::BitGraph;
use memoesu::graph::DiGraph;
use memoesu::counts::Counts;
use memoesu::esu::enumerate_subgraphs;
use memoesu::result::EsuError;
use memoesu::walker::{enumerate_subgraphs as walk_subgraphs, extend_subgraph, walk_root, Step, Walker};

fn example_graph() -> DiGraph {
    let edges: [(u32, u32); 9] =
        [(0, 1), (1, 2), (2, 0), (3, 0), (0, 4), (5, 1), (1, 6), (7, 2), (2, 8)];
    DiGraph::from_edges(&edges)
}

/// Every subgraph that the walkers of all roots complete, with its dense
/// adjacency.
fn walk(graph: &BitGraph, k: usize) -> Vec<(Vec<usize>, Vec<u64>)> {
    let mut found = Vec::new();
    for root in 0..graph.n {
        let mut walker = Walker::new(graph, root, k);
        loop {
            match walker.step() {
                Step::Finished => break,
                Step::Descended | Step::Ascended => {}
                Step::Complete => {
                    found.push((walker.subgraph().clone(), walker.nauty_graph().clone()));
                    walker.retire();
                }
            }
        }
    }
    found
}

/// Every set of `k` vertices that holds together, found by trying them all.
fn connected_sets(graph: &BitGraph, k: usize) -> Vec<Vec<usize>> {
    let n = graph.n;
    let mut all = Vec::new();
    for mask in 0u32..(1 << n) {
        if mask.count_ones() as usize != k {
            continue;
        }
        let members: Vec<usize> = (0..n).filter(|&v| mask & (1 << v) != 0).collect();
        let mut reached = vec![members[0]];
        let mut grew = true;
        while grew {
            grew = false;
            for &v in members.iter() {
                if !reached.contains(&v) && reached.iter().any(|&u| graph.is_connected(u, v)) {
                    reached.push(v);
                    grew = true;
                }
            }
        }
        if reached.len() == k {
            all.push(members);
        }
    }
    all
}

#[test]
fn the_walkers_visit_every_connected_set_once() {
    let graph = example_graph();
    for directed in [true, false] {
        let bitgraph = BitGraph::from_graph(&graph, directed);
        for k in 2..=5 {
            let mut visited: Vec<Vec<usize>> = walk(&bitgraph, k)
                .into_iter()
                .map(|(mut sub, _)| {
                    sub.sort();
                    sub
                })
                .collect();
            visited.sort();
            let mut expected = connected_sets(&bitgraph, k);
            expected.sort();
            assert_eq!(visited, expected);
        }
    }
}

#[test]
fn the_walkers_count_the_example() {
    let graph = example_graph();
    let bitgraph = BitGraph::from_graph(&graph, true);
    assert_eq!(walk(&bitgraph, 3).len(), 16);
    assert_eq!(walk(&bitgraph, 4).len(), 24);
}

#[test]
fn a_walker_starts_at_its_root() {
    let graph = example_graph();
    let bitgraph = BitGraph::from_graph(&graph, true);
    let walker = Walker::new(&bitgraph, 1, 3);
    assert_eq!(walker.depth, 0);
    assert_eq!(walker.subgraph(), &vec![1]);
    assert_eq!(walker.extension.get_row(0).ones().collect::<Vec<_>>(), vec![2, 5, 6]);
    assert_eq!(walker.neighborhood.get_row(0).ones().collect::<Vec<_>>(), vec![0, 1, 2, 5, 6]);
    assert_eq!(walker.exclusive.get_row(0).count_ones(..), 0);
    assert_eq!(walker.extension.get_row(1).count_ones(..), 0);
    assert!(walker.is_descending());
    assert!(walker.has_extension());
    assert!(!walker.is_finished());
    assert!(walker.nauty_graph().iter().all(|&w| w == 0));
}

#[test]
fn a_descent_takes_the_least_vertex_and_an_ascent_gives_it_back() {
    let graph = example_graph();
    let bitgraph = BitGraph::from_graph(&graph, true);
    let mut walker = Walker::new(&bitgraph, 1, 3);
    walker.descend();
    assert_eq!(walker.depth, 1);
    assert_eq!(walker.head, 2);
    assert_eq!(walker.subgraph(), &vec![1, 2]);
    // what is left of the root's extension, and the neighbors of 2 that are new
    assert_eq!(walker.extension.get_row(1).ones().collect::<Vec<_>>(), vec![5, 6, 7, 8]);
    assert_eq!(walker.exclusive.get_row(1).ones().collect::<Vec<_>>(), vec![7, 8]);
    assert_eq!(
        walker.neighborhood.get_row(1).ones().collect::<Vec<_>>(),
        vec![0, 1, 2, 5, 6, 7, 8]
    );
    assert_eq!(walker.extension.get_row(0).ones().collect::<Vec<_>>(), vec![2, 5, 6]);
    assert!(walker.is_descending());
    walker.ascend();
    assert_eq!(walker.depth, 0);
    assert_eq!(walker.head, 1);
    assert_eq!(walker.subgraph(), &vec![1]);
    assert_eq!(walker.extension.get_row(0).ones().collect::<Vec<_>>(), vec![5, 6]);
    assert_eq!(walker.extension.get_row(1).count_ones(..), 0);
    assert_eq!(walker.neighborhood.get_row(1).count_ones(..), 0);
    assert_eq!(walker.exclusive.get_row(1).count_ones(..), 0);
}

#[test]
fn a_complete_subgraph_is_written_into_the_buffer() {
    let graph = example_graph();
    let bitgraph = BitGraph::from_graph(&graph, true);
    let mut walker = Walker::new(&bitgraph, 0, 3);
    assert_eq!(walker.step(), Step::Descended);
    assert_eq!(walker.step(), Step::Descended);
    assert_eq!(walker.subgraph(), &vec![0, 1, 2]);
    assert!(!walker.is_descending());
    assert_eq!(walker.step(), Step::Complete);
    // 0 -> 1, 1 -> 2, 2 -> 0
    assert_eq!(
        walker.nauty_graph(),
        &vec![0x4000_0000_0000_0000, 0x2000_0000_0000_0000, 0x8000_0000_0000_0000]
    );
    walker.retire();
    assert_eq!(walker.subgraph(), &vec![0, 1]);
    assert!(walker.nauty_graph().iter().all(|&w| w == 0));
    assert_eq!(walker.step(), Step::Descended);
    assert_eq!(walker.subgraph(), &vec![0, 1, 3]);
}

#[test]
fn a_walker_without_neighbors_above_its_root_is_finished() {
    let graph = example_graph();
    let bitgraph = BitGraph::from_graph(&graph, true);
    let mut walker = Walker::new(&bitgraph, 8, 3);
    assert!(walker.is_finished());
    assert_eq!(walker.step(), Step::Finished);
    assert_eq!(walker.depth, 0);
}

#[test]
fn filling_and_clearing_the_buffer() {
    let graph = example_graph();
    let bitgraph = BitGraph::from_graph(&graph, false);
    let mut walker = Walker::new(&bitgraph, 0, 2);
    walker.descend();
    walker.fill_nauty();
    assert_eq!(walker.nauty_graph(), &vec![0x4000_0000_0000_0000, 0x8000_0000_0000_0000]);
    walker.clear_nauty();
    assert_eq!(walker.nauty_graph(), &vec![0, 0]);
}

#[test]
fn a_walk_run_to_its_end_counts_what_its_steps_visit() {
    let graph = example_graph();
    let bitgraph = BitGraph::from_graph(&graph, true);
    let mut counts = Counts::new();
    let mut total = 0;
    let mut walker = Walker::new(&bitgraph, 0, 3);
    extend_subgraph(&mut counts, &mut total, &mut walker);
    assert_eq!(total, 10);
    assert_eq!(counts.vals.iter().sum::<usize>(), 10);
    assert!(walker.is_finished());
    assert_eq!(walker.depth, 0);
    // the first subgraph of the walk is the triangle
    assert_eq!(
        counts.keys[0],
        vec![0x4000_0000_0000_0000, 0x2000_0000_0000_0000, 0x8000_0000_0000_0000]
    );
    let part = walk_root(&bitgraph, 1, 3);
    assert_eq!(part.total_subgraphs(), 5);
    assert_eq!(walk_root(&bitgraph, 8, 3).total_subgraphs(), 0);
}

#[test]
fn the_walkers_count_as_many_subgraphs_as_the_search() {
    let graph = example_graph();
    for directed in [true, false] {
        for k in 2..=6 {
            let walked = walk_subgraphs(&graph, k, directed).unwrap();
            let searched = enumerate_subgraphs(&graph, k, directed).unwrap();
            assert_eq!(walked.total_subgraphs(), searched.total_subgraphs());
            assert_eq!(walked.counts().vals.iter().sum::<usize>(), walked.total_subgraphs());
        }
    }
    assert_eq!(walk_subgraphs(&graph, 3, true).unwrap().total_subgraphs(), 16);
    assert_eq!(walk_subgraphs(&graph, 1, true).err(), Some(EsuError::MotifTooSmall));
    assert_eq!(walk_subgraphs(&graph, usize::MAX, true).err(), Some(EsuError::MotifTooLarge));
}
