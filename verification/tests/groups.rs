use memoesu::esu::group_subgraphs;
use memoesu::graph::DiGraph;
use memoesu::groups::{make_group_key, split_group_key, Groups};
use memoesu::io::write_groups_to_buffer;
use memoesu::result::{Canon, EsuError, GroupResult};

fn example_graph() -> DiGraph {
    let edges: [(u32, u32); 9] =
        [(0, 1), (1, 2), (2, 0), (3, 0), (0, 4), (5, 1), (1, 6), (7, 2), (2, 8)];
    DiGraph::from_edges(&edges)
}

fn permutations(k: usize) -> Vec<Vec<usize>> {
    if k == 0 {
        return vec![vec![]];
    }
    let mut all = Vec::new();
    for shorter in permutations(k - 1) {
        for at in 0..k {
            let mut longer = shorter.clone();
            longer.insert(at, k - 1);
            all.push(longer);
        }
    }
    all
}

fn reorder(words: &Vec<u64>, order: &Vec<usize>) -> Vec<u64> {
    let k = order.len();
    let bit = |i: usize, j: usize| (words[i] >> (63 - j)) & 1 == 1;
    let mut rows = vec![0u64; k];
    for i in 0..k {
        for j in 0..k {
            if bit(order[i], order[j]) {
                rows[i] |= 1u64 << (63 - j);
            }
        }
    }
    rows
}

/// A labelling by trying every order of the vertices: the greatest
/// adjacency is the canonical one, a vertex is labelled by its place in that
/// order, and two vertices share an orbit if an order that keeps the
/// adjacency carries one to the other.
fn labelling(words: &Vec<u64>, k: usize) -> Canon {
    let mut best: Vec<u64> = Vec::new();
    let mut best_order: Vec<usize> = Vec::new();
    for order in permutations(k) {
        let rows = reorder(words, &order);
        if best.is_empty() || rows > best {
            best = rows;
            best_order = order;
        }
    }
    let mut lab = vec![0i32; k];
    for (place, &vertex) in best_order.iter().enumerate() {
        lab[vertex] = place as i32;
    }
    let mut orbits: Vec<i32> = (0..k as i32).collect();
    for order in permutations(k) {
        if reorder(words, &order) == *words {
            for i in 0..k {
                let low = orbits[i].min(orbits[order[i]]);
                let (a, b) = (orbits[i], orbits[order[i]]);
                for o in orbits.iter_mut() {
                    if *o == a || *o == b {
                        *o = low;
                    }
                }
            }
        }
    }
    Canon { canon: best, lab, orbits }
}

fn grouped(graph: &DiGraph, k: usize, directed: bool) -> GroupResult {
    let found = group_subgraphs(graph, k, directed).unwrap();
    let labels: Vec<Canon> = found.counts.keys.iter().map(|words| labelling(words, k)).collect();
    found.relabel(&labels).unwrap()
}

#[test]
fn dir_example_s3_groups() {
    let graph = example_graph();
    let result = grouped(&graph, 3, true);
    assert_eq!(result.total_subgraphs(), 16);
    assert_eq!(result.unique_subgraphs(), 4);
    (0..graph.node_count()).for_each(|i| {
        assert!(result.groups().contains_key(i));
    })
}

#[test]
fn dir_example_s4_groups() {
    let graph = example_graph();
    let result = grouped(&graph, 4, true);
    assert_eq!(result.total_subgraphs(), 24);
    assert_eq!(result.unique_subgraphs(), 8);
    (0..graph.node_count()).for_each(|i| {
        assert!(result.groups().contains_key(i));
    })
}

#[test]
fn undir_example_s3_groups() {
    let graph = example_graph();
    let result = grouped(&graph, 3, false);
    assert_eq!(result.total_subgraphs(), 16);
    assert_eq!(result.unique_subgraphs(), 2);
    (0..graph.node_count()).for_each(|i| {
        assert!(result.groups().contains_key(i));
    })
}

#[test]
fn undir_example_s4_groups() {
    let graph = example_graph();
    let result = grouped(&graph, 4, false);
    assert_eq!(result.total_subgraphs(), 24);
    assert_eq!(result.unique_subgraphs(), 3);
    (0..graph.node_count()).for_each(|i| {
        assert!(result.groups().contains_key(i));
    })
}

fn star() -> DiGraph {
    // 2 -> 1
    // 3 -> 1
    // 4 -> 1
    let edges: [(u32, u32); 3] = [(1, 0), (2, 0), (3, 0)];
    DiGraph::from_edges(&edges)
}

/// What nauty says of the one adjacency that the star shows: the adjacency
/// is canonical as it stands, every vertex is labelled by its position, and
/// the two leaves share an orbit.
fn star_labelling(words: &Vec<u64>) -> Canon {
    Canon { canon: words.clone(), lab: vec![0, 1, 2], orbits: vec![0, 1, 1] }
}

#[test]
fn test_groups_io() {
    let graph = star();
    let found = group_subgraphs(&graph, 3, true).unwrap();
    let labels: Vec<Canon> = found.counts.keys.iter().map(star_labelling).collect();
    let results = found.relabel(&labels).unwrap();
    let text = write_groups_to_buffer(results.groups(), 3, true, true).unwrap();
    let string_buffer = std::str::from_utf8(&text).unwrap();
    println!("{}", string_buffer);
    assert!(string_buffer.contains("4\t&BC_\t1\t1\t2"));
    assert!(string_buffer.contains("1\t&BC_\t0\t0\t3"));
    assert!(string_buffer.contains("3\t&BC_\t2\t1\t1"));
    assert!(string_buffer.contains("3\t&BC_\t1\t1\t1"));
    assert!(string_buffer.contains("2\t&BC_\t2\t1\t2"));
    assert!(string_buffer.chars().filter(|c| c == &'\n').count() == 5);
}

#[test]
fn test_groups_io_with_header() {
    let graph = star();
    let found = group_subgraphs(&graph, 3, true).unwrap();
    let labels: Vec<Canon> = found.counts.keys.iter().map(star_labelling).collect();
    let results = found.relabel(&labels).unwrap();
    let text = write_groups_to_buffer(results.groups(), 3, true, false).unwrap();
    let string_buffer = std::str::from_utf8(&text).unwrap();
    println!("{}", string_buffer);
    assert!(string_buffer.contains("node_idx\tcanon\tlabel\torbit\tabundance\n"));
    assert!(string_buffer.contains("4\t&BC_\t1\t1\t2"));
    assert!(string_buffer.contains("1\t&BC_\t0\t0\t3"));
    assert!(string_buffer.contains("3\t&BC_\t2\t1\t1"));
    assert!(string_buffer.contains("3\t&BC_\t1\t1\t1"));
    assert!(string_buffer.contains("2\t&BC_\t2\t1\t2"));
    assert!(string_buffer.chars().filter(|c| c == &'\n').count() == 6);
}

#[test]
fn groups_text_is_exact() {
    let graph = star();
    let found = group_subgraphs(&graph, 3, true).unwrap();
    let labels: Vec<Canon> = found.counts.keys.iter().map(star_labelling).collect();
    let results = found.relabel(&labels).unwrap();
    let text = write_groups_to_buffer(results.groups(), 3, true, false).unwrap();
    assert_eq!(
        String::from_utf8(text).unwrap(),
        "node_idx\tcanon\tlabel\torbit\tabundance\n\
         1\t&BC_\t0\t0\t3\n\
         2\t&BC_\t2\t1\t2\n\
         3\t&BC_\t2\t1\t1\n\
         3\t&BC_\t1\t1\t1\n\
         4\t&BC_\t1\t1\t2\n"
    );
}

#[test]
fn positions_before_the_labelling_are_the_places_in_the_subgraph() {
    let graph = star();
    let found = group_subgraphs(&graph, 3, true).unwrap();
    assert_eq!(found.total_subgraphs(), 3);
    assert_eq!(found.unique_subgraphs(), 1);
    let entries = found.groups().entries(0);
    assert_eq!(entries.len(), 1);
    assert_eq!(entries[0].node_label, 0);
    assert_eq!(entries[0].orbit, 0);
    assert_eq!(entries[0].abundance, 3);
    assert_eq!(entries[0].label, found.counts.keys[0]);
    let of_three = found.groups().entries(3);
    assert_eq!(of_three.len(), 1);
    assert_eq!((of_three[0].node_label, of_three[0].orbit, of_three[0].abundance), (1, 1, 2));
}

#[test]
fn a_vertex_in_no_subgraph_has_no_group() {
    let edges: [(u32, u32); 2] = [(0, 1), (3, 4)];
    let graph = DiGraph::from_edges(&edges);
    let found = group_subgraphs(&graph, 2, true).unwrap();
    assert!(found.groups().contains_key(0));
    assert!(!found.groups().contains_key(2));
    assert!(!found.groups().contains_key(5));
}

#[test]
fn labellings_must_fit_the_counts() {
    let graph = star();
    let found = group_subgraphs(&graph, 3, true).unwrap();
    assert_eq!(found.relabel(&vec![]).err(), Some(EsuError::LabelMismatch));
    let short = vec![Canon { canon: vec![0, 0], lab: vec![0, 1, 2], orbits: vec![0, 1, 1] }];
    assert_eq!(found.relabel(&short).err(), Some(EsuError::LabelMismatch));
    let few = vec![Canon { canon: vec![0, 0, 0], lab: vec![0, 1], orbits: vec![0, 1, 1] }];
    assert_eq!(found.relabel(&few).err(), Some(EsuError::LabelMismatch));
}

#[test]
fn group_keys_come_apart_as_they_were_put_together() {
    let label = vec![7u64, 0, u64::MAX];
    for (node_label, orbit) in [(0, 0), (-1, 5), (i32::MAX, i32::MIN), (12, -7)] {
        let key = make_group_key(&label, node_label, orbit);
        assert_eq!(key.len(), 5);
        assert_eq!(split_group_key(&key), Some((label.clone(), node_label, orbit)));
    }
    assert_eq!(split_group_key(&vec![1]), None);
    assert_eq!(split_group_key(&vec![1, 2, u64::MAX]), None);
}

#[test]
fn groups_count_by_vertex_and_key() {
    let mut groups = Groups::new(3);
    let key = make_group_key(&vec![1, 2], 0, 1);
    groups.add(1, &key, 2);
    groups.add(1, &key, 3);
    groups.add(2, &key, 1);
    assert!(!groups.contains_key(0));
    assert!(groups.contains_key(1));
    assert_eq!(groups.tables[1].get(&key), Some(5));
    assert_eq!(groups.tables[2].get(&key), Some(1));
    assert_eq!(groups.tables[0].get(&key), None);
    let entries = groups.entries(1);
    assert_eq!(entries.len(), 1);
    assert_eq!(entries[0].label, vec![1, 2]);
    assert_eq!((entries[0].node_label, entries[0].orbit, entries[0].abundance), (0, 1, 5));
}
