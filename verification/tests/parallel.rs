use memoesu::esu::enumerate_subgraphs;
use memoesu::graph::DiGraph;
use memoesu::parallel_esu::{merge_counts, merge_parts, parallel_enumerate_subgraphs, ParEsu};
use memoesu::counts::Counts;
use memoesu::result::{EnumResult, EsuError};

fn example_graph() -> DiGraph {
    let edges: [(u32, u32); 9] =
        [(0, 1), (1, 2), (2, 0), (3, 0), (0, 4), (5, 1), (1, 6), (7, 2), (2, 8)];
    DiGraph::from_edges(&edges)
}

fn permutations(k: usize) -> Vec<Vec<usize>> {
    if k == 0 {
        return vec![vec![]];
    }
    let mut all = Vec::new();
    for shorter in permutations(k - 1) {
        for at in 0..k {
            let mut longer = shorter.clone();
            longer.insert(at, k - 1);
            all.push(longer);
        }
    }
    all
}

fn canonical(words: &Vec<u64>, k: usize) -> Vec<u64> {
    let bit = |i: usize, j: usize| (words[i] >> (63 - j)) & 1 == 1;
    let mut best: Vec<u64> = Vec::new();
    for order in permutations(k) {
        let mut rows = vec![0u64; k];
        for i in 0..k {
            for j in 0..k {
                if bit(order[i], order[j]) {
                    rows[i] |= 1u64 << (63 - j);
                }
            }
        }
        if best.is_empty() || rows > best {
            best = rows;
        }
    }
    best
}

fn classes(found: &EnumResult, k: usize) -> EnumResult {
    let labels: Vec<Vec<u64>> =
        found.counts().keys.iter().map(|words| canonical(words, k)).collect();
    found.relabel(&labels).unwrap()
}

#[test]
fn parallel_esu_example_s3() {
    let graph = example_graph();
    let result = classes(&parallel_enumerate_subgraphs(&graph, 3, true).unwrap(), 3);
    assert_eq!(result.total_subgraphs(), 16);
    assert_eq!(result.unique_subgraphs(), 4);
    for &count in result.counts().vals.iter() {
        let cond = count == 1 || count == 3 || count == 9;
        assert!(cond);
    }
}

#[test]
fn parallel_esu_example_s4() {
    let graph = example_graph();
    let result = classes(&parallel_enumerate_subgraphs(&graph, 4, true).unwrap(), 4);
    assert_eq!(result.total_subgraphs(), 24);
    assert_eq!(result.unique_subgraphs(), 8);
    for &count in result.counts().vals.iter() {
        let cond = count == 3;
        assert!(cond);
    }
}

#[test]
fn new_par_esu_example_s3() {
    let graph = example_graph();
    let result = classes(&parallel_enumerate_subgraphs(&graph, 3, true).unwrap(), 3);
    assert_eq!(result.total_subgraphs(), 16);
    assert_eq!(result.unique_subgraphs(), 4);
}

#[test]
fn new_par_esu_example_s4() {
    let graph = example_graph();
    let result = classes(&parallel_enumerate_subgraphs(&graph, 4, true).unwrap(), 4);
    assert_eq!(result.total_subgraphs(), 24);
    assert_eq!(result.unique_subgraphs(), 8);
}

fn sorted(result: &EnumResult) -> Vec<(Vec<u64>, usize)> {
    let counts = result.counts();
    let mut entries: Vec<(Vec<u64>, usize)> =
        counts.keys.iter().cloned().zip(counts.vals.iter().cloned()).collect();
    entries.sort();
    entries
}

#[test]
fn threads_count_what_one_thread_counts() {
    let graph = example_graph();
    for directed in [true, false] {
        for k in 2..=5 {
            let serial = enumerate_subgraphs(&graph, k, directed).unwrap();
            let parallel = parallel_enumerate_subgraphs(&graph, k, directed).unwrap();
            assert_eq!(serial.total_subgraphs(), parallel.total_subgraphs());
            assert_eq!(sorted(&serial), sorted(&parallel));
            assert_eq!(sorted(&classes(&serial, k)), sorted(&classes(&parallel, k)));
        }
    }
}

#[test]
fn the_parts_of_the_roots_add_up() {
    let graph = example_graph();
    let esu = ParEsu::new(3, &graph, true);
    let mut total = 0;
    let mut counts = Counts::new();
    for root in 0..9 {
        let part = esu.enumerate_root(root);
        total += part.total_subgraphs();
        merge_counts(&mut counts, part.counts());
    }
    assert_eq!(total, 16);
    let mut whole = ParEsu::new(3, &graph, true);
    whole.enumerate();
    let result = whole.result();
    assert_eq!(result.total_subgraphs(), 16);
    assert_eq!(sorted(&result), sorted(&EnumResult::new(counts, total)));
    // every subgraph holds a vertex of the triangle, and is rooted at its least
    assert_eq!(esu.enumerate_root(0).total_subgraphs(), 10);
    assert_eq!(esu.enumerate_root(1).total_subgraphs(), 5);
    assert_eq!(esu.enumerate_root(2).total_subgraphs(), 1);
    assert_eq!(esu.enumerate_root(3).total_subgraphs(), 0);
}

#[test]
fn merging_adds_count_to_count() {
    let mut into = Counts::new();
    into.add(&vec![1], 2);
    into.add(&vec![2], 5);
    let mut from = Counts::new();
    from.add(&vec![2], 1);
    from.add(&vec![3], 4);
    merge_counts(&mut into, &from);
    assert_eq!(into.get(&vec![1]), Some(2));
    assert_eq!(into.get(&vec![2]), Some(6));
    assert_eq!(into.get(&vec![3]), Some(4));
    assert_eq!(into.len(), 3);
}

#[test]
fn the_threads_refuse_a_size_below_two() {
    let graph = example_graph();
    assert_eq!(
        parallel_enumerate_subgraphs(&graph, 1, true).err(),
        Some(EsuError::MotifTooSmall)
    );
}

#[test]
fn the_parts_are_merged_in_their_order() {
    let graph = example_graph();
    let esu = ParEsu::new(3, &graph, true);
    let parts: Vec<EnumResult> = (0..9).map(|root| esu.enumerate_root(root)).collect();
    let merged = merge_parts(&parts);
    let mut whole = ParEsu::new(3, &graph, true);
    whole.enumerate();
    let result = whole.result();
    assert_eq!(merged.total_subgraphs(), 16);
    assert_eq!(merged.total_subgraphs(), result.total_subgraphs());
    assert_eq!(merged.counts().keys, result.counts().keys);
    assert_eq!(merged.counts().vals, result.counts().vals);
}

#[test]
fn merged_parts_add_count_to_count() {
    let mut first = Counts::new();
    first.add(&vec![1], 2);
    first.add(&vec![2], 5);
    let mut second = Counts::new();
    second.add(&vec![3], 4);
    second.add(&vec![2], 1);
    let parts = vec![EnumResult::new(first, 7), EnumResult::new(second, 5)];
    let merged = merge_parts(&parts);
    assert_eq!(merged.total_subgraphs(), 12);
    assert_eq!(merged.counts().keys, vec![vec![1], vec![2], vec![3]]);
    assert_eq!(merged.counts().vals, vec![2, 6, 4]);
}

#[test]
fn no_parts_merge_to_nothing() {
    let merged = merge_parts(&Vec::new());
    assert_eq!(merged.total_subgraphs(), 0);
    assert_eq!(merged.counts().len(), 0);
}

#[test]
fn merged_totals_stop_at_the_largest_number() {
    let parts = vec![
        EnumResult::new(Counts::new(), usize::MAX),
        EnumResult::new(Counts::new(), 1),
    ];
    assert_eq!(merge_parts(&parts).total_subgraphs(), usize::MAX);
}
