use memoesu::graph::DiGraph;
use memoesu::switching::{
    build_map, is_invalid_switch, num_operations, perform_switch, pick_distinct, sample_edges,
    switch_step, switching, switching_within, would_duplicate, would_loop,
};
use petgraph::graph::NodeIndex;
use petgraph::Direction::{Incoming, Outgoing};
use rand_chacha::rand_core::SeedableRng;
use rand_chacha::ChaChaRng;

fn example_graph() -> DiGraph {
    let edges: [(u32, u32); 9] =
        [(0, 1), (1, 2), (2, 0), (3, 0), (0, 4), (5, 1), (1, 6), (7, 2), (2, 8)];
    DiGraph::from_edges(&edges)
}

#[test]
fn test_sample_edges() {
    let mut rng = ChaChaRng::from_seed([0; 32]);
    let num_edges = 10;
    let mut budget = u64::MAX;
    let (idx, jdx) = sample_edges(&mut rng, num_edges, &mut budget).unwrap();
    assert!(idx < num_edges);
    assert!(jdx < num_edges);
    assert_ne!(idx, jdx);
}

#[test]
fn sampling_gives_up_when_the_budget_is_spent() {
    let mut rng = ChaChaRng::from_seed([0; 32]);
    let mut budget = 1000;
    assert_eq!(sample_edges(&mut rng, 1, &mut budget), None);
    assert_eq!(budget, 0);
}

#[test]
fn test_node_map() {
    let graph = example_graph();
    let node_map = build_map(&graph);
    let targets =
        |x: usize| (0..graph.node_count()).filter(|&y| node_map.contains_edge(x, y)).count();
    let sources = (0..graph.node_count()).filter(|&x| targets(x) > 0).count();
    assert_eq!(sources, 6);
    assert_eq!(targets(0), 2);
    assert_eq!(targets(1), 2);
    assert_eq!(targets(2), 2);
    assert_eq!(targets(3), 1);
    assert_eq!(targets(5), 1);
    assert_eq!(targets(7), 1);
    assert!(node_map.contains_edge(0, 1));
    assert!(node_map.contains_edge(0, 4));
    assert!(!node_map.contains_edge(0, 2));
}

#[test]
fn node_map_follows_what_is_added_and_removed() {
    let graph = example_graph();
    let mut node_map = build_map(&graph);
    node_map.remove_edge(0, 1);
    assert!(!node_map.contains_edge(0, 1));
    assert!(node_map.contains_edge(0, 4));
    node_map.add_edge(8, 3);
    assert!(node_map.contains_edge(8, 3));
    node_map.remove_edge(6, 6);
    assert!(!node_map.contains_edge(6, 6));
}

#[test]
fn test_invalid_switch() {
    let graph = example_graph();
    let node_map = build_map(&graph);
    assert!(is_invalid_switch(&node_map, 0, 1, 2, 0));
}

#[test]
fn a_switch_of_distant_arcs_is_valid() {
    let graph = example_graph();
    let node_map = build_map(&graph);
    assert!(!is_invalid_switch(&node_map, 3, 0, 5, 1));
}

#[test]
fn test_would_duplicate() {
    let graph = example_graph();
    let node_map = build_map(&graph);

    // Check for x1 already connected to y2.
    assert!(would_duplicate(&node_map, 0, 1, 3, 1));

    // Check for y1 already connected to x2.
    assert!(would_duplicate(&node_map, 3, 1, 0, 1));
}

#[test]
fn test_would_loop() {
    // Check for x1 == y2.
    assert!(would_loop(0, 1, 1, 0));

    // Check for y1 == x2.
    assert!(would_loop(3, 1, 1, 3));
}

#[test]
fn arcs_with_one_head_are_not_switched() {
    assert!(would_loop(0, 2, 1, 2));
    assert!(!would_loop(0, 1, 2, 3));
}

fn out_degrees(graph: &DiGraph) -> Vec<usize> {
    graph.node_indices().map(|n| graph.neighbors_directed(n, Outgoing).count()).collect()
}

fn in_degrees(graph: &DiGraph) -> Vec<usize> {
    graph.node_indices().map(|n| graph.neighbors_directed(n, Incoming).count()).collect()
}

#[test]
fn test_switching() {
    let graph = example_graph();
    let q = 100;
    let seed = rand::random();
    let random_graph = switching(&graph, q, seed);

    assert_eq!(graph.node_count(), random_graph.node_count());
    assert_eq!(graph.edge_count(), random_graph.edge_count());
    for n in graph.node_indices() {
        assert_eq!(
            graph.neighbors_directed(n, Outgoing).count(),
            random_graph.neighbors_directed(n, Outgoing).count()
        )
    }
}

#[test]
fn switching_pins_the_degrees_to_the_vertices() {
    let edges: [(u32, u32); 9] =
        [(0, 1), (0, 2), (1, 2), (3, 0), (0, 4), (5, 1), (1, 6), (7, 2), (2, 8)];
    let graph = DiGraph::from_edges(&edges);
    for seed in [0usize, 1, 2, 42, 12345] {
        let random_graph = switching(&graph, 100, seed);
        assert_eq!(random_graph.node_count(), 9);
        assert_eq!(random_graph.edge_count(), 9);
        assert_eq!(out_degrees(&random_graph), vec![3, 2, 1, 1, 0, 1, 0, 1, 0]);
        assert_eq!(out_degrees(&random_graph), out_degrees(&graph));
        assert_eq!(in_degrees(&random_graph), in_degrees(&graph));
        for e in random_graph.edge_indices() {
            let (a, b) = random_graph.edge_endpoints(e).unwrap();
            assert_ne!(a, b);
        }
    }
}

#[test]
fn switching_keeps_the_degrees_of_the_example() {
    let graph = example_graph();
    for seed in [0usize, 3, 99, 2024, usize::MAX] {
        let random_graph = switching(&graph, 100, seed);
        assert_eq!(random_graph.node_count(), 9);
        assert_eq!(random_graph.edge_count(), 9);
        assert_eq!(out_degrees(&random_graph), vec![2, 2, 2, 1, 0, 1, 0, 1, 0]);
        assert_eq!(in_degrees(&random_graph), in_degrees(&graph));
    }
}

#[test]
fn switching_is_settled_by_the_seed() {
    let graph = example_graph();
    let first = switching(&graph, 10, 7);
    let second = switching(&graph, 10, 7);
    let ends = |g: &DiGraph| -> Vec<(usize, usize)> {
        g.edge_indices()
            .map(|e| g.edge_endpoints(e).unwrap())
            .map(|(a, b)| (a.index(), b.index()))
            .collect()
    };
    assert_eq!(ends(&first), ends(&second));
    assert_ne!(ends(&first), ends(&graph));
}

#[test]
fn switching_leaves_small_graphs_alone() {
    let none: [(u32, u32); 0] = [];
    let empty = DiGraph::from_edges(&none);
    assert_eq!(switching(&empty, 3, 1).edge_count(), 0);
    let one: [(u32, u32); 1] = [(0, 1)];
    let single = DiGraph::from_edges(&one);
    let same = switching(&single, 0, 1);
    assert_eq!(same.edge_count(), 1);
    assert_eq!(same.edge_endpoints(0.into()), Some((NodeIndex::new(0), NodeIndex::new(1))));
}

#[test]
fn one_switch_swaps_the_heads() {
    let mut graph = example_graph();
    let mut node_map = build_map(&graph);
    // edge 3 is 3 -> 0, edge 5 is 5 -> 1
    perform_switch(&mut graph, &mut node_map, 3, 5, 3, 0, 5, 1);
    assert_eq!(graph.edge_count(), 9);
    assert!(graph.contains_edge(3.into(), 1.into()));
    assert!(graph.contains_edge(5.into(), 0.into()));
    assert!(!graph.contains_edge(3.into(), 0.into()));
    assert!(!graph.contains_edge(5.into(), 1.into()));
    assert!(node_map.contains_edge(3, 1));
    assert!(node_map.contains_edge(5, 0));
    assert!(!node_map.contains_edge(3, 0));
    assert!(!node_map.contains_edge(5, 1));
}

fn arcs(graph: &DiGraph) -> Vec<(usize, usize)> {
    (0..graph.edge_count())
        .map(|e| graph.edge_endpoints((e as u32).into()).unwrap())
        .map(|(a, b)| (a.index(), b.index()))
        .collect()
}

#[test]
fn one_switch_leaves_the_arcs_in_their_new_order() {
    let mut graph = example_graph();
    let mut node_map = build_map(&graph);
    perform_switch(&mut graph, &mut node_map, 3, 5, 3, 0, 5, 1);
    // the later arc leaves first and the last arc takes its place, then the
    // earlier one; the two new arcs come last
    assert_eq!(
        arcs(&graph),
        vec![(0, 1), (1, 2), (2, 0), (7, 2), (0, 4), (2, 8), (1, 6), (3, 1), (5, 0)]
    );
}

#[test]
fn a_step_switches_two_arcs_that_may_be_switched() {
    let mut graph = example_graph();
    let mut node_map = build_map(&graph);
    assert!(switch_step(&mut graph, &mut node_map, 3, 5));
    assert_eq!(
        arcs(&graph),
        vec![(0, 1), (1, 2), (2, 0), (7, 2), (0, 4), (2, 8), (1, 6), (3, 1), (5, 0)]
    );
    assert!(node_map.contains_edge(3, 1));
    assert!(node_map.contains_edge(5, 0));
    assert!(!node_map.contains_edge(3, 0));
    assert!(!node_map.contains_edge(5, 1));
    assert_eq!(out_degrees(&graph), out_degrees(&example_graph()));
    assert_eq!(in_degrees(&graph), in_degrees(&example_graph()));
}

#[test]
fn a_step_takes_the_pair_in_either_order() {
    let mut graph = example_graph();
    let mut node_map = build_map(&graph);
    assert!(switch_step(&mut graph, &mut node_map, 5, 3));
    assert_eq!(
        arcs(&graph),
        vec![(0, 1), (1, 2), (2, 0), (7, 2), (0, 4), (2, 8), (1, 6), (5, 0), (3, 1)]
    );
}

#[test]
fn a_step_that_would_make_a_loop_changes_nothing() {
    let mut graph = example_graph();
    let mut node_map = build_map(&graph);
    // 0 -> 1 and 1 -> 2 would give 0 -> 2 and 1 -> 1
    assert!(!switch_step(&mut graph, &mut node_map, 0, 1));
    assert_eq!(arcs(&graph), arcs(&example_graph()));
    assert!(node_map.contains_edge(0, 1));
    assert!(node_map.contains_edge(1, 2));
    assert!(!node_map.contains_edge(0, 2));
    assert!(!node_map.contains_edge(1, 1));
}

#[test]
fn a_step_that_would_repeat_an_arc_changes_nothing() {
    let mut graph = example_graph();
    let mut node_map = build_map(&graph);
    // 0 -> 4 and 5 -> 1 would give 0 -> 1, which is there, and 5 -> 4
    assert!(!switch_step(&mut graph, &mut node_map, 4, 5));
    assert_eq!(arcs(&graph), arcs(&example_graph()));
    assert!(node_map.contains_edge(0, 4));
    assert!(node_map.contains_edge(5, 1));
    assert!(!node_map.contains_edge(5, 4));
}

#[test]
fn a_pair_is_picked_where_the_draws_differ() {
    assert_eq!(pick_distinct(1, 2), Some((1, 2)));
    assert_eq!(pick_distinct(2, 1), Some((2, 1)));
    assert_eq!(pick_distinct(0, usize::MAX), Some((0, usize::MAX)));
    assert_eq!(pick_distinct(4, 4), None);
    assert_eq!(pick_distinct(0, 0), None);
}

#[test]
fn the_switches_asked_for_are_the_arcs_times_q() {
    assert_eq!(num_operations(9, 3), 27);
    assert_eq!(num_operations(0, 5), 0);
    assert_eq!(num_operations(5, 0), 0);
    assert_eq!(num_operations(1, 1), 1);
    assert_eq!(num_operations(usize::MAX, 2), usize::MAX);
    assert_eq!(num_operations(usize::MAX, 1), usize::MAX);
    assert_eq!(num_operations(usize::MAX / 2 + 1, 2), usize::MAX);
}

#[test]
fn no_switch_is_made_where_none_is_asked_for() {
    let graph = example_graph();
    for seed in 0..5 {
        let same = switching(&graph, 0, seed);
        assert_eq!(same.node_count(), 9);
        assert_eq!(arcs(&same), arcs(&graph));
    }
}

#[test]
fn switching_moves_heads_and_keeps_tails() {
    let graph = example_graph();
    let switched = switching(&graph, 3, 42);
    let mut tails: Vec<usize> = arcs(&switched).iter().map(|a| a.0).collect();
    let mut heads: Vec<usize> = arcs(&switched).iter().map(|a| a.1).collect();
    tails.sort();
    heads.sort();
    assert_eq!(tails, vec![0, 0, 1, 1, 2, 2, 3, 5, 7]);
    assert_eq!(heads, vec![0, 0, 1, 1, 2, 2, 4, 6, 8]);
}

#[test]
fn the_map_keeps_the_other_targets_of_a_source() {
    let graph = example_graph();
    let mut node_map = build_map(&graph);
    // 0 -> 1 and 0 -> 4 stand under one source
    node_map.remove_edge(0, 4);
    assert!(node_map.contains_edge(0, 1));
    assert!(!node_map.contains_edge(0, 4));
    node_map.add_edge(0, 7);
    assert!(node_map.contains_edge(0, 1));
    assert!(node_map.contains_edge(0, 7));
    assert!(!node_map.contains_edge(7, 0));
    // taking out what is not there changes nothing
    node_map.remove_edge(0, 8);
    node_map.remove_edge(4, 0);
    assert!(node_map.contains_edge(0, 1));
    assert!(node_map.contains_edge(0, 7));
    assert!(!node_map.contains_edge(4, 0));
    // an arc put in twice is taken out once
    node_map.add_edge(4, 0);
    node_map.add_edge(4, 0);
    assert!(node_map.contains_edge(4, 0));
    node_map.remove_edge(4, 0);
    assert!(!node_map.contains_edge(4, 0));
}

#[test]
fn without_a_budget_nothing_is_switched() {
    let graph = example_graph();
    let mut budget: u64 = 0;
    let same = switching_within(&graph, 3, 42, &mut budget);
    assert_eq!(budget, 0);
    assert_eq!(arcs(&same), arcs(&graph));
}

#[test]
fn a_budget_that_suffices_is_not_spent() {
    let graph = example_graph();
    let mut budget: u64 = 1_000_000;
    let switched = switching_within(&graph, 3, 42, &mut budget);
    // all the switches were done: at least one pair was drawn for each
    assert!(budget > 0);
    assert!(budget <= 1_000_000 - 27);
    assert_eq!(arcs(&switched), arcs(&switching(&graph, 3, 42)));
    assert_eq!(out_degrees(&switched), out_degrees(&graph));
    assert_eq!(in_degrees(&switched), in_degrees(&graph));
}

#[test]
fn a_budget_of_one_draw_allows_one_switch_at_most() {
    let graph = example_graph();
    for seed in 0..20 {
        let mut budget: u64 = 1;
        let switched = switching_within(&graph, 3, seed, &mut budget);
        assert_eq!(budget, 0);
        let before = arcs(&graph);
        let after = arcs(&switched);
        let kept = after.iter().filter(|arc| before.contains(arc)).count();
        // no switch, or two arcs gone for two new ones
        assert!(kept == 9 || kept == 7);
        assert_eq!(out_degrees(&switched), out_degrees(&graph));
        assert_eq!(in_degrees(&switched), in_degrees(&graph));
    }
}

#[test]
fn a_graph_of_one_arc_spends_the_budget() {
    let one: [(u32, u32); 1] = [(0, 1)];
    let single = DiGraph::from_edges(&one);
    let mut budget: u64 = 500;
    let same = switching_within(&single, 3, 7, &mut budget);
    assert_eq!(budget, 0);
    assert_eq!(arcs(&same), vec![(0, 1)]);
}

#[test]
fn no_switch_is_asked_for_and_no_pair_is_drawn() {
    let graph = example_graph();
    let mut budget: u64 = 10;
    let same = switching_within(&graph, 0, 1, &mut budget);
    assert_eq!(budget, 10);
    assert_eq!(arcs(&same), arcs(&graph));
}
