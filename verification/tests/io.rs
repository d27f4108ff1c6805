use memoesu::bitgraph::BitGraph;
use memoesu::counts::Counts;
use memoesu::graph::DiGraph;
use memoesu::io::{
    canon_code, collapse_edges, graph_to_flat_adj, load_numeric_graph_from_buffer, order_by_count,
    parse_edge_list, parse_number, write_counts_to_buffer, write_graph_to_buffer, FormatGraph,
    ParseError,
};
use memoesu::result::EsuError;

const EXAMPLE: &str = "1\t2\n2\t3\n3\t1\n4\t1\n1\t5\n6\t2\n2\t7\n8\t3\n3\t9\n";

fn load(text: &str, include_loops: bool) -> Result<DiGraph, ParseError> {
    load_numeric_graph_from_buffer(&text.as_bytes().to_vec(), include_loops)
}

#[test]
fn read_graph_directed() {
    let graph = load(EXAMPLE, false).unwrap();
    assert_eq!(graph.node_count(), 9);
    assert_eq!(graph.edge_count(), 9);
    assert!(graph.contains_edge(0.into(), 1.into()));
    assert!(graph.contains_edge(1.into(), 2.into()));
    assert!(graph.contains_edge(2.into(), 0.into()));
    assert!(graph.contains_edge(3.into(), 0.into()));
    assert!(graph.contains_edge(0.into(), 4.into()));
    assert!(graph.contains_edge(5.into(), 1.into()));
    assert!(graph.contains_edge(1.into(), 6.into()));
    assert!(graph.contains_edge(7.into(), 2.into()));
    assert!(graph.contains_edge(2.into(), 8.into()));
}

#[test]
fn read_graph_undirected() {
    let graph = load(EXAMPLE, false).unwrap();
    assert_eq!(graph.node_count(), 9);
    assert_eq!(graph.edge_count(), 9);
    let both = BitGraph::from_graph(&graph, false);
    let contains_edge = |a: usize, b: usize| both.is_connected_directed(a, b);
    assert!(contains_edge(0, 1));
    assert!(contains_edge(1, 0));
    assert!(contains_edge(1, 2));
    assert!(contains_edge(2, 1));
    assert!(contains_edge(2, 0));
    assert!(contains_edge(0, 2));
    assert!(contains_edge(3, 0));
    assert!(contains_edge(0, 3));
    assert!(contains_edge(0, 4));
    assert!(contains_edge(4, 0));
    assert!(contains_edge(5, 1));
    assert!(contains_edge(1, 5));
    assert!(contains_edge(1, 6));
    assert!(contains_edge(6, 1));
    assert!(contains_edge(7, 2));
    assert!(contains_edge(2, 7));
    assert!(contains_edge(2, 8));
    assert!(contains_edge(8, 2));
}

#[test]
fn read_zero_index() {
    let internal = "0\t1\n1\t2\n2\t0\n";
    let graph = load(internal, false);
    assert!(graph.is_err());
    assert_eq!(graph.err(), Some(ParseError::ZeroIndex));
}

#[test]
fn read_one_index() {
    let internal = "1\t2\n2\t3\n3\t1\n";
    let graph = load(internal, false);
    assert!(graph.is_ok());
}

#[test]
fn read_with_loops() {
    // 1 -> 2
    // 2 -> 3
    // 3 -> 1
    // 1 -> 1
    let internal = "1\t2\n2\t3\n3\t1\n1\t1";
    let graph = load(internal, true).unwrap();
    assert_eq!(graph.node_count(), 3);
    assert_eq!(graph.edge_count(), 4);
    assert!(graph.contains_edge(0.into(), 0.into()));
}

#[test]
fn read_without_loops() {
    // 1 -> 2
    // 2 -> 3
    // 3 -> 1
    // 1 -> 1
    let internal = "1\t2\n2\t3\n3\t1\n1\t1";
    let graph = load(internal, false).unwrap();
    assert_eq!(graph.node_count(), 3);
    assert_eq!(graph.edge_count(), 3);
    assert!(!graph.contains_edge(0.into(), 0.into()));
}

fn edges(text: &str, include_loops: bool) -> Result<Vec<(u32, u32)>, ParseError> {
    parse_edge_list(&text.as_bytes().to_vec(), include_loops)
}

#[test]
fn edges_come_in_the_order_of_the_lines() {
    assert_eq!(edges("3 1\n1 2\n", false), Ok(vec![(2, 0), (0, 1)]));
    assert_eq!(edges("", false), Ok(vec![]));
    assert_eq!(edges("7 9", false), Ok(vec![(6, 8)]));
}

#[test]
fn white_space_of_any_kind_parts_the_vertices() {
    assert_eq!(edges("  1 \t 2  \r\n\t3    4\n", false), Ok(vec![(0, 1), (2, 3)]));
    assert_eq!(edges("1\x0b2\n3\x0c4\n", false), Ok(vec![(0, 1), (2, 3)]));
}

#[test]
fn words_after_the_second_are_not_read() {
    assert_eq!(edges("1 2 0.5 weight\n", false), Ok(vec![(0, 1)]));
}

#[test]
fn a_plus_sign_and_leading_zeros_are_read() {
    assert_eq!(edges("+1 002\n", false), Ok(vec![(0, 1)]));
}

#[test]
fn a_line_with_less_than_two_words_is_truncated() {
    assert_eq!(edges("1 2\n3\n", false), Err(ParseError::Truncated));
    assert_eq!(edges("1 2\n\n3 4\n", false), Err(ParseError::Truncated));
    assert_eq!(edges("   \n", false), Err(ParseError::Truncated));
}

#[test]
fn a_word_that_is_no_number_is_refused() {
    assert_eq!(edges("a b\n", false), Err(ParseError::NonNumeric));
    assert_eq!(edges("1 2x\n", false), Err(ParseError::NonNumeric));
    assert_eq!(edges("-1 2\n", false), Err(ParseError::NonNumeric));
    assert_eq!(edges("+ 2\n", false), Err(ParseError::NonNumeric));
    assert_eq!(edges("1.5 2\n", false), Err(ParseError::NonNumeric));
    assert_eq!(edges("x\n", false), Err(ParseError::NonNumeric));
}

#[test]
fn a_number_beyond_32_bits_is_refused() {
    assert_eq!(edges("4294967295 1\n", false), Ok(vec![(4294967294, 0)]));
    assert_eq!(edges("4294967296 1\n", false), Err(ParseError::NonNumeric));
    assert_eq!(edges("99999999999999999999999 1\n", false), Err(ParseError::NonNumeric));
}

#[test]
fn the_first_bad_line_decides() {
    assert_eq!(edges("1 2\n0 1\nx y\n", false), Err(ParseError::ZeroIndex));
    assert_eq!(edges("1 2\nx y\n0 1\n", false), Err(ParseError::NonNumeric));
    assert_eq!(edges("x\n", false), Err(ParseError::NonNumeric));
    assert_eq!(edges("0\n", false), Err(ParseError::Truncated));
}

#[test]
fn loops_are_kept_only_when_asked_for() {
    assert_eq!(edges("1 1\n1 2\n2 2\n", false), Ok(vec![(0, 1)]));
    assert_eq!(edges("1 1\n1 2\n2 2\n", true), Ok(vec![(0, 0), (0, 1), (1, 1)]));
}

#[test]
fn numbers_are_read_digit_by_digit() {
    let text = b"x+120y".to_vec();
    assert_eq!(parse_number(&text, 1, 5), Some(120));
    assert_eq!(parse_number(&text, 2, 5), Some(120));
    assert_eq!(parse_number(&text, 2, 2), None);
    assert_eq!(parse_number(&text, 1, 2), None);
    assert_eq!(parse_number(&text, 0, 3), None);
    assert_eq!(parse_number(&text, 4, 6), None);
    assert_eq!(parse_number(&text, 4, 5), Some(0));
}

#[test]
fn a_graph_is_written_as_it_is_read() {
    let graph = load(EXAMPLE, false).unwrap();
    let text = write_graph_to_buffer(&graph);
    assert_eq!(String::from_utf8(text).unwrap(), EXAMPLE);
    let none: [(u32, u32); 0] = [];
    assert_eq!(write_graph_to_buffer(&DiGraph::from_edges(&none)), Vec::<u8>::new());
    let far: [(u32, u32); 1] = [(99, 1234)];
    assert_eq!(write_graph_to_buffer(&DiGraph::from_edges(&far)), b"100\t1235\n".to_vec());
}

#[test]
fn the_flat_adjacency_takes_as_many_bits_as_there_are_words() {
    let words = vec![0x4000_0000_0000_0000u64, 0xA000_0000_0000_0000, 0];
    assert_eq!(graph_to_flat_adj(&words, 3), vec![0, 1, 0, 1, 0, 1, 0, 0, 0]);
    assert_eq!(graph_to_flat_adj(&vec![], 0), Vec::<usize>::new());
    assert_eq!(graph_to_flat_adj(&vec![u64::MAX], usize::MAX), vec![1]);
}

#[test]
fn codes_are_those_of_graph6() {
    // 1 -> 0 and 2 -> 0
    let star = vec![0u64, 0x8000_0000_0000_0000, 0x8000_0000_0000_0000];
    assert_eq!(canon_code(&star, 3, true), Some(b"&BC_".to_vec()));
    // 0 - 1
    let edge = vec![0x4000_0000_0000_0000u64, 0x8000_0000_0000_0000];
    assert_eq!(canon_code(&edge, 2, false), Some(b"A_".to_vec()));
    assert_eq!(canon_code(&edge, 2, true), Some(b"&AW".to_vec()));
    let arc = vec![0u64, 0x8000_0000_0000_0000];
    assert_eq!(canon_code(&arc, 2, true), Some(b"&AG".to_vec()));
    assert_eq!(canon_code(&edge, 3, true), None);
    assert_eq!(canon_code(&vec![], 0, true), None);
    assert_eq!(canon_code(&vec![0; 63], 63, true), None);
}

#[test]
fn counts_are_written_least_first() {
    let mut counts = Counts::new();
    let edge = vec![0x4000_0000_0000_0000u64, 0x8000_0000_0000_0000];
    let arc = vec![0u64, 0x8000_0000_0000_0000];
    let other = vec![0x4000_0000_0000_0000u64, 0];
    counts.add(&edge, 12);
    counts.add(&arc, 3);
    counts.add(&other, 12);
    let text = write_counts_to_buffer(&counts, 2, true).unwrap();
    assert_eq!(String::from_utf8(text).unwrap(), "&AG\t3\n&AW\t12\n&AO\t12\n");
    assert_eq!(write_counts_to_buffer(&counts, 3, true).err(), Some(EsuError::LabelMismatch));
    assert_eq!(write_counts_to_buffer(&Counts::new(), 3, true), Ok(vec![]));
}

#[test]
fn equal_counts_keep_their_order() {
    assert_eq!(order_by_count(&vec![5, 1, 5, 0, 1]), vec![3, 1, 4, 0, 2]);
    assert_eq!(order_by_count(&vec![]), Vec::<usize>::new());
    assert_eq!(order_by_count(&vec![7]), vec![0]);
    assert_eq!(order_by_count(&vec![usize::MAX, 0]), vec![1, 0]);
}

#[test]
fn named_nodes_are_numbered_as_they_come() {
    let text = b"gene_b gene_a\ngene_a gene_c\ngene_b gene_a\ngene_c gene_c\n".to_vec();
    let read = FormatGraph::from_buffer(&text, true).unwrap();
    assert_eq!(read.node_count(), 3);
    assert_eq!(read.edge_count(), 2);
    assert_eq!(read.loops_removed(), 1);
    assert_eq!(String::from_utf8(read.write_graph()).unwrap(), "1\t2\n2\t3\n");
    assert_eq!(
        String::from_utf8(read.write_node_dict()).unwrap(),
        "gene_b\t1\ngene_a\t2\ngene_c\t3\n"
    );
    let kept = FormatGraph::from_buffer(&text, false).unwrap();
    assert_eq!(kept.node_count(), 3);
    assert_eq!(kept.edge_count(), 3);
    assert_eq!(kept.loops_removed(), 0);
    assert_eq!(String::from_utf8(kept.write_graph()).unwrap(), "1\t2\n2\t3\n3\t3\n");
}

#[test]
fn a_named_line_needs_two_names() {
    assert_eq!(
        FormatGraph::from_buffer(&b"a b\nc\n".to_vec(), false).err(),
        Some(ParseError::Truncated)
    );
    let empty = FormatGraph::from_buffer(&Vec::new(), false).unwrap();
    assert_eq!(empty.node_count(), 0);
    assert_eq!(empty.edge_count(), 0);
    assert_eq!(empty.write_node_dict(), Vec::<u8>::new());
}

#[test]
fn a_named_graph_can_be_put_together() {
    let edges: [(u32, u32); 1] = [(0, 1)];
    let graph = FormatGraph::new(DiGraph::from_edges(&edges), vec![b"x".to_vec(), b"y".to_vec()], 4);
    assert_eq!(graph.node_count(), 2);
    assert_eq!(graph.edge_count(), 1);
    assert_eq!(graph.loops_removed(), 4);
    assert_eq!(graph.write_node_dict(), b"x\t1\ny\t2\n".to_vec());
}

fn ends(graph: &DiGraph) -> Vec<(usize, usize)> {
    graph
        .edge_indices()
        .map(|e| graph.edge_endpoints(e).unwrap())
        .map(|(a, b)| (a.index(), b.index()))
        .collect()
}

#[test]
fn parallel_edges_collapse_to_one() {
    let graph = load("1 2\n1 2\n", false).unwrap();
    assert_eq!(graph.node_count(), 2);
    assert_eq!(graph.edge_count(), 1);
    assert_eq!(ends(&graph), vec![(0, 1)]);
}

#[test]
fn an_edge_stands_where_it_first_came() {
    let graph = load("1 2\n3 4\n1 2\n2 1\n3 4\n5 1\n1\t2\n", false).unwrap();
    assert_eq!(graph.node_count(), 5);
    assert_eq!(ends(&graph), vec![(0, 1), (2, 3), (1, 0), (4, 0)]);
}

#[test]
fn a_loop_that_comes_again_collapses_too() {
    let graph = load("2 2\n1 2\n2 2\n", true).unwrap();
    assert_eq!(ends(&graph), vec![(1, 1), (0, 1)]);
    let graph = load("2 2\n1 2\n2 2\n", false).unwrap();
    assert_eq!(ends(&graph), vec![(0, 1)]);
}

#[test]
fn the_lines_of_a_list_are_read_one_by_one() {
    // the edges as the lines say them, before parallel edges collapse
    let edges = parse_edge_list(&"1 2\n1 2\n3 1\n".as_bytes().to_vec(), false).unwrap();
    assert_eq!(edges, vec![(0, 1), (0, 1), (2, 0)]);
    assert_eq!(collapse_edges(&edges), vec![(0, 1), (2, 0)]);
    assert_eq!(collapse_edges(&Vec::new()), Vec::<(u32, u32)>::new());
    assert_eq!(
        collapse_edges(&vec![(3, 3), (0, 1), (3, 3), (1, 0), (0, 1), (3, 3)]),
        vec![(3, 3), (0, 1), (1, 0)]
    );
}

#[test]
fn a_list_with_repeated_lines_is_switched_as_a_simple_graph() {
    let text = "1 2\n2 3\n3 1\n4 1\n1 5\n6 2\n2 7\n8 3\n3 9\n1 2\n3 9\n4 1\n";
    let graph = load(text, false).unwrap();
    assert_eq!(graph.edge_count(), 9);
    let switched = memoesu::switching::switching(&graph, 10, 3);
    let mut seen = ends(&switched);
    assert!(seen.iter().all(|arc| arc.0 != arc.1));
    seen.sort();
    seen.dedup();
    assert_eq!(seen.len(), 9);
}
