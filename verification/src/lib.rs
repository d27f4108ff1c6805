//! Counting the connected subgraphs of a given size in a graph.
//!
//! The subgraphs are enumerated root by root, each under its least vertex,
//! and counted by their adjacency. `esu` and `parallel_esu` search by
//! recursion, `walker` walks step by step; `theorems` and `walk` say that
//! either way every connected set of vertices is met exactly once.
//! `switching` makes random graphs with the degrees of a graph, and
//! `enrichment` counts the subgraphs of a graph beside those of such random
//! graphs. The canonical labelling of the adjacencies is not done here: it
//! is handed in as labels, which `result` merges the counts under;
//! `classes` says what the keys then are.
pub mod bitgraph;
pub mod bitset;
pub mod classes;
pub mod cli;
pub mod counts;
pub mod enrichment;
pub mod esu;
pub mod graph;
pub mod groups;
pub mod io;
pub mod model;
pub mod multibitset;
pub mod ngraph;
pub mod parallel_esu;
pub mod pattern;
pub mod random;
pub mod result;
pub mod search;
pub mod subgraph;
pub mod sums;
pub mod switching;
pub mod theorems;
pub mod utils;
pub mod walk;
pub mod walker;
