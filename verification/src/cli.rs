//! What the command line asks for.
use vstd::prelude::*;

verus! {

#[derive(Debug)]
pub struct Cli {
    pub mode: Mode,
}

#[derive(Debug)]
#[allow(inconsistent_fields)]
pub enum Mode {
    /// Enumerate all subgraphs of a given size in a graph.
    Enumerate {
        /// File path to the input graph (white space separated edgelist)
        input: String,
        /// Output file path to write results to (default: stdout)
        output: Option<String>,
        /// Size of the subgraphs to find in the input graph
        subgraph_size: usize,
        /// Number of threads to use [default: 1]
        threads: Option<usize>,
        /// Include edges with loops (i.e. a node connects to itself) [default: false]
        include_loops: bool,
        /// Assume undirected graph (i.e. edges are bidirectional) [default: false]
        undirected: bool,
    },
    /// Enumerate all subgraphs of a given size and report for every node
    /// the positions that it takes in them.
    Groups {
        /// File path to the input graph (white space separated edgelist)
        input: String,
        /// Output file path to write results to (default: stdout)
        output: Option<String>,
        /// Size of the subgraphs to find in the input graph
        subgraph_size: usize,
        /// Include edges with loops (i.e. a node connects to itself) [default: false]
        include_loops: bool,
        /// Assume undirected graph (i.e. edges are bidirectional) [default: false]
        undirected: bool,
        /// Leave out the header line of the table [default: false]
        no_header: bool,
    },
    /// Formats an input graph into a usable format for `memoesu`
    Format {
        /// File path to the input graph (white space separated edgelist)
        input: String,
        /// Output file prefix to write graph and node dictionary with
        output: String,
        /// Filter out loops (i.e. a node connects to itself) [default: false]
        filter_loops: bool,
    },
    /// Creates a random graphs that preserves node degrees using
    /// the switch model. (Note that loops will be removed)
    Switch {
        /// File path to the input graph (white space separated edgelist)
        input: String,
        /// Output file path to write results to (default: stdout)
        output: Option<String>,
        /// Number of operations to perform (total = q * num_edges)
        q: usize,
        /// Seed for the random number generator
        seed: Option<usize>,
    },
    /// Performs enumeration on a graph and then performs a random
    /// switching on the graph to create random graphs that preserves
    /// node degrees using the switch model. (Note that loops will be removed)
    /// The resulting random graphs are then used to perform enrichment
    /// analysis on the subgraphs.
    Enrich {
        /// File path to the input graph (white space separated edgelist)
        input: String,
        /// Output file path to write results to (default: stdout)
        output: Option<String>,
        /// Size of the subgraphs to find in the input graph
        subgraph_size: usize,
        /// Number of random graphs to create
        random_graphs: usize,
        /// Number of edge switching operations to perform for each random graph
        /// (total = q * num_edges)
        q: usize,
        /// Seed for the random number generator
        seed: Option<usize>,
        /// Number of threads to use [default: 1]
        threads: Option<usize>,
    },
}

} // verus!
