//! The counting side of motif enrichment: a graph is compared with random
//! graphs that give every vertex the same degrees.
use crate::bitgraph::adjacency_of;
use crate::counts::Counts;
use crate::esu::{check_motif_size, enumerate_subgraphs};
use crate::graph::{arcs_of, order_of, DiGraph};
use crate::ngraph::fits;
use crate::random::{draw, seeded};
use crate::result::{EnumResult, EsuError};
use crate::switching::{same_degrees, switching};
use vstd::prelude::*;

verus! {

/// A graph's subgraph counts beside those of its random counterparts.
pub struct Ensemble {
    /// The counts of the graph itself.
    pub observed: EnumResult,
    /// The random graphs, in the order in which they were made.
    pub graphs: Vec<DiGraph>,
    /// The counts of each random graph, at the same index.
    pub randoms: Vec<EnumResult>,
}

impl Ensemble {
    /// Whether this is an ensemble for `graph` of `count` random graphs: each
    /// has the vertices and the degrees of `graph`, and all the counts are
    /// those of the subgraphs of `k` vertices.
    pub open spec fn of(&self, graph: DiGraph, k: nat, count: nat) -> bool {
        &&& self.observed.counts_patterns_of(adjacency_of(graph, true), k)
        &&& self.graphs@.len() == count
        &&& self.randoms@.len() == count
        &&& forall|i: int|
            0 <= i < count ==> order_of(#[trigger] self.graphs@[i]) == order_of(graph)
                && same_degrees(arcs_of(self.graphs@[i]), arcs_of(graph))
        &&& forall|i: int|
            0 <= i < count ==> (#[trigger] self.randoms@[i]).counts_patterns_of(
                adjacency_of(self.graphs@[i], true),
                k,
            )
    }
}

/// Counts the subgraphs of `subgraph_size` vertices of the directed `graph`
/// and of `random_graphs` random graphs. Each random graph comes from
/// `graph` by `q` switches per arc, from a seed of its own that a generator
/// seeded with `seed` hands out.
pub fn submodule_enrichment(
    graph: &DiGraph,
    subgraph_size: usize,
    random_graphs: usize,
    q: usize,
    seed: usize,
) -> (r: Result<Ensemble, EsuError>)
    ensures
        subgraph_size < 2 ==> r == Err::<Ensemble, EsuError>(EsuError::MotifTooSmall),
        subgraph_size >= 2 && !fits(subgraph_size as int) ==> r == Err::<Ensemble, EsuError>(
            EsuError::MotifTooLarge,
        ),
        subgraph_size >= 2 && fits(subgraph_size as int) ==> r.is_ok() && r.unwrap().of(
            *graph,
            subgraph_size as nat,
            random_graphs as nat,
        ),
{
    let observed = match enumerate_subgraphs(graph, subgraph_size, true) {
        Err(e) => {
            return Err(e);
        },
        Ok(found) => found,
    };
    let mut rng = seeded(seed as u64);
    let mut graphs: Vec<DiGraph> = Vec::with_capacity(random_graphs);
    let mut randoms: Vec<EnumResult> = Vec::with_capacity(random_graphs);
    let mut idx: usize = 0;
    while idx < random_graphs
        invariant
            idx <= random_graphs,
            subgraph_size >= 2,
            fits(subgraph_size as int),
            graphs@.len() == idx,
            randoms@.len() == idx,
            forall|i: int|
                0 <= i < idx ==> order_of(#[trigger] graphs@[i]) == order_of(*graph)
                    && same_degrees(arcs_of(graphs@[i]), arcs_of(*graph)),
            forall|i: int|
                0 <= i < idx ==> (#[trigger] randoms@[i]).counts_patterns_of(
                    adjacency_of(graphs@[i], true),
                    subgraph_size as nat,
                ),
        decreases random_graphs - idx,
    {
        let random_seed = draw(&mut rng);
        let random_graph = switching(graph, q, random_seed);
        let random_results = match enumerate_subgraphs(&random_graph, subgraph_size, true) {
            Err(e) => {
                return Err(e);
            },
            Ok(found) => found,
        };
        graphs.push(random_graph);
        randoms.push(random_results);
        idx += 1;
    }
    Ok(Ensemble { observed, graphs, randoms })
}

/// For each key of `observed`, its count in each of `randoms`, zero where
/// that table lacks the key.
pub fn null_counts(observed: &Counts, randoms: &Vec<EnumResult>) -> (table: Vec<Vec<usize>>)
    requires
        observed.wf(),
        forall|r: int| 0 <= r < randoms@.len() ==> (#[trigger] randoms@[r]).canon_counts.wf(),
    ensures
        table@.len() == observed.keys@.len(),
        forall|i: int| 0 <= i < table@.len() ==> (#[trigger] table@[i])@.len() == randoms@.len(),
        forall|i: int, r: int|
            0 <= i < table@.len() && 0 <= r < randoms@.len() ==> (#[trigger] table@[i]@[r])
                == randoms@[r].canon_counts.count(observed.keys@[i]@),
{
    let mut table: Vec<Vec<usize>> = Vec::with_capacity(observed.len());
    let mut i: usize = 0;
    while i < observed.keys.len()
        invariant
            i <= observed.keys@.len(),
            observed.wf(),
            forall|r: int| 0 <= r < randoms@.len() ==> (#[trigger] randoms@[r]).canon_counts.wf(),
            table@.len() == i,
            forall|a: int| 0 <= a < i ==> (#[trigger] table@[a])@.len() == randoms@.len(),
            forall|a: int, r: int|
                0 <= a < i && 0 <= r < randoms@.len() ==> (#[trigger] table@[a]@[r])
                    == randoms@[r].canon_counts.count(observed.keys@[a]@),
        decreases observed.keys@.len() - i,
    {
        let mut row: Vec<usize> = Vec::with_capacity(randoms.len());
        let mut r: usize = 0;
        while r < randoms.len()
            invariant
                r <= randoms@.len(),
                i < observed.keys@.len(),
                forall|t: int|
                    0 <= t < randoms@.len() ==> (#[trigger] randoms@[t]).canon_counts.wf(),
                row@.len() == r,
                forall|t: int|
                    0 <= t < r ==> (#[trigger] row@[t]) == randoms@[t].canon_counts.count(
                        observed.keys@[i as int]@,
                    ),
            decreases randoms@.len() - r,
        {
            let found = randoms[r].canon_counts.get(&observed.keys[i]);
            match found {
                Some(v) => row.push(v),
                None => row.push(0),
            }
            r += 1;
        }
        table.push(row);
        i += 1;
    }
    table
}

} // verus!
