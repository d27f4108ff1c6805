//! The enumeration of the connected subgraphs of a given size, root by root.
use crate::bitgraph::{adjacency_of, BitGraph};
use crate::counts::{capped, Counts};
use crate::graph::DiGraph;
use crate::groups::Groups;
use crate::model::{lemma_root_ok, rooted, state_ok, subgraphs, subgraphs_below, extend};
use crate::ngraph::{fits, setwords_needed, NautyGraph};
use crate::pattern::is_pattern;
use crate::result::{EnumResult, EsuError, GroupResult};
use crate::search::{
    advanced, lemma_advanced_concat, lemma_advanced_none, ready, same_buffer,
};
use vstd::prelude::*;

verus! {

pub struct Esu {
    pub motif_size: usize,
    pub current: Vec<usize>,
    pub graph: BitGraph,
    pub ngraph: NautyGraph,
    /// How often each dense adjacency has been met.
    pub counts: Counts,
    /// How often each node has been met in each position.
    pub groups: Groups,
    pub total: usize,
    pub is_directed: bool,
    pub identify_groups: bool,
}

impl Esu {
    /// The parts fit together and the graph buffer is clean.
    pub open spec fn wf(&self) -> bool {
        &&& ready(
            &self.graph,
            self.motif_size,
            true,
            &self.ngraph,
            &self.counts,
            &self.groups,
            &self.current,
        )
        &&& self.graph.is_directed == self.is_directed
        &&& self.motif_size <= i32::MAX
    }

    /// Whether `other` is the same enumeration on the same graph, whatever
    /// has been met since.
    pub open spec fn same_task(&self, other: &Self) -> bool {
        &&& self.graph == other.graph
        &&& self.motif_size == other.motif_size
        &&& self.is_directed == other.is_directed
    }

    /// Whether `self` is `before` after the subgraphs `subs` have been met
    /// and taken in, positions included where `identify_groups` says so.
    pub open spec fn took_in(
        &self,
        before: &Self,
        identify_groups: bool,
        subs: Seq<Seq<usize>>,
    ) -> bool {
        &&& self.wf()
        &&& self.same_task(before)
        &&& advanced(
            before.graph@,
            identify_groups,
            &before.counts,
            &before.groups,
            before.total,
            &self.counts,
            &self.groups,
            self.total,
            subs,
        )
    }

    /// An enumeration of the subgraphs of `motif_size` vertices of `graph`
    /// that has not met any subgraph yet.
    pub fn new(motif_size: usize, graph: &DiGraph, is_directed: bool) -> (r: Self)
        requires
            motif_size >= 1,
            fits(motif_size as int),
        ensures
            r.wf(),
            r.motif_size == motif_size,
            r.is_directed == is_directed,
            !r.identify_groups,
            r.graph@ == adjacency_of(*graph, is_directed),
            r.total == 0,
            r.counts.keys@.len() == 0,
            r.counts.positive(),
            forall|key: Seq<u64>| r.counts.count(key) == 0,
            forall|v: int, key: Seq<u64>|
                0 <= v < r.groups.tables@.len() ==> (#[trigger] r.groups.tables@[v].count(key)) == 0,
            forall|v: int|
                0 <= v < r.groups.tables@.len() ==> (#[trigger] r.groups.tables@[v]).keys@.len()
                    == 0,
    {
        let graph = BitGraph::from_graph(graph, is_directed);
        let mut current: Vec<usize> = Vec::with_capacity(motif_size);
        let mut i: usize = 0;
        while i < motif_size
            invariant
                i <= motif_size,
                current@.len() == i,
            decreases motif_size - i,
        {
            current.push(0);
            i += 1;
        }
        let ngraph = NautyGraph::new(motif_size, is_directed);
        let groups = Groups::new(graph.n);
        Self {
            motif_size,
            current,
            graph,
            ngraph,
            counts: Counts::new(),
            groups,
            total: 0,
            is_directed,
            identify_groups: false,
        }
    }

    /// Visits every connected subgraph of `motif_size` vertices, root by
    /// root, and counts each under its dense adjacency.
    pub fn enumerate(&mut self)
        requires
            old(self).wf(),
        ensures
            final(self).identify_groups == old(self).identify_groups,
            final(self).took_in(
                old(self),
                old(self).identify_groups,
                subgraphs(old(self).graph@, old(self).motif_size as nat),
            ),
    {
        let n = self.graph.n;
        let mut ext: Vec<usize> = Vec::with_capacity(n);
        let mut j: usize = 0;
        while j < n
            invariant
                j <= n,
                ext@.len() == j,
            decreases n - j,
        {
            ext.push(0);
            j += 1;
        }
        let ghost g = self.graph@;
        let ghost k = self.motif_size as nat;
        let ghost identify = self.identify_groups;
        proof {
            lemma_advanced_none(g, identify, &self.counts, &self.groups, self.total);
        }
        let mut i: usize = 0;
        while i < n
            invariant
                i <= n,
                n == self.graph.n,
                ext@.len() == n,
                g == self.graph@,
                k == self.motif_size,
                identify == self.identify_groups,
                self.took_in(old(self), identify, subgraphs_below(g, k, i as nat)),
            decreases n - i,
        {
            proof {
                lemma_root_ok(g, i);
                assert(self.current@.take(0).push(i) =~= seq![i]);
                assert(ext@.take(0) =~= Seq::<usize>::empty());
            }
            let ghost mid = *self;
            self.go(i, 0, 0, &ext);
            i += 1;
            proof {
                lemma_advanced_concat(
                    g,
                    identify,
                    &old(self).counts,
                    &old(self).groups,
                    old(self).total,
                    &mid.counts,
                    &mid.groups,
                    mid.total,
                    &self.counts,
                    &self.groups,
                    self.total,
                    subgraphs_below(g, k, (i - 1) as nat),
                    rooted(g, k, (i - 1) as usize),
                );
            }
        }
    }

    /// Visits every connected subgraph like `enumerate`, and counts for every
    /// node the positions that it takes.
    pub fn identify_groups(&mut self)
        requires
            old(self).wf(),
        ensures
            final(self).identify_groups,
            final(self).took_in(
                old(self),
                true,
                subgraphs(old(self).graph@, old(self).motif_size as nat),
            ),
    {
        self.identify_groups = true;
        self.enumerate();
    }

    /// Writes into the graph buffer the adjacency of the vertices of
    /// `current`.
    pub fn build_nauty(&mut self)
        requires
            old(self).wf(),
            forall|i: int|
                0 <= i < old(self).current@.len() ==> old(self).current@[i] < old(self).graph.n,
        ensures
            final(self).same_task(old(self)),
            final(self).current == old(self).current,
            final(self).counts == old(self).counts,
            final(self).groups == old(self).groups,
            final(self).total == old(self).total,
            final(self).identify_groups == old(self).identify_groups,
            same_buffer(&old(self).ngraph, &final(self).ngraph),
            is_pattern(final(self).ngraph.graph@, old(self).graph@, old(self).current@),
    {
        crate::search::build_nauty(&self.graph, &self.current, &mut self.ngraph);
    }

    /// Tests every ordered pair of `current` for an arc.
    pub fn build_nauty_dir(&mut self)
        requires
            old(self).wf(),
            forall|i: int|
                0 <= i < old(self).current@.len() ==> old(self).current@[i] < old(self).graph.n,
        ensures
            final(self).same_task(old(self)),
            final(self).current == old(self).current,
            final(self).counts == old(self).counts,
            final(self).groups == old(self).groups,
            final(self).total == old(self).total,
            final(self).identify_groups == old(self).identify_groups,
            same_buffer(&old(self).ngraph, &final(self).ngraph),
            is_pattern(final(self).ngraph.graph@, old(self).graph@, old(self).current@),
    {
        crate::search::build_nauty_dir(&self.graph, &self.current, &mut self.ngraph);
    }

    /// Tests every unordered pair of `current` for an edge and enters it in
    /// both directions.
    pub fn build_nauty_undir(&mut self)
        requires
            old(self).wf(),
            !old(self).is_directed,
            forall|i: int|
                0 <= i < old(self).current@.len() ==> old(self).current@[i] < old(self).graph.n,
        ensures
            final(self).same_task(old(self)),
            final(self).current == old(self).current,
            final(self).counts == old(self).counts,
            final(self).groups == old(self).groups,
            final(self).total == old(self).total,
            final(self).identify_groups == old(self).identify_groups,
            same_buffer(&old(self).ngraph, &final(self).ngraph),
            is_pattern(final(self).ngraph.graph@, old(self).graph@, old(self).current@),
    {
        crate::search::build_nauty_undir(&self.graph, &self.current, &mut self.ngraph);
    }

    /// The main function for the enumeration.
    ///
    /// This function is called recursively to enumerate all subgraphs of the
    /// given size.
    ///
    /// # Arguments
    /// * `n` - The current node.
    /// * `size` - The current size of the subgraph.
    /// * `next` - The number of nodes of `ext` that may extend the subgraph.
    /// * `ext` - The extension of the subgraph.
    pub fn go(&mut self, n: usize, size: usize, next: usize, ext: &Vec<usize>)
        requires
            old(self).wf(),
            size < old(self).motif_size,
            ext@.len() == old(self).graph.n,
            next <= ext@.len(),
            state_ok(
                old(self).graph@,
                old(self).current@.take(size as int).push(n),
                ext@.take(next as int),
            ),
        ensures
            final(self).identify_groups == old(self).identify_groups,
            final(self).current@.take(size as int) == old(self).current@.take(size as int),
            final(self).took_in(
                old(self),
                old(self).identify_groups,
                extend(
                    old(self).graph@,
                    old(self).motif_size as nat,
                    old(self).current@.take(size as int).push(n),
                    ext@.take(next as int),
                ),
            ),
    {
        crate::search::go(
            &self.graph,
            self.motif_size,
            self.identify_groups,
            n,
            size,
            next,
            ext,
            &mut self.ngraph,
            &mut self.counts,
            &mut self.groups,
            &mut self.current,
            &mut self.total,
        );
    }

    /// The number of subgraphs met so far.
    pub fn n_total(&self) -> (r: usize)
        ensures
            r == self.total,
    {
        self.total
    }

    /// The number of dense adjacencies met so far.
    pub fn n_unique(&self) -> (r: usize)
        ensures
            r == self.counts.keys@.len(),
    {
        self.counts.len()
    }

    /// The counts as they stand: the subgraphs met so far, each under its
    /// dense adjacency.
    pub fn result(self) -> (r: EnumResult)
        ensures
            r.canon_counts == self.counts,
            r.num_subgraphs == self.total,
    {
        EnumResult::new(self.counts, self.total)
    }

    /// The positions as they stand, with the counts that they belong to.
    pub fn group_results(self) -> (r: GroupResult)
        ensures
            r.groups == self.groups,
            r.counts == self.counts,
            r.num_total_subgraphs == self.total,
            r.num_unique_subgraphs == self.counts.keys@.len(),
    {
        let unique = self.counts.len();
        GroupResult::new(self.groups, self.counts, self.total, unique)
    }
}

/// Whether `motif_size` is a size that subgraphs can be enumerated for.
pub fn check_motif_size(motif_size: usize) -> (r: Result<(), EsuError>)
    ensures
        motif_size < 2 ==> r == Err::<(), EsuError>(EsuError::MotifTooSmall),
        motif_size >= 2 && !fits(motif_size as int) ==> r == Err::<(), EsuError>(
            EsuError::MotifTooLarge,
        ),
        motif_size >= 2 && fits(motif_size as int) ==> r.is_ok(),
{
    if motif_size < 2 {
        return Err(EsuError::MotifTooSmall);
    }
    let m = setwords_needed(motif_size);
    if motif_size > 0x7fff_ffff || m > usize::MAX / motif_size {
        proof {
            if motif_size <= 0x7fff_ffff {
                assert(motif_size * m > usize::MAX) by (nonlinear_arith)
                    requires
                        m > usize::MAX / motif_size,
                        motif_size >= 2,
                ;
            }
        }
        return Err(EsuError::MotifTooLarge);
    }
    proof {
        assert(motif_size * m <= usize::MAX) by (nonlinear_arith)
            requires
                m <= usize::MAX / motif_size,
                motif_size >= 2,
        ;
    }
    Ok(())
}

/// Counts the connected subgraphs of `motif_size` vertices of `graph`, each
/// under its dense adjacency. With `is_directed` the arcs of `graph` keep
/// their direction; without it each counts both ways.
pub fn enumerate_subgraphs(graph: &DiGraph, motif_size: usize, is_directed: bool) -> (r: Result<
    EnumResult,
    EsuError,
>)
    ensures
        motif_size < 2 ==> r == Err::<EnumResult, EsuError>(EsuError::MotifTooSmall),
        motif_size >= 2 && !fits(motif_size as int) ==> r == Err::<EnumResult, EsuError>(
            EsuError::MotifTooLarge,
        ),
        motif_size >= 2 && fits(motif_size as int) ==> r.is_ok() && r.unwrap().counts_patterns_of(
            adjacency_of(*graph, is_directed),
            motif_size as nat,
        ),
{
    match check_motif_size(motif_size) {
        Err(e) => Err(e),
        Ok(()) => {
            let mut esu = Esu::new(motif_size, graph, is_directed);
            proof {
                assert(crate::counts::views(esu.counts.keys@) =~= Seq::<Seq<u64>>::empty());
            }
            esu.enumerate();
            Ok(esu.result())
        },
    }
}

/// Counts the connected subgraphs of `motif_size` vertices of `graph` like
/// `enumerate_subgraphs`, and for every node the positions that it takes in
/// them.
pub fn group_subgraphs(graph: &DiGraph, motif_size: usize, is_directed: bool) -> (r: Result<
    GroupResult,
    EsuError,
>)
    ensures
        motif_size < 2 ==> r == Err::<GroupResult, EsuError>(EsuError::MotifTooSmall),
        motif_size >= 2 && !fits(motif_size as int) ==> r == Err::<GroupResult, EsuError>(
            EsuError::MotifTooLarge,
        ),
        motif_size >= 2 && fits(motif_size as int) ==> r.is_ok() && r.unwrap().positions_of(
            adjacency_of(*graph, is_directed),
            motif_size as nat,
        ),
{
    match check_motif_size(motif_size) {
        Err(e) => Err(e),
        Ok(()) => {
            let mut esu = Esu::new(motif_size, graph, is_directed);
            proof {
                assert(crate::counts::views(esu.counts.keys@) =~= Seq::<Seq<u64>>::empty());
                assert forall|v: int| 0 <= v < esu.groups.tables@.len() implies crate::counts::views(
                    (#[trigger] esu.groups.tables@[v]).keys@,
                ) == Seq::<Seq<u64>>::empty() by {
                    assert(crate::counts::views(esu.groups.tables@[v].keys@) =~= Seq::<
                        Seq<u64>,
                    >::empty());
                }
            }
            let ghost before = esu;
            esu.identify_groups();
            proof {
                let g = before.graph@;
                let subs = subgraphs(g, motif_size as nat);
                assert forall|v: int| 0 <= v < g.n implies crate::counts::views(
                    (#[trigger] esu.groups.tables@[v]).keys@,
                ) == crate::counts::first_seen(
                    Seq::empty(),
                    crate::search::group_keys(g, subs, v),
                ) by {
                    assert(before.groups.tables@[v].keys@.len() == 0);
                    assert(crate::counts::views(before.groups.tables@[v].keys@) =~= Seq::<
                        Seq<u64>,
                    >::empty());
                    assert(esu.groups.tables@.len() == before.groups.tables@.len());
                    assert(crate::counts::views(esu.groups.tables@[v].keys@)
                        == crate::counts::first_seen(
                        crate::counts::views(before.groups.tables@[v].keys@),
                        crate::search::group_keys(g, subs, v),
                    ));
                }
            }
            Ok(esu.group_results())
        },
    }
}

} // verus!
