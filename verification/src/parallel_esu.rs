//! The enumeration with the roots handed out to the threads of `rayon`.
//!
//! Every root is searched with buffers of its own. The counts of the roots
//! are added up when all of them are done, in the order of the roots, so the
//! result is the one that the search of one root after the other gives.
use crate::bitgraph::{adjacency_of, Adjacency, BitGraph};
use crate::counts::{
    add_capped, capped, first_seen, key_among, lemma_first_seen_concat, lemma_first_seen_twice,
    views, Counts,
};
use crate::esu::check_motif_size;
use crate::graph::DiGraph;
use crate::groups::Groups;
use crate::model::{extend, lemma_root_ok, rooted, state_ok, subgraphs, subgraphs_below};
use crate::ngraph::{all_zero, fits, NautyGraph};
use crate::pattern::{is_pattern, lemma_tally_concat, patterns, tally};
use crate::result::{EnumResult, EsuError};
use crate::search::{advanced, ready, same_buffer};
use rayon::iter::{IntoParallelIterator, ParallelIterator};
use vstd::prelude::*;

verus! {

/// Whether `part` is the count of the subgraphs of `k` vertices of `g` that
/// are rooted at `root`, each under its dense adjacency.
pub open spec fn counts_root(part: &EnumResult, g: Adjacency, k: nat, root: usize) -> bool {
    &&& part.canon_counts.wf()
    &&& part.canon_counts.positive()
    &&& views(part.canon_counts.keys@) == first_seen(
        Seq::empty(),
        patterns(g, rooted(g, k, root)),
    )
    &&& part.num_subgraphs == capped(rooted(g, k, root).len() as int)
    &&& forall|key: Seq<u64>| #[trigger]
        part.canon_counts.count(key) == capped(tally(g, rooted(g, k, root), key) as int)
}

pub struct ParEsu {
    pub motif_size: usize,
    pub graph: BitGraph,
    pub counts: Counts,
    pub total: usize,
    pub is_directed: bool,
}

/// `rayon`'s `into_par_iter`, `map` and `collect` on the range of the roots:
/// the result of `enumerate_root` for every root, at the index of the root.
/// The roots are searched on the threads of the pool, in any order; an
/// indexed parallel iterator collects into a vector in the order of its
/// items.
#[verifier::external_body]
fn map_roots(esu: &ParEsu) -> (parts: Vec<EnumResult>)
    requires
        esu.wf(),
    ensures
        parts@.len() == esu.graph.n,
        forall|i: int|
            0 <= i < parts@.len() ==> counts_root(
                #[trigger] &parts@[i],
                esu.graph@,
                esu.motif_size as nat,
                i as usize,
            ),
{
    (0..esu.graph.n).into_par_iter().map(|i| esu.enumerate_root(i)).collect()
}

/// Adds every count of `from` to the count of the same key in `into`.
pub fn merge_counts(into: &mut Counts, from: &Counts)
    requires
        old(into).wf(),
        from.wf(),
    ensures
        final(into).wf(),
        old(into).positive() && from.positive() ==> final(into).positive(),
        views(final(into).keys@) == first_seen(views(old(into).keys@), views(from.keys@)),
        forall|key: Seq<u64>| #[trigger]
            final(into).count(key) == capped((old(into).count(key) + from.count(key)) as int),
{
    let mut i: usize = 0;
    proof {
        assert(views(from.keys@).take(0) =~= Seq::<Seq<u64>>::empty());
    }
    while i < from.keys.len()
        invariant
            i <= from.keys@.len(),
            from.wf(),
            into.wf(),
            old(into).positive() && from.positive() ==> into.positive(),
            views(into.keys@) == first_seen(views(old(into).keys@), views(from.keys@).take(i as int)),
            forall|key: Seq<u64>| #[trigger]
                into.count(key) == capped((old(into).count(key) + if key_among(from.keys@, i as int, key) {
                        from.count(key)
                    } else {
                        0
                    }) as int),
        decreases from.keys@.len() - i,
    {
        let ghost mid = *into;
        into.add(&from.keys[i], from.vals[i]);
        i += 1;
        proof {
            let here = from.keys@[i - 1]@;
            let all = views(from.keys@);
            assert(all.take(i as int) =~= all.take(i - 1) + seq![here]);
            lemma_first_seen_concat(views(old(into).keys@), all.take(i - 1), seq![here]);
            assert(from.contains(here));
            assert(from.index_of(here) == i - 1);
            assert(!key_among(from.keys@, i - 1, here)) by {
                if key_among(from.keys@, i - 1, here) {
                    let t = choose|t: int| 0 <= t < i - 1 && #[trigger] from.keys@[t]@ == here;
                    assert(from.keys@[t]@ != from.keys@[i - 1]@);
                }
            }
            assert forall|key: Seq<u64>| #[trigger]
                into.count(key) == capped((old(into).count(key) + if key_among(from.keys@, i as int, key) {
                        from.count(key)
                    } else {
                        0
                    }) as int) by {
                assert(mid.count(key) == capped((old(into).count(key) + if key_among(from.keys@, i - 1, key) {
                        from.count(key)
                    } else {
                        0
                    }) as int));
                if key == here {
                    assert(from.keys@[i - 1]@ == key);
                } else {
                    if key_among(from.keys@, i as int, key) {
                        let t = choose|t: int| 0 <= t < i && #[trigger] from.keys@[t]@ == key;
                        assert(key_among(from.keys@, i - 1, key));
                    }
                    if key_among(from.keys@, i - 1, key) {
                        let t = choose|t: int| 0 <= t < i - 1 && #[trigger] from.keys@[t]@ == key;
                        assert(from.keys@[t]@ == key);
                    }
                }
            }
        }
    }
    proof {
        assert(views(from.keys@).take(from.keys@.len() as int) =~= views(from.keys@));
        assert forall|key: Seq<u64>| #[trigger]
            into.count(key) == capped((old(into).count(key) + from.count(key)) as int) by {
            assert(into.count(key) == capped((old(into).count(key) + if key_among(
                    from.keys@,
                    from.keys@.len() as int,
                    key,
                ) {
                    from.count(key)
                } else {
                    0
                }) as int));
        }
    }
}

/// The totals of the first `upto` parts, added up.
pub open spec fn parts_total(parts: Seq<EnumResult>, upto: int) -> int
    decreases upto,
{
    if upto <= 0 {
        0
    } else {
        parts_total(parts, upto - 1) + parts[upto - 1].num_subgraphs
    }
}

/// The counts of `key` in the first `upto` parts, added up.
pub open spec fn parts_count(parts: Seq<EnumResult>, upto: int, key: Seq<u64>) -> int
    decreases upto,
{
    if upto <= 0 {
        0
    } else {
        parts_count(parts, upto - 1, key) + parts[upto - 1].canon_counts.count(key)
    }
}

/// The keys of the first `upto` parts, each where it first comes.
pub open spec fn parts_keys(parts: Seq<EnumResult>, upto: int) -> Seq<Seq<u64>>
    decreases upto,
{
    if upto <= 0 {
        Seq::empty()
    } else {
        first_seen(parts_keys(parts, upto - 1), views(parts[upto - 1].canon_counts.keys@))
    }
}

/// Whether every part counts nothing zero times.
pub open spec fn parts_positive(parts: Seq<EnumResult>) -> bool {
    forall|t: int| 0 <= t < parts.len() ==> (#[trigger] parts[t]).canon_counts.positive()
}

/// Whether `whole` is the parts added up: the total is the sum of their
/// totals, every key has the sum of its counts, and the keys stand in the
/// order in which the parts bring them. A sum beyond `usize::MAX` is held as
/// `usize::MAX`.
pub open spec fn merged(parts: Seq<EnumResult>, whole: &EnumResult) -> bool {
    &&& whole.canon_counts.wf()
    &&& parts_positive(parts) ==> whole.canon_counts.positive()
    &&& whole.num_subgraphs == capped(parts_total(parts, parts.len() as int))
    &&& views(whole.canon_counts.keys@) == parts_keys(parts, parts.len() as int)
    &&& forall|key: Seq<u64>| #[trigger]
        whole.canon_counts.count(key) == capped(parts_count(parts, parts.len() as int, key))
}

/// Sums are not negative.
pub proof fn lemma_parts_nonneg(parts: Seq<EnumResult>, upto: int, key: Seq<u64>)
    ensures
        parts_total(parts, upto) >= 0,
        parts_count(parts, upto, key) >= 0,
    decreases upto,
{
    if upto > 0 {
        lemma_parts_nonneg(parts, upto - 1, key);
    }
}

/// Adds up the counts that the roots gave, part by part in their order.
pub fn merge_parts(parts: &Vec<EnumResult>) -> (whole: EnumResult)
    requires
        forall|t: int| 0 <= t < parts@.len() ==> (#[trigger] parts@[t]).canon_counts.wf(),
    ensures
        merged(parts@, &whole),
{
    let mut counts = Counts::new();
    let mut total: usize = 0;
    let mut i: usize = 0;
    proof {
        assert(views(counts.keys@) =~= Seq::<Seq<u64>>::empty());
    }
    while i < parts.len()
        invariant
            i <= parts@.len(),
            forall|t: int| 0 <= t < parts@.len() ==> (#[trigger] parts@[t]).canon_counts.wf(),
            counts.wf(),
            parts_positive(parts@) ==> counts.positive(),
            views(counts.keys@) == parts_keys(parts@, i as int),
            total == capped(parts_total(parts@, i as int)),
            forall|key: Seq<u64>| #[trigger]
                counts.count(key) == capped(parts_count(parts@, i as int, key)),
        decreases parts@.len() - i,
    {
        let ghost mid = counts;
        merge_counts(&mut counts, &parts[i].canon_counts);
        total = add_capped(total, parts[i].num_subgraphs);
        i += 1;
        proof {
            lemma_parts_nonneg(parts@, i - 1, Seq::empty());
            assert forall|key: Seq<u64>| #[trigger]
                counts.count(key) == capped(parts_count(parts@, i as int, key)) by {
                lemma_parts_nonneg(parts@, i - 1, key);
                assert(mid.count(key) == capped(parts_count(parts@, i - 1, key)));
            }
            if parts_positive(parts@) {
                assert(parts@[i - 1].canon_counts.positive());
            }
        }
    }
    EnumResult::new(counts, total)
}

/// The lists that `lists` gives for the numbers below `upto`, one after the
/// other.
pub open spec fn joined(lists: spec_fn(int) -> Seq<Seq<usize>>, upto: int) -> Seq<Seq<usize>>
    decreases upto,
{
    if upto <= 0 {
        Seq::empty()
    } else {
        joined(lists, upto - 1) + lists(upto - 1)
    }
}

/// Parts that count lists of subgraphs add up to the count of the lists, one
/// after the other.
pub proof fn lemma_parts_tally(
    parts: Seq<EnumResult>,
    g: Adjacency,
    lists: spec_fn(int) -> Seq<Seq<usize>>,
    upto: int,
    key: Seq<u64>,
)
    requires
        0 <= upto <= parts.len(),
        forall|t: int| 0 <= t < parts.len() ==> (#[trigger] parts[t]).tallies(g, lists(t)),
    ensures
        capped(parts_total(parts, upto)) == capped(joined(lists, upto).len() as int),
        capped(parts_count(parts, upto, key)) == capped(tally(g, joined(lists, upto), key) as int),
        parts_keys(parts, upto) == first_seen(Seq::empty(), patterns(g, joined(lists, upto))),
    decreases upto,
{
    if upto > 0 {
        lemma_parts_tally(parts, g, lists, upto - 1, key);
        lemma_parts_nonneg(parts, upto - 1, key);
        let before = joined(lists, upto - 1);
        let here = lists(upto - 1);
        assert(parts[upto - 1].tallies(g, here));
        lemma_tally_concat(g, before, here, key);
        lemma_first_seen_twice(parts_keys(parts, upto - 1), patterns(g, here));
        lemma_first_seen_concat(Seq::empty(), patterns(g, before), patterns(g, here));
        assert(patterns(g, before) + patterns(g, here) =~= patterns(g, before + here));
    } else {
        assert(patterns(g, joined(lists, upto)) =~= Seq::<Seq<u64>>::empty());
    }
}

/// The sum of parts that count lists of subgraphs counts the lists, one
/// after the other.
pub proof fn theorem_merged_tallies(
    parts: Seq<EnumResult>,
    whole: &EnumResult,
    g: Adjacency,
    lists: spec_fn(int) -> Seq<Seq<usize>>,
)
    requires
        merged(parts, whole),
        forall|t: int| 0 <= t < parts.len() ==> (#[trigger] parts[t]).tallies(g, lists(t)),
    ensures
        whole.tallies(g, joined(lists, parts.len() as int)),
{
    let n = parts.len() as int;
    lemma_parts_tally(parts, g, lists, n, Seq::empty());
    assert forall|key: Seq<u64>| #[trigger]
        whole.canon_counts.count(key) == capped(tally(g, joined(lists, n), key) as int) by {
        lemma_parts_tally(parts, g, lists, n, key);
    }
    assert(parts_positive(parts)) by {
        assert forall|t: int| 0 <= t < parts.len() implies (#[trigger] parts[t]).canon_counts.positive() by {
            assert(parts[t].tallies(g, lists(t)));
        }
    }
}

/// The subgraphs of the roots below `upto`, root by root, are the subgraphs
/// below `upto`.
pub proof fn lemma_joined_roots(g: Adjacency, k: nat, upto: nat)
    requires
        upto <= usize::MAX,
    ensures
        joined(|t: int| rooted(g, k, t as usize), upto as int) == subgraphs_below(g, k, upto),
    decreases upto,
{
    if upto > 0 {
        lemma_joined_roots(g, k, (upto - 1) as nat);
    }
}

impl ParEsu {
    /// The graph is in order and the size is one that buffers can be made
    /// for.
    pub open spec fn wf(&self) -> bool {
        &&& self.graph.wf()
        &&& self.graph.is_directed == self.is_directed
        &&& self.motif_size >= 1
        &&& fits(self.motif_size as int)
        &&& self.counts.wf()
    }

    /// An enumeration of the subgraphs of `motif_size` vertices of `graph`
    /// that has not met any subgraph yet.
    pub fn new(motif_size: usize, graph: &DiGraph, is_directed: bool) -> (r: Self)
        requires
            motif_size >= 1,
            fits(motif_size as int),
        ensures
            r.wf(),
            r.motif_size == motif_size,
            r.is_directed == is_directed,
            r.graph@ == adjacency_of(*graph, is_directed),
            r.total == 0,
            forall|key: Seq<u64>| r.counts.count(key) == 0,
    {
        let graph = BitGraph::from_graph(graph, is_directed);
        let counts = Counts::new();
        let total: usize = 0;
        Self { motif_size, graph, counts, total, is_directed }
    }

    /// The count of the subgraphs rooted at `root`, made with buffers of its
    /// own.
    pub fn enumerate_root(&self, root: usize) -> (part: EnumResult)
        requires
            self.wf(),
            root < self.graph.n,
        ensures
            counts_root(&part, self.graph@, self.motif_size as nat, root),
    {
        let n = self.graph.n;
        let mut ext: Vec<usize> = Vec::with_capacity(n);
        let mut j: usize = 0;
        while j < n
            invariant
                j <= n,
                ext@.len() == j,
            decreases n - j,
        {
            ext.push(0);
            j += 1;
        }
        let mut ngraph = NautyGraph::new(self.motif_size, self.is_directed);
        let mut counts = Counts::new();
        let mut current: Vec<usize> = Vec::with_capacity(self.motif_size);
        let mut i: usize = 0;
        while i < self.motif_size
            invariant
                i <= self.motif_size,
                current@.len() == i,
            decreases self.motif_size - i,
        {
            current.push(0);
            i += 1;
        }
        let mut total: usize = 0;
        proof {
            assert(views(counts.keys@) =~= Seq::<Seq<u64>>::empty());
            lemma_root_ok(self.graph@, root);
            assert(current@.take(0).push(root) =~= seq![root]);
            assert(ext@.take(0) =~= Seq::<usize>::empty());
        }
        self.go(root, 0, 0, &ext, &mut ngraph, &mut counts, &mut current, &mut total);
        EnumResult::new(counts, total)
    }

    /// Searches every root on the threads of the pool and adds up what the
    /// roots give.
    pub fn enumerate(&mut self)
        requires
            old(self).wf(),
        ensures
            final(self).wf(),
            final(self).counts.positive(),
            views(final(self).counts.keys@) == first_seen(
                Seq::empty(),
                patterns(
                    old(self).graph@,
                    subgraphs(old(self).graph@, old(self).motif_size as nat),
                ),
            ),
            final(self).graph == old(self).graph,
            final(self).motif_size == old(self).motif_size,
            final(self).is_directed == old(self).is_directed,
            final(self).total == capped(
                subgraphs(old(self).graph@, old(self).motif_size as nat).len() as int,
            ),
            forall|key: Seq<u64>| #[trigger]
                final(self).counts.count(key) == capped(
                    tally(
                        old(self).graph@,
                        subgraphs(old(self).graph@, old(self).motif_size as nat),
                        key,
                    ) as int,
                ),
    {
        let parts = map_roots(self);
        let ghost g = self.graph@;
        let ghost k = self.motif_size as nat;
        proof {
            assert forall|t: int| 0 <= t < parts@.len() implies (
            #[trigger] parts@[t]).canon_counts.wf() by {
                assert(counts_root(&parts@[t], g, k, t as usize));
            }
        }
        let whole = merge_parts(&parts);
        proof {
            let lists = |t: int| rooted(g, k, t as usize);
            assert forall|t: int| 0 <= t < parts@.len() implies (#[trigger] parts@[t]).tallies(
                g,
                lists(t),
            ) by {
                assert(counts_root(&parts@[t], g, k, t as usize));
            }
            theorem_merged_tallies(parts@, &whole, g, lists);
            lemma_joined_roots(g, k, self.graph.n as nat);
        }
        let counts = whole.canon_counts;
        let total = whole.num_subgraphs;
        self.counts = counts;
        self.total = total;
    }

    /// Writes into the graph buffer the adjacency of the vertices of
    /// `current`.
    pub fn build_nauty(&self, current: &Vec<usize>, ngraph: &mut NautyGraph)
        requires
            self.graph.wf(),
            old(ngraph).wf(),
            old(ngraph).n == current@.len(),
            all_zero(old(ngraph).graph@),
            forall|i: int| 0 <= i < current@.len() ==> current@[i] < self.graph.n,
        ensures
            same_buffer(old(ngraph), final(ngraph)),
            is_pattern(final(ngraph).graph@, self.graph@, current@),
    {
        crate::search::build_nauty(&self.graph, current, ngraph);
    }

    /// The main function for the enumeration.
    ///
    /// This function is called recursively to enumerate all subgraphs of the
    /// given size.
    ///
    /// # Arguments
    /// * `n` - The current node.
    /// * `size` - The current size of the subgraph.
    /// * `next` - The number of nodes of `ext` that may extend the subgraph.
    /// * `ext` - The extension of the subgraph.
    pub fn go(
        &self,
        n: usize,
        size: usize,
        next: usize,
        ext: &Vec<usize>,
        ngraph: &mut NautyGraph,
        counts: &mut Counts,
        current: &mut Vec<usize>,
        total: &mut usize,
    )
        requires
            self.wf(),
            old(ngraph).wf(),
            old(ngraph).n == self.motif_size,
            old(ngraph).directed == self.is_directed,
            all_zero(old(ngraph).graph@),
            old(counts).wf(),
            old(current)@.len() == self.motif_size,
            size < self.motif_size,
            ext@.len() == self.graph.n,
            next <= ext@.len(),
            state_ok(self.graph@, old(current)@.take(size as int).push(n), ext@.take(next as int)),
        ensures
            same_buffer(old(ngraph), final(ngraph)),
            all_zero(final(ngraph).graph@),
            final(counts).wf(),
            old(counts).positive() ==> final(counts).positive(),
            views(final(counts).keys@) == first_seen(
                views(old(counts).keys@),
                patterns(
                    self.graph@,
                    extend(
                        self.graph@,
                        self.motif_size as nat,
                        old(current)@.take(size as int).push(n),
                        ext@.take(next as int),
                    ),
                ),
            ),
            final(current)@.len() == self.motif_size,
            final(current)@.take(size as int) == old(current)@.take(size as int),
            *final(total) == capped(
                *old(total) + extend(
                    self.graph@,
                    self.motif_size as nat,
                    old(current)@.take(size as int).push(n),
                    ext@.take(next as int),
                ).len(),
            ),
            forall|key: Seq<u64>| #[trigger]
                final(counts).count(key) == capped(
                    (old(counts).count(key) + tally(
                        self.graph@,
                        extend(
                            self.graph@,
                            self.motif_size as nat,
                            old(current)@.take(size as int).push(n),
                            ext@.take(next as int),
                        ),
                        key,
                    )) as int,
                ),
    {
        let mut groups = Groups::new(0);
        crate::search::go(
            &self.graph,
            self.motif_size,
            false,
            n,
            size,
            next,
            ext,
            ngraph,
            counts,
            &mut groups,
            current,
            total,
        );
    }

    /// The counts as they stand.
    pub fn result(self) -> (r: EnumResult)
        ensures
            r.canon_counts == self.counts,
            r.num_subgraphs == self.total,
    {
        EnumResult::new(self.counts, self.total)
    }
}

/// Counts the connected subgraphs of `motif_size` vertices of `graph` like
/// `enumerate_subgraphs`, with the roots searched on the threads of the
/// pool.
pub fn parallel_enumerate_subgraphs(graph: &DiGraph, motif_size: usize, is_directed: bool) -> (r:
    Result<EnumResult, EsuError>)
    ensures
        motif_size < 2 ==> r == Err::<EnumResult, EsuError>(EsuError::MotifTooSmall),
        motif_size >= 2 && !fits(motif_size as int) ==> r == Err::<EnumResult, EsuError>(
            EsuError::MotifTooLarge,
        ),
        motif_size >= 2 && fits(motif_size as int) ==> r.is_ok() && r.unwrap().counts_patterns_of(
            adjacency_of(*graph, is_directed),
            motif_size as nat,
        ),
{
    match check_motif_size(motif_size) {
        Err(e) => Err(e),
        Ok(()) => {
            let mut esu = ParEsu::new(motif_size, graph, is_directed);
            esu.enumerate();
            Ok(esu.result())
        },
    }
}

} // verus!
