//! The search for the connected subgraphs of a given size.
//!
//! The search grows a subgraph vertex by vertex from its root. It works on
//! buffers that its caller owns, so that one graph can be searched by
//! several callers at once, each with buffers of its own.
use crate::bitgraph::{Adjacency, BitGraph};
use crate::bitset::ones_of;
use crate::counts::{add_capped, capped, first_seen, lemma_first_seen_concat, views, Counts};
use crate::groups::{group_key, make_group_key, Groups};
use crate::model::{
    candidate_set, candidates, children, exclusive, extend, increasing, lemma_ascending_unique,
    lemma_candidate_is_new, lemma_child_ok, lemma_pigeonhole, lemma_wider_ok, lists, state_ok,
    wider_ok,
};
use crate::ngraph::{all_zero, dense_has, lemma_row_index, NautyGraph};
use crate::pattern::{
    is_pattern, lemma_pattern_is, lemma_tally_concat, pattern_of, patterns, tally,
};
use vstd::prelude::*;

verus! {

/// A copy of a list of vertices.
pub fn copy_indices(a: &Vec<usize>) -> (r: Vec<usize>)
    ensures
        r@ == a@,
{
    let mut r: Vec<usize> = Vec::with_capacity(a.len());
    let mut i: usize = 0;
    while i < a.len()
        invariant
            i <= a@.len(),
            r@ == a@.take(i as int),
        decreases a@.len() - i,
    {
        r.push(a[i]);
        i += 1;
        assert(r@ =~= a@.take(i as int));
    }
    assert(a@.take(a@.len() as int) =~= a@);
    r
}

/// A word of the zeroed buffer has no bit set.
pub proof fn lemma_zero_has_none(words: Seq<u64>, n: int, m: int, i: int, j: int)
    requires
        all_zero(words),
        words.len() == n * m,
        0 <= i < n,
        0 <= j < 64 * m,
    ensures
        !dense_has(words, m, i, j),
{
    lemma_row_index(n, m, i, j);
    let w = words[i * m + j / 64];
    let b = (j % 64) as u64;
    assert((0u64 & (0x8000_0000_0000_0000u64 >> b)) == 0) by (bit_vector);
}

/// How many of the first `upto` positions of the subgraph `sub` are held by
/// `node` and have the key `key`: the adjacency of the subgraph with the
/// position as vertex label and as orbit.
pub open spec fn hits(g: Adjacency, sub: Seq<usize>, upto: int, node: int, key: Seq<u64>) -> nat
    decreases upto,
{
    if upto <= 0 {
        0
    } else {
        hits(g, sub, upto - 1, node, key) + if sub[upto - 1] == node && group_key(
            pattern_of(g, sub),
            upto - 1,
            upto - 1,
        ) == key {
            1nat
        } else {
            0nat
        }
    }
}

/// The keys of the positions that `node` holds among the first `upto`
/// positions of the subgraph `sub`, in the order of the positions.
pub open spec fn hit_keys(g: Adjacency, sub: Seq<usize>, upto: int, node: int) -> Seq<Seq<u64>>
    decreases upto,
{
    if upto <= 0 {
        Seq::empty()
    } else if sub[upto - 1] == node {
        hit_keys(g, sub, upto - 1, node).push(group_key(pattern_of(g, sub), upto - 1, upto - 1))
    } else {
        hit_keys(g, sub, upto - 1, node)
    }
}

/// The keys of the positions that `node` holds in the subgraphs `subs`, in
/// the order of the subgraphs and of the positions.
pub open spec fn group_keys(g: Adjacency, subs: Seq<Seq<usize>>, node: int) -> Seq<Seq<u64>>
    decreases subs.len(),
{
    if subs.len() == 0 {
        Seq::empty()
    } else {
        group_keys(g, subs.drop_last(), node) + hit_keys(
            g,
            subs.last(),
            subs.last().len() as int,
            node,
        )
    }
}

/// The keys of the positions in two lists of subgraphs, one after the
/// other, are the keys of the one followed by the keys of the other.
pub proof fn lemma_group_keys_concat(
    g: Adjacency,
    a: Seq<Seq<usize>>,
    b: Seq<Seq<usize>>,
    node: int,
)
    ensures
        group_keys(g, a + b, node) == group_keys(g, a, node) + group_keys(g, b, node),
    decreases b.len(),
{
    if b.len() == 0 {
        assert(a + b =~= a);
        assert(group_keys(g, a, node) + Seq::<Seq<u64>>::empty() =~= group_keys(g, a, node));
    } else {
        assert((a + b).drop_last() =~= a + b.drop_last());
        lemma_group_keys_concat(g, a, b.drop_last(), node);
        let last = hit_keys(g, b.last(), b.last().len() as int, node);
        assert((group_keys(g, a, node) + group_keys(g, b.drop_last(), node)) + last
            =~= group_keys(g, a, node) + (group_keys(g, b.drop_last(), node) + last));
    }
}

/// How often `node` holds a position with the key `key` in the subgraphs
/// `subs`.
pub open spec fn group_tally(g: Adjacency, subs: Seq<Seq<usize>>, node: int, key: Seq<u64>) -> nat
    decreases subs.len(),
{
    if subs.len() == 0 {
        0
    } else {
        group_tally(g, subs.drop_last(), node, key) + hits(
            g,
            subs.last(),
            subs.last().len() as int,
            node,
            key,
        )
    }
}

/// Counting positions over two lists, one after the other, adds up.
pub proof fn lemma_group_tally_concat(
    g: Adjacency,
    a: Seq<Seq<usize>>,
    b: Seq<Seq<usize>>,
    node: int,
    key: Seq<u64>,
)
    ensures
        group_tally(g, a + b, node, key) == group_tally(g, a, node, key) + group_tally(
            g,
            b,
            node,
            key,
        ),
    decreases b.len(),
{
    if b.len() == 0 {
        assert(a + b =~= a);
    } else {
        assert((a + b).drop_last() =~= a + b.drop_last());
        lemma_group_tally_concat(g, a, b.drop_last(), node, key);
    }
}

/// Whether `after` is `before` with the subgraphs `subs` counted in, each
/// under its dense adjacency.
pub open spec fn counted(g: Adjacency, before: &Counts, after: &Counts, subs: Seq<Seq<usize>>) -> bool {
    &&& after.wf()
    &&& before.positive() ==> after.positive()
    &&& views(after.keys@) == first_seen(views(before.keys@), patterns(g, subs))
    &&& forall|key: Seq<u64>| #[trigger]
        after.count(key) == capped((before.count(key) + tally(g, subs, key)) as int)
}

/// Counting one list of subgraphs and then another is counting the two, one
/// after the other.
pub proof fn lemma_counted_concat(
    g: Adjacency,
    counts0: &Counts,
    counts1: &Counts,
    counts2: &Counts,
    first: Seq<Seq<usize>>,
    second: Seq<Seq<usize>>,
)
    requires
        counted(g, counts0, counts1, first),
        counted(g, counts1, counts2, second),
    ensures
        counted(g, counts0, counts2, first + second),
{
    lemma_first_seen_concat(views(counts0.keys@), patterns(g, first), patterns(g, second));
    assert(patterns(g, first) + patterns(g, second) =~= patterns(g, first + second));
    assert forall|key: Seq<u64>| #[trigger]
        counts2.count(key) == capped(
            (counts0.count(key) + tally(g, first + second, key)) as int,
        ) by {
        lemma_tally_concat(g, first, second, key);
        assert(counts1.count(key) == capped((counts0.count(key) + tally(g, first, key)) as int));
    }
}

/// Counting no subgraph changes nothing.
pub proof fn lemma_counted_none(g: Adjacency, counts: &Counts)
    requires
        counts.wf(),
    ensures
        counted(g, counts, counts, Seq::<Seq<usize>>::empty()),
{
    assert(patterns(g, Seq::<Seq<usize>>::empty()) =~= Seq::<Seq<u64>>::empty());
}

/// Counting one subgraph under its dense adjacency.
pub proof fn lemma_counted_one(g: Adjacency, before: &Counts, after: &Counts, sub: Seq<usize>)
    requires
        before.wf(),
        after.wf(),
        before.positive() ==> after.positive(),
        views(after.keys@) == first_seen(views(before.keys@), seq![pattern_of(g, sub)]),
        after.count(pattern_of(g, sub)) == capped((before.count(pattern_of(g, sub)) + 1) as int),
        forall|other: Seq<u64>|
            other != pattern_of(g, sub) ==> after.count(other) == before.count(other),
    ensures
        counted(g, before, after, seq![sub]),
{
    let found = seq![sub];
    assert(found.drop_last() =~= Seq::<Seq<usize>>::empty());
    assert(patterns(g, found) =~= seq![pattern_of(g, sub)]);
    assert forall|key: Seq<u64>| #[trigger]
        after.count(key) == capped((before.count(key) + tally(g, found, key)) as int) by {
        assert(tally(g, found.drop_last(), key) == 0);
    }
}

/// Whether `after` is `before` with the positions of the subgraphs `subs`
/// counted in, each in the table of the vertex that holds it.
pub open spec fn grouped(g: Adjacency, before: &Groups, after: &Groups, subs: Seq<Seq<usize>>) -> bool {
    &&& after.wf()
    &&& after.tables@.len() == before.tables@.len()
    &&& forall|v: int, key: Seq<u64>|
        0 <= v < after.tables@.len() ==> (#[trigger] after.tables@[v].count(key)) == capped(
            (before.tables@[v].count(key) + group_tally(g, subs, v, key)) as int,
        )
    &&& forall|v: int|
        0 <= v < after.tables@.len() ==> views((#[trigger] after.tables@[v]).keys@) == first_seen(
            views(before.tables@[v].keys@),
            group_keys(g, subs, v),
        )
}

/// Whether counts, positions and total moved from the first state to the
/// second by taking in the subgraphs `subs`. Positions are taken in only
/// where they are asked for.
pub open spec fn advanced(
    g: Adjacency,
    identify_groups: bool,
    counts0: &Counts,
    groups0: &Groups,
    total0: usize,
    counts1: &Counts,
    groups1: &Groups,
    total1: usize,
    subs: Seq<Seq<usize>>,
) -> bool {
    &&& counted(g, counts0, counts1, subs)
    &&& total1 == capped(total0 + subs.len())
    &&& identify_groups ==> grouped(g, groups0, groups1, subs)
    &&& !identify_groups ==> groups1 == groups0
}

/// Taking in no subgraph changes nothing.
pub proof fn lemma_advanced_none(
    g: Adjacency,
    identify_groups: bool,
    counts: &Counts,
    groups: &Groups,
    total: usize,
)
    requires
        counts.wf(),
        identify_groups ==> groups.wf(),
    ensures
        advanced(
            g,
            identify_groups,
            counts,
            groups,
            total,
            counts,
            groups,
            total,
            Seq::<Seq<usize>>::empty(),
        ),
{
    assert(patterns(g, Seq::<Seq<usize>>::empty()) =~= Seq::<Seq<u64>>::empty());
}

/// Taking in one list of subgraphs and then another is taking in the two,
/// one after the other.
pub proof fn lemma_advanced_concat(
    g: Adjacency,
    identify_groups: bool,
    counts0: &Counts,
    groups0: &Groups,
    total0: usize,
    counts1: &Counts,
    groups1: &Groups,
    total1: usize,
    counts2: &Counts,
    groups2: &Groups,
    total2: usize,
    first: Seq<Seq<usize>>,
    second: Seq<Seq<usize>>,
)
    requires
        advanced(g, identify_groups, counts0, groups0, total0, counts1, groups1, total1, first),
        advanced(g, identify_groups, counts1, groups1, total1, counts2, groups2, total2, second),
    ensures
        advanced(
            g,
            identify_groups,
            counts0,
            groups0,
            total0,
            counts2,
            groups2,
            total2,
            first + second,
        ),
{
    lemma_first_seen_concat(views(counts0.keys@), patterns(g, first), patterns(g, second));
    assert(patterns(g, first) + patterns(g, second) =~= patterns(g, first + second));
    assert forall|key: Seq<u64>| #[trigger]
        counts2.count(key) == capped(
            (counts0.count(key) + tally(g, first + second, key)) as int,
        ) by {
        lemma_tally_concat(g, first, second, key);
        assert(counts1.count(key) == capped((counts0.count(key) + tally(g, first, key)) as int));
    }
    if identify_groups {
        assert forall|v: int, key: Seq<u64>| 0 <= v < groups2.tables@.len() implies (
        #[trigger] groups2.tables@[v].count(key)) == capped(
            (groups0.tables@[v].count(key) + group_tally(g, first + second, v, key)) as int,
        ) by {
            lemma_group_tally_concat(g, first, second, v, key);
            assert(groups1.tables@[v].count(key) == capped(
                (groups0.tables@[v].count(key) + group_tally(g, first, v, key)) as int,
            ));
        }
        assert forall|v: int| 0 <= v < groups2.tables@.len() implies views(
            (#[trigger] groups2.tables@[v]).keys@,
        ) == first_seen(views(groups0.tables@[v].keys@), group_keys(g, first + second, v)) by {
            lemma_group_keys_concat(g, first, second, v);
            lemma_first_seen_concat(
                views(groups0.tables@[v].keys@),
                group_keys(g, first, v),
                group_keys(g, second, v),
            );
            assert(views(groups1.tables@[v].keys@) == first_seen(
                views(groups0.tables@[v].keys@),
                group_keys(g, first, v),
            ));
        }
    }
}

/// Whether the buffers are fit for a search of `graph` for subgraphs of
/// `motif_size` vertices: they have the right sizes and the graph buffer is
/// clean.
pub open spec fn ready(
    graph: &BitGraph,
    motif_size: usize,
    identify_groups: bool,
    ngraph: &NautyGraph,
    counts: &Counts,
    groups: &Groups,
    current: &Vec<usize>,
) -> bool {
    &&& graph.wf()
    &&& ngraph.wf()
    &&& ngraph.n == motif_size
    &&& all_zero(ngraph.graph@)
    &&& ngraph.directed == graph.is_directed
    &&& motif_size >= 1
    &&& current@.len() == motif_size
    &&& counts.wf()
    &&& identify_groups ==> groups.wf() && groups.tables@.len() == graph.n
}

/// Whether `after` is the buffer `before` with nothing changed but,
/// possibly, the graph words and the count of arcs.
pub open spec fn same_buffer(before: &NautyGraph, after: &NautyGraph) -> bool {
    &&& after.wf()
    &&& after.n == before.n
    &&& after.m == before.m
    &&& after.directed == before.directed
    &&& after.canon == before.canon
    &&& after.nodes == before.nodes
}

/// Writes into the graph buffer the adjacency of the vertices of `current`.
pub fn build_nauty(graph: &BitGraph, current: &Vec<usize>, ngraph: &mut NautyGraph)
    requires
        graph.wf(),
        old(ngraph).wf(),
        old(ngraph).n == current@.len(),
        all_zero(old(ngraph).graph@),
        forall|i: int| 0 <= i < current@.len() ==> current@[i] < graph.n,
    ensures
        same_buffer(old(ngraph), final(ngraph)),
        is_pattern(final(ngraph).graph@, graph@, current@),
{
    if graph.is_directed {
        build_nauty_dir(graph, current, ngraph);
    } else {
        build_nauty_undir(graph, current, ngraph);
    }
}

/// Tests every ordered pair of `current` for an arc.
pub fn build_nauty_dir(graph: &BitGraph, current: &Vec<usize>, ngraph: &mut NautyGraph)
    requires
        graph.wf(),
        old(ngraph).wf(),
        old(ngraph).n == current@.len(),
        all_zero(old(ngraph).graph@),
        forall|i: int| 0 <= i < current@.len() ==> current@[i] < graph.n,
    ensures
        same_buffer(old(ngraph), final(ngraph)),
        is_pattern(final(ngraph).graph@, graph@, current@),
{
    let k = current.len();
    let ghost m = ngraph.m as int;
    let ghost sub = current@;
    proof {
        assert forall|a: int, b: int| 0 <= a < k && 0 <= b < 64 * m implies !(
        #[trigger] ngraph.has(a, b)) by {
            lemma_zero_has_none(ngraph.graph@, k as int, m, a, b);
        }
    }
    let mut i: usize = 0;
    while i < k
        invariant
            i <= k,
            k == current@.len(),
            m == ngraph.m,
            sub == current@,
            sub.len() == k,
            graph.wf(),
            ngraph.wf(),
            ngraph.n == k,
            ngraph.directed == old(ngraph).directed,
            ngraph.canon == old(ngraph).canon,
            ngraph.nodes == old(ngraph).nodes,
            forall|t: int| 0 <= t < sub.len() ==> sub[t] < graph.n,
            forall|a: int, b: int|
                0 <= a < k && 0 <= b < 64 * m ==> (#[trigger] ngraph.has(a, b) == (a < i
                    && b < k && graph@.arc(sub[a] as int, sub[b] as int))),
        decreases k - i,
    {
        let u = current[i];
        let mut j: usize = 0;
        while j < k
            invariant
                i < k,
                j <= k,
                k == current@.len(),
                m == ngraph.m,
                sub == current@,
                sub.len() == k,
                u == sub[i as int],
                graph.wf(),
                ngraph.wf(),
                ngraph.n == k,
                                    ngraph.directed == old(ngraph).directed,
            ngraph.canon == old(ngraph).canon,
            ngraph.nodes == old(ngraph).nodes,
                forall|t: int| 0 <= t < sub.len() ==> sub[t] < graph.n,
                forall|a: int, b: int|
                    0 <= a < k && 0 <= b < 64 * m ==> (#[trigger] ngraph.has(a, b) == ((a
                        < i || (a == i && b < j)) && b < k && graph@.arc(
                        sub[a] as int,
                        sub[b] as int,
                    ))),
            decreases k - j,
        {
            let v = current[j];
            if graph.is_connected_directed(u, v) {
                ngraph.add_arc(i, j);
            }
            j += 1;
        }
        i += 1;
    }
    proof {
        assert(ngraph.graph@.len() == k * m) by (nonlinear_arith)
            requires
                ngraph.graph@.len() == ngraph.n * ngraph.m,
                ngraph.n == k,
                ngraph.m == m,
        ;
        assert forall|a: int, b: int| 0 <= a < k && 0 <= b < 64 * m implies (
        #[trigger] dense_has(ngraph.graph@, m, a, b) == (b < k && graph@.arc(
            sub[a] as int,
            sub[b] as int,
        ))) by {
            assert(ngraph.has(a, b) == dense_has(ngraph.graph@, m, a, b));
        }
    }
}

/// Tests every unordered pair of `current` for an edge and enters it in
/// both directions.
pub fn build_nauty_undir(graph: &BitGraph, current: &Vec<usize>, ngraph: &mut NautyGraph)
    requires
        graph.wf(),
        !graph.is_directed,
        old(ngraph).wf(),
        old(ngraph).n == current@.len(),
        all_zero(old(ngraph).graph@),
        forall|i: int| 0 <= i < current@.len() ==> current@[i] < graph.n,
    ensures
        same_buffer(old(ngraph), final(ngraph)),
        is_pattern(final(ngraph).graph@, graph@, current@),
{
    let k = current.len();
    let ghost m = ngraph.m as int;
    let ghost sub = current@;
    proof {
        assert forall|a: int, b: int| 0 <= a < k && 0 <= b < 64 * m implies !(
        #[trigger] ngraph.has(a, b)) by {
            lemma_zero_has_none(ngraph.graph@, k as int, m, a, b);
        }
        assert(64 * m >= k);
    }
    let mut i: usize = 0;
    while i < k
        invariant
            i <= k,
            k == current@.len(),
            m == ngraph.m,
            64 * m >= k,
            sub == current@,
            sub.len() == k,
            graph.wf(),
            !graph.is_directed,
            ngraph.wf(),
            ngraph.n == k,
            ngraph.directed == old(ngraph).directed,
            ngraph.canon == old(ngraph).canon,
            ngraph.nodes == old(ngraph).nodes,
            forall|t: int| 0 <= t < sub.len() ==> sub[t] < graph.n,
            forall|a: int, b: int|
                0 <= a < k && 0 <= b < 64 * m ==> (#[trigger] ngraph.has(a, b) == ((a < i
                    || b < i) && a != b && b < k && graph@.adjacent(
                    sub[a] as int,
                    sub[b] as int,
                ))),
        decreases k - i,
    {
        let u = current[i];
        let mut j: usize = i + 1;
        while j < k
            invariant
                i < k,
                i < j <= k,
                k == current@.len(),
                m == ngraph.m,
                64 * m >= k,
                sub == current@,
                sub.len() == k,
                u == sub[i as int],
                graph.wf(),
                !graph.is_directed,
                ngraph.wf(),
                ngraph.n == k,
                                    ngraph.directed == old(ngraph).directed,
            ngraph.canon == old(ngraph).canon,
            ngraph.nodes == old(ngraph).nodes,
                forall|t: int| 0 <= t < sub.len() ==> sub[t] < graph.n,
                forall|a: int, b: int|
                    0 <= a < k && 0 <= b < 64 * m ==> (#[trigger] ngraph.has(a, b) == ((a
                        < i || b < i || (a == i && b < j) || (b == i && a < j)) && a != b && b
                        < k && graph@.adjacent(sub[a] as int, sub[b] as int))),
            decreases k - j,
        {
            let v = current[j];
            if graph.is_connected(u, v) {
                ngraph.add_arc(i, j);
                ngraph.add_arc(j, i);
                proof {
                    assert(graph@.adjacent(v as int, u as int));
                }
            }
            j += 1;
        }
        i += 1;
    }
    proof {
        assert(ngraph.graph@.len() == k * m) by (nonlinear_arith)
            requires
                ngraph.graph@.len() == ngraph.n * ngraph.m,
                ngraph.n == k,
                ngraph.m == m,
        ;
        assert forall|a: int, b: int| 0 <= a < k && 0 <= b < 64 * m implies (
        #[trigger] dense_has(ngraph.graph@, m, a, b) == (b < k && graph@.arc(
            sub[a] as int,
            sub[b] as int,
        ))) by {
            assert(ngraph.has(a, b) == dense_has(ngraph.graph@, m, a, b));
            if b < k {
                assert(graph@.arc(sub[a] as int, sub[b] as int) == graph@.adjacent(
                    sub[a] as int,
                    sub[b] as int,
                ));
                if a == b {
                    assert(!graph@.adjacent(sub[a] as int, sub[b] as int));
                }
            }
        }
    }
}

/// Whether `v` shares no edge with any of the first `upto` vertices of
/// `current`.
pub fn is_exclusive(graph: &BitGraph, current: &Vec<usize>, v: usize, upto: usize) -> (r: bool)
    requires
        graph.wf(),
        v < graph.n,
        upto <= current@.len(),
    ensures
        r == forall|j: int|
            0 <= j < upto ==> !graph@.adjacent(v as int, #[trigger] current@[j] as int),
{
    let mut j: usize = 0;
    while j < upto
        invariant
            j <= upto <= current@.len(),
            graph.wf(),
            v < graph.n,
            forall|t: int|
                0 <= t < j ==> !graph@.adjacent(v as int, #[trigger] current@[t] as int),
        decreases upto - j,
    {
        if graph.is_connected(v, current[j]) {
            return false;
        }
        j += 1;
    }
    true
}

/// Update the subgraph membership and positions for all nodes in the
/// current subgraph, whose adjacency is `words`. Until a canonical labelling
/// is known, the position of a node is its label and its orbit.
pub fn update_groups(graph: &BitGraph, current: &Vec<usize>, words: &Vec<u64>, groups: &mut Groups)
    requires
        old(groups).wf(),
        old(groups).tables@.len() == graph.n,
        current@.len() <= i32::MAX,
        forall|i: int| 0 <= i < current@.len() ==> current@[i] < graph.n,
        words@ == pattern_of(graph@, current@),
    ensures
        grouped(graph@, old(groups), final(groups), seq![current@]),
{
    let ghost g = graph@;
    let ghost sub = current@;
    let ghost before = *groups;
    let k = current.len();
    let mut idx: usize = 0;
    while idx < k
        invariant
            idx <= k,
            k == current@.len(),
            k <= i32::MAX,
            sub == current@,
            g == graph@,
            words@ == pattern_of(g, sub),
            groups.wf(),
            groups.tables@.len() == graph.n,
            before.tables@.len() == graph.n,
            forall|i: int| 0 <= i < current@.len() ==> current@[i] < graph.n,
            forall|v: int, key: Seq<u64>|
                0 <= v < groups.tables@.len() ==> (#[trigger] groups.tables@[v].count(key))
                    == capped(
                        (before.tables@[v].count(key) + hits(g, sub, idx as int, v, key)) as int,
                    ),
            forall|v: int|
                0 <= v < groups.tables@.len() ==> views((#[trigger] groups.tables@[v]).keys@)
                    == first_seen(views(before.tables@[v].keys@), hit_keys(g, sub, idx as int, v)),
        decreases k - idx,
    {
        let node_idx = current[idx];
        let key = make_group_key(words, idx as i32, idx as i32);
        let ghost mid = *groups;
        groups.add(node_idx, &key, 1);
        idx += 1;
        proof {
            assert forall|v: int, other: Seq<u64>| 0 <= v < groups.tables@.len() implies (
            #[trigger] groups.tables@[v].count(other)) == capped(
                (before.tables@[v].count(other) + hits(g, sub, idx as int, v, other)) as int,
            ) by {
                assert(mid.tables@[v].count(other) == capped(
                    (before.tables@[v].count(other) + hits(g, sub, idx - 1, v, other)) as int,
                ));
                if v != node_idx {
                    assert(groups.tables@[v] == mid.tables@[v]);
                }
            }
            assert forall|v: int| 0 <= v < groups.tables@.len() implies views(
                (#[trigger] groups.tables@[v]).keys@,
            ) == first_seen(views(before.tables@[v].keys@), hit_keys(g, sub, idx as int, v)) by {
                assert(views(mid.tables@[v].keys@) == first_seen(
                    views(before.tables@[v].keys@),
                    hit_keys(g, sub, idx - 1, v),
                ));
                if v != node_idx {
                    assert(groups.tables@[v] == mid.tables@[v]);
                } else {
                    lemma_first_seen_concat(
                        views(before.tables@[v].keys@),
                        hit_keys(g, sub, idx - 1, v),
                        seq![key@],
                    );
                    assert(hit_keys(g, sub, idx - 1, v) + seq![key@] =~= hit_keys(
                        g,
                        sub,
                        idx as int,
                        v,
                    ));
                }
            }
        }
    }
    proof {
        let found = seq![sub];
        assert(found.drop_last() =~= Seq::<Seq<usize>>::empty());
        assert(found.last() == sub);
        assert forall|v: int| 0 <= v < groups.tables@.len() implies views(
            (#[trigger] groups.tables@[v]).keys@,
        ) == first_seen(views(before.tables@[v].keys@), group_keys(g, found, v)) by {
            assert(group_keys(g, found.drop_last(), v) =~= Seq::<Seq<u64>>::empty());
            assert(group_keys(g, found, v) =~= hit_keys(g, sub, k as int, v));
        }
        assert forall|v: int, key: Seq<u64>| 0 <= v < groups.tables@.len() implies (
        #[trigger] groups.tables@[v].count(key)) == capped(
            (before.tables@[v].count(key) + group_tally(g, found, v, key)) as int,
        ) by {
            assert(group_tally(g, found.drop_last(), v, key) == 0);
        }
    }
}

/// The main function for the enumeration.
///
/// This function is called recursively to enumerate all subgraphs of the
/// given size that grow out of the subgraph `current[0..size]` with `n`
/// added to it.
///
/// # Arguments
/// * `n` - The current node.
/// * `size` - The current size of the subgraph.
/// * `next` - The number of nodes of `ext` that may extend the subgraph.
/// * `ext` - The extension of the subgraph.
///
/// Every subgraph that is met is counted under its dense adjacency, and
/// where `identify_groups` asks for it the position of each of its nodes is
/// counted too.
pub fn go(
    graph: &BitGraph,
    motif_size: usize,
    identify_groups: bool,
    n: usize,
    size: usize,
    next: usize,
    ext: &Vec<usize>,
    ngraph: &mut NautyGraph,
    counts: &mut Counts,
    groups: &mut Groups,
    current: &mut Vec<usize>,
    total: &mut usize,
)
    requires
        ready(graph, motif_size, identify_groups, old(ngraph), old(counts), old(groups), old(current)),
        motif_size <= i32::MAX,
        size < motif_size,
        ext@.len() == graph.n,
        next <= ext@.len(),
        state_ok(graph@, old(current)@.take(size as int).push(n), ext@.take(next as int)),
    ensures
        ready(
            graph,
            motif_size,
            identify_groups,
            final(ngraph),
            final(counts),
            final(groups),
            final(current),
        ),
        same_buffer(old(ngraph), final(ngraph)),
        final(current)@.take(size as int) == old(current)@.take(size as int),
        advanced(
            graph@,
            identify_groups,
            old(counts),
            old(groups),
            *old(total),
            final(counts),
            final(groups),
            *final(total),
            extend(
                graph@,
                motif_size as nat,
                old(current)@.take(size as int).push(n),
                ext@.take(next as int),
            ),
        ),
    decreases motif_size - size,
{
    let ghost k = motif_size as nat;
    let ghost sub = current@.take(size as int).push(n);
    let ghost given = ext@.take(next as int);
    let ghost g = graph@;
    let ghost counts0 = *counts;
    let ghost groups0 = *groups;
    let ghost total0 = *total;
    let bound = graph.n;
    current[size] = n;
    let filled = size + 1;
    proof {
        assert(current@.take(filled as int) =~= sub);
    }
    if filled == motif_size {
        proof {
            assert(current@ =~= sub);
        }
        build_nauty(graph, current, ngraph);
        proof {
            lemma_pattern_is(ngraph.graph@, g, sub);
        }
        counts.add(&ngraph.graph, 1);
        proof {
            assert(views(counts.keys@) == first_seen(
                views(counts0.keys@),
                seq![pattern_of(g, sub)],
            ));
        }
        if identify_groups {
            update_groups(graph, current, &ngraph.graph, groups);
        }
        ngraph.clear_graph();
        *total = add_capped(*total, 1);
        proof {
            let found = extend(g, k, sub, given);
            assert(found =~= seq![sub]);
            assert(found.drop_last() =~= Seq::<Seq<usize>>::empty());
            assert(patterns(g, found) =~= seq![pattern_of(g, sub)]);
            assert forall|key: Seq<u64>| #[trigger]
                counts.count(key) == capped((counts0.count(key) + tally(g, found, key)) as int) by {
                assert(tally(g, found.drop_last(), key) == 0);
            }
            if identify_groups {
                assert forall|v: int, key: Seq<u64>| 0 <= v < groups.tables@.len() implies (
                #[trigger] groups.tables@[v].count(key)) == capped(
                    (groups0.tables@[v].count(key) + group_tally(g, found, v, key)) as int,
                ) by {
                    assert(group_tally(g, found.drop_last(), v, key) == 0);
                }
            }
        }
    } else {
        let mut next2 = next;
        // Copy the list of nodes in the extension.
        let mut ext2 = copy_indices(ext);
        proof {
            assert(sub[size as int] < graph.n);
            assert(current@[size as int] == n);
        }
        // Get the neighbors of the last node in the current subgraph
        let w = current[filled - 1];
        let root = current[0];
        let neighbors = ones_of(graph.neighbors(w));
        let ghost cset = candidate_set(graph@, sub);
        proof {
            graph.lemma_rows(w as int);
            assert(sub.last() == w);
            assert(sub[0] == root);
        }
        let mut i: usize = 0;
        // Iterate over the neighbors of the last node in the current subgraph
        while i < neighbors.len()
            invariant
                i <= neighbors@.len(),
                graph.wf(),
                g == graph@,
                current@.take(filled as int) == sub,
                current@.len() == motif_size,
                filled < motif_size,
                filled == sub.len(),
                root == sub[0],
                w == sub.last(),
                bound == graph.n,
                cset == candidate_set(graph@, sub),
                state_ok(graph@, sub, given),
                given == ext@.take(next as int),
                ext2@.len() == bound,
                next <= next2 <= bound,
                ext2@.take(next as int) == given,
                increasing(neighbors@),
                forall|t: int|
                    0 <= t < neighbors@.len() ==> graph@.neighbors(w as int).contains(
                        #[trigger] neighbors@[t] as int,
                    ),
                forall|t: int| 0 <= t < neighbors@.len() ==> (#[trigger] neighbors@[t]) < bound,
                increasing(ext2@.subrange(next as int, next2 as int)),
                forall|t: int|
                    next <= t < next2 ==> cset.contains(#[trigger] ext2@[t] as int) && (i
                        < neighbors@.len() ==> ext2@[t] < neighbors@[i as int]),
                forall|t: int|
                    0 <= t < i && cset.contains(#[trigger] neighbors@[t] as int) ==> exists|
                        s: int,
                    |
                        next <= s < next2 && #[trigger] ext2@[s] == neighbors@[t],
            decreases neighbors@.len() - i,
        {
            let v = neighbors[i];
            let ghost before = ext2@;
            let ghost was = next2;
            let mut taken = false;
            // If the neighbor is smaller than the first node in the current subgraph, skip it
            if v > root {
                // If the neighbor touches an earlier node of the subgraph, skip it
                let free = is_exclusive(graph, current, v, filled - 1);
                proof {
                    if free {
                        assert forall|j: int| 0 <= j < sub.len() - 1 implies !graph@.adjacent(
                            v as int,
                            #[trigger] sub[j] as int,
                        ) by {
                            assert(current@.take(filled as int)[j] == current@[j]);
                        }
                    } else {
                        let j = choose|j: int|
                            0 <= j < filled - 1 && graph@.adjacent(
                                v as int,
                                #[trigger] current@[j] as int,
                            );
                        assert(current@.take(filled as int)[j] == current@[j]);
                        assert(graph@.adjacent(v as int, sub[j] as int));
                    }
                    assert(free == exclusive(graph@, sub, v as int));
                }
                if free {
                    proof {
                        assert(cset.contains(v as int));
                        lemma_candidate_is_new(graph@, sub, given, v);
                        let all = ext2@.take(next2 as int).push(v);
                        assert forall|a: int, b: int| 0 <= a < b < all.len() implies all[a]
                            != all[b] by {
                            if b < next {
                                assert(given[a] == all[a] && given[b] == all[b]);
                            } else if a < next {
                                assert(given[a] == all[a]);
                                if b < next2 {
                                    lemma_candidate_is_new(graph@, sub, given, all[b]);
                                }
                                assert(given.contains(all[a]));
                            } else if b < next2 {
                                let sr = ext2@.subrange(next as int, next2 as int);
                                assert(sr[a - next] < sr[b - next]);
                            } else {
                            }
                        }
                        assert forall|a: int| 0 <= a < all.len() implies all[a] < bound by {
                            if a < next {
                                assert(given[a] == all[a]);
                            } else if a < next2 {
                                lemma_candidate_is_new(graph@, sub, given, all[a]);
                            }
                        }
                        lemma_pigeonhole(all, bound as nat);
                    }
                    ext2[next2] = v;
                    next2 += 1;
                    taken = true;
                }
            }
            i += 1;
            proof {
                assert(ext2@.take(next as int) =~= given);
                let sr = ext2@.subrange(next as int, next2 as int);
                if taken {
                    assert(sr =~= before.subrange(next as int, was as int).push(v));
                    assert forall|a: int, b: int| 0 <= a < b < sr.len() implies sr[a] < sr[b] by {
                        if b < sr.len() - 1 {
                            assert(before.subrange(next as int, was as int)[a] < before.subrange(
                                next as int,
                                was as int,
                            )[b]);
                        } else {
                            assert(before[a + next] < v);
                        }
                    }
                } else {
                    assert(sr =~= before.subrange(next as int, was as int));
                }
                assert forall|t: int|
                    0 <= t < i && cset.contains(#[trigger] neighbors@[t] as int) implies exists|
                    s: int,
                |
                    next <= s < next2 && #[trigger] ext2@[s] == neighbors@[t] by {
                    if t < i - 1 {
                        let s = choose|s: int|
                            next <= s < was && #[trigger] before[s] == neighbors@[t];
                        assert(ext2@[s] == neighbors@[t]);
                    } else {
                        assert(taken);
                        assert(ext2@[was as int] == neighbors@[t]);
                    }
                }
            }
        }
        let ghost wider = ext2@.take(next2 as int);
        let ghost mut done: Seq<Seq<usize>> = Seq::empty();
        proof {
            let found = ext2@.subrange(next as int, next2 as int);
            assert forall|b: int| cset.contains(b) && 0 <= b < bound implies exists|t: int|
                0 <= t < found.len() && #[trigger] found[t] == b by {
                let t = choose|t: int| 0 <= t < neighbors@.len() && #[trigger] neighbors@[t] == b;
                assert(cset.contains(neighbors@[t] as int));
                let s = choose|s: int| next <= s < next2 && #[trigger] ext2@[s] == neighbors@[t];
                assert(found[s - next] == b);
            }
            assert(lists(found, cset, bound as nat)) by {
                assert forall|t: int| 0 <= t < found.len() implies cset.contains(
                    #[trigger] found[t] as int,
                ) && found[t] < bound by {
                    assert(found[t] == ext2@[t + next]);
                    lemma_candidate_is_new(graph@, sub, given, found[t]);
                }
            }
            lemma_ascending_unique(found, cset, bound as nat);
            assert(wider =~= given + candidates(graph@, sub));
            lemma_wider_ok(graph@, sub, given);
            lemma_advanced_none(g, identify_groups, counts, groups, *total);
            assert(done + children(g, k, sub, wider, next2 as nat) =~= children(
                g,
                k,
                sub,
                wider,
                wider.len(),
            ));
        }
        // Recursively call the function for each node in the extension
        while next2 > 0
            invariant
                ready(graph, motif_size, identify_groups, ngraph, counts, groups, current),
                same_buffer(old(ngraph), ngraph),
                g == graph@,
                current@.take(filled as int) == sub,
                filled < motif_size,
                filled == sub.len(),
                filled == size + 1,
                k == motif_size,
                advanced(g, identify_groups, &counts0, &groups0, total0, counts, groups, *total, done),
                bound == graph.n,
                ext2@.len() == bound,
                next2 <= wider.len() <= bound,
                wider == ext2@.take(wider.len() as int),
                state_ok(graph@, sub, Seq::empty()),
                wider_ok(graph@, sub, wider),
                done + children(g, k, sub, wider, next2 as nat) == children(
                    g,
                    k,
                    sub,
                    wider,
                    wider.len(),
                ),
            decreases next2,
        {
            next2 -= 1;
            let child = ext2[next2];
            let ghost counts1 = *counts;
            let ghost groups1 = *groups;
            let ghost total1 = *total;
            proof {
                lemma_child_ok(graph@, sub, wider, next2 as int);
                assert(ext2@.take(next2 as int) =~= wider.take(next2 as int));
                assert(child == wider[next2 as int]);
            }
            go(
                graph,
                motif_size,
                identify_groups,
                child,
                filled,
                next2,
                &ext2,
                ngraph,
                counts,
                groups,
                current,
                total,
            );
            proof {
                let grown = extend(
                    graph@,
                    k,
                    sub.push(wider[next2 as int]),
                    wider.take(next2 as int),
                );
                let rest = children(graph@, k, sub, wider, next2 as nat);
                assert(children(graph@, k, sub, wider, (next2 + 1) as nat) == grown + rest);
                lemma_advanced_concat(
                    g,
                    identify_groups,
                    &counts0,
                    &groups0,
                    total0,
                    &counts1,
                    &groups1,
                    total1,
                    counts,
                    groups,
                    *total,
                    done,
                    grown,
                );
                assert((done + grown) + rest =~= done + (grown + rest));
                done = done + grown;
            }
        }
        proof {
            assert(children(graph@, k, sub, wider, 0) =~= Seq::<Seq<usize>>::empty());
            assert(done =~= extend(graph@, k, sub, given));
            assert(views(counts.keys@) == first_seen(
                views(counts0.keys@),
                patterns(g, extend(g, k, sub, given)),
            ));
            assert(current@.take(size as int) =~= sub.take(size as int));
            assert(old(current)@.take(size as int) =~= sub.take(size as int));
        }
    }
}

} // verus!
