//! What the keys of a result are, once the adjacencies have their canonical
//! labels: the isomorphism classes of the subgraphs that were listed.
//!
//! Every subgraph that is listed is counted under the label of its class,
//! the count under a label is the number of subgraphs in the class, two
//! subgraphs come under one key exactly if they are isomorphic, and there
//! is no key but for a class of some subgraph. So there are as many keys as
//! classes.
use crate::bitgraph::Adjacency;
use crate::counts::{first_seen, lemma_first_seen_contains, views, Counts};
use crate::model::subgraphs;
use crate::pattern::{lemma_pattern_exists, pattern_of, patterns};
use crate::result::{label_among, merged_from, EnumResult};
use crate::sums::{label_tally, lemma_counts_are_merged, lemma_tally_positive, theorem_label_counts};
use crate::theorems::{
    both_ways, is_canonical, isomorphic, lemma_listed_pair, lemma_pairs_alike,
    theorem_labels_tell_shapes, theorem_listed_are_motifs,
};
use vstd::prelude::*;

verus! {

/// How many of the subgraphs `subs` are isomorphic to `a`.
pub open spec fn class_size(g: Adjacency, subs: Seq<Seq<usize>>, a: Seq<usize>) -> nat
    decreases subs.len(),
{
    if subs.len() == 0 {
        0
    } else {
        class_size(g, subs.drop_last(), a) + if isomorphic(g, subs.last(), a) {
            1nat
        } else {
            0nat
        }
    }
}

/// Under a canonical labelling two lists of as many vertices get the same
/// label exactly if the subgraphs on them are isomorphic.
pub proof fn lemma_labels_of_lists(
    g: Adjacency,
    a: Seq<usize>,
    b: Seq<usize>,
    label_of: spec_fn(Seq<u64>) -> Seq<u64>,
)
    requires
        a.len() == b.len(),
        is_canonical(label_of, a.len() as int),
    ensures
        (label_of(pattern_of(g, a)) == label_of(pattern_of(g, b))) == isomorphic(g, a, b),
{
    lemma_pattern_exists(g, a);
    lemma_pattern_exists(g, b);
    theorem_labels_tell_shapes(g, a, b, pattern_of(g, a), pattern_of(g, b), label_of);
}

/// Under a canonical labelling as many subgraphs get the label of `a` as
/// are isomorphic to `a`.
pub proof fn lemma_label_tally_is_class_size(
    g: Adjacency,
    subs: Seq<Seq<usize>>,
    label_of: spec_fn(Seq<u64>) -> Seq<u64>,
    a: Seq<usize>,
)
    requires
        is_canonical(label_of, a.len() as int),
        forall|i: int| 0 <= i < subs.len() ==> (#[trigger] subs[i]).len() == a.len(),
    ensures
        label_tally(g, subs, label_of, label_of(pattern_of(g, a))) == class_size(g, subs, a),
    decreases subs.len(),
{
    if subs.len() > 0 {
        let front = subs.drop_last();
        assert forall|i: int| 0 <= i < front.len() implies (#[trigger] front[i]).len()
            == a.len() by {
            assert(front[i] == subs[i]);
        }
        lemma_label_tally_is_class_size(g, front, label_of, a);
        assert(subs.last() == subs[subs.len() - 1]);
        lemma_labels_of_lists(g, subs.last(), a, label_of);
    }
}

/// The label of a subgraph that is listed is a key of the result under the
/// labels.
pub proof fn lemma_listed_has_key(
    r: &EnumResult,
    g: Adjacency,
    k: nat,
    labels: Seq<Seq<u64>>,
    out: &Counts,
    label_of: spec_fn(Seq<u64>) -> Seq<u64>,
    a: Seq<usize>,
)
    requires
        r.counts_patterns_of(g, k),
        subgraphs(g, k).len() <= usize::MAX,
        labels.len() == r.canon_counts.keys@.len(),
        forall|i: int|
            0 <= i < labels.len() ==> #[trigger] labels[i] == label_of(r.canon_counts.keys@[i]@),
        merged_from(out, labels, r.canon_counts.vals@),
        subgraphs(g, k).contains(a),
    ensures
        out.contains(label_of(pattern_of(g, a))),
{
    let subs = subgraphs(g, k);
    let key = pattern_of(g, a);
    let label = label_of(key);
    lemma_counts_are_merged(r, g, k);
    let t = choose|t: int| 0 <= t < subs.len() && subs[t] == a;
    assert(patterns(g, subs)[t] == key);
    assert(label_among(patterns(g, subs), subs.len() as int, key));
    assert(r.canon_counts.contains(key));
    let at = r.canon_counts.index_of(key);
    assert(labels[at] == label);
    assert(label_among(labels, labels.len() as int, label));
}

/// As many subgraphs as are listed and isomorphic to `a` get the label of
/// `a` under a canonical labelling.
pub proof fn lemma_listed_class_size(
    g: Adjacency,
    k: nat,
    label_of: spec_fn(Seq<u64>) -> Seq<u64>,
    a: Seq<usize>,
)
    requires
        g.wf(),
        k >= 1,
        is_canonical(label_of, k as int),
        subgraphs(g, k).contains(a),
    ensures
        label_tally(g, subgraphs(g, k), label_of, label_of(pattern_of(g, a))) == class_size(
            g,
            subgraphs(g, k),
            a,
        ),
{
    let subs = subgraphs(g, k);
    theorem_listed_are_motifs(g, k, a);
    assert forall|i: int| 0 <= i < subs.len() implies (#[trigger] subs[i]).len() == a.len() by {
        theorem_listed_are_motifs(g, k, subs[i]);
    }
    lemma_label_tally_is_class_size(g, subs, label_of, a);
}

/// The keys of a result under a canonical labelling are the isomorphism
/// classes of the subgraphs that are listed: a subgraph that is listed has
/// its label among the keys, counted as often as there are subgraphs
/// isomorphic to it, and two subgraphs that are listed have the same label
/// exactly if they are isomorphic.
pub proof fn theorem_keys_are_classes(
    r: &EnumResult,
    g: Adjacency,
    k: nat,
    labels: Seq<Seq<u64>>,
    out: &Counts,
    label_of: spec_fn(Seq<u64>) -> Seq<u64>,
    a: Seq<usize>,
    b: Seq<usize>,
)
    requires
        g.wf(),
        k >= 1,
        r.counts_patterns_of(g, k),
        subgraphs(g, k).len() <= usize::MAX,
        labels.len() == r.canon_counts.keys@.len(),
        forall|i: int|
            0 <= i < labels.len() ==> #[trigger] labels[i] == label_of(r.canon_counts.keys@[i]@),
        is_canonical(label_of, k as int),
        merged_from(out, labels, r.canon_counts.vals@),
        subgraphs(g, k).contains(a),
        subgraphs(g, k).contains(b),
    ensures
        out.contains(label_of(pattern_of(g, a))),
        out.count(label_of(pattern_of(g, a))) == class_size(g, subgraphs(g, k), a),
        (label_of(pattern_of(g, a)) == label_of(pattern_of(g, b))) == isomorphic(g, a, b),
{
    theorem_listed_are_motifs(g, k, a);
    theorem_listed_are_motifs(g, k, b);
    lemma_labels_of_lists(g, a, b, label_of);
    lemma_listed_class_size(g, k, label_of, a);
    theorem_label_counts(r, g, k, labels, out, label_of, label_of(pattern_of(g, a)));
    lemma_listed_has_key(r, g, k, labels, out, label_of, a);
}

/// And there is no other key: every key of a result under a labelling is
/// the label of a subgraph that is listed.
pub proof fn theorem_every_key_is_a_class(
    r: &EnumResult,
    g: Adjacency,
    k: nat,
    labels: Seq<Seq<u64>>,
    out: &Counts,
    label_of: spec_fn(Seq<u64>) -> Seq<u64>,
    label: Seq<u64>,
) -> (a: Seq<usize>)
    requires
        r.counts_patterns_of(g, k),
        subgraphs(g, k).len() <= usize::MAX,
        labels.len() == r.canon_counts.keys@.len(),
        forall|i: int|
            0 <= i < labels.len() ==> #[trigger] labels[i] == label_of(r.canon_counts.keys@[i]@),
        merged_from(out, labels, r.canon_counts.vals@),
        out.contains(label),
    ensures
        subgraphs(g, k).contains(a),
        label_of(pattern_of(g, a)) == label,
{
    let subs = subgraphs(g, k);
    lemma_counts_are_merged(r, g, k);
    assert(label_among(labels, labels.len() as int, label));
    let i = choose|i: int| 0 <= i < labels.len() && #[trigger] labels[i] == label;
    let key = r.canon_counts.keys@[i]@;
    assert(views(r.canon_counts.keys@)[i] == key);
    assert(r.canon_counts.contains(key));
    assert(label_among(patterns(g, subs), subs.len() as int, key));
    let t = choose|t: int|
        0 <= t < subs.len() && t < patterns(g, subs).len() && #[trigger] patterns(g, subs)[t]
            == key;
    assert(subs[t] == subs[t]);
    subs[t]
}

/// Whether the subgraph at `t` is the first of its class: none of the
/// subgraphs before it is isomorphic to it.
pub open spec fn is_head(g: Adjacency, subs: Seq<Seq<usize>>, t: int) -> bool {
    forall|s: int| 0 <= s < t ==> !isomorphic(g, #[trigger] subs[s], subs[t])
}

/// The number of isomorphism classes among the first `upto` of the
/// subgraphs `subs`: so many of them are the first of their class.
pub open spec fn class_count(g: Adjacency, subs: Seq<Seq<usize>>, upto: int) -> nat
    decreases upto,
{
    if upto <= 0 {
        0
    } else {
        class_count(g, subs, upto - 1) + if is_head(g, subs, upto - 1) {
            1nat
        } else {
            0nat
        }
    }
}

/// The label of every key.
pub open spec fn relabelled(keys: Seq<Seq<u64>>, label_of: spec_fn(Seq<u64>) -> Seq<u64>) -> Seq<
    Seq<u64>,
> {
    Seq::new(keys.len(), |i: int| label_of(keys[i]))
}

/// The label of every subgraph.
pub open spec fn labels_of(
    g: Adjacency,
    subs: Seq<Seq<usize>>,
    label_of: spec_fn(Seq<u64>) -> Seq<u64>,
) -> Seq<Seq<u64>> {
    Seq::new(subs.len(), |i: int| label_of(pattern_of(g, subs[i])))
}

/// The labels of the keys seen are seen as the labels of all the keys are:
/// a key that comes again brings a label that came before.
pub proof fn lemma_seen_through(keys: Seq<Seq<u64>>, label_of: spec_fn(Seq<u64>) -> Seq<u64>)
    ensures
        first_seen(Seq::empty(), relabelled(first_seen(Seq::empty(), keys), label_of))
            == first_seen(Seq::empty(), relabelled(keys, label_of)),
    decreases keys.len(),
{
    let all = relabelled(keys, label_of);
    if keys.len() == 0 {
        assert(relabelled(first_seen(Seq::empty(), keys), label_of) =~= all);
    } else {
        let front = keys.drop_last();
        let last = keys.last();
        let seen = first_seen(Seq::empty(), front);
        lemma_seen_through(front, label_of);
        assert(all.drop_last() =~= relabelled(front, label_of));
        assert(all.last() == label_of(last));
        let before = first_seen(Seq::empty(), relabelled(front, label_of));
        if seen.contains(last) {
            lemma_first_seen_contains(Seq::empty(), front, last);
            let i = choose|i: int| 0 <= i < front.len() && front[i] == last;
            assert(relabelled(front, label_of)[i] == label_of(last));
            lemma_first_seen_contains(Seq::empty(), relabelled(front, label_of), label_of(last));
        } else {
            let more = relabelled(seen.push(last), label_of);
            assert(more.drop_last() =~= relabelled(seen, label_of));
            assert(more.last() == label_of(last));
        }
    }
}

/// Whether the labels `all` of the subgraphs `subs` tell their classes: two
/// subgraphs have the same label exactly if they are isomorphic.
pub open spec fn tells(g: Adjacency, subs: Seq<Seq<usize>>, all: Seq<Seq<u64>>) -> bool {
    &&& all.len() == subs.len()
    &&& forall|s: int, t: int|
        0 <= s < subs.len() && 0 <= t < subs.len() ==> (all[s] == all[t]) == #[trigger] isomorphic(
            g,
            subs[s],
            subs[t],
        )
}

/// The labels of a canonical labelling tell the classes of subgraphs of
/// one size.
pub proof fn lemma_labels_tell(
    g: Adjacency,
    subs: Seq<Seq<usize>>,
    label_of: spec_fn(Seq<u64>) -> Seq<u64>,
    k: nat,
)
    requires
        is_canonical(label_of, k as int),
        forall|i: int| 0 <= i < subs.len() ==> (#[trigger] subs[i]).len() == k,
    ensures
        tells(g, subs, labels_of(g, subs, label_of)),
{
    let all = labels_of(g, subs, label_of);
    assert forall|s: int, t: int| 0 <= s < subs.len() && 0 <= t < subs.len() implies (all[s]
        == all[t]) == #[trigger] isomorphic(g, subs[s], subs[t]) by {
        lemma_labels_of_lists(g, subs[s], subs[t], label_of);
    }
}

/// Where the labels tell the classes, as many labels are seen among the
/// first `upto` subgraphs as there are classes among them.
pub proof fn lemma_seen_labels_count(
    g: Adjacency,
    subs: Seq<Seq<usize>>,
    all: Seq<Seq<u64>>,
    upto: int,
)
    requires
        tells(g, subs, all),
        0 <= upto <= subs.len(),
    ensures
        first_seen(Seq::empty(), all.take(upto)).len() == class_count(g, subs, upto),
    decreases upto,
{
    if upto > 0 {
        let t = upto - 1;
        lemma_seen_labels_count(g, subs, all, t);
        let part = all.take(upto);
        let front = all.take(t);
        assert(part.drop_last() =~= front);
        assert(part.last() == all[t]);
        lemma_first_seen_contains(Seq::empty(), front, all[t]);
        if front.contains(all[t]) {
            let s = choose|s: int| 0 <= s < front.len() && front[s] == all[t];
            assert(all[s] == all[t]);
            assert(isomorphic(g, subs[s], subs[t]));
        } else {
            assert forall|s: int| 0 <= s < t implies !isomorphic(g, #[trigger] subs[s], subs[t]) by {
                assert(front[s] == all[s]);
                if isomorphic(g, subs[s], subs[t]) {
                    assert(all[s] == all[t]);
                }
            }
        }
    }
}

/// Where the labels tell the classes there are as many keys as classes.
pub proof fn lemma_keys_count(
    r: &EnumResult,
    g: Adjacency,
    k: nat,
    labels: Seq<Seq<u64>>,
    out: &Counts,
    label_of: spec_fn(Seq<u64>) -> Seq<u64>,
)
    requires
        r.counts_patterns_of(g, k),
        labels.len() == r.canon_counts.keys@.len(),
        forall|i: int|
            0 <= i < labels.len() ==> #[trigger] labels[i] == label_of(r.canon_counts.keys@[i]@),
        merged_from(out, labels, r.canon_counts.vals@),
        tells(g, subgraphs(g, k), labels_of(g, subgraphs(g, k), label_of)),
    ensures
        out.keys@.len() == class_count(g, subgraphs(g, k), subgraphs(g, k).len() as int),
{
    let subs = subgraphs(g, k);
    let found = patterns(g, subs);
    let all = labels_of(g, subs, label_of);
    lemma_labels_are_relabelled(r, labels, label_of);
    lemma_seen_through(found, label_of);
    assert(relabelled(found, label_of) =~= all);
    lemma_seen_labels_count(g, subs, all, subs.len() as int);
    assert(all.take(subs.len() as int) =~= all);
    assert(views(out.keys@).len() == out.keys@.len());
}

/// There are as many keys as classes: under a canonical labelling the
/// result has one key for every isomorphism class of the subgraphs that are
/// listed.
pub proof fn theorem_as_many_keys_as_classes(
    r: &EnumResult,
    g: Adjacency,
    k: nat,
    labels: Seq<Seq<u64>>,
    out: &Counts,
    label_of: spec_fn(Seq<u64>) -> Seq<u64>,
)
    requires
        g.wf(),
        k >= 1,
        r.counts_patterns_of(g, k),
        labels.len() == r.canon_counts.keys@.len(),
        forall|i: int|
            0 <= i < labels.len() ==> #[trigger] labels[i] == label_of(r.canon_counts.keys@[i]@),
        is_canonical(label_of, k as int),
        merged_from(out, labels, r.canon_counts.vals@),
    ensures
        out.keys@.len() == class_count(g, subgraphs(g, k), subgraphs(g, k).len() as int),
{
    let subs = subgraphs(g, k);
    assert forall|i: int| 0 <= i < subs.len() implies (#[trigger] subs[i]).len() == k by {
        theorem_listed_are_motifs(g, k, subs[i]);
    }
    lemma_labels_tell(g, subs, label_of, k);
    lemma_keys_count(r, g, k, labels, out, label_of);
}

/// Labels given key by key are the labels of the keys.
pub proof fn lemma_labels_are_relabelled(
    r: &EnumResult,
    labels: Seq<Seq<u64>>,
    label_of: spec_fn(Seq<u64>) -> Seq<u64>,
)
    requires
        labels.len() == r.canon_counts.keys@.len(),
        forall|i: int|
            0 <= i < labels.len() ==> #[trigger] labels[i] == label_of(r.canon_counts.keys@[i]@),
    ensures
        labels == relabelled(views(r.canon_counts.keys@), label_of),
{
    assert(labels =~= relabelled(views(r.canon_counts.keys@), label_of));
}

/// Whether one of the first `upto` pairs has an arc each way, or has not,
/// as `kind` says.
pub open spec fn kind_seen(g: Adjacency, subs: Seq<Seq<usize>>, upto: int, kind: bool) -> bool {
    exists|t: int| 0 <= t < upto && both_ways(g, #[trigger] subs[t]) == kind
}

/// Among pairs there are no more classes than kinds of pairs seen.
pub proof fn lemma_pairs_class_count(g: Adjacency, subs: Seq<Seq<usize>>, upto: int)
    requires
        g.wf(),
        forall|v: int| !(#[trigger] g.arc(v, v)),
        forall|i: int| 0 <= i < subs.len() ==> subgraphs(g, 2).contains(#[trigger] subs[i]),
        0 <= upto <= subs.len(),
    ensures
        class_count(g, subs, upto) <= (if kind_seen(g, subs, upto, true) {
            1nat
        } else {
            0nat
        }) + (if kind_seen(g, subs, upto, false) {
            1nat
        } else {
            0nat
        }),
    decreases upto,
{
    if upto > 0 {
        let t = upto - 1;
        lemma_pairs_class_count(g, subs, t);
        let kind = both_ways(g, subs[t]);
        assert(kind_seen(g, subs, upto, kind));
        if kind_seen(g, subs, t, true) {
            let s = choose|s: int| 0 <= s < t && both_ways(g, #[trigger] subs[s]) == true;
            assert(kind_seen(g, subs, upto, true));
        }
        if kind_seen(g, subs, t, false) {
            let s = choose|s: int| 0 <= s < t && both_ways(g, #[trigger] subs[s]) == false;
            assert(kind_seen(g, subs, upto, false));
        }
        if is_head(g, subs, t) && kind_seen(g, subs, t, kind) {
            let s = choose|s: int| 0 <= s < t && both_ways(g, #[trigger] subs[s]) == kind;
            lemma_listed_pair(g, subs[s]);
            lemma_listed_pair(g, subs[t]);
            assert(g.adjacent(subs[s][1] as int, subs[s][0] as int));
            assert(g.adjacent(subs[t][1] as int, subs[t][0] as int));
            lemma_pairs_alike(g, subs[s], subs[t]);
            assert(false);
        }
    }
}

/// With two vertices to a subgraph, in a graph without loops, there are
/// two classes at most where the arcs have a direction, and one at most
/// where they have none.
pub proof fn theorem_pairs_have_two_classes(g: Adjacency)
    requires
        g.wf(),
        forall|v: int| !(#[trigger] g.arc(v, v)),
    ensures
        class_count(g, subgraphs(g, 2), subgraphs(g, 2).len() as int) <= 2,
        !g.directed ==> class_count(g, subgraphs(g, 2), subgraphs(g, 2).len() as int) <= 1,
{
    let subs = subgraphs(g, 2);
    let n = subs.len() as int;
    assert forall|i: int| 0 <= i < subs.len() implies subgraphs(g, 2).contains(
        #[trigger] subs[i],
    ) by {
        assert(subs[i] == subs[i]);
    }
    lemma_pairs_class_count(g, subs, n);
    if !g.directed && kind_seen(g, subs, n, false) {
        let t = choose|t: int| 0 <= t < n && both_ways(g, #[trigger] subs[t]) == false;
        lemma_listed_pair(g, subs[t]);
        assert(g.adjacent(subs[t][1] as int, subs[t][0] as int));
        assert(false);
    }
}

} // verus!
