//! What the counts add up to.
//!
//! Subgraphs are counted under a key, and keys are merged under labels. The
//! theorems here say that nothing is lost or made on the way: the counts of
//! a table add up to the number of subgraphs, and the count of a label is
//! the number of subgraphs whose key has that label, whatever the order in
//! which the keys came.
use crate::bitgraph::Adjacency;
use crate::counts::{capped, total_of, Counts};
use crate::model::subgraphs;
use crate::pattern::{lemma_tally_bound, pattern_of, patterns, tally};
use crate::result::{class_sum, label_among, lemma_class_sum_nonneg, merged_from, EnumResult};
use vstd::prelude::*;

verus! {

/// How many of the first `upto` keys are `label`.
pub open spec fn times_among(keys: Seq<Seq<u64>>, upto: int, label: Seq<u64>) -> int
    decreases upto,
{
    if upto <= 0 {
        0
    } else {
        times_among(keys, upto - 1, label) + if keys[upto - 1] == label {
            1int
        } else {
            0int
        }
    }
}

/// Whether no key stands twice.
pub open spec fn distinct(keys: Seq<Seq<u64>>) -> bool {
    forall|i: int, j: int| 0 <= i < j < keys.len() ==> keys[i] != keys[j]
}

/// Among distinct keys a label stands once if it stands at all.
pub proof fn lemma_times_among(keys: Seq<Seq<u64>>, upto: int, label: Seq<u64>)
    requires
        distinct(keys),
        0 <= upto <= keys.len(),
    ensures
        times_among(keys, upto, label) == if label_among(keys, upto, label) {
            1int
        } else {
            0int
        },
    decreases upto,
{
    if upto > 0 {
        lemma_times_among(keys, upto - 1, label);
        if keys[upto - 1] == label {
            if label_among(keys, upto - 1, label) {
                let i = choose|i: int|
                    0 <= i < upto - 1 && i < keys.len() && #[trigger] keys[i] == label;
                assert(keys[i] != keys[upto - 1]);
            }
            assert(label_among(keys, upto, label));
        } else {
            if label_among(keys, upto, label) {
                let i = choose|i: int| 0 <= i < upto && i < keys.len() && #[trigger] keys[i] == label;
                assert(label_among(keys, upto - 1, label));
            }
            if label_among(keys, upto - 1, label) {
                let i = choose|i: int|
                    0 <= i < upto - 1 && i < keys.len() && #[trigger] keys[i] == label;
                assert(keys[i] == label);
            }
        }
    }
}

/// The sum, over the first `upto` keys, of what the counts `vals` add up to
/// under each key.
pub open spec fn sum_by_key(
    keys: Seq<Seq<u64>>,
    labels: Seq<Seq<u64>>,
    vals: Seq<usize>,
    n: int,
    upto: int,
) -> int
    decreases upto,
{
    if upto <= 0 {
        0
    } else {
        sum_by_key(keys, labels, vals, n, upto - 1) + class_sum(labels, vals, n, keys[upto - 1])
    }
}

/// One more count adds itself to the sum as often as its label is a key.
pub proof fn lemma_sum_by_key_step(
    keys: Seq<Seq<u64>>,
    labels: Seq<Seq<u64>>,
    vals: Seq<usize>,
    n: int,
    upto: int,
)
    requires
        n >= 1,
        0 <= upto <= keys.len(),
    ensures
        sum_by_key(keys, labels, vals, n, upto) == sum_by_key(keys, labels, vals, n - 1, upto)
            + vals[n - 1] * times_among(keys, upto, labels[n - 1]),
    decreases upto,
{
    if upto > 0 {
        lemma_sum_by_key_step(keys, labels, vals, n, upto - 1);
        let a = times_among(keys, upto - 1, labels[n - 1]);
        assert(vals[n - 1] * (a + 1) == vals[n - 1] * a + vals[n - 1]) by (nonlinear_arith);
        assert(vals[n - 1] * (a + 0) == vals[n - 1] * a) by (nonlinear_arith);
    } else {
        assert(vals[n - 1] * 0 == 0) by (nonlinear_arith);
    }
}

/// The sum of the first `n` counts.
pub open spec fn total_upto(vals: Seq<usize>, n: int) -> int
    decreases n,
{
    if n <= 0 {
        0
    } else {
        total_upto(vals, n - 1) + vals[n - 1]
    }
}

/// `total_upto` over all the counts is `total_of`.
pub proof fn lemma_total_upto(vals: Seq<usize>)
    ensures
        total_upto(vals, vals.len() as int) == total_of(vals),
    decreases vals.len(),
{
    if vals.len() > 0 {
        lemma_total_upto(vals.drop_last());
        lemma_total_upto_prefix(vals.drop_last(), vals, vals.len() - 1);
    }
}

/// `total_upto` reads the first `n` counts only.
pub proof fn lemma_total_upto_prefix(a: Seq<usize>, b: Seq<usize>, n: int)
    requires
        0 <= n <= a.len(),
        n <= b.len(),
        forall|i: int| 0 <= i < n ==> a[i] == b[i],
    ensures
        total_upto(a, n) == total_upto(b, n),
    decreases n,
{
    if n > 0 {
        lemma_total_upto_prefix(a, b, n - 1);
    }
}

/// Where every label is one of the distinct keys, the sums under the keys
/// add up to the sum of the counts.
pub proof fn lemma_sum_by_key(
    keys: Seq<Seq<u64>>,
    labels: Seq<Seq<u64>>,
    vals: Seq<usize>,
    n: int,
)
    requires
        distinct(keys),
        0 <= n <= labels.len(),
        n <= vals.len(),
        forall|i: int| 0 <= i < n ==> label_among(keys, keys.len() as int, #[trigger] labels[i]),
    ensures
        sum_by_key(keys, labels, vals, n, keys.len() as int) == total_upto(vals, n),
    decreases n,
{
    if n <= 0 {
        lemma_sum_by_key_zero(keys, labels, vals, n, keys.len() as int);
    } else {
        lemma_sum_by_key(keys, labels, vals, n - 1);
        lemma_sum_by_key_step(keys, labels, vals, n, keys.len() as int);
        lemma_times_among(keys, keys.len() as int, labels[n - 1]);
        assert(vals[n - 1] * 1 == vals[n - 1]) by (nonlinear_arith);
    }
}

/// No counts add up to nothing under every key.
pub proof fn lemma_sum_by_key_zero(
    keys: Seq<Seq<u64>>,
    labels: Seq<Seq<u64>>,
    vals: Seq<usize>,
    n: int,
    upto: int,
)
    requires
        n <= 0,
    ensures
        sum_by_key(keys, labels, vals, n, upto) == 0,
    decreases upto,
{
    if upto > 0 {
        lemma_sum_by_key_zero(keys, labels, vals, n, upto - 1);
    }
}

/// What the counts add up to under one label is no more than what they add
/// up to at all.
pub proof fn lemma_class_sum_bound(
    labels: Seq<Seq<u64>>,
    vals: Seq<usize>,
    n: int,
    label: Seq<u64>,
)
    ensures
        0 <= class_sum(labels, vals, n, label) <= total_upto(vals, n),
    decreases n,
{
    if n > 0 {
        lemma_class_sum_bound(labels, vals, n - 1, label);
    }
}

/// The counts of a merged table add up to what the sums under its keys add
/// up to, as long as no sum is beyond `usize::MAX`.
pub proof fn lemma_merged_total(
    merged: &Counts,
    labels: Seq<Seq<u64>>,
    vals: Seq<usize>,
    upto: int,
)
    requires
        merged_from(merged, labels, vals),
        labels.len() == vals.len(),
        total_of(vals) <= usize::MAX,
        0 <= upto <= merged.keys@.len(),
    ensures
        total_upto(merged.vals@, upto) == sum_by_key(
            crate::counts::views(merged.keys@),
            labels,
            vals,
            labels.len() as int,
            upto,
        ),
    decreases upto,
{
    if upto > 0 {
        lemma_merged_total(merged, labels, vals, upto - 1);
        let keys = crate::counts::views(merged.keys@);
        let key = keys[upto - 1];
        assert(merged.keys@[upto - 1]@ == key);
        assert(merged.contains(key));
        assert(merged.index_of(key) == upto - 1);
        assert(merged.count(key) == merged.vals@[upto - 1]);
        assert(merged.count(key) == capped(class_sum(labels, vals, labels.len() as int, key)));
        lemma_class_sum_bound(labels, vals, labels.len() as int, key);
        lemma_total_upto(vals);
        assert(total_upto(merged.vals@, upto) == total_upto(merged.vals@, upto - 1)
            + merged.vals@[upto - 1]);
    }
}

/// Merging counts under labels keeps their sum, as long as the sum is not
/// beyond `usize::MAX`.
pub proof fn theorem_merge_keeps_total(merged: &Counts, labels: Seq<Seq<u64>>, vals: Seq<usize>)
    requires
        merged_from(merged, labels, vals),
        labels.len() == vals.len(),
        total_of(vals) <= usize::MAX,
    ensures
        total_of(merged.vals@) == total_of(vals),
{
    let keys = crate::counts::views(merged.keys@);
    lemma_merged_total(merged, labels, vals, merged.keys@.len() as int);
    lemma_total_upto(merged.vals@);
    lemma_total_upto(vals);
    assert(distinct(keys)) by {
        assert forall|i: int, j: int| 0 <= i < j < keys.len() implies keys[i] != keys[j] by {
            assert(merged.keys@[i]@ != merged.keys@[j]@);
        }
    }
    assert forall|i: int| 0 <= i < labels.len() implies label_among(
        keys,
        keys.len() as int,
        #[trigger] labels[i],
    ) by {
        assert(labels[i] == labels[i]);
        assert(label_among(labels, labels.len() as int, labels[i]));
        assert(merged.contains(labels[i]));
        let at = merged.index_of(labels[i]);
        assert(keys[at] == labels[i]);
    }
    lemma_sum_by_key(keys, labels, vals, labels.len() as int);
}

/// A count of one for each of `n` subgraphs.
pub open spec fn ones(n: nat) -> Seq<usize> {
    Seq::new(n, |i: int| 1usize)
}

/// Counting the subgraphs with an adjacency is adding up a one for each of
/// them.
pub proof fn lemma_tally_is_class_sum(g: Adjacency, subs: Seq<Seq<usize>>, n: int, key: Seq<u64>)
    requires
        0 <= n <= subs.len(),
    ensures
        class_sum(patterns(g, subs), ones(subs.len()), n, key) == tally(g, subs.take(n), key),
    decreases n,
{
    if n > 0 {
        lemma_tally_is_class_sum(g, subs, n - 1, key);
        assert(subs.take(n).drop_last() =~= subs.take(n - 1));
        assert(subs.take(n).last() == subs[n - 1]);
    } else {
        assert(subs.take(n) =~= Seq::<Seq<usize>>::empty());
    }
}

/// The ones of `n` subgraphs add up to `n`.
pub proof fn lemma_total_of_ones(n: nat, upto: int)
    requires
        0 <= upto <= n,
    ensures
        total_upto(ones(n), upto) == upto,
    decreases upto,
{
    if upto > 0 {
        lemma_total_of_ones(n, upto - 1);
    }
}

/// A table that counts subgraphs under their adjacencies is the merge of a
/// one for each subgraph under its adjacency.
pub proof fn lemma_counts_are_merged(r: &EnumResult, g: Adjacency, k: nat)
    requires
        r.counts_patterns_of(g, k),
        subgraphs(g, k).len() <= usize::MAX,
    ensures
        merged_from(
            &r.canon_counts,
            patterns(g, subgraphs(g, k)),
            ones(subgraphs(g, k).len()),
        ),
{
    let subs = subgraphs(g, k);
    let labels = patterns(g, subs);
    let n = subs.len() as int;
    assert(subs.take(n) =~= subs);
    assert forall|label: Seq<u64>| #[trigger]
        r.canon_counts.count(label) == capped(class_sum(labels, ones(subs.len()), n, label)) by {
        lemma_tally_is_class_sum(g, subs, n, label);
        lemma_tally_bound(g, subs, label);
    }
    assert forall|label: Seq<u64>| #[trigger]
        r.canon_counts.contains(label) == label_among(labels, n, label) by {
        lemma_tally_bound(g, subs, label);
        lemma_tally_positive(g, subs, label);
        assert(r.canon_counts.count(label) == capped(tally(g, subs, label) as int));
        if r.canon_counts.contains(label) {
            let at = r.canon_counts.index_of(label);
            assert(r.canon_counts.vals@[at] > 0);
        }
    }
}

/// An adjacency is counted at least once exactly if a subgraph shows it.
pub proof fn lemma_tally_positive(g: Adjacency, subs: Seq<Seq<usize>>, key: Seq<u64>)
    ensures
        (tally(g, subs, key) > 0) == label_among(patterns(g, subs), subs.len() as int, key),
    decreases subs.len(),
{
    let labels = patterns(g, subs);
    if subs.len() > 0 {
        let front = subs.drop_last();
        lemma_tally_positive(g, front, key);
        let shorter = patterns(g, front);
        if label_among(shorter, front.len() as int, key) {
            let i = choose|i: int|
                0 <= i < front.len() && i < shorter.len() && #[trigger] shorter[i] == key;
            assert(labels[i] == key);
        }
        if pattern_of(g, subs.last()) == key {
            assert(labels[subs.len() - 1] == key);
        }
        if label_among(labels, subs.len() as int, key) {
            let i = choose|i: int|
                0 <= i < subs.len() && i < labels.len() && #[trigger] labels[i] == key;
            if i < front.len() {
                assert(shorter[i] == key);
            }
        }
    }
}

/// The counts of an enumeration add up to its total, as long as the total
/// is not beyond `usize::MAX`.
pub proof fn theorem_total_is_sum(r: &EnumResult, g: Adjacency, k: nat)
    requires
        r.counts_patterns_of(g, k),
        subgraphs(g, k).len() <= usize::MAX,
    ensures
        total_of(r.canon_counts.vals@) == r.num_subgraphs,
        r.num_subgraphs == subgraphs(g, k).len(),
{
    let n = subgraphs(g, k).len();
    lemma_counts_are_merged(r, g, k);
    lemma_total_of_ones(n, n as int);
    lemma_total_upto(ones(n));
    theorem_merge_keeps_total(&r.canon_counts, patterns(g, subgraphs(g, k)), ones(n));
}

/// After the keys of an enumeration have been replaced by labels, the
/// counts still add up to the total.
pub proof fn theorem_total_is_sum_of_labels(
    r: &EnumResult,
    g: Adjacency,
    k: nat,
    labels: Seq<Seq<u64>>,
    out: &EnumResult,
)
    requires
        r.counts_patterns_of(g, k),
        subgraphs(g, k).len() <= usize::MAX,
        labels.len() == r.canon_counts.vals@.len(),
        merged_from(&out.canon_counts, labels, r.canon_counts.vals@),
        out.num_subgraphs == r.num_subgraphs,
    ensures
        total_of(out.canon_counts.vals@) == out.num_subgraphs,
{
    theorem_total_is_sum(r, g, k);
    theorem_merge_keeps_total(&out.canon_counts, labels, r.canon_counts.vals@);
}

/// Two enumerations of the same graph for the same size agree: in the
/// total, in the adjacencies and their order, and in the count of every
/// adjacency. So do the enumeration of one root after the other and the
/// enumeration on several threads, and an enumeration that is run twice.
pub proof fn theorem_counts_determined(a: &EnumResult, b: &EnumResult, g: Adjacency, k: nat)
    requires
        a.counts_patterns_of(g, k),
        b.counts_patterns_of(g, k),
    ensures
        a.num_subgraphs == b.num_subgraphs,
        forall|key: Seq<u64>| a.canon_counts.count(key) == b.canon_counts.count(key),
        forall|key: Seq<u64>| a.canon_counts.contains(key) == b.canon_counts.contains(key),
        crate::counts::views(a.canon_counts.keys@) == crate::counts::views(b.canon_counts.keys@),
        a.canon_counts.vals@ == b.canon_counts.vals@,
{
    let keys_a = crate::counts::views(a.canon_counts.keys@);
    let keys_b = crate::counts::views(b.canon_counts.keys@);
    assert(keys_a == keys_b);
    assert(a.canon_counts.keys@.len() == keys_a.len());
    assert(b.canon_counts.keys@.len() == keys_b.len());
    assert forall|i: int| 0 <= i < a.canon_counts.vals@.len() implies a.canon_counts.vals@[i]
        == b.canon_counts.vals@[i] by {
        let key = keys_a[i];
        assert(a.canon_counts.keys@[i]@ == key);
        assert(b.canon_counts.keys@[i]@ == keys_b[i]);
        assert(a.canon_counts.contains(key));
        assert(b.canon_counts.contains(key));
        assert(a.canon_counts.index_of(key) == i);
        assert(b.canon_counts.index_of(key) == i);
        assert(a.canon_counts.count(key) == capped(tally(g, subgraphs(g, k), key) as int));
        assert(b.canon_counts.count(key) == capped(tally(g, subgraphs(g, k), key) as int));
    }
    assert(a.canon_counts.vals@ =~= b.canon_counts.vals@);
    assert forall|key: Seq<u64>| a.canon_counts.count(key) == b.canon_counts.count(key) by {
        assert(a.canon_counts.count(key) == capped(tally(g, subgraphs(g, k), key) as int));
        assert(b.canon_counts.count(key) == capped(tally(g, subgraphs(g, k), key) as int));
    }
    assert forall|key: Seq<u64>| a.canon_counts.contains(key) == b.canon_counts.contains(
        key,
    ) by {
        lemma_contains_is_positive(&a.canon_counts, key);
        lemma_contains_is_positive(&b.canon_counts, key);
        assert(a.canon_counts.count(key) == b.canon_counts.count(key));
    }
}

/// In a table without zero counts a key has an entry exactly if its count
/// is not zero.
pub proof fn lemma_contains_is_positive(table: &Counts, key: Seq<u64>)
    requires
        table.wf(),
        table.positive(),
    ensures
        table.contains(key) == (table.count(key) > 0),
{
    if table.contains(key) {
        let at = table.index_of(key);
        assert(table.vals@[at] > 0);
    }
}

/// How many of the subgraphs `subs` have an adjacency that `label_of` gives
/// the label `label`.
pub open spec fn label_tally(
    g: Adjacency,
    subs: Seq<Seq<usize>>,
    label_of: spec_fn(Seq<u64>) -> Seq<u64>,
    label: Seq<u64>,
) -> nat
    decreases subs.len(),
{
    if subs.len() == 0 {
        0
    } else {
        label_tally(g, subs.drop_last(), label_of, label) + if label_of(
            pattern_of(g, subs.last()),
        ) == label {
            1nat
        } else {
            0nat
        }
    }
}

/// The sum, over the first `upto` keys with the label `label`, of what the
/// first `n` counts add up to under the key.
pub open spec fn sum_by_label(
    keys: Seq<Seq<u64>>,
    label_of: spec_fn(Seq<u64>) -> Seq<u64>,
    firsts: Seq<Seq<u64>>,
    vals: Seq<usize>,
    n: int,
    upto: int,
    label: Seq<u64>,
) -> int
    decreases upto,
{
    if upto <= 0 {
        0
    } else {
        sum_by_label(keys, label_of, firsts, vals, n, upto - 1, label) + if label_of(
            keys[upto - 1],
        ) == label {
            class_sum(firsts, vals, n, keys[upto - 1])
        } else {
            0
        }
    }
}

/// One more count adds itself to the sum as often as its key is a key with
/// the label.
pub proof fn lemma_sum_by_label_step(
    keys: Seq<Seq<u64>>,
    label_of: spec_fn(Seq<u64>) -> Seq<u64>,
    firsts: Seq<Seq<u64>>,
    vals: Seq<usize>,
    n: int,
    upto: int,
    label: Seq<u64>,
)
    requires
        n >= 1,
        0 <= upto <= keys.len(),
    ensures
        sum_by_label(keys, label_of, firsts, vals, n, upto, label) == sum_by_label(
            keys,
            label_of,
            firsts,
            vals,
            n - 1,
            upto,
            label,
        ) + if label_of(firsts[n - 1]) == label {
            vals[n - 1] * times_among(keys, upto, firsts[n - 1])
        } else {
            0
        },
    decreases upto,
{
    if upto > 0 {
        lemma_sum_by_label_step(keys, label_of, firsts, vals, n, upto - 1, label);
        let a = times_among(keys, upto - 1, firsts[n - 1]);
        assert(vals[n - 1] * (a + 1) == vals[n - 1] * a + vals[n - 1]) by (nonlinear_arith);
        assert(vals[n - 1] * (a + 0) == vals[n - 1] * a) by (nonlinear_arith);
    } else {
        assert(vals[n - 1] * 0 == 0) by (nonlinear_arith);
    }
}

/// No counts add up to nothing under every label.
pub proof fn lemma_sum_by_label_zero(
    keys: Seq<Seq<u64>>,
    label_of: spec_fn(Seq<u64>) -> Seq<u64>,
    firsts: Seq<Seq<u64>>,
    vals: Seq<usize>,
    n: int,
    upto: int,
    label: Seq<u64>,
)
    requires
        n <= 0,
    ensures
        sum_by_label(keys, label_of, firsts, vals, n, upto, label) == 0,
    decreases upto,
{
    if upto > 0 {
        lemma_sum_by_label_zero(keys, label_of, firsts, vals, n, upto - 1, label);
    }
}

/// Counts that are merged under keys and then under the labels of the keys
/// add up, under a label, to what they add up to when each is put under the
/// label of its key at once.
pub proof fn lemma_merge_twice(
    keys: Seq<Seq<u64>>,
    label_of: spec_fn(Seq<u64>) -> Seq<u64>,
    firsts: Seq<Seq<u64>>,
    vals: Seq<usize>,
    n: int,
    label: Seq<u64>,
)
    requires
        distinct(keys),
        0 <= n <= firsts.len(),
        n <= vals.len(),
        forall|i: int| 0 <= i < n ==> label_among(keys, keys.len() as int, #[trigger] firsts[i]),
    ensures
        sum_by_label(keys, label_of, firsts, vals, n, keys.len() as int, label) == class_sum(
            Seq::new(firsts.len(), |i: int| label_of(firsts[i])),
            vals,
            n,
            label,
        ),
    decreases n,
{
    if n <= 0 {
        lemma_sum_by_label_zero(keys, label_of, firsts, vals, n, keys.len() as int, label);
    } else {
        lemma_merge_twice(keys, label_of, firsts, vals, n - 1, label);
        lemma_sum_by_label_step(keys, label_of, firsts, vals, n, keys.len() as int, label);
        lemma_times_among(keys, keys.len() as int, firsts[n - 1]);
        assert(vals[n - 1] * 1 == vals[n - 1]) by (nonlinear_arith);
    }
}

/// Adding up ones under the labels of the adjacencies is counting the
/// subgraphs by label.
pub proof fn lemma_label_tally_is_class_sum(
    g: Adjacency,
    subs: Seq<Seq<usize>>,
    label_of: spec_fn(Seq<u64>) -> Seq<u64>,
    n: int,
    label: Seq<u64>,
)
    requires
        0 <= n <= subs.len(),
    ensures
        class_sum(
            Seq::new(patterns(g, subs).len(), |i: int| label_of(patterns(g, subs)[i])),
            ones(subs.len()),
            n,
            label,
        ) == label_tally(g, subs.take(n), label_of, label),
    decreases n,
{
    if n > 0 {
        lemma_label_tally_is_class_sum(g, subs, label_of, n - 1, label);
        assert(subs.take(n).drop_last() =~= subs.take(n - 1));
        assert(subs.take(n).last() == subs[n - 1]);
    } else {
        assert(subs.take(n) =~= Seq::<Seq<usize>>::empty());
    }
}

/// No label is counted more often than there are subgraphs.
pub proof fn lemma_label_tally_bound(
    g: Adjacency,
    subs: Seq<Seq<usize>>,
    label_of: spec_fn(Seq<u64>) -> Seq<u64>,
    label: Seq<u64>,
)
    ensures
        label_tally(g, subs, label_of, label) <= subs.len(),
    decreases subs.len(),
{
    if subs.len() > 0 {
        lemma_label_tally_bound(g, subs.drop_last(), label_of, label);
    }
}

/// The sums under the labels of the keys, as `class_sum` and as
/// `sum_by_label` have them, are the same.
pub proof fn lemma_class_sum_by_label(
    table: &Counts,
    labels: Seq<Seq<u64>>,
    label_of: spec_fn(Seq<u64>) -> Seq<u64>,
    firsts: Seq<Seq<u64>>,
    ones: Seq<usize>,
    upto: int,
    label: Seq<u64>,
)
    requires
        merged_from(table, firsts, ones),
        firsts.len() == ones.len(),
        total_of(ones) <= usize::MAX,
        labels.len() == table.keys@.len(),
        forall|i: int| 0 <= i < labels.len() ==> #[trigger] labels[i] == label_of(table.keys@[i]@),
        0 <= upto <= table.keys@.len(),
    ensures
        class_sum(labels, table.vals@, upto, label) == sum_by_label(
            crate::counts::views(table.keys@),
            label_of,
            firsts,
            ones,
            firsts.len() as int,
            upto,
            label,
        ),
    decreases upto,
{
    if upto > 0 {
        lemma_class_sum_by_label(table, labels, label_of, firsts, ones, upto - 1, label);
        let keys = crate::counts::views(table.keys@);
        let key = keys[upto - 1];
        assert(table.keys@[upto - 1]@ == key);
        assert(table.contains(key));
        assert(table.index_of(key) == upto - 1);
        assert(table.count(key) == table.vals@[upto - 1]);
        assert(table.count(key) == capped(class_sum(firsts, ones, firsts.len() as int, key)));
        lemma_class_sum_bound(firsts, ones, firsts.len() as int, key);
        lemma_total_upto(ones);
        assert(labels[upto - 1] == label_of(key));
    }
}

/// The count of a label is the number of subgraphs whose adjacency has that
/// label, whatever the order in which the adjacencies came, as long as the
/// labels of the keys are those of one labelling. So a table that keeps what
/// the labelling said of an adjacency, to spare asking again, changes no
/// count.
pub proof fn theorem_label_counts(
    r: &EnumResult,
    g: Adjacency,
    k: nat,
    labels: Seq<Seq<u64>>,
    out: &Counts,
    label_of: spec_fn(Seq<u64>) -> Seq<u64>,
    label: Seq<u64>,
)
    requires
        r.counts_patterns_of(g, k),
        subgraphs(g, k).len() <= usize::MAX,
        labels.len() == r.canon_counts.keys@.len(),
        forall|i: int|
            0 <= i < labels.len() ==> #[trigger] labels[i] == label_of(r.canon_counts.keys@[i]@),
        merged_from(out, labels, r.canon_counts.vals@),
    ensures
        out.count(label) == label_tally(g, subgraphs(g, k), label_of, label),
{
    let subs = subgraphs(g, k);
    let n = subs.len();
    let firsts = patterns(g, subs);
    let table = &r.canon_counts;
    let keys = crate::counts::views(table.keys@);
    lemma_counts_are_merged(r, g, k);
    lemma_total_of_ones(n, n as int);
    lemma_total_upto(ones(n));
    lemma_class_sum_by_label(
        table,
        labels,
        label_of,
        firsts,
        ones(n),
        table.keys@.len() as int,
        label,
    );
    assert(distinct(keys)) by {
        assert forall|i: int, j: int| 0 <= i < j < keys.len() implies keys[i] != keys[j] by {
            assert(table.keys@[i]@ != table.keys@[j]@);
        }
    }
    assert forall|i: int| 0 <= i < n implies label_among(
        keys,
        keys.len() as int,
        #[trigger] firsts[i],
    ) by {
        assert(firsts[i] == firsts[i]);
        assert(label_among(firsts, firsts.len() as int, firsts[i]));
        assert(table.contains(firsts[i]));
        let at = table.index_of(firsts[i]);
        assert(keys[at] == firsts[i]);
    }
    lemma_merge_twice(keys, label_of, firsts, ones(n), n as int, label);
    lemma_label_tally_is_class_sum(g, subs, label_of, n as int, label);
    assert(subs.take(n as int) =~= subs);
    lemma_label_tally_bound(g, subs, label_of, label);
    assert(out.count(label) == capped(
        class_sum(labels, table.vals@, labels.len() as int, label),
    ));
}

} // verus!
