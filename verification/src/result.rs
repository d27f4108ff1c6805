//! What an enumeration hands back.
use crate::bitgraph::Adjacency;
use crate::counts::{capped, first_seen, views, Counts};
use crate::groups::{group_key, make_group_key, split_group_key, Groups};
use crate::search::{group_keys, group_tally};
use crate::model::subgraphs;
use crate::pattern::{patterns, tally};
use vstd::prelude::*;

verus! {

/// Why a request could not be served.
#[derive(Debug, Clone, Copy, PartialEq, Eq, Structural)]
pub enum EsuError {
    /// The motif size is below two.
    MotifTooSmall,
    /// The motif size is beyond what the dense buffer can hold.
    MotifTooLarge,
    /// The labels offered for the keys of a table are not one per key, or
    /// one of them has not the length of its key.
    LabelMismatch,
}

/// The sum of the counts, among the first `upto`, whose label is `label`.
pub open spec fn class_sum(labels: Seq<Seq<u64>>, vals: Seq<usize>, upto: int, label: Seq<u64>) -> int
    decreases upto,
{
    if upto <= 0 {
        0
    } else {
        class_sum(labels, vals, upto - 1, label) + if labels[upto - 1] == label {
            vals[upto - 1] as int
        } else {
            0
        }
    }
}

/// Whether one of the first `upto` labels is `label`.
pub open spec fn label_among(labels: Seq<Seq<u64>>, upto: int, label: Seq<u64>) -> bool {
    exists|i: int| 0 <= i < upto && i < labels.len() && #[trigger] labels[i] == label
}

/// Whether `merged` holds the counts `vals` added up by label, `labels[i]`
/// being the label of `vals[i]`: it has an entry for every label that occurs
/// and for no other, with the sum of the counts under that label. A sum
/// beyond `usize::MAX` is held as `usize::MAX`.
pub open spec fn merged_from(merged: &Counts, labels: Seq<Seq<u64>>, vals: Seq<usize>) -> bool {
    &&& merged.wf()
    &&& forall|label: Seq<u64>| #[trigger]
        merged.count(label) == capped(class_sum(labels, vals, labels.len() as int, label))
    &&& forall|label: Seq<u64>| #[trigger]
        merged.contains(label) == label_among(labels, labels.len() as int, label)
    &&& views(merged.keys@) == first_seen(Seq::empty(), labels)
}

/// The counts `vals` added up by label: `labels[i]` is the label of
/// `vals[i]`, and counts with the same label are counted together.
pub fn merge_by_label(labels: &Vec<Vec<u64>>, vals: &Vec<usize>) -> (merged: Counts)
    requires
        labels@.len() == vals@.len(),
    ensures
        merged_from(&merged, views(labels@), vals@),
{
    let mut merged = Counts::new();
    let ghost all = views(labels@);
    let mut i: usize = 0;
    proof {
        assert(views(merged.keys@) =~= Seq::<Seq<u64>>::empty());
        assert(all.take(0) =~= Seq::<Seq<u64>>::empty());
    }
    while i < labels.len()
        invariant
            i <= labels@.len(),
            labels@.len() == vals@.len(),
            all == views(labels@),
            merged.wf(),
            forall|label: Seq<u64>| #[trigger]
                merged.count(label) == capped(class_sum(all, vals@, i as int, label)),
            forall|label: Seq<u64>| #[trigger]
                merged.contains(label) == label_among(all, i as int, label),
            views(merged.keys@) == first_seen(Seq::empty(), all.take(i as int)),
        decreases labels@.len() - i,
    {
        let ghost before = merged;
        merged.add(&labels[i], vals[i]);
        i += 1;
        proof {
            let here = labels@[i - 1]@;
            assert(all[i - 1] == here);
            assert(all.take(i as int) =~= all.take(i - 1) + seq![here]);
            crate::counts::lemma_first_seen_concat(Seq::empty(), all.take(i - 1), seq![here]);
            assert forall|label: Seq<u64>| #[trigger]
                merged.count(label) == capped(class_sum(all, vals@, i as int, label)) by {
                lemma_class_sum_nonneg(all, vals@, i - 1, label);
                assert(before.count(label) == capped(class_sum(all, vals@, i - 1, label)));
            }
            assert forall|label: Seq<u64>| #[trigger]
                merged.contains(label) == label_among(all, i as int, label) by {
                assert(before.contains(label) == label_among(all, i - 1, label));
                if label_among(all, i as int, label) {
                    let t = choose|t: int|
                        0 <= t < i && t < all.len() && #[trigger] all[t] == label;
                    if t < i - 1 {
                        assert(label_among(all, i - 1, label));
                    }
                }
                if label_among(all, i - 1, label) {
                    let t = choose|t: int|
                        0 <= t < i - 1 && t < all.len() && #[trigger] all[t] == label;
                    assert(all[t] == label);
                }
                if label == here {
                    assert(all[i - 1] == label);
                }
            }
        }
    }
    proof {
        assert(all.take(labels@.len() as int) =~= all);
    }
    merged
}

/// Whether `labels` offers one label for each of `keys`, of the key's length.
pub open spec fn labels_fit(labels: Seq<Vec<u64>>, keys: Seq<Vec<u64>>) -> bool {
    &&& labels.len() == keys.len()
    &&& forall|i: int| 0 <= i < keys.len() ==> (#[trigger] labels[i])@.len() == keys[i]@.len()
}

/// Tests `labels_fit`.
pub fn check_labels(labels: &Vec<Vec<u64>>, keys: &Vec<Vec<u64>>) -> (r: bool)
    ensures
        r == labels_fit(labels@, keys@),
{
    if labels.len() != keys.len() {
        return false;
    }
    let mut i: usize = 0;
    while i < keys.len()
        invariant
            i <= keys@.len(),
            labels@.len() == keys@.len(),
            forall|t: int| 0 <= t < i ==> (#[trigger] labels@[t])@.len() == keys@[t]@.len(),
        decreases keys@.len() - i,
    {
        if labels[i].len() != keys[i].len() {
            return false;
        }
        i += 1;
    }
    true
}

#[derive(Debug)]
pub struct EnumResult {
    pub canon_counts: Counts,
    pub num_subgraphs: usize,
}

impl EnumResult {
    /// Whether this is the count of the connected subgraphs of `k` vertices
    /// of `g`, in the order in which the search of one root after the other
    /// meets them, each under its dense adjacency.
    pub open spec fn counts_patterns_of(&self, g: Adjacency, k: nat) -> bool {
        self.tallies(g, subgraphs(g, k))
    }

    /// Whether this is the count of the subgraphs `subs` of `g`, each under
    /// its dense adjacency: the total is their number, the keys are their
    /// adjacencies in the order in which they first come, and every
    /// adjacency has the count of the subgraphs that show it. A number
    /// beyond `usize::MAX` is held as `usize::MAX`.
    pub open spec fn tallies(&self, g: Adjacency, subs: Seq<Seq<usize>>) -> bool {
        &&& self.canon_counts.wf()
        &&& self.canon_counts.positive()
        &&& views(self.canon_counts.keys@) == first_seen(Seq::empty(), patterns(g, subs))
        &&& self.num_subgraphs == capped(subs.len() as int)
        &&& forall|key: Seq<u64>| #[trigger]
            self.canon_counts.count(key) == capped(tally(g, subs, key) as int)
    }

    pub fn new(canon_counts: Counts, num_subgraphs: usize) -> (r: Self)
        ensures
            r.canon_counts == canon_counts,
            r.num_subgraphs == num_subgraphs,
    {
        Self { canon_counts, num_subgraphs }
    }

    /// The count of every key.
    pub fn counts(&self) -> (r: &Counts)
        ensures
            *r == self.canon_counts,
    {
        &self.canon_counts
    }

    /// The number of subgraphs that were counted.
    pub fn total_subgraphs(&self) -> (r: usize)
        ensures
            r == self.num_subgraphs,
    {
        self.num_subgraphs
    }

    /// The number of keys under which they were counted.
    pub fn unique_subgraphs(&self) -> (r: usize)
        ensures
            r == self.canon_counts.keys@.len(),
    {
        self.canon_counts.len()
    }

    /// The same counts under new keys: `labels[i]` replaces the key at index
    /// `i`, and keys that get the same label are counted together. This is
    /// how counts by dense adjacency become counts by canonical form, once a
    /// canonical form is known for each adjacency.
    pub fn relabel(&self, labels: &Vec<Vec<u64>>) -> (r: Result<EnumResult, EsuError>)
        requires
            self.canon_counts.wf(),
        ensures
            labels_fit(labels@, self.canon_counts.keys@) ==> r.is_ok(),
            !labels_fit(labels@, self.canon_counts.keys@) ==> r == Err::<EnumResult, EsuError>(
                EsuError::LabelMismatch,
            ),
            r.is_ok() ==> r.unwrap().num_subgraphs == self.num_subgraphs && merged_from(
                &r.unwrap().canon_counts,
                views(labels@),
                self.canon_counts.vals@,
            ),
    {
        if !check_labels(labels, &self.canon_counts.keys) {
            return Err(EsuError::LabelMismatch);
        }
        let merged = merge_by_label(labels, &self.canon_counts.vals);
        Ok(EnumResult { canon_counts: merged, num_subgraphs: self.num_subgraphs })
    }
}

/// What a canonical labelling says of one dense adjacency.
#[derive(Debug)]
pub struct Canon {
    /// The canonical adjacency.
    pub canon: Vec<u64>,
    /// For every position of the subgraph, the label of its vertex.
    pub lab: Vec<i32>,
    /// For every position of the subgraph, the orbit of its vertex.
    pub orbits: Vec<i32>,
}

/// Whether `labels` offers a labelling for each of `keys`, with a canonical
/// adjacency of the key's length.
pub open spec fn canons_fit(labels: Seq<Canon>, keys: Seq<Vec<u64>>) -> bool {
    &&& labels.len() == keys.len()
    &&& forall|i: int| 0 <= i < keys.len() ==> (#[trigger] labels[i]).canon@.len() == keys[i]@.len()
}

/// Tests `canons_fit`.
pub fn check_canons(labels: &Vec<Canon>, keys: &Vec<Vec<u64>>) -> (r: bool)
    ensures
        r == canons_fit(labels@, keys@),
{
    if labels.len() != keys.len() {
        return false;
    }
    let mut i: usize = 0;
    while i < keys.len()
        invariant
            i <= keys@.len(),
            labels@.len() == keys@.len(),
            forall|t: int| 0 <= t < i ==> (#[trigger] labels@[t]).canon@.len() == keys@[t]@.len(),
        decreases keys@.len() - i,
    {
        if labels[i].canon.len() != keys[i].len() {
            return false;
        }
        i += 1;
    }
    true
}

/// The key of a position once its subgraph has its canonical labelling. The
/// old key holds the dense adjacency of the subgraph and, as vertex label,
/// the position. The new key holds the canonical adjacency and what the
/// labelling says of that position: the label and the orbit of its vertex.
/// There is none where the old key is no key of a position, where `counts`
/// does not know its adjacency, or where the labelling does not reach the
/// position.
pub open spec fn canonical_key(key: Seq<u64>, counts: &Counts, labels: Seq<Canon>) -> Option<
    Seq<u64>,
> {
    if key.len() < 2 || key[key.len() - 2] > 0xffff_ffff || key[key.len() - 1] > 0xffff_ffff {
        None
    } else {
        let words = key.take(key.len() - 2);
        let position = key[key.len() - 2] - 0x8000_0000;
        if !counts.contains(words) {
            None
        } else {
            let at = counts.index_of(words);
            if at >= labels.len() || position < 0 || position >= labels[at].lab@.len() || position
                >= labels[at].orbits@.len() {
                None
            } else {
                Some(
                    group_key(
                        labels[at].canon@,
                        labels[at].lab@[position] as int,
                        labels[at].orbits@[position] as int,
                    ),
                )
            }
        }
    }
}

/// `canonical_key`, computed.
pub fn map_group_key(key: &Vec<u64>, counts: &Counts, labels: &Vec<Canon>) -> (r: Option<Vec<u64>>)
    requires
        counts.wf(),
    ensures
        r.is_some() == canonical_key(key@, counts, labels@).is_some(),
        r.is_some() ==> r.unwrap()@ == canonical_key(key@, counts, labels@).unwrap(),
{
    let len = key.len();
    if len < 2 || key[len - 2] > 0xffff_ffff || key[len - 1] > 0xffff_ffff {
        return None;
    }
    let mut words: Vec<u64> = Vec::with_capacity(len - 2);
    let mut i: usize = 0;
    while i < len - 2
        invariant
            i <= len - 2,
            len == key@.len(),
            words@ == key@.take(i as int),
        decreases len - 2 - i,
    {
        words.push(key[i]);
        i += 1;
        assert(words@ =~= key@.take(i as int));
    }
    if key[len - 2] < 0x8000_0000 {
        return None;
    }
    let position = key[len - 2] - 0x8000_0000;
    match counts.position(&words) {
        None => None,
        Some(at) => {
            if at >= labels.len() {
                return None;
            }
            let label = &labels[at];
            if position >= label.lab.len() as u64 || position >= label.orbits.len() as u64 {
                return None;
            }
            let spot = position as usize;
            Some(make_group_key(&label.canon, label.lab[spot], label.orbits[spot]))
        },
    }
}

/// The keys of `table` under the canonical labelling, entry by entry.
pub open spec fn canonical_keys(table: &Counts, counts: &Counts, labels: Seq<Canon>) -> Seq<
    Seq<u64>,
> {
    Seq::new(table.keys@.len(), |i: int| canonical_key(table.keys@[i]@, counts, labels).unwrap())
}

/// Whether every key of `table` has a key under the canonical labelling.
pub open spec fn table_maps(table: &Counts, counts: &Counts, labels: Seq<Canon>) -> bool {
    forall|i: int|
        0 <= i < table.keys@.len() ==> canonical_key(
            #[trigger] table.keys@[i]@,
            counts,
            labels,
        ).is_some()
}

/// The table of a vertex under the canonical labelling: every key is
/// replaced, and positions that come to the same key are counted together.
/// There is none where a key has no replacement.
pub fn relabel_table(table: &Counts, counts: &Counts, labels: &Vec<Canon>) -> (r: Option<Counts>)
    requires
        table.wf(),
        counts.wf(),
    ensures
        r.is_some() == table_maps(table, counts, labels@),
        r.is_some() ==> merged_from(
            &r.unwrap(),
            canonical_keys(table, counts, labels@),
            table.vals@,
        ),
{
    let mut mapped: Vec<Vec<u64>> = Vec::with_capacity(table.len());
    let mut i: usize = 0;
    while i < table.keys.len()
        invariant
            i <= table.keys@.len(),
            table.wf(),
            counts.wf(),
            mapped@.len() == i,
            forall|t: int|
                0 <= t < i ==> canonical_key(#[trigger] table.keys@[t]@, counts, labels@).is_some(),
            forall|t: int|
                0 <= t < i ==> (#[trigger] mapped@[t])@ == canonical_key(
                    table.keys@[t]@,
                    counts,
                    labels@,
                ).unwrap(),
        decreases table.keys@.len() - i,
    {
        match map_group_key(&table.keys[i], counts, labels) {
            None => {
                return None;
            },
            Some(key) => {
                mapped.push(key);
            },
        }
        i += 1;
    }
    proof {
        assert(views(mapped@) =~= canonical_keys(table, counts, labels@));
    }
    Some(merge_by_label(&mapped, &table.vals))
}

#[derive(Debug)]
pub struct GroupResult {
    pub groups: Groups,
    /// The counts of the subgraphs whose positions the groups hold.
    pub counts: Counts,
    pub num_total_subgraphs: usize,
    pub num_unique_subgraphs: usize,
}

impl GroupResult {
    /// Whether these are the positions that the vertices of `g` take in its
    /// connected subgraphs of `k` vertices, beside the counts of those
    /// subgraphs, each under its dense adjacency. The position of a vertex
    /// stands for its label and for its orbit.
    pub open spec fn positions_of(&self, g: Adjacency, k: nat) -> bool {
        &&& self.groups.wf()
        &&& self.groups.tables@.len() == g.n
        &&& self.counts.wf()
        &&& self.counts.positive()
        &&& views(self.counts.keys@) == first_seen(Seq::empty(), patterns(g, subgraphs(g, k)))
        &&& self.num_total_subgraphs == capped(subgraphs(g, k).len() as int)
        &&& self.num_unique_subgraphs == self.counts.keys@.len()
        &&& forall|key: Seq<u64>| #[trigger]
            self.counts.count(key) == capped(tally(g, subgraphs(g, k), key) as int)
        &&& forall|v: int, key: Seq<u64>|
            0 <= v < g.n ==> (#[trigger] self.groups.tables@[v].count(key)) == capped(
                group_tally(g, subgraphs(g, k), v, key) as int,
            )
        &&& forall|v: int|
            0 <= v < g.n ==> views((#[trigger] self.groups.tables@[v]).keys@) == first_seen(
                Seq::empty(),
                group_keys(g, subgraphs(g, k), v),
            )
    }

    pub fn new(
        groups: Groups,
        counts: Counts,
        num_total_subgraphs: usize,
        num_unique_subgraphs: usize,
    ) -> (r: Self)
        ensures
            r.groups == groups,
            r.counts == counts,
            r.num_total_subgraphs == num_total_subgraphs,
            r.num_unique_subgraphs == num_unique_subgraphs,
    {
        Self { groups, counts, num_total_subgraphs, num_unique_subgraphs }
    }

    /// The table of every vertex.
    pub fn groups(&self) -> (r: &Groups)
        ensures
            *r == self.groups,
    {
        &self.groups
    }

    /// The number of subgraphs that were met.
    pub fn total_subgraphs(&self) -> (r: usize)
        ensures
            r == self.num_total_subgraphs,
    {
        self.num_total_subgraphs
    }

    /// The number of labels under which they were counted.
    pub fn unique_subgraphs(&self) -> (r: usize)
        ensures
            r == self.num_unique_subgraphs,
    {
        self.num_unique_subgraphs
    }

    /// The same positions under the canonical labelling of their subgraphs:
    /// `labels[i]` is the labelling of the adjacency at index `i` of the
    /// counts. The counts come under the canonical adjacencies, and every
    /// position under the label and the orbit that the labelling gives it.
    pub fn relabel(&self, labels: &Vec<Canon>) -> (r: Result<GroupResult, EsuError>)
        requires
            self.groups.wf(),
            self.counts.wf(),
        ensures
            r.is_ok() == (canons_fit(labels@, self.counts.keys@) && forall|v: int|
                0 <= v < self.groups.tables@.len() ==> table_maps(
                    #[trigger] &self.groups.tables@[v],
                    &self.counts,
                    labels@,
                )),
            r.is_err() ==> r == Err::<GroupResult, EsuError>(EsuError::LabelMismatch),
            r.is_ok() ==> {
                let out = r.unwrap();
                &&& out.groups.wf()
                &&& out.counts.wf()
                &&& out.groups.tables@.len() == self.groups.tables@.len()
                &&& out.num_total_subgraphs == self.num_total_subgraphs
                &&& out.num_unique_subgraphs == out.counts.keys@.len()
                &&& merged_from(
                    &out.counts,
                    Seq::new(labels@.len(), |i: int| labels@[i].canon@),
                    self.counts.vals@,
                )
                &&& forall|v: int|
                    0 <= v < out.groups.tables@.len() ==> merged_from(
                        #[trigger] &out.groups.tables@[v],
                        canonical_keys(&self.groups.tables@[v], &self.counts, labels@),
                        self.groups.tables@[v].vals@,
                    )
            },
    {
        if !check_canons(labels, &self.counts.keys) {
            return Err(EsuError::LabelMismatch);
        }
        let mut canon: Vec<Vec<u64>> = Vec::with_capacity(labels.len());
        let mut i: usize = 0;
        while i < labels.len()
            invariant
                i <= labels@.len(),
                canon@.len() == i,
                forall|t: int| 0 <= t < i ==> (#[trigger] canon@[t])@ == labels@[t].canon@,
            decreases labels@.len() - i,
        {
            canon.push(crate::counts::copy_words(&labels[i].canon));
            i += 1;
        }
        proof {
            assert(views(canon@) =~= Seq::new(labels@.len(), |i: int| labels@[i].canon@));
        }
        let counts = merge_by_label(&canon, &self.counts.vals);
        let mut tables: Vec<Counts> = Vec::with_capacity(self.groups.tables.len());
        let mut v: usize = 0;
        while v < self.groups.tables.len()
            invariant
                v <= self.groups.tables@.len(),
                self.groups.wf(),
                self.counts.wf(),
                tables@.len() == v,
                forall|t: int| 0 <= t < v ==> (#[trigger] tables@[t]).wf(),
                forall|t: int|
                    0 <= t < v ==> table_maps(
                        #[trigger] &self.groups.tables@[t],
                        &self.counts,
                        labels@,
                    ),
                forall|t: int|
                    0 <= t < v ==> merged_from(
                        #[trigger] &tables@[t],
                        canonical_keys(&self.groups.tables@[t], &self.counts, labels@),
                        self.groups.tables@[t].vals@,
                    ),
            decreases self.groups.tables@.len() - v,
        {
            match relabel_table(&self.groups.tables[v], &self.counts, labels) {
                None => {
                    return Err(EsuError::LabelMismatch);
                },
                Some(table) => {
                    tables.push(table);
                },
            }
            v += 1;
        }
        let unique = counts.len();
        Ok(
            GroupResult {
                groups: Groups { tables },
                counts,
                num_total_subgraphs: self.num_total_subgraphs,
                num_unique_subgraphs: unique,
            },
        )
    }
}

/// A sum of counts is not negative.
pub proof fn lemma_class_sum_nonneg(
    labels: Seq<Seq<u64>>,
    vals: Seq<usize>,
    upto: int,
    label: Seq<u64>,
)
    ensures
        class_sum(labels, vals, upto, label) >= 0,
    decreases upto,
{
    if upto > 0 {
        lemma_class_sum_nonneg(labels, vals, upto - 1, label);
    }
}

} // verus!
