//! A table from word vectors to occurrence counts.
//!
//! The keys are kept in the order in which they first came, none twice. A
//! count that has reached `usize::MAX` stays there.
use vstd::prelude::*;

verus! {

/// `x`, or the largest `usize` if `x` is beyond it.
pub open spec fn capped(x: int) -> int {
    if x <= usize::MAX {
        x
    } else {
        usize::MAX as int
    }
}

/// The sum of the counts `vals`.
pub open spec fn total_of(vals: Seq<usize>) -> int
    decreases vals.len(),
{
    if vals.len() == 0 {
        0
    } else {
        total_of(vals.drop_last()) + vals.last()
    }
}

/// The sum of two counts, stopping at `usize::MAX`.
pub fn add_capped(a: usize, b: usize) -> (r: usize)
    ensures
        r == capped(a + b),
{
    if a <= usize::MAX - b {
        a + b
    } else {
        usize::MAX
    }
}

/// Whether two word vectors hold the same words.
pub fn same_words(a: &Vec<u64>, b: &Vec<u64>) -> (r: bool)
    ensures
        r == (a@ == b@),
{
    if a.len() != b.len() {
        return false;
    }
    let mut i: usize = 0;
    while i < a.len()
        invariant
            i <= a@.len(),
            a@.len() == b@.len(),
            forall|k: int| 0 <= k < i ==> a@[k] == b@[k],
        decreases a@.len() - i,
    {
        if a[i] != b[i] {
            return false;
        }
        i += 1;
    }
    assert(a@ =~= b@);
    true
}

/// A copy of a word vector.
pub fn copy_words(a: &Vec<u64>) -> (r: Vec<u64>)
    ensures
        r@ == a@,
{
    let mut r: Vec<u64> = Vec::with_capacity(a.len());
    let mut i: usize = 0;
    while i < a.len()
        invariant
            i <= a@.len(),
            r@ == a@.take(i as int),
        decreases a@.len() - i,
    {
        r.push(a[i]);
        i += 1;
        assert(r@ =~= a@.take(i as int));
    }
    assert(a@.take(a@.len() as int) =~= a@);
    r
}

/// The word vectors `keys`, as mathematics has them.
pub open spec fn views(keys: Seq<Vec<u64>>) -> Seq<Seq<u64>> {
    Seq::new(keys.len(), |i: int| keys[i]@)
}

/// The keys `keys` followed by those of `labels` that are new, each where
/// it first comes.
pub open spec fn first_seen(keys: Seq<Seq<u64>>, labels: Seq<Seq<u64>>) -> Seq<Seq<u64>>
    decreases labels.len(),
{
    if labels.len() == 0 {
        keys
    } else {
        let before = first_seen(keys, labels.drop_last());
        if before.contains(labels.last()) {
            before
        } else {
            before.push(labels.last())
        }
    }
}

/// Taking in one label adds it to the keys if it is new.
pub proof fn lemma_first_seen_one(keys: Seq<Seq<u64>>, label: Seq<u64>)
    ensures
        first_seen(keys, seq![label]) == if keys.contains(label) {
            keys
        } else {
            keys.push(label)
        },
{
    let one = seq![label];
    assert(one.drop_last() =~= Seq::<Seq<u64>>::empty());
    assert(first_seen(keys, one.drop_last()) == keys);
    assert(one.last() == label);
}

/// Taking in one list of labels and then another is taking in the two, one
/// after the other.
pub proof fn lemma_first_seen_concat(keys: Seq<Seq<u64>>, a: Seq<Seq<u64>>, b: Seq<Seq<u64>>)
    ensures
        first_seen(first_seen(keys, a), b) == first_seen(keys, a + b),
    decreases b.len(),
{
    if b.len() == 0 {
        assert(a + b =~= a);
    } else {
        assert((a + b).drop_last() =~= a + b.drop_last());
        lemma_first_seen_concat(keys, a, b.drop_last());
    }
}

/// What has been seen holds the keys that it began with and the labels that
/// were taken in, and nothing else.
pub proof fn lemma_first_seen_contains(keys: Seq<Seq<u64>>, labels: Seq<Seq<u64>>, x: Seq<u64>)
    ensures
        first_seen(keys, labels).contains(x) == (keys.contains(x) || labels.contains(x)),
    decreases labels.len(),
{
    if labels.len() > 0 {
        let front = labels.drop_last();
        let before = first_seen(keys, front);
        lemma_first_seen_contains(keys, front, x);
        if labels.contains(x) {
            let i = choose|i: int| 0 <= i < labels.len() && labels[i] == x;
            if i < front.len() {
                assert(front[i] == x);
            }
        }
        if front.contains(x) {
            let i = choose|i: int| 0 <= i < front.len() && front[i] == x;
            assert(labels[i] == x);
        }
        if x == labels.last() {
            assert(labels[labels.len() - 1] == x);
        }
        if before.contains(labels.last()) {
        } else {
            let after = before.push(labels.last());
            if before.contains(x) {
                let i = choose|i: int| 0 <= i < before.len() && before[i] == x;
                assert(after[i] == x);
            }
            if after.contains(x) {
                let i = choose|i: int| 0 <= i < after.len() && after[i] == x;
                if i < before.len() {
                    assert(before[i] == x);
                }
            }
            assert(after[before.len() as int] == labels.last());
        }
    }
}

/// Labels that have been seen already may be left out: taking in a list of
/// labels is taking in those of them that are new, each where it first
/// comes.
pub proof fn lemma_first_seen_twice(keys: Seq<Seq<u64>>, labels: Seq<Seq<u64>>)
    ensures
        first_seen(keys, first_seen(Seq::empty(), labels)) == first_seen(keys, labels),
    decreases labels.len(),
{
    if labels.len() > 0 {
        let front = labels.drop_last();
        let last = labels.last();
        lemma_first_seen_twice(keys, front);
        let short = first_seen(Seq::empty(), front);
        lemma_first_seen_contains(Seq::empty(), front, last);
        lemma_first_seen_contains(keys, front, last);
        lemma_first_seen_contains(keys, short, last);
        if short.contains(last) {
        } else {
            assert(short.push(last).drop_last() =~= short);
        }
    }
}

/// Whether `key` is one of the first `upto` keys.
pub open spec fn key_among(keys: Seq<Vec<u64>>, upto: int, key: Seq<u64>) -> bool {
    exists|i: int| 0 <= i < upto && #[trigger] keys[i]@ == key
}

#[derive(Debug)]
pub struct Counts {
    /// The keys, in the order of their first occurrence.
    pub keys: Vec<Vec<u64>>,
    /// The count of each key, at the same index.
    pub vals: Vec<usize>,
}

impl Counts {
    /// Every key has a count, and no key stands twice.
    pub open spec fn wf(&self) -> bool {
        &&& self.keys@.len() == self.vals@.len()
        &&& forall|i: int, j: int|
            0 <= i < j < self.keys@.len() ==> #[trigger] self.keys@[i]@ != #[trigger] self.keys@[j]@
    }

    /// No entry has the count zero.
    pub open spec fn positive(&self) -> bool {
        forall|i: int| 0 <= i < self.vals@.len() ==> #[trigger] self.vals@[i] > 0
    }

    /// Whether the table has an entry for `key`.
    pub open spec fn contains(&self, key: Seq<u64>) -> bool {
        key_among(self.keys@, self.keys@.len() as int, key)
    }

    /// The index of the entry for `key`, where there is one.
    pub open spec fn index_of(&self, key: Seq<u64>) -> int {
        choose|i: int| 0 <= i < self.keys@.len() && #[trigger] self.keys@[i]@ == key
    }

    /// The count of `key`; zero where the table has no entry for it.
    pub open spec fn count(&self, key: Seq<u64>) -> nat {
        if self.contains(key) {
            self.vals@[self.index_of(key)] as nat
        } else {
            0
        }
    }

    /// The empty table.
    pub fn new() -> (r: Self)
        ensures
            r.wf(),
            r.positive(),
            r.keys@.len() == 0,
            forall|key: Seq<u64>| r.count(key) == 0,
    {
        Self { keys: Vec::new(), vals: Vec::new() }
    }

    /// The number of keys.
    pub fn len(&self) -> (r: usize)
        ensures
            r == self.keys@.len(),
    {
        self.keys.len()
    }

    /// Where the entry for `key` stands.
    pub fn position(&self, key: &Vec<u64>) -> (r: Option<usize>)
        requires
            self.wf(),
        ensures
            match r {
                Some(i) => i < self.keys@.len() && self.keys@[i as int]@ == key@
                    && self.contains(key@) && self.index_of(key@) == i,
                None => !self.contains(key@),
            },
    {
        let mut i: usize = 0;
        while i < self.keys.len()
            invariant
                i <= self.keys@.len(),
                self.wf(),
                !key_among(self.keys@, i as int, key@),
            decreases self.keys@.len() - i,
        {
            if same_words(&self.keys[i], key) {
                assert(self.keys@[i as int]@ == key@);
                return Some(i);
            }
            i += 1;
        }
        None
    }

    /// The count of `key`, if it has an entry.
    pub fn get(&self, key: &Vec<u64>) -> (r: Option<usize>)
        requires
            self.wf(),
        ensures
            r.is_some() == self.contains(key@),
            r.is_some() ==> r.unwrap() == self.count(key@),
    {
        match self.position(key) {
            Some(i) => Some(self.vals[i]),
            None => None,
        }
    }

    /// Adds `by` to the count of `key`, entering the key if it is new, and
    /// returns the index of its entry. Every other count stays.
    pub fn add(&mut self, key: &Vec<u64>, by: usize) -> (at: usize)
        requires
            old(self).wf(),
        ensures
            final(self).wf(),
            final(self).count(key@) == capped(old(self).count(key@) + by),
            final(self).contains(key@),
            at < final(self).keys@.len(),
            final(self).keys@[at as int]@ == key@,
            forall|other: Seq<u64>|
                other != key@ ==> final(self).count(other) == old(self).count(other)
                    && final(self).contains(other) == old(self).contains(other),
            old(self).positive() && by > 0 ==> final(self).positive(),
            views(final(self).keys@) == first_seen(views(old(self).keys@), seq![key@]),
            old(self).contains(key@) ==> final(self).keys@ == old(self).keys@,
            !old(self).contains(key@) ==> final(self).keys@.len() == old(self).keys@.len() + 1
                && final(self).keys@.take(old(self).keys@.len() as int) == old(self).keys@,
    {
        match self.position(key) {
            Some(i) => {
                let sum = add_capped(self.vals[i], by);
                self.vals[i] = sum;
                proof {
                    let before = views(old(self).keys@);
                    assert(before[i as int] == key@);
                    lemma_first_seen_one(before, key@);
                    assert(self.keys@ == old(self).keys@);
                    assert forall|other: Seq<u64>| other != key@ implies self.count(other) == old(
                        self,
                    ).count(other) by {
                        if self.contains(other) {
                            assert(self.index_of(other) == old(self).index_of(other));
                        }
                    }
                }
                i
            },
            None => {
                let at = self.keys.len();
                self.keys.push(copy_words(key));
                self.vals.push(by);
                proof {
                    let before = views(old(self).keys@);
                    if before.contains(key@) {
                        let t = choose|t: int| 0 <= t < before.len() && before[t] == key@;
                        assert(old(self).keys@[t]@ == key@);
                    }
                    lemma_first_seen_one(before, key@);
                    assert(views(self.keys@) =~= before.push(key@));
                    assert(self.keys@[at as int]@ == key@);
                    assert(self.contains(key@));
                    assert(self.index_of(key@) == at);
                    assert(self.keys@.take(at as int) =~= old(self).keys@);
                    assert forall|other: Seq<u64>| other != key@ implies self.count(other) == old(
                        self,
                    ).count(other) && self.contains(other) == old(self).contains(other) by {
                        if old(self).contains(other) {
                            let i = old(self).index_of(other);
                            assert(self.keys@[i]@ == other);
                            assert(self.index_of(other) == i);
                        }
                        if self.contains(other) {
                            let i = self.index_of(other);
                            assert(i != at);
                            assert(old(self).keys@[i]@ == other);
                        }
                    }
                }
                at
            },
        }
    }
}

} // verus!
