//! The dense encoding of one subgraph, and how often each encoding occurs.
use crate::bitgraph::Adjacency;
use crate::ngraph::{
    bit_mask, dense_has, lemma_row_index, lemma_set_bit, lemma_word_ext, word_has, words_needed,
};
use vstd::arithmetic::div_mod::lemma_fundamental_div_mod_converse;
use vstd::prelude::*;

verus! {

/// Whether `words` is the dense adjacency of the subgraph that `g` induces on
/// the vertices `sub`, taken in that order: bit `j` of row `i` is set exactly
/// when `g` has an arc from `sub[i]` to `sub[j]`, and the bits beyond the last
/// vertex are clear.
pub open spec fn is_pattern(words: Seq<u64>, g: Adjacency, sub: Seq<usize>) -> bool {
    let k = sub.len() as int;
    let m = words_needed(k);
    &&& words.len() == k * m
    &&& forall|i: int, j: int|
        0 <= i < k && 0 <= j < 64 * m ==> (#[trigger] dense_has(words, m, i, j) == (j < k && g.arc(
            sub[i] as int,
            sub[j] as int,
        )))
}

/// The dense adjacency of the subgraph that `g` induces on `sub`.
pub open spec fn pattern_of(g: Adjacency, sub: Seq<usize>) -> Seq<u64> {
    choose|words: Seq<u64>| is_pattern(words, g, sub)
}

/// A subgraph has one dense adjacency.
pub proof fn lemma_pattern_unique(a: Seq<u64>, b: Seq<u64>, g: Adjacency, sub: Seq<usize>)
    requires
        is_pattern(a, g, sub),
        is_pattern(b, g, sub),
    ensures
        a == b,
{
    let k = sub.len() as int;
    let m = words_needed(k);
    assert forall|t: int| 0 <= t < a.len() implies a[t] == b[t] by {
        assert(m > 0) by (nonlinear_arith)
            requires
                0 <= t < k * m,
                k >= 0,
                m >= 0,
        ;
        let i = t / m;
        let w = t % m;
        assert(t == i * m + w && 0 <= i < k && 0 <= w < m) by (nonlinear_arith)
            requires
                0 <= t < k * m,
                m > 0,
                i == t / m,
                w == t % m,
        ;
        assert forall|bit: int| 0 <= bit < 64 implies crate::ngraph::word_has(a[t], bit)
            == crate::ngraph::word_has(b[t], bit) by {
            let j = 64 * w + bit;
            assert(j / 64 == w && j % 64 == bit);
            assert(dense_has(a, m, i, j) == dense_has(b, m, i, j));
        }
        lemma_word_ext(a[t], b[t]);
    }
    assert(a =~= b);
}

/// Words that are the dense adjacency of `sub` are `pattern_of(g, sub)`.
pub proof fn lemma_pattern_is(words: Seq<u64>, g: Adjacency, sub: Seq<usize>)
    requires
        is_pattern(words, g, sub),
    ensures
        words == pattern_of(g, sub),
{
    lemma_pattern_unique(words, pattern_of(g, sub), g, sub);
}

/// The word whose bits below `upto` are those that `has` names, and whose
/// other bits are clear.
pub open spec fn word_of(has: spec_fn(int) -> bool, upto: int) -> u64
    decreases upto,
{
    if upto <= 0 {
        0
    } else if has(upto - 1) {
        word_of(has, upto - 1) | bit_mask(upto - 1)
    } else {
        word_of(has, upto - 1)
    }
}

/// The bits of such a word.
pub proof fn lemma_word_of(has: spec_fn(int) -> bool, upto: int, j: int)
    requires
        0 <= upto <= 64,
    ensures
        word_has(word_of(has, upto), j) == (0 <= j < upto && has(j)),
    decreases upto,
{
    if 0 <= j < 64 {
        let mask = bit_mask(j);
        if upto <= 0 {
            assert((0u64 & mask) == 0) by (bit_vector);
        } else {
            lemma_word_of(has, upto - 1, j);
            if has(upto - 1) {
                lemma_set_bit(word_of(has, upto - 1), (upto - 1) as u64, j as u64);
            }
        }
    }
}

/// The bits of the word at index `at` of the dense adjacency of `sub`.
pub open spec fn bits_at(g: Adjacency, sub: Seq<usize>, at: int) -> spec_fn(int) -> bool {
    let k = sub.len() as int;
    let m = words_needed(k);
    |b: int| (at % m) * 64 + b < k && g.arc(sub[at / m] as int, sub[(at % m) * 64 + b] as int)
}

/// Every list of vertices has a dense adjacency.
pub proof fn lemma_pattern_exists(g: Adjacency, sub: Seq<usize>)
    ensures
        is_pattern(pattern_of(g, sub), g, sub),
{
    let k = sub.len() as int;
    let m = words_needed(k);
    assert(k * m >= 0) by (nonlinear_arith)
        requires
            k >= 0,
            m >= 0,
    ;
    let words = Seq::new((k * m) as nat, |at: int| word_of(bits_at(g, sub, at), 64));
    assert forall|i: int, j: int| 0 <= i < k && 0 <= j < 64 * m implies (#[trigger] dense_has(
        words,
        m,
        i,
        j,
    ) == (j < k && g.arc(sub[i] as int, sub[j] as int))) by {
        lemma_row_index(k, m, i, j);
        let at = i * m + j / 64;
        lemma_fundamental_div_mod_converse(at, m, i, j / 64);
        lemma_word_of(bits_at(g, sub, at), 64, j % 64);
        assert(words[at] == word_of(bits_at(g, sub, at), 64));
        assert((at % m) * 64 + j % 64 == j);
    }
    assert(is_pattern(words, g, sub));
}

/// The dense adjacency of each of the subgraphs `subs`.
pub open spec fn patterns(g: Adjacency, subs: Seq<Seq<usize>>) -> Seq<Seq<u64>> {
    Seq::new(subs.len(), |i: int| pattern_of(g, subs[i]))
}

/// How many of the subgraphs `subs` have the dense adjacency `key`.
pub open spec fn tally(g: Adjacency, subs: Seq<Seq<usize>>, key: Seq<u64>) -> nat
    decreases subs.len(),
{
    if subs.len() == 0 {
        0
    } else {
        tally(g, subs.drop_last(), key) + if pattern_of(g, subs.last()) == key {
            1nat
        } else {
            0nat
        }
    }
}

/// Counting over two lists, one after the other, adds up.
pub proof fn lemma_tally_concat(
    g: Adjacency,
    a: Seq<Seq<usize>>,
    b: Seq<Seq<usize>>,
    key: Seq<u64>,
)
    ensures
        tally(g, a + b, key) == tally(g, a, key) + tally(g, b, key),
    decreases b.len(),
{
    if b.len() == 0 {
        assert(a + b =~= a);
    } else {
        assert((a + b).drop_last() =~= a + b.drop_last());
        lemma_tally_concat(g, a, b.drop_last(), key);
    }
}

/// No dense adjacency occurs more often than there are subgraphs.
pub proof fn lemma_tally_bound(g: Adjacency, subs: Seq<Seq<usize>>, key: Seq<u64>)
    ensures
        tally(g, subs, key) <= subs.len(),
    decreases subs.len(),
{
    if subs.len() > 0 {
        lemma_tally_bound(g, subs.drop_last(), key);
    }
}

} // verus!
