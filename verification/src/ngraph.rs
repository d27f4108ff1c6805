//! The dense adjacency buffer that the canonical labelling works on.
//!
//! A graph on `n` vertices is `n` rows of `m` 64-bit words, row after row.
//! Bit `j` of row `i` says whether there is an arc from `i` to `j`; within a
//! word the bits are counted from the most significant one.
use vstd::prelude::*;

verus! {

/// The number of bits in a word of the buffer.
pub const WORDSIZE: usize = 64;

/// The mask of bit `j` of a word, counted from the most significant bit.
pub open spec fn bit_mask(j: int) -> u64 {
    0x8000_0000_0000_0000u64 >> (j as u64)
}

/// Whether bit `j` of `w` is set, counted from the most significant bit.
pub open spec fn word_has(w: u64, j: int) -> bool {
    0 <= j < 64 && (w & bit_mask(j)) != 0
}

/// Whether bit `j` of row `i` is set in a buffer of rows of `m` words.
pub open spec fn dense_has(words: Seq<u64>, m: int, i: int, j: int) -> bool {
    0 <= j && word_has(words[i * m + j / 64], j % 64)
}

/// The number of words that hold `n` bits.
pub open spec fn words_needed(n: int) -> int {
    (n + 63) / 64
}

/// Whether `n` is a number of vertices that a buffer can be made for: the
/// vertex labels are `i32`, and the buffer's length must fit `usize`.
pub open spec fn fits(n: int) -> bool {
    0 <= n <= i32::MAX && n * words_needed(n) <= usize::MAX
}

/// Setting one bit of a word sets that bit and no other.
pub proof fn lemma_set_bit(w: u64, j: u64, k: u64)
    requires
        j < 64,
        k < 64,
    ensures
        ((w | (0x8000_0000_0000_0000u64 >> j)) & (0x8000_0000_0000_0000u64 >> k) != 0) == (j == k
            || (w & (0x8000_0000_0000_0000u64 >> k)) != 0),
{
    assert(((w | (0x8000_0000_0000_0000u64 >> j)) & (0x8000_0000_0000_0000u64 >> k) != 0) == (j
        == k || (w & (0x8000_0000_0000_0000u64 >> k)) != 0)) by (bit_vector)
        requires
            j < 64,
            k < 64,
    ;
}

/// Clearing one bit of a word clears that bit and no other.
pub proof fn lemma_clear_bit(w: u64, j: u64, k: u64)
    requires
        j < 64,
        k < 64,
    ensures
        ((w & !(0x8000_0000_0000_0000u64 >> j)) & (0x8000_0000_0000_0000u64 >> k) != 0) == (j != k
            && (w & (0x8000_0000_0000_0000u64 >> k)) != 0),
{
    assert(((w & !(0x8000_0000_0000_0000u64 >> j)) & (0x8000_0000_0000_0000u64 >> k) != 0) == (j
        != k && (w & (0x8000_0000_0000_0000u64 >> k)) != 0)) by (bit_vector)
        requires
            j < 64,
            k < 64,
    ;
}

/// Two words with the same 64 bits are the same word.
pub proof fn lemma_word_ext(a: u64, b: u64)
    requires
        forall|j: int| 0 <= j < 64 ==> word_has(a, j) == word_has(b, j),
    ensures
        a == b,
{
    assert(word_has(a, 0) == word_has(b, 0));
    assert(word_has(a, 1) == word_has(b, 1));
    assert(word_has(a, 2) == word_has(b, 2));
    assert(word_has(a, 3) == word_has(b, 3));
    assert(word_has(a, 4) == word_has(b, 4));
    assert(word_has(a, 5) == word_has(b, 5));
    assert(word_has(a, 6) == word_has(b, 6));
    assert(word_has(a, 7) == word_has(b, 7));
    assert(word_has(a, 8) == word_has(b, 8));
    assert(word_has(a, 9) == word_has(b, 9));
    assert(word_has(a, 10) == word_has(b, 10));
    assert(word_has(a, 11) == word_has(b, 11));
    assert(word_has(a, 12) == word_has(b, 12));
    assert(word_has(a, 13) == word_has(b, 13));
    assert(word_has(a, 14) == word_has(b, 14));
    assert(word_has(a, 15) == word_has(b, 15));
    assert(word_has(a, 16) == word_has(b, 16));
    assert(word_has(a, 17) == word_has(b, 17));
    assert(word_has(a, 18) == word_has(b, 18));
    assert(word_has(a, 19) == word_has(b, 19));
    assert(word_has(a, 20) == word_has(b, 20));
    assert(word_has(a, 21) == word_has(b, 21));
    assert(word_has(a, 22) == word_has(b, 22));
    assert(word_has(a, 23) == word_has(b, 23));
    assert(word_has(a, 24) == word_has(b, 24));
    assert(word_has(a, 25) == word_has(b, 25));
    assert(word_has(a, 26) == word_has(b, 26));
    assert(word_has(a, 27) == word_has(b, 27));
    assert(word_has(a, 28) == word_has(b, 28));
    assert(word_has(a, 29) == word_has(b, 29));
    assert(word_has(a, 30) == word_has(b, 30));
    assert(word_has(a, 31) == word_has(b, 31));
    assert(word_has(a, 32) == word_has(b, 32));
    assert(word_has(a, 33) == word_has(b, 33));
    assert(word_has(a, 34) == word_has(b, 34));
    assert(word_has(a, 35) == word_has(b, 35));
    assert(word_has(a, 36) == word_has(b, 36));
    assert(word_has(a, 37) == word_has(b, 37));
    assert(word_has(a, 38) == word_has(b, 38));
    assert(word_has(a, 39) == word_has(b, 39));
    assert(word_has(a, 40) == word_has(b, 40));
    assert(word_has(a, 41) == word_has(b, 41));
    assert(word_has(a, 42) == word_has(b, 42));
    assert(word_has(a, 43) == word_has(b, 43));
    assert(word_has(a, 44) == word_has(b, 44));
    assert(word_has(a, 45) == word_has(b, 45));
    assert(word_has(a, 46) == word_has(b, 46));
    assert(word_has(a, 47) == word_has(b, 47));
    assert(word_has(a, 48) == word_has(b, 48));
    assert(word_has(a, 49) == word_has(b, 49));
    assert(word_has(a, 50) == word_has(b, 50));
    assert(word_has(a, 51) == word_has(b, 51));
    assert(word_has(a, 52) == word_has(b, 52));
    assert(word_has(a, 53) == word_has(b, 53));
    assert(word_has(a, 54) == word_has(b, 54));
    assert(word_has(a, 55) == word_has(b, 55));
    assert(word_has(a, 56) == word_has(b, 56));
    assert(word_has(a, 57) == word_has(b, 57));
    assert(word_has(a, 58) == word_has(b, 58));
    assert(word_has(a, 59) == word_has(b, 59));
    assert(word_has(a, 60) == word_has(b, 60));
    assert(word_has(a, 61) == word_has(b, 61));
    assert(word_has(a, 62) == word_has(b, 62));
    assert(word_has(a, 63) == word_has(b, 63));
    assert(a == b) by (bit_vector)
        requires
            ((a & (0x8000_0000_0000_0000u64 >> 0u64)) != 0) == ((b & (0x8000_0000_0000_0000u64 >> 0u64)) != 0),
            ((a & (0x8000_0000_0000_0000u64 >> 1u64)) != 0) == ((b & (0x8000_0000_0000_0000u64 >> 1u64)) != 0),
            ((a & (0x8000_0000_0000_0000u64 >> 2u64)) != 0) == ((b & (0x8000_0000_0000_0000u64 >> 2u64)) != 0),
            ((a & (0x8000_0000_0000_0000u64 >> 3u64)) != 0) == ((b & (0x8000_0000_0000_0000u64 >> 3u64)) != 0),
            ((a & (0x8000_0000_0000_0000u64 >> 4u64)) != 0) == ((b & (0x8000_0000_0000_0000u64 >> 4u64)) != 0),
            ((a & (0x8000_0000_0000_0000u64 >> 5u64)) != 0) == ((b & (0x8000_0000_0000_0000u64 >> 5u64)) != 0),
            ((a & (0x8000_0000_0000_0000u64 >> 6u64)) != 0) == ((b & (0x8000_0000_0000_0000u64 >> 6u64)) != 0),
            ((a & (0x8000_0000_0000_0000u64 >> 7u64)) != 0) == ((b & (0x8000_0000_0000_0000u64 >> 7u64)) != 0),
            ((a & (0x8000_0000_0000_0000u64 >> 8u64)) != 0) == ((b & (0x8000_0000_0000_0000u64 >> 8u64)) != 0),
            ((a & (0x8000_0000_0000_0000u64 >> 9u64)) != 0) == ((b & (0x8000_0000_0000_0000u64 >> 9u64)) != 0),
            ((a & (0x8000_0000_0000_0000u64 >> 10u64)) != 0) == ((b & (0x8000_0000_0000_0000u64 >> 10u64)) != 0),
            ((a & (0x8000_0000_0000_0000u64 >> 11u64)) != 0) == ((b & (0x8000_0000_0000_0000u64 >> 11u64)) != 0),
            ((a & (0x8000_0000_0000_0000u64 >> 12u64)) != 0) == ((b & (0x8000_0000_0000_0000u64 >> 12u64)) != 0),
            ((a & (0x8000_0000_0000_0000u64 >> 13u64)) != 0) == ((b & (0x8000_0000_0000_0000u64 >> 13u64)) != 0),
            ((a & (0x8000_0000_0000_0000u64 >> 14u64)) != 0) == ((b & (0x8000_0000_0000_0000u64 >> 14u64)) != 0),
            ((a & (0x8000_0000_0000_0000u64 >> 15u64)) != 0) == ((b & (0x8000_0000_0000_0000u64 >> 15u64)) != 0),
            ((a & (0x8000_0000_0000_0000u64 >> 16u64)) != 0) == ((b & (0x8000_0000_0000_0000u64 >> 16u64)) != 0),
            ((a & (0x8000_0000_0000_0000u64 >> 17u64)) != 0) == ((b & (0x8000_0000_0000_0000u64 >> 17u64)) != 0),
            ((a & (0x8000_0000_0000_0000u64 >> 18u64)) != 0) == ((b & (0x8000_0000_0000_0000u64 >> 18u64)) != 0),
            ((a & (0x8000_0000_0000_0000u64 >> 19u64)) != 0) == ((b & (0x8000_0000_0000_0000u64 >> 19u64)) != 0),
            ((a & (0x8000_0000_0000_0000u64 >> 20u64)) != 0) == ((b & (0x8000_0000_0000_0000u64 >> 20u64)) != 0),
            ((a & (0x8000_0000_0000_0000u64 >> 21u64)) != 0) == ((b & (0x8000_0000_0000_0000u64 >> 21u64)) != 0),
            ((a & (0x8000_0000_0000_0000u64 >> 22u64)) != 0) == ((b & (0x8000_0000_0000_0000u64 >> 22u64)) != 0),
            ((a & (0x8000_0000_0000_0000u64 >> 23u64)) != 0) == ((b & (0x8000_0000_0000_0000u64 >> 23u64)) != 0),
            ((a & (0x8000_0000_0000_0000u64 >> 24u64)) != 0) == ((b & (0x8000_0000_0000_0000u64 >> 24u64)) != 0),
            ((a & (0x8000_0000_0000_0000u64 >> 25u64)) != 0) == ((b & (0x8000_0000_0000_0000u64 >> 25u64)) != 0),
            ((a & (0x8000_0000_0000_0000u64 >> 26u64)) != 0) == ((b & (0x8000_0000_0000_0000u64 >> 26u64)) != 0),
            ((a & (0x8000_0000_0000_0000u64 >> 27u64)) != 0) == ((b & (0x8000_0000_0000_0000u64 >> 27u64)) != 0),
            ((a & (0x8000_0000_0000_0000u64 >> 28u64)) != 0) == ((b & (0x8000_0000_0000_0000u64 >> 28u64)) != 0),
            ((a & (0x8000_0000_0000_0000u64 >> 29u64)) != 0) == ((b & (0x8000_0000_0000_0000u64 >> 29u64)) != 0),
            ((a & (0x8000_0000_0000_0000u64 >> 30u64)) != 0) == ((b & (0x8000_0000_0000_0000u64 >> 30u64)) != 0),
            ((a & (0x8000_0000_0000_0000u64 >> 31u64)) != 0) == ((b & (0x8000_0000_0000_0000u64 >> 31u64)) != 0),
            ((a & (0x8000_0000_0000_0000u64 >> 32u64)) != 0) == ((b & (0x8000_0000_0000_0000u64 >> 32u64)) != 0),
            ((a & (0x8000_0000_0000_0000u64 >> 33u64)) != 0) == ((b & (0x8000_0000_0000_0000u64 >> 33u64)) != 0),
            ((a & (0x8000_0000_0000_0000u64 >> 34u64)) != 0) == ((b & (0x8000_0000_0000_0000u64 >> 34u64)) != 0),
            ((a & (0x8000_0000_0000_0000u64 >> 35u64)) != 0) == ((b & (0x8000_0000_0000_0000u64 >> 35u64)) != 0),
            ((a & (0x8000_0000_0000_0000u64 >> 36u64)) != 0) == ((b & (0x8000_0000_0000_0000u64 >> 36u64)) != 0),
            ((a & (0x8000_0000_0000_0000u64 >> 37u64)) != 0) == ((b & (0x8000_0000_0000_0000u64 >> 37u64)) != 0),
            ((a & (0x8000_0000_0000_0000u64 >> 38u64)) != 0) == ((b & (0x8000_0000_0000_0000u64 >> 38u64)) != 0),
            ((a & (0x8000_0000_0000_0000u64 >> 39u64)) != 0) == ((b & (0x8000_0000_0000_0000u64 >> 39u64)) != 0),
            ((a & (0x8000_0000_0000_0000u64 >> 40u64)) != 0) == ((b & (0x8000_0000_0000_0000u64 >> 40u64)) != 0),
            ((a & (0x8000_0000_0000_0000u64 >> 41u64)) != 0) == ((b & (0x8000_0000_0000_0000u64 >> 41u64)) != 0),
            ((a & (0x8000_0000_0000_0000u64 >> 42u64)) != 0) == ((b & (0x8000_0000_0000_0000u64 >> 42u64)) != 0),
            ((a & (0x8000_0000_0000_0000u64 >> 43u64)) != 0) == ((b & (0x8000_0000_0000_0000u64 >> 43u64)) != 0),
            ((a & (0x8000_0000_0000_0000u64 >> 44u64)) != 0) == ((b & (0x8000_0000_0000_0000u64 >> 44u64)) != 0),
            ((a & (0x8000_0000_0000_0000u64 >> 45u64)) != 0) == ((b & (0x8000_0000_0000_0000u64 >> 45u64)) != 0),
            ((a & (0x8000_0000_0000_0000u64 >> 46u64)) != 0) == ((b & (0x8000_0000_0000_0000u64 >> 46u64)) != 0),
            ((a & (0x8000_0000_0000_0000u64 >> 47u64)) != 0) == ((b & (0x8000_0000_0000_0000u64 >> 47u64)) != 0),
            ((a & (0x8000_0000_0000_0000u64 >> 48u64)) != 0) == ((b & (0x8000_0000_0000_0000u64 >> 48u64)) != 0),
            ((a & (0x8000_0000_0000_0000u64 >> 49u64)) != 0) == ((b & (0x8000_0000_0000_0000u64 >> 49u64)) != 0),
            ((a & (0x8000_0000_0000_0000u64 >> 50u64)) != 0) == ((b & (0x8000_0000_0000_0000u64 >> 50u64)) != 0),
            ((a & (0x8000_0000_0000_0000u64 >> 51u64)) != 0) == ((b & (0x8000_0000_0000_0000u64 >> 51u64)) != 0),
            ((a & (0x8000_0000_0000_0000u64 >> 52u64)) != 0) == ((b & (0x8000_0000_0000_0000u64 >> 52u64)) != 0),
            ((a & (0x8000_0000_0000_0000u64 >> 53u64)) != 0) == ((b & (0x8000_0000_0000_0000u64 >> 53u64)) != 0),
            ((a & (0x8000_0000_0000_0000u64 >> 54u64)) != 0) == ((b & (0x8000_0000_0000_0000u64 >> 54u64)) != 0),
            ((a & (0x8000_0000_0000_0000u64 >> 55u64)) != 0) == ((b & (0x8000_0000_0000_0000u64 >> 55u64)) != 0),
            ((a & (0x8000_0000_0000_0000u64 >> 56u64)) != 0) == ((b & (0x8000_0000_0000_0000u64 >> 56u64)) != 0),
            ((a & (0x8000_0000_0000_0000u64 >> 57u64)) != 0) == ((b & (0x8000_0000_0000_0000u64 >> 57u64)) != 0),
            ((a & (0x8000_0000_0000_0000u64 >> 58u64)) != 0) == ((b & (0x8000_0000_0000_0000u64 >> 58u64)) != 0),
            ((a & (0x8000_0000_0000_0000u64 >> 59u64)) != 0) == ((b & (0x8000_0000_0000_0000u64 >> 59u64)) != 0),
            ((a & (0x8000_0000_0000_0000u64 >> 60u64)) != 0) == ((b & (0x8000_0000_0000_0000u64 >> 60u64)) != 0),
            ((a & (0x8000_0000_0000_0000u64 >> 61u64)) != 0) == ((b & (0x8000_0000_0000_0000u64 >> 61u64)) != 0),
            ((a & (0x8000_0000_0000_0000u64 >> 62u64)) != 0) == ((b & (0x8000_0000_0000_0000u64 >> 62u64)) != 0),
            ((a & (0x8000_0000_0000_0000u64 >> 63u64)) != 0) == ((b & (0x8000_0000_0000_0000u64 >> 63u64)) != 0),
    ;
}

/// The test of one bit, as the executable code computes it.
pub fn test_bit(w: u64, j: usize) -> (r: bool)
    requires
        j < 64,
    ensures
        r == word_has(w, j as int),
{
    (w & (0x8000_0000_0000_0000u64 >> (j as u64))) != 0
}

/// The number of words that hold `n` bits.
pub fn setwords_needed(n: usize) -> (m: usize)
    ensures
        m == words_needed(n as int),
{
    if n % 64 == 0 {
        n / 64
    } else {
        n / 64 + 1
    }
}

#[derive(Debug)]
pub struct Nodes {
    /// The node labeling.
    pub lab: Vec<i32>,
    /// The node partition.
    pub ptn: Vec<i32>,
    /// The node orbits.
    pub orbits: Vec<i32>,
}

impl Nodes {
    /// The identity labelling of `n` vertices, with partition and orbits
    /// zeroed.
    pub fn new(n: usize) -> (r: Self)
        requires
            n <= i32::MAX,
        ensures
            r.lab@.len() == n,
            r.ptn@.len() == n,
            r.orbits@.len() == n,
            forall|i: int| 0 <= i < n ==> r.lab@[i] == i,
            forall|i: int| 0 <= i < n ==> r.ptn@[i] == 0,
            forall|i: int| 0 <= i < n ==> r.orbits@[i] == 0,
    {
        let mut lab: Vec<i32> = Vec::with_capacity(n);
        let mut ptn: Vec<i32> = Vec::with_capacity(n);
        let mut orbits: Vec<i32> = Vec::with_capacity(n);
        let mut i: usize = 0;
        while i < n
            invariant
                i <= n <= i32::MAX,
                lab@.len() == i,
                ptn@.len() == i,
                orbits@.len() == i,
                forall|k: int| 0 <= k < i ==> lab@[k] == k,
                forall|k: int| 0 <= k < i ==> ptn@[k] == 0,
                forall|k: int| 0 <= k < i ==> orbits@[k] == 0,
            decreases n - i,
        {
            lab.push(i as i32);
            ptn.push(0);
            orbits.push(0);
            i += 1;
        }
        Self { lab, ptn, orbits }
    }
}

/// A dense graph representation for use with nauty.
#[derive(Debug)]
pub struct NautyGraph {
    /// The binary representation of the graph.
    pub graph: Vec<u64>,
    /// The binary representation of the canonical labeling.
    pub canon: Vec<u64>,
    /// The number of nodes in the graph.
    pub n: usize,
    /// The number of arcs added to the graph, stopping at `usize::MAX`.
    pub e: usize,
    /// The number of words in each row of the graph representation.
    pub m: usize,
    /// The nodes labeling / coloring of the graph.
    pub nodes: Nodes,
    /// Whether the canonical labelling is to read the graph as directed.
    pub directed: bool,
}

/// A buffer of the right length in which every word is zero.
pub open spec fn all_zero(words: Seq<u64>) -> bool {
    forall|i: int| 0 <= i < words.len() ==> words[i] == 0
}

impl NautyGraph {
    /// The buffers have `n` rows of `m` words, `m` being the words that `n`
    /// bits need.
    pub open spec fn wf(&self) -> bool {
        &&& fits(self.n as int)
        &&& self.m == words_needed(self.n as int)
        &&& self.graph@.len() == self.n * self.m
        &&& self.canon@.len() == self.n * self.m
        &&& self.nodes.lab@.len() == self.n
        &&& self.nodes.ptn@.len() == self.n
        &&& self.nodes.orbits@.len() == self.n
    }

    /// Whether the graph buffer holds an arc from `i` to `j`.
    pub open spec fn has(&self, i: int, j: int) -> bool {
        dense_has(self.graph@, self.m as int, i, j)
    }

    /// An empty graph on `n` vertices, to be labelled as directed or not.
    pub fn new(n: usize, dir: bool) -> (r: Self)
        requires
            fits(n as int),
        ensures
            r.wf(),
            r.n == n,
            r.directed == dir,
            r.e == 0,
            all_zero(r.graph@),
            all_zero(r.canon@),
            forall|i: int| 0 <= i < n ==> r.nodes.lab@[i] == i,
            forall|i: int| 0 <= i < n ==> r.nodes.ptn@[i] == 0,
            forall|i: int| 0 <= i < n ==> r.nodes.orbits@[i] == 0,
    {
        let m = setwords_needed(n);
        let graph = empty_graph(m, n);
        let canon = empty_graph(m, n);
        Self { graph, canon, n, m, e: 0, nodes: Nodes::new(n), directed: dir }
    }

    pub fn new_directed(n: usize) -> (r: Self)
        requires
            fits(n as int),
        ensures
            r.wf(),
            r.n == n,
            r.directed,
            r.e == 0,
            all_zero(r.graph@),
            all_zero(r.canon@),
    {
        Self::new(n, true)
    }

    pub fn new_undirected(n: usize) -> (r: Self)
        requires
            fits(n as int),
        ensures
            r.wf(),
            r.n == n,
            !r.directed,
            r.e == 0,
            all_zero(r.graph@),
            all_zero(r.canon@),
    {
        Self::new(n, false)
    }

    /// Adds the arc from `u` to `v`: sets that bit of the graph buffer and
    /// leaves every other bit as it was.
    pub fn add_arc(&mut self, u: usize, v: usize)
        requires
            old(self).wf(),
            u < old(self).n,
            v < old(self).n,
        ensures
            final(self).wf(),
            final(self).n == old(self).n,
            final(self).m == old(self).m,
            final(self).directed == old(self).directed,
            final(self).canon == old(self).canon,
            final(self).nodes == old(self).nodes,
            final(self).e == if old(self).e < usize::MAX {
                old(self).e + 1
            } else {
                usize::MAX as int
            },
            forall|i: int, j: int|
                0 <= i < old(self).n && 0 <= j < 64 * old(self).m ==> (#[trigger] final(self).has(
                    i,
                    j,
                ) == (old(self).has(i, j) || (i == u && j == v))),
    {
        let m = self.m;
        let n = self.n;
        proof {
            lemma_row_index(n as int, m as int, u as int, v as int);
        }
        let idx = m * u + v / 64;
        let ghost before = self.graph@;
        let word = self.graph[idx];
        let mask: u64 = 0x8000_0000_0000_0000u64 >> ((v % 64) as u64);
        self.graph[idx] = word | mask;
        if self.e < usize::MAX {
            self.e += 1;
        }
        proof {
            assert forall|i: int, j: int| 0 <= i < n && 0 <= j < 64 * m implies (
            #[trigger] self.has(i, j) == (dense_has(before, m as int, i, j) || (i == u && j == v))) by {
                lemma_row_index(n as int, m as int, i, j);
                let at = i * m + j / 64;
                if at == idx {
                    lemma_same_slot(m as int, i, j / 64, u as int, (v / 64) as int);
                    lemma_set_bit(word, (v % 64) as u64, (j % 64) as u64);
                } else {
                    assert(self.graph@[at] == before[at]);
                }
            }
        }
    }

    /// Removes the arc from `u` to `v`: clears that bit of the graph buffer
    /// and leaves every other bit as it was.
    pub fn rm_arc(&mut self, u: usize, v: usize)
        requires
            old(self).wf(),
            u < old(self).n,
            v < old(self).n,
        ensures
            final(self).wf(),
            final(self).n == old(self).n,
            final(self).m == old(self).m,
            final(self).directed == old(self).directed,
            final(self).canon == old(self).canon,
            final(self).nodes == old(self).nodes,
            final(self).e == if old(self).e > 0 {
                old(self).e - 1
            } else {
                0
            },
            forall|i: int, j: int|
                0 <= i < old(self).n && 0 <= j < 64 * old(self).m ==> (#[trigger] final(self).has(
                    i,
                    j,
                ) == (old(self).has(i, j) && !(i == u && j == v))),
    {
        let m = self.m;
        let n = self.n;
        proof {
            lemma_row_index(n as int, m as int, u as int, v as int);
        }
        let idx = m * u + v / 64;
        let ghost before = self.graph@;
        let word = self.graph[idx];
        let mask: u64 = 0x8000_0000_0000_0000u64 >> ((v % 64) as u64);
        self.graph[idx] = word & !mask;
        if self.e > 0 {
            self.e -= 1;
        }
        proof {
            assert forall|i: int, j: int| 0 <= i < n && 0 <= j < 64 * m implies (
            #[trigger] self.has(i, j) == (dense_has(before, m as int, i, j) && !(i == u && j
                == v))) by {
                lemma_row_index(n as int, m as int, i, j);
                let at = i * m + j / 64;
                if at == idx {
                    lemma_same_slot(m as int, i, j / 64, u as int, (v / 64) as int);
                    lemma_clear_bit(word, (v % 64) as u64, (j % 64) as u64);
                } else {
                    assert(self.graph@[at] == before[at]);
                }
            }
        }
    }

    /// Zeroes the canonical buffer.
    pub fn clear_canon(&mut self)
        requires
            old(self).wf(),
        ensures
            final(self).wf(),
            all_zero(final(self).canon@),
            final(self).graph == old(self).graph,
            final(self).n == old(self).n,
            final(self).m == old(self).m,
            final(self).e == old(self).e,
            final(self).directed == old(self).directed,
            final(self).nodes == old(self).nodes,
    {
        let len = self.canon.len();
        let mut i: usize = 0;
        while i < len
            invariant
                i <= len,
                self.canon@.len() == len,
                self.graph == old(self).graph,
                self.n == old(self).n,
                self.m == old(self).m,
                self.e == old(self).e,
                self.directed == old(self).directed,
                self.nodes == old(self).nodes,
                forall|k: int| 0 <= k < i ==> self.canon@[k] == 0,
            decreases len - i,
        {
            self.canon[i] = 0;
            i += 1;
        }
    }

    /// Zeroes the graph buffer: no arc is left.
    pub fn clear_graph(&mut self)
        requires
            old(self).wf(),
        ensures
            final(self).wf(),
            all_zero(final(self).graph@),
            final(self).canon == old(self).canon,
            final(self).n == old(self).n,
            final(self).m == old(self).m,
            final(self).e == old(self).e,
            final(self).directed == old(self).directed,
            final(self).nodes == old(self).nodes,
    {
        let len = self.graph.len();
        let mut i: usize = 0;
        while i < len
            invariant
                i <= len,
                self.graph@.len() == len,
                self.canon == old(self).canon,
                self.n == old(self).n,
                self.m == old(self).m,
                self.e == old(self).e,
                self.directed == old(self).directed,
                self.nodes == old(self).nodes,
                forall|k: int| 0 <= k < i ==> self.graph@[k] == 0,
            decreases len - i,
        {
            self.graph[i] = 0;
            i += 1;
        }
    }

    /// The canonical buffer.
    pub fn canon(&self) -> (r: &Vec<u64>)
        ensures
            r@ == self.canon@,
    {
        &self.canon
    }

    /// The graph buffer.
    pub fn graph(&self) -> (r: &Vec<u64>)
        ensures
            r@ == self.graph@,
    {
        &self.graph
    }

    /// The first `min(n, 64)` bits of every word of the graph buffer, word
    /// after word, one byte per bit.
    pub fn pprint_graph(&self) -> (r: Vec<u8>)
        ensures
            r@ == flat_bits(self.graph@, self.graph@.len() as int, self.n as int),
    {
        flatten_bits(&self.graph, self.n)
    }
}

/// The first `min(take, 64)` bits of each of the first `upto` words, word
/// after word, most significant bit first, as bytes 0 and 1.
pub open spec fn flat_bits(words: Seq<u64>, upto: int, take: int) -> Seq<u8>
    decreases upto,
{
    if upto <= 0 {
        Seq::empty()
    } else {
        flat_bits(words, upto - 1, take) + word_bits(words[upto - 1], if take < 64 {
            take
        } else {
            64
        })
    }
}

/// The first `upto` bits of `w`, most significant first, as bytes 0 and 1.
pub open spec fn word_bits(w: u64, upto: int) -> Seq<u8>
    decreases upto,
{
    if upto <= 0 {
        Seq::empty()
    } else {
        word_bits(w, upto - 1).push(
            if word_has(w, upto - 1) {
                1u8
            } else {
                0u8
            },
        )
    }
}

/// Unpacks the leading `take` bits (at most 64) of every word of `words`.
pub fn flatten_bits(words: &Vec<u64>, take: usize) -> (r: Vec<u8>)
    ensures
        r@ == flat_bits(words@, words@.len() as int, take as int),
{
    let width: usize = if take < 64 {
        take
    } else {
        64
    };
    let mut out: Vec<u8> = Vec::new();
    let mut i: usize = 0;
    while i < words.len()
        invariant
            i <= words@.len(),
            width == (if take < 64 {
                take as int
            } else {
                64
            }),
            out@ == flat_bits(words@, i as int, take as int),
        decreases words@.len() - i,
    {
        let w = words[i];
        let ghost base = out@;
        let mut j: usize = 0;
        while j < width
            invariant
                j <= width <= 64,
                out@ == base + word_bits(w, j as int),
            decreases width - j,
        {
            if test_bit(w, j) {
                out.push(1);
            } else {
                out.push(0);
            }
            j += 1;
            proof {
                assert(out@ =~= base + word_bits(w, j as int));
            }
        }
        i += 1;
    }
    out
}

/// A zeroed buffer for a graph of `n` rows of `m` words.
pub fn empty_graph(m: usize, n: usize) -> (r: Vec<u64>)
    requires
        n * m <= usize::MAX,
    ensures
        r@.len() == n * m,
        all_zero(r@),
{
    let len = n * m;
    let mut r: Vec<u64> = Vec::with_capacity(len);
    let mut i: usize = 0;
    while i < len
        invariant
            i <= len,
            r@.len() == i,
            forall|k: int| 0 <= k < i ==> r@[k] == 0,
        decreases len - i,
    {
        r.push(0);
        i += 1;
    }
    r
}

/// Where bit `j` of row `i` lives: inside row `i`, inside the buffer.
pub proof fn lemma_row_index(n: int, m: int, i: int, j: int)
    requires
        0 <= i < n,
        0 <= j < 64 * m,
    ensures
        0 <= j / 64 < m,
        0 <= j % 64 < 64,
        0 <= i * m + j / 64 < n * m,
        i * m == m * i,
{
    assert(i * m + m <= n * m) by (nonlinear_arith)
        requires
            0 <= i < n,
            0 <= m,
    ;
    assert(0 <= i * m) by (nonlinear_arith)
        requires
            0 <= i,
            0 <= m,
    ;
    assert(i * m == m * i) by (nonlinear_arith);
}

/// Two slots of the buffer coincide only if row and word coincide.
pub proof fn lemma_same_slot(m: int, i: int, a: int, u: int, b: int)
    requires
        0 <= a < m,
        0 <= b < m,
        0 <= i,
        0 <= u,
        i * m + a == m * u + b,
    ensures
        i == u,
        a == b,
{
    assert(i == u) by (nonlinear_arith)
        requires
            0 <= a < m,
            0 <= b < m,
            0 <= i,
            0 <= u,
            i * m + a == m * u + b,
    ;
    assert(i * m == m * u) by (nonlinear_arith)
        requires
            i == u,
    ;
}

} // verus!
