//! For every vertex, how often it takes which position in which subgraph.
//!
//! A position is told by three things: the label of the subgraph, the label
//! of the vertex within it, and its orbit. The three are packed into one
//! word vector, the label first, so that a table of counts can be kept per
//! vertex.
use crate::counts::{capped, copy_words, first_seen, views, Counts};
use vstd::prelude::*;

verus! {

/// An `i32` as a word: the numbers in their order, from zero up.
pub open spec fn pack(x: int) -> u64 {
    (x + 0x8000_0000) as u64
}

/// The word vector that stands for the position (`label`, `node_label`,
/// `orbit`).
pub open spec fn group_key(label: Seq<u64>, node_label: int, orbit: int) -> Seq<u64> {
    label.push(pack(node_label)).push(pack(orbit))
}

/// Whether `key` is the key of a position: a label and two packed numbers.
pub open spec fn is_group_key(key: Seq<u64>) -> bool {
    key.len() >= 2 && key[key.len() - 2] <= 0xffff_ffff && key[key.len() - 1] <= 0xffff_ffff
}

/// The label that the key of a position holds.
pub open spec fn key_label(key: Seq<u64>) -> Seq<u64> {
    key.take(key.len() - 2)
}

/// The vertex label that the key of a position holds.
pub open spec fn key_node_label(key: Seq<u64>) -> int {
    key[key.len() - 2] - 0x8000_0000
}

/// The orbit that the key of a position holds.
pub open spec fn key_orbit(key: Seq<u64>) -> int {
    key[key.len() - 1] - 0x8000_0000
}

/// Different positions have different keys.
pub proof fn theorem_positions_have_their_own_keys(
    a: Seq<u64>,
    a_label: int,
    a_orbit: int,
    b: Seq<u64>,
    b_label: int,
    b_orbit: int,
)
    requires
        i32::MIN <= a_label <= i32::MAX,
        i32::MIN <= a_orbit <= i32::MAX,
        i32::MIN <= b_label <= i32::MAX,
        i32::MIN <= b_orbit <= i32::MAX,
        group_key(a, a_label, a_orbit) == group_key(b, b_label, b_orbit),
    ensures
        a == b,
        a_label == b_label,
        a_orbit == b_orbit,
{
    let ka = group_key(a, a_label, a_orbit);
    let kb = group_key(b, b_label, b_orbit);
    assert(ka.len() == a.len() + 2);
    assert(kb.len() == b.len() + 2);
    assert(ka[a.len() as int] == pack(a_label));
    assert(kb[b.len() as int] == pack(b_label));
    assert(ka[a.len() as int + 1] == pack(a_orbit));
    assert(kb[b.len() as int + 1] == pack(b_orbit));
    assert(ka.take(a.len() as int) =~= a);
    assert(kb.take(b.len() as int) =~= b);
}

/// `pack`, computed.
pub fn pack_word(x: i32) -> (w: u64)
    ensures
        w == pack(x as int),
{
    (x as i64 + 0x8000_0000i64) as u64
}

/// What `pack` packed.
pub fn unpack_word(w: u64) -> (x: Option<i32>)
    ensures
        w <= 0xffff_ffff ==> x.is_some() && pack(x.unwrap() as int) == w,
        w > 0xffff_ffff ==> x.is_none(),
{
    if w > 0xffff_ffff {
        None
    } else {
        Some((w as i64 - 0x8000_0000i64) as i32)
    }
}

/// `group_key`, computed.
pub fn make_group_key(label: &Vec<u64>, node_label: i32, orbit: i32) -> (key: Vec<u64>)
    ensures
        key@ == group_key(label@, node_label as int, orbit as int),
{
    let mut key = copy_words(label);
    key.push(pack_word(node_label));
    key.push(pack_word(orbit));
    key
}

/// What the first `upto` keys of a table say, line by line: of every key
/// that is the key of a position the label, the vertex label, the orbit and
/// the count. A key that is none is left out.
pub open spec fn lines_of(table: &Counts, upto: int) -> Seq<(Seq<u64>, int, int, usize)>
    decreases upto,
{
    if upto <= 0 {
        Seq::empty()
    } else if is_group_key(table.keys@[upto - 1]@) {
        lines_of(table, upto - 1).push(
            (
                key_label(table.keys@[upto - 1]@),
                key_node_label(table.keys@[upto - 1]@),
                key_orbit(table.keys@[upto - 1]@),
                table.vals@[upto - 1],
            ),
        )
    } else {
        lines_of(table, upto - 1)
    }
}

/// Whether the entries `entries` are the lines `lines`.
pub open spec fn entries_are(entries: Seq<GroupEntry>, lines: Seq<(Seq<u64>, int, int, usize)>) -> bool {
    &&& entries.len() == lines.len()
    &&& forall|i: int|
        0 <= i < entries.len() ==> (#[trigger] entries[i]).label@ == lines[i].0
            && entries[i].node_label == lines[i].1 && entries[i].orbit == lines[i].2
            && entries[i].abundance == lines[i].3
}

/// One line of a vertex's table.
#[derive(Debug)]
pub struct GroupEntry {
    /// The label of the subgraph.
    pub label: Vec<u64>,
    /// The label of the vertex within the subgraph.
    pub node_label: i32,
    /// The orbit of the vertex within the subgraph.
    pub orbit: i32,
    /// How often the vertex takes this position.
    pub abundance: usize,
}

#[derive(Debug)]
pub struct Groups {
    /// The table of each vertex, at the index of the vertex.
    pub tables: Vec<Counts>,
}

impl Groups {
    /// Every table is in order.
    pub open spec fn wf(&self) -> bool {
        forall|v: int| 0 <= v < self.tables@.len() ==> (#[trigger] self.tables@[v]).wf()
    }

    /// How often `node` takes the position (`label`, `node_label`, `orbit`).
    pub open spec fn count(&self, node: int, label: Seq<u64>, node_label: int, orbit: int) -> nat {
        self.tables@[node].count(group_key(label, node_label, orbit))
    }

    /// Empty tables for `n` vertices.
    pub fn new(n: usize) -> (r: Self)
        ensures
            r.wf(),
            r.tables@.len() == n,
            forall|v: int, key: Seq<u64>| 0 <= v < n ==> (#[trigger] r.tables@[v].count(key)) == 0,
            forall|v: int| 0 <= v < n ==> (#[trigger] r.tables@[v]).keys@.len() == 0,
    {
        let mut tables: Vec<Counts> = Vec::with_capacity(n);
        let mut i: usize = 0;
        while i < n
            invariant
                i <= n,
                tables@.len() == i,
                forall|v: int| 0 <= v < i ==> (#[trigger] tables@[v]).wf(),
                forall|v: int, key: Seq<u64>|
                    0 <= v < i ==> (#[trigger] tables@[v].count(key)) == 0,
                forall|v: int| 0 <= v < i ==> (#[trigger] tables@[v]).keys@.len() == 0,
            decreases n - i,
        {
            tables.push(Counts::new());
            i += 1;
        }
        Self { tables }
    }

    /// Whether `node` takes any position at all.
    pub fn contains_key(&self, node: usize) -> (r: bool)
        ensures
            r == (node < self.tables@.len() && self.tables@[node as int].keys@.len() > 0),
    {
        node < self.tables.len() && self.tables[node].len() > 0
    }

    /// Adds `by` to the count of `key` in the table of `node` and leaves
    /// every other count of every table as it was.
    pub fn add(&mut self, node: usize, key: &Vec<u64>, by: usize)
        requires
            old(self).wf(),
            node < old(self).tables@.len(),
        ensures
            final(self).wf(),
            final(self).tables@.len() == old(self).tables@.len(),
            final(self).tables@[node as int].count(key@) == capped(
                (old(self).tables@[node as int].count(key@) + by) as int,
            ),
            forall|other: Seq<u64>|
                other != key@ ==> final(self).tables@[node as int].count(other) == old(
                    self,
                ).tables@[node as int].count(other),
            views(final(self).tables@[node as int].keys@) == first_seen(
                views(old(self).tables@[node as int].keys@),
                seq![key@],
            ),
            forall|v: int|
                0 <= v < old(self).tables@.len() && v != node ==> #[trigger] final(self).tables@[v]
                    == old(self).tables@[v],
    {
        self.tables[node].add(key, by);
    }

    /// The table of `node`, line by line, in the order in which the
    /// positions first came. A key that is no packed position is left out.
    pub fn entries(&self, node: usize) -> (r: Vec<GroupEntry>)
        requires
            self.wf(),
            node < self.tables@.len(),
        ensures
            entries_are(
                r@,
                lines_of(&self.tables@[node as int], self.tables@[node as int].keys@.len() as int),
            ),
            forall|i: int|
                0 <= i < r@.len() ==> self.tables@[node as int].contains(
                    group_key(
                        (#[trigger] r@[i]).label@,
                        r@[i].node_label as int,
                        r@[i].orbit as int,
                    ),
                ) && r@[i].abundance == self.count(
                    node as int,
                    r@[i].label@,
                    r@[i].node_label as int,
                    r@[i].orbit as int,
                ),
    {
        let table = &self.tables[node];
        let mut out: Vec<GroupEntry> = Vec::with_capacity(table.len());
        let mut i: usize = 0;
        while i < table.keys.len()
            invariant
                i <= table.keys@.len(),
                table.wf(),
                *table == self.tables@[node as int],
                out@.len() <= i,
                entries_are(out@, lines_of(table, i as int)),
                forall|t: int|
                    0 <= t < out@.len() ==> table.contains(
                        group_key(
                            (#[trigger] out@[t]).label@,
                            out@[t].node_label as int,
                            out@[t].orbit as int,
                        ),
                    ) && out@[t].abundance == table.count(
                        group_key(out@[t].label@, out@[t].node_label as int, out@[t].orbit as int),
                    ),
            decreases table.keys@.len() - i,
        {
            match split_group_key(&table.keys[i]) {
                Some((label, node_label, orbit)) => {
                    proof {
                        let key = table.keys@[i as int]@;
                        assert(table.contains(key));
                        assert(table.index_of(key) == i);
                    }
                    out.push(GroupEntry { label, node_label, orbit, abundance: table.vals[i] });
                },
                None => {},
            }
            i += 1;
        }
        out
    }
}

/// Takes a key apart into label, vertex label and orbit, where it is the
/// key of a position.
pub fn split_group_key(key: &Vec<u64>) -> (r: Option<(Vec<u64>, i32, i32)>)
    ensures
        r.is_some() == is_group_key(key@),
        r.is_some() ==> r.unwrap().0@ == key_label(key@) && r.unwrap().1 == key_node_label(key@)
            && r.unwrap().2 == key_orbit(key@),
        match r {
            Some((label, node_label, orbit)) => key@ == group_key(
                label@,
                node_label as int,
                orbit as int,
            ),
            None => forall|label: Seq<u64>, node_label: int, orbit: int|
                i32::MIN <= node_label <= i32::MAX && i32::MIN <= orbit <= i32::MAX ==> key@
                    != #[trigger] group_key(label, node_label, orbit),
        },
{
    let len = key.len();
    if len < 2 {
        proof {
            assert forall|label: Seq<u64>, node_label: int, orbit: int|
                key@ != #[trigger] group_key(label, node_label, orbit) by {
                assert(group_key(label, node_label, orbit).len() == label.len() + 2);
            }
        }
        return None;
    }
    let node_label = unpack_word(key[len - 2]);
    let orbit = unpack_word(key[len - 1]);
    match (node_label, orbit) {
        (Some(a), Some(b)) => {
            let mut label: Vec<u64> = Vec::with_capacity(len - 2);
            let mut i: usize = 0;
            while i < len - 2
                invariant
                    i <= len - 2,
                    len == key@.len(),
                    label@ == key@.take(i as int),
                decreases len - 2 - i,
            {
                label.push(key[i]);
                i += 1;
                assert(label@ =~= key@.take(i as int));
            }
            proof {
                assert(key@ =~= group_key(label@, a as int, b as int));
            }
            Some((label, a, b))
        },
        _ => {
            proof {
                assert forall|label: Seq<u64>, node_label: int, orbit: int|
                    i32::MIN <= node_label <= i32::MAX && i32::MIN <= orbit <= i32::MAX implies key@
                    != #[trigger] group_key(label, node_label, orbit) by {
                    let other = group_key(label, node_label, orbit);
                    if key@ == other {
                        assert(other.len() == label.len() + 2);
                        assert(other[len - 2] == pack(node_label));
                        assert(other[len - 1] == pack(orbit));
                    }
                }
            }
            None
        },
    }
}

} // verus!
