//! The set algebra of one step of the search, on bit sets.
use crate::bitgraph::BitGraph;
use crate::bitset::{bits_below, bits_of, lowest_bit, set_bit_range, width_of};
use fixedbitset::FixedBitSet;
use vstd::prelude::*;

verus! {

/// Takes the lowest vertex out of the extension and returns it.
pub fn pop_extension(ext: &mut FixedBitSet) -> (w: usize)
    requires
        exists|v: int| bits_of(*old(ext)).contains(v),
        bits_below(*old(ext), width_of(*old(ext)) as int),
    ensures
        bits_of(*old(ext)).contains(w as int),
        forall|v: int| bits_of(*old(ext)).contains(v) ==> w <= v,
        bits_of(*final(ext)) == bits_of(*old(ext)).remove(w as int),
        width_of(*final(ext)) == width_of(*old(ext)),
{
    match lowest_bit(ext) {
        Some(w) => {
            ext.set(w, false);
            w
        },
        None => {
            proof {
                let v = choose|v: int| bits_of(*old(ext)).contains(v);
                assert(bits_of(*ext).contains(v));
            }
            0
        },
    }
}

/// The subgraph with the vertex `w` added.
pub fn append_subgraph(subgraph: &FixedBitSet, w: usize) -> (r: FixedBitSet)
    requires
        w < width_of(*subgraph),
    ensures
        bits_of(r) == bits_of(*subgraph).insert(w as int),
        width_of(r) == width_of(*subgraph),
{
    let mut new_sg = subgraph.clone();
    new_sg.insert(w);
    new_sg
}

/// The neighborhood with the exclusive neighborhood added.
pub fn append_exclusive(cnh: &FixedBitSet, exc: &FixedBitSet) -> (r: FixedBitSet)
    requires
        width_of(*exc) <= width_of(*cnh),
    ensures
        bits_of(r) == bits_of(*cnh).union(bits_of(*exc)),
        width_of(r) == width_of(*cnh),
{
    let mut new_nbh = cnh.clone();
    new_nbh.union_with(exc);
    new_nbh
}

/// The neighbors of `v` above `v`.
pub fn initial_extension(graph: &BitGraph, v: usize) -> (r: FixedBitSet)
    requires
        graph.wf(),
        v < graph.n,
    ensures
        forall|w: int| #[trigger] bits_of(r).contains(w) == (graph@.adjacent(v as int, w) && w > v),
        width_of(r) == graph.n,
{
    let mut ext = graph.neighbors(v).clone();
    set_bit_range(&mut ext, 0, v + 1, false);
    proof {
        graph.lemma_rows(v as int);
        assert forall|w: int| #[trigger]
            bits_of(ext).contains(w) == (graph@.adjacent(v as int, w) && w > v) by {
            assert(graph@.adjacent(v as int, w) == graph.neighbor_set(v as int).contains(w));
        }
    }
    ext
}

/// The extension with `v` added.
pub fn initial_neighborhood(ext: &FixedBitSet, v: usize) -> (r: FixedBitSet)
    requires
        v < width_of(*ext),
    ensures
        bits_of(r) == bits_of(*ext).insert(v as int),
        width_of(r) == width_of(*ext),
{
    let mut cnh = ext.clone();
    cnh.insert(v);
    cnh
}

/// The neighbors of `w` that are not in the neighborhood `cn`.
pub fn exclusive_neighborhood(graph: &BitGraph, cn: &FixedBitSet, w: usize) -> (r: FixedBitSet)
    requires
        graph.wf(),
        w < graph.n,
    ensures
        forall|u: int|
            #[trigger] bits_of(r).contains(u) == (graph@.adjacent(w as int, u) && !bits_of(
                *cn,
            ).contains(u)),
        width_of(r) == graph.n,
{
    let mut exc = graph.neighbors(w).clone();
    exc.difference_with(cn);
    proof {
        assert forall|u: int| #[trigger]
            bits_of(exc).contains(u) == (graph@.adjacent(w as int, u) && !bits_of(*cn).contains(
                u,
            )) by {
            assert(graph@.adjacent(w as int, u) == graph.neighbor_set(w as int).contains(u));
        }
    }
    exc
}

/// What is left to extend the subgraph with once `w` has joined it: the
/// vertices of the extension and of the exclusive neighborhood that are
/// above the root `v` and are not `w`.
pub fn overwrite_extension(exc: &FixedBitSet, ext: &FixedBitSet, v: usize, w: usize) -> (r:
    FixedBitSet)
    requires
        width_of(*exc) <= width_of(*ext),
        bits_below(*ext, width_of(*ext) as int),
        bits_below(*exc, width_of(*exc) as int),
        v < width_of(*ext),
        w < width_of(*ext),
    ensures
        forall|u: int|
            #[trigger] bits_of(r).contains(u) == ((bits_of(*ext).contains(u) || bits_of(
                *exc,
            ).contains(u)) && u > v && u != w),
        width_of(r) == width_of(*ext),
{
    let mut new_ext = ext.clone();
    new_ext.union_with(exc);
    new_ext.set(w, false);
    let width = new_ext.len();
    let ghost before = bits_of(new_ext);
    set_bit_range(&mut new_ext, 0, v + 1, false);
    proof {
        assert forall|u: int| #[trigger]
            bits_of(new_ext).contains(u) == ((bits_of(*ext).contains(u) || bits_of(*exc).contains(
                u,
            )) && u > v && u != w) by {
            assert(before.contains(u) == ((bits_of(*ext).contains(u) || bits_of(*exc).contains(u))
                && u != w));
        }
    }
    new_ext
}

} // verus!
