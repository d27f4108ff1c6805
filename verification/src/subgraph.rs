//! Subgraphs as graphs of their own.
use crate::bitset::{bits_of, width_of};
use crate::graph::{
    add_edge, add_node, arcs_of, edge_count, edge_endpoints, from_edges, graph_with_capacity,
    node_count, order_of, span, DiGraph,
};
use fixedbitset::FixedBitSet;
use vstd::prelude::*;

verus! {

/// Populates a graph with nodes, one for each of `indices`.
pub fn populate_nodes(graph: &mut DiGraph, indices: &Vec<usize>)
    requires
        order_of(*old(graph)) + indices@.len() <= u32::MAX,
    ensures
        order_of(*final(graph)) == order_of(*old(graph)) + indices@.len(),
        arcs_of(*final(graph)) == arcs_of(*old(graph)),
{
    let mut i: usize = 0;
    while i < indices.len()
        invariant
            i <= indices@.len(),
            order_of(*old(graph)) + indices@.len() <= u32::MAX,
            order_of(*graph) == order_of(*old(graph)) + i,
            arcs_of(*graph) == arcs_of(*old(graph)),
        decreases indices@.len() - i,
    {
        add_node(graph);
        i += 1;
    }
}

/// Whether the flat adjacency `adj` of a graph of `n` vertices holds an arc
/// from `u` to `v`.
pub open spec fn flat_arc(adj: FixedBitSet, n: int, u: int, v: int) -> bool {
    bits_of(adj).contains(u * n + v)
}

/// The arcs between the first `upto` pairs of `indices`, the pairs taken row
/// by row: an arc from the place of one vertex to the place of another where
/// the flat adjacency holds an arc between the two.
pub open spec fn induced_arcs(adj: FixedBitSet, n: int, indices: Seq<usize>, upto: int) -> Seq<
    (int, int),
>
    decreases upto,
{
    if upto <= 0 || indices.len() == 0 {
        Seq::empty()
    } else {
        let i = (upto - 1) / (indices.len() as int);
        let j = (upto - 1) % (indices.len() as int);
        let before = induced_arcs(adj, n, indices, upto - 1);
        if flat_arc(adj, n, indices[i] as int, indices[j] as int) {
            before.push((i, j))
        } else {
            before
        }
    }
}

/// The arcs between more pairs are no fewer.
pub proof fn lemma_induced_grows(adj: FixedBitSet, n: int, indices: Seq<usize>, a: int, b: int)
    requires
        a <= b,
    ensures
        induced_arcs(adj, n, indices, a).len() <= induced_arcs(adj, n, indices, b).len(),
    decreases b - a,
{
    if a < b {
        lemma_induced_grows(adj, n, indices, a, b - 1);
    }
}

/// Adds to the graph an arc between the places of two vertices where the
/// flat adjacency holds an arc between the vertices. Says whether all the
/// arcs found room: a graph holds no more than `u32::MAX` of them.
pub fn populate_edges(graph: &mut DiGraph, adj: &FixedBitSet, n: usize, indices: &Vec<usize>) -> (ok:
    bool)
    requires
        arcs_of(*old(graph)).len() == 0,
        order_of(*old(graph)) == indices@.len(),
        forall|i: int| 0 <= i < indices@.len() ==> (#[trigger] indices@[i]) < n,
        n * n <= usize::MAX,
    ensures
        order_of(*final(graph)) == order_of(*old(graph)),
        ok == (induced_arcs(
            *adj,
            n as int,
            indices@,
            (indices@.len() * indices@.len()) as int,
        ).len() <= u32::MAX),
        ok ==> arcs_of(*final(graph)) == induced_arcs(
            *adj,
            n as int,
            indices@,
            (indices@.len() * indices@.len()) as int,
        ),
{
    let len = indices.len();
    let order = node_count(graph);
    let mut idx: usize = 0;
    proof {
        assert(arcs_of(*graph) =~= induced_arcs(*adj, n as int, indices@, 0));
    }
    while idx < len
        invariant
            idx <= len,
            len == indices@.len(),
            order_of(*graph) == len,
            order_of(*old(graph)) == len,
            arcs_of(*graph).len() <= u32::MAX,
            len <= u32::MAX,
            n * n <= usize::MAX,
            forall|i: int| 0 <= i < indices@.len() ==> (#[trigger] indices@[i]) < n,
            arcs_of(*graph) == induced_arcs(*adj, n as int, indices@, idx * len),
        decreases len - idx,
    {
        let g_idx = indices[idx];
        let mut jdx: usize = 0;
        while jdx < len
            invariant
                idx < len,
                jdx <= len,
                len == indices@.len(),
                order_of(*graph) == len,
                order_of(*old(graph)) == len,
                arcs_of(*graph).len() <= u32::MAX,
                len <= u32::MAX,
                n * n <= usize::MAX,
                g_idx == indices@[idx as int],
                forall|i: int| 0 <= i < indices@.len() ==> (#[trigger] indices@[i]) < n,
                arcs_of(*graph) == induced_arcs(*adj, n as int, indices@, idx * len + jdx),
            decreases len - jdx,
        {
            let g_jdx = indices[jdx];
            proof {
                assert(g_idx * n + g_jdx < n * n) by (nonlinear_arith)
                    requires
                        g_idx < n,
                        g_jdx < n,
                ;
                assert(idx * len + jdx < len * len) by (nonlinear_arith)
                    requires
                        idx < len,
                        jdx < len,
                ;
                let at = idx * len + jdx;
                assert(at / (len as int) == idx && at % (len as int) == jdx) by (nonlinear_arith)
                    requires
                        at == idx * len + jdx,
                        0 <= jdx < len,
                        0 <= idx,
                ;
            }
            if adj.contains(g_idx * n + g_jdx) {
                if edge_count(graph) >= 0xffff_ffff {
                    proof {
                        lemma_induced_grows(
                            *adj,
                            n as int,
                            indices@,
                            idx * len + jdx + 1,
                            (len * len) as int,
                        );
                    }
                    return false;
                }
                add_edge(graph, idx, jdx);
            }
            jdx += 1;
        }
        idx += 1;
        proof {
            assert((idx - 1) * len + len == idx * len) by (nonlinear_arith);
        }
    }
    true
}

/// The graph of the subgraph that the flat adjacency `adj` of a graph of `n`
/// vertices induces on `indices`: a node for every index, in their order,
/// and the arcs between them. There is none where an index is no vertex,
/// where the flat adjacency cannot be indexed, or where there are more
/// vertices or more arcs than a graph holds.
pub fn build_subgraph(adj: &FixedBitSet, n: usize, indices: &Vec<usize>) -> (r: Option<DiGraph>)
    ensures
        r.is_some() == (indices@.len() <= u32::MAX && n * n <= usize::MAX && (forall|i: int|
            0 <= i < indices@.len() ==> (#[trigger] indices@[i]) < n) && induced_arcs(
            *adj,
            n as int,
            indices@,
            (indices@.len() * indices@.len()) as int,
        ).len() <= u32::MAX),
        r.is_some() ==> order_of(r.unwrap()) == indices@.len() && arcs_of(r.unwrap())
            == induced_arcs(*adj, n as int, indices@, (indices@.len() * indices@.len()) as int),
{
    if indices.len() > 0xffff_ffff {
        return None;
    }
    if n.checked_mul(n).is_none() {
        return None;
    }
    let mut i: usize = 0;
    while i < indices.len()
        invariant
            i <= indices@.len(),
            forall|t: int| 0 <= t < i ==> (#[trigger] indices@[t]) < n,
        decreases indices@.len() - i,
    {
        if indices[i] >= n {
            return None;
        }
        i += 1;
    }
    let mut subgraph = graph_with_capacity(indices.len(), 0);
    populate_nodes(&mut subgraph, indices);
    if populate_edges(&mut subgraph, adj, n, indices) {
        Some(subgraph)
    } else {
        None
    }
}

/// The place of every vertex in `indices`, and the number of vertices where
/// a vertex is not among them. Of a vertex that stands twice the first place
/// counts.
pub open spec fn place_of(indices: Seq<usize>, v: int) -> int
    decreases indices.len(),
{
    if indices.len() == 0 {
        0
    } else if indices.drop_last().contains(v as usize) && 0 <= v <= usize::MAX {
        place_of(indices.drop_last(), v)
    } else if indices.last() == v {
        indices.len() - 1
    } else {
        indices.len() as int
    }
}

/// The arcs among the first `upto` of `arcs` that join two of `indices`, by
/// the places of their ends.
pub open spec fn kept_arcs(arcs: Seq<(int, int)>, indices: Seq<usize>, upto: int) -> Seq<(u32, u32)>
    decreases upto,
{
    if upto <= 0 {
        Seq::empty()
    } else {
        let before = kept_arcs(arcs, indices, upto - 1);
        let a = place_of(indices, arcs[upto - 1].0);
        let b = place_of(indices, arcs[upto - 1].1);
        if a < indices.len() && b < indices.len() {
            before.push((a as u32, b as u32))
        } else {
            before
        }
    }
}

/// The subgraph that `graph` induces on `indices`, as a graph of its own:
/// the arcs of `graph` between two of the vertices, in their order, by the
/// places of the vertices in `indices`. There is none where there are too
/// many vertices for a graph.
pub fn into_subgraph(graph: &DiGraph, indices: &Vec<usize>) -> (r: Option<DiGraph>)
    ensures
        r.is_some() == (indices@.len() < u32::MAX),
        r.is_some() ==> {
            let kept = kept_arcs(arcs_of(*graph), indices@, arcs_of(*graph).len() as int);
            &&& order_of(r.unwrap()) == span(kept)
            &&& arcs_of(r.unwrap()).len() == kept.len()
            &&& forall|i: int|
                0 <= i < kept.len() ==> (#[trigger] arcs_of(r.unwrap())[i]) == (
                    kept[i].0 as int,
                    kept[i].1 as int,
                )
        },
{
    if indices.len() >= 0xffff_ffff {
        return None;
    }
    let n = node_count(graph);
    let count = edge_count(graph);
    let len = indices.len();
    // the place of every node of the graph in `indices`
    let mut place: Vec<usize> = Vec::with_capacity(n);
    let mut v: usize = 0;
    while v < n
        invariant
            v <= n,
            place@.len() == v,
            len == indices@.len(),
            forall|t: int| 0 <= t < v ==> #[trigger] place@[t] == len,
        decreases n - v,
    {
        place.push(len);
        v += 1;
    }
    proof {
        assert(indices@.take(0).len() == 0);
    }
    let mut i: usize = 0;
    while i < len
        invariant
            i <= len,
            len == indices@.len(),
            place@.len() == n,
            forall|t: int|
                0 <= t < n ==> #[trigger] place@[t] == (if place_of(indices@.take(i as int), t) < i {
                    place_of(indices@.take(i as int), t)
                } else {
                    len as int
                }),
        decreases len - i,
    {
        let w = indices[i];
        proof {
            assert(indices@.take(i + 1).drop_last() =~= indices@.take(i as int));
            assert(indices@.take(i + 1).last() == w);
            assert forall|t: int| 0 <= t < n implies place_of(indices@.take(i + 1), t) == (
            if place_of(indices@.take(i as int), t) < i {
                place_of(indices@.take(i as int), t)
            } else if t == w {
                i as int
            } else {
                i + 1
            }) by {
                lemma_place_of(indices@.take(i as int), t);
            }
        }
        if w < n && place[w] == len {
            place[w] = i;
        }
        i += 1;
    }
    proof {
        assert(indices@.take(len as int) =~= indices@);
    }
    let mut edges: Vec<(u32, u32)> = Vec::new();
    let mut e: usize = 0;
    while e < count
        invariant
            e <= count,
            count == arcs_of(*graph).len(),
            count <= u32::MAX,
            n == order_of(*graph),
            len == indices@.len(),
            len < u32::MAX,
            place@.len() == n,
            forall|t: int|
                0 <= t < n ==> #[trigger] place@[t] == (if place_of(indices@, t) < len {
                    place_of(indices@, t)
                } else {
                    len as int
                }),
            edges@ == kept_arcs(arcs_of(*graph), indices@, e as int),
            edges@.len() <= e,
            forall|t: int| 0 <= t < edges@.len() ==> (#[trigger] edges@[t]).0 < len && edges@[t].1 < len,
        decreases count - e,
    {
        match edge_endpoints(graph, e) {
            Some((a, b)) => {
                proof {
                    lemma_place_of(indices@, a as int);
                    lemma_place_of(indices@, b as int);
                }
                if place[a] < len && place[b] < len {
                    edges.push((place[a] as u32, place[b] as u32));
                }
            },
            None => {},
        }
        e += 1;
    }
    Some(from_edges(&edges))
}

/// The place of a vertex is a place of the list, or the length of the list.
pub proof fn lemma_place_of(indices: Seq<usize>, v: int)
    ensures
        0 <= place_of(indices, v) <= indices.len(),
        place_of(indices, v) < indices.len() ==> indices[place_of(indices, v)] == v,
        (0 <= v <= usize::MAX && indices.contains(v as usize)) == (place_of(indices, v)
            < indices.len()),
    decreases indices.len(),
{
    if indices.len() > 0 {
        let front = indices.drop_last();
        lemma_place_of(front, v);
        if front.contains(v as usize) && 0 <= v <= usize::MAX {
            let i = choose|i: int| 0 <= i < front.len() && front[i] == v as usize;
            assert(indices[i] == v as usize);
            assert(indices[place_of(front, v)] == front[place_of(front, v)]);
        } else if indices.last() == v {
            assert(indices[indices.len() - 1] == v as usize);
        } else {
            if 0 <= v <= usize::MAX && indices.contains(v as usize) {
                let i = choose|i: int| 0 <= i < indices.len() && indices[i] == v as usize;
                assert(front[i] == v as usize);
            }
        }
    }
}

/// A graph that subgraphs can be taken from.
pub trait IntoSubgraph: Sized {
    /// Whether `sub` is the subgraph that `self` induces on `indices`, as a
    /// graph of its own.
    spec fn induces(&self, indices: Seq<usize>, sub: Self) -> bool;

    /// The subgraph that the graph induces on `indices`, as a graph of its
    /// own, if there are not too many vertices for a graph.
    fn into_subgraph(&self, indices: &Vec<usize>) -> (r: Option<Self>)
        ensures
            r.is_some() == (indices@.len() < u32::MAX),
            r.is_some() ==> self.induces(indices@, r.unwrap()),
    ;
}

impl IntoSubgraph for DiGraph {
    open spec fn induces(&self, indices: Seq<usize>, sub: Self) -> bool {
        let kept = kept_arcs(arcs_of(*self), indices, arcs_of(*self).len() as int);
        &&& order_of(sub) == span(kept)
        &&& arcs_of(sub).len() == kept.len()
        &&& forall|i: int|
            0 <= i < kept.len() ==> (#[trigger] arcs_of(sub)[i]) == (
                kept[i].0 as int,
                kept[i].1 as int,
            )
    }

    fn into_subgraph(&self, indices: &Vec<usize>) -> (r: Option<Self>) {
        self::into_subgraph(self, indices)
    }
}

} // verus!
