//! The graph as two bit sets per vertex.
use crate::bitset::{bits_below, bits_of, count_bits, width_of};
use crate::graph::{arcs_of, neighbors_undirected, node_count, order_of, successors, DiGraph};
use fixedbitset::FixedBitSet;
use vstd::prelude::*;

verus! {

/// A graph as mathematics has it: so many vertices, numbered from zero, the
/// pairs that share an edge, and the pairs joined by an arc.
pub struct Adjacency {
    /// The number of vertices.
    pub n: nat,
    /// The pairs of vertices that share an edge, each in both orders.
    pub edges: Set<(int, int)>,
    /// The pairs of vertices with an arc from the first to the second.
    pub arcs: Set<(int, int)>,
    /// Whether the arcs have a direction of their own.
    pub directed: bool,
}

impl Adjacency {
    /// Whether `u` and `v` share an edge.
    pub open spec fn adjacent(self, u: int, v: int) -> bool {
        self.edges.contains((u, v))
    }

    /// Whether there is an arc from `u` to `v`.
    pub open spec fn arc(self, u: int, v: int) -> bool {
        self.arcs.contains((u, v))
    }

    /// The vertices that share an edge with `v`.
    pub open spec fn neighbors(self, v: int) -> Set<int> {
        Set::new(|w: int| self.edges.contains((v, w)))
    }

    /// Edges join two distinct vertices and hold both ways; an arc is a loop
    /// or runs along an edge, and along every edge runs an arc, one way or
    /// the other; without direction the arcs are the edges. The vertices can
    /// be numbered in a `usize`.
    pub open spec fn wf(self) -> bool {
        &&& self.n <= usize::MAX
        &&& forall|u: int, v: int| #[trigger]
            self.adjacent(u, v) ==> 0 <= u < self.n && 0 <= v < self.n && u != v && self.adjacent(
                v,
                u,
            ) && (self.arc(u, v) || self.arc(v, u))
        &&& forall|u: int, v: int| #[trigger]
            self.arc(u, v) ==> 0 <= u < self.n && 0 <= v < self.n && (u == v || self.adjacent(u, v))
        &&& !self.directed ==> self.arcs == self.edges
    }
}

/// Whether `g` holds an arc from `u` to `v`.
pub open spec fn has_arc(g: DiGraph, u: int, v: int) -> bool {
    arcs_of(g).contains((u, v))
}

/// Whether two distinct vertices of `g` are joined by an arc in either
/// direction. A loop joins nothing.
pub open spec fn joined(g: DiGraph, u: int, v: int) -> bool {
    u != v && (has_arc(g, u, v) || has_arc(g, v, u))
}

/// The graph that `g` stands for. Parallel arcs collapse. With `directed`
/// the arcs keep their direction and loops stay among them; without it every
/// arc counts both ways and loops are dropped. A loop never makes an edge.
pub open spec fn adjacency_of(g: DiGraph, directed: bool) -> Adjacency {
    Adjacency {
        n: order_of(g),
        edges: Set::new(|p: (int, int)| 0 <= p.0 < order_of(g) && joined(g, p.0, p.1)),
        arcs: Set::new(
            |p: (int, int)|
                0 <= p.0 < order_of(g) && if directed {
                    has_arc(g, p.0, p.1)
                } else {
                    joined(g, p.0, p.1)
                },
        ),
        directed,
    }
}

/// A graph represented as a set of adjacency lists
#[derive(Debug)]
pub struct BitGraph {
    /// Adjacency list for undirected (all) edges
    pub u_adj: Vec<FixedBitSet>,
    /// Adjacency list for directed (outgoing) edges
    pub d_adj: Vec<FixedBitSet>,
    /// Number of directed (outgoing) neighbors,
    pub d_num: Vec<usize>,
    /// Number of nodes in the graph
    pub n: usize,
    /// Is directed
    pub is_directed: bool,
}

impl View for BitGraph {
    type V = Adjacency;

    /// The graph that the rows hold.
    open spec fn view(&self) -> Adjacency {
        Adjacency {
            n: self.n as nat,
            edges: Set::new(
                |p: (int, int)| 0 <= p.0 < self.n && bits_of(self.u_adj@[p.0]).contains(p.1),
            ),
            arcs: Set::new(
                |p: (int, int)| 0 <= p.0 < self.n && bits_of(self.d_adj@[p.0]).contains(p.1),
            ),
            directed: self.is_directed,
        }
    }
}

impl BitGraph {
    /// The vertices that share an edge with `v`, whatever its direction.
    pub open spec fn neighbor_set(&self, v: int) -> Set<int> {
        bits_of(self.u_adj@[v])
    }

    /// The vertices that `v` has an arc to. In an undirected graph these are
    /// all its neighbors.
    pub open spec fn successor_set(&self, v: int) -> Set<int> {
        bits_of(self.d_adj@[v])
    }

    /// The rows are as many and as wide as the graph has vertices, and the
    /// stored out-degrees are those of the rows.
    pub open spec fn shaped(&self) -> bool {
        &&& self.u_adj@.len() == self.n
        &&& self.d_adj@.len() == self.n
        &&& self.d_num@.len() == self.n
        &&& forall|v: int| 0 <= v < self.n ==> width_of(#[trigger] self.u_adj@[v]) == self.n
        &&& forall|v: int| 0 <= v < self.n ==> width_of(#[trigger] self.d_adj@[v]) == self.n
        &&& forall|v: int|
            0 <= v < self.n ==> #[trigger] self.d_num@[v] == bits_of(self.d_adj@[v]).len()
    }

    /// The rows have their shape and hold a graph.
    pub open spec fn wf(&self) -> bool {
        &&& self.shaped()
        &&& self@.wf()
    }

    /// Builds the bit sets of `graph`. With `is_directed` the arcs keep their
    /// direction; without it every arc counts both ways and loops are dropped.
    /// Parallel arcs collapse. A loop never makes a vertex its own neighbor.
    pub fn from_graph(graph: &DiGraph, is_directed: bool) -> (r: Self)
        ensures
            r.wf(),
            r@ == adjacency_of(*graph, is_directed),
    {
        let n = node_count(graph);
        let mut u_adj: Vec<FixedBitSet> = Vec::with_capacity(n);
        let mut d_adj: Vec<FixedBitSet> = Vec::with_capacity(n);
        let mut d_num: Vec<usize> = Vec::with_capacity(n);
        let mut v: usize = 0;
        while v < n
            invariant
                v <= n,
                n == order_of(*graph),
                n <= u32::MAX,
                u_adj@.len() == v,
                d_adj@.len() == v,
                d_num@.len() == v,
                forall|u: int| 0 <= u < v ==> width_of(#[trigger] u_adj@[u]) == n,
                forall|u: int| 0 <= u < v ==> width_of(#[trigger] d_adj@[u]) == n,
                forall|u: int| 0 <= u < v ==> #[trigger] d_num@[u] == bits_of(d_adj@[u]).len(),
                forall|u: int, w: int|
                    0 <= u < v ==> (#[trigger] bits_of(u_adj@[u]).contains(w) == joined(
                        *graph,
                        u,
                        w,
                    )),
                forall|u: int, w: int|
                    0 <= u < v ==> (#[trigger] bits_of(d_adj@[u]).contains(w) == if is_directed {
                        has_arc(*graph, u, w)
                    } else {
                        joined(*graph, u, w)
                    }),
                forall|u: int| 0 <= u < v ==> bits_below(#[trigger] u_adj@[u], n as int),
                forall|u: int| 0 <= u < v ==> bits_below(#[trigger] d_adj@[u], n as int),
            decreases n - v,
        {
            let u_neighbors = undirected_neighbors(graph, v);
            let d_neighbors = if is_directed {
                directed_neighbors(graph, v)
            } else {
                u_neighbors.clone()
            };
            u_adj.push(u_neighbors);
            d_num.push(count_bits(&d_neighbors));
            d_adj.push(d_neighbors);
            v += 1;
        }
        let r = Self { u_adj, d_adj, d_num, n, is_directed };
        proof {
            let target = adjacency_of(*graph, is_directed);
            assert forall|p: (int, int)| r@.edges.contains(p) == target.edges.contains(p) by {
                if 0 <= p.0 < n {
                    assert(bits_of(u_adj@[p.0]).contains(p.1) == joined(*graph, p.0, p.1));
                }
            }
            assert forall|p: (int, int)| r@.arcs.contains(p) == target.arcs.contains(p) by {
                if 0 <= p.0 < n {
                    assert(bits_of(d_adj@[p.0]).contains(p.1) == if is_directed {
                        has_arc(*graph, p.0, p.1)
                    } else {
                        joined(*graph, p.0, p.1)
                    });
                }
            }
            assert(r@.edges =~= target.edges);
            assert(r@.arcs =~= target.arcs);
            if !is_directed {
                assert(target.arcs =~= target.edges);
            }
            assert forall|u: int, w: int| #[trigger] r@.adjacent(u, w) implies 0 <= u < r@.n && 0
                <= w < r@.n && u != w && r@.adjacent(w, u) by {
                assert(bits_below(r.u_adj@[u], n as int));
                assert(bits_of(u_adj@[u]).contains(w));
                assert(joined(*graph, w, u));
                assert(bits_of(u_adj@[w]).contains(u) == joined(*graph, w, u));
            }
            assert forall|u: int, w: int| #[trigger] r@.arc(u, w) implies 0 <= u < r@.n && 0 <= w
                < r@.n && (u == w || r@.adjacent(u, w)) by {
                assert(bits_below(r.d_adj@[u], n as int));
                assert(bits_of(d_adj@[u]).contains(w));
                assert(bits_of(u_adj@[u]).contains(w) == joined(*graph, u, w));
            }
        }
        r
    }

    /// The rows of a vertex hold vertices only, hence finitely many, and the
    /// row of undirected neighbors is the set of its neighbors in the graph.
    pub proof fn lemma_rows(&self, v: int)
        requires
            self.wf(),
            0 <= v < self.n,
        ensures
            self.neighbor_set(v).finite(),
            self.successor_set(v).finite(),
            forall|w: int| self.neighbor_set(v).contains(w) ==> 0 <= w < self.n,
            forall|w: int| self.successor_set(v).contains(w) ==> 0 <= w < self.n,
            self.neighbor_set(v) == self@.neighbors(v),
    {
        assert forall|w: int| self.neighbor_set(v).contains(w) implies 0 <= w < self.n by {
            assert(self@.adjacent(v, w));
        }
        assert forall|w: int| self.successor_set(v).contains(w) implies 0 <= w < self.n by {
            assert(self@.arc(v, w));
        }
        let all = Set::<int>::new(|i: int| 0 <= i < self.n as int);
        vstd::set_lib::lemma_int_range(0, self.n as int);
        assert(all =~= vstd::set_lib::set_int_range(0, self.n as int));
        vstd::set_lib::lemma_len_subset(self.neighbor_set(v), all);
        vstd::set_lib::lemma_len_subset(self.successor_set(v), all);
        assert(self.neighbor_set(v) =~= self@.neighbors(v));
    }

    /// The undirected neighbors of `v` as a bit set.
    pub fn neighbors(&self, v: usize) -> (r: &FixedBitSet)
        requires
            self.wf(),
            v < self.n,
        ensures
            bits_of(*r) == self.neighbor_set(v as int),
            width_of(*r) == self.n,
    {
        &self.u_adj[v]
    }

    /// The vertices that `v` has an arc to, as a bit set.
    pub fn neighbors_directed(&self, v: usize) -> (r: &FixedBitSet)
        requires
            self.wf(),
            v < self.n,
        ensures
            bits_of(*r) == self.successor_set(v as int),
            width_of(*r) == self.n,
    {
        &self.d_adj[v]
    }

    /// The same as `neighbors_directed`; the bound on `v` is proved, not
    /// tested.
    pub fn neighbors_directed_unchecked(&self, v: usize) -> (r: &FixedBitSet)
        requires
            self.wf(),
            v < self.n,
        ensures
            bits_of(*r) == self.successor_set(v as int),
            width_of(*r) == self.n,
    {
        self.neighbors_directed(v)
    }

    /// The number of vertices that `v` has an arc to.
    pub fn num_neighbors_directed(&self, v: usize) -> (r: usize)
        requires
            self.wf(),
            v < self.n,
        ensures
            r == self.successor_set(v as int).len(),
    {
        self.d_num[v]
    }

    /// Whether `u` and `v` share an edge.
    pub fn is_connected(&self, u: usize, v: usize) -> (r: bool)
        requires
            self.wf(),
            u < self.n,
        ensures
            r == self@.adjacent(u as int, v as int),
    {
        self.u_adj[u].contains(v)
    }

    /// Whether there is an arc from `u` to `v`.
    pub fn is_connected_directed(&self, u: usize, v: usize) -> (r: bool)
        requires
            self.wf(),
            u < self.n,
        ensures
            r == self@.arc(u as int, v as int),
    {
        self.d_adj[u].contains(v)
    }
}

/// The bit set of the vertices other than `v` that an arc joins to `v`, in
/// either direction.
pub fn undirected_neighbors(graph: &DiGraph, v: usize) -> (bv: FixedBitSet)
    requires
        v < order_of(*graph),
    ensures
        width_of(bv) == order_of(*graph),
        forall|w: int| #[trigger] bits_of(bv).contains(w) == joined(*graph, v as int, w),
        bits_below(bv, order_of(*graph) as int),
{
    let n = node_count(graph);
    let mut bv = FixedBitSet::with_capacity(n);
    let list = neighbors_undirected(graph, v);
    let mut i: usize = 0;
    while i < list.len()
        invariant
            i <= list@.len(),
            width_of(bv) == n,
            n == order_of(*graph),
            forall|k: int| 0 <= k < list@.len() ==> (#[trigger] list@[k]) < n,
            forall|w: int| #[trigger]
                bits_of(bv).contains(w) == (w != v && exists|k: int|
                    0 <= k < i && #[trigger] list@[k] == w),
        decreases list@.len() - i,
    {
        let w = list[i];
        if w != v {
            bv.insert(w);
        }
        i += 1;
    }
    proof {
        assert forall|w: int| #[trigger] bits_of(bv).contains(w) == joined(*graph, v as int, w) by {
            if joined(*graph, v as int, w) {
                let k = choose|k: int| 0 <= k < list@.len() && #[trigger] list@[k] == w;
                assert(list@[k] == w);
            }
        }
    }
    bv
}

/// The bit set of the vertices that `v` has an arc to, itself included when it
/// has a loop.
pub fn directed_neighbors(graph: &DiGraph, v: usize) -> (bv: FixedBitSet)
    requires
        v < order_of(*graph),
    ensures
        width_of(bv) == order_of(*graph),
        forall|w: int| #[trigger] bits_of(bv).contains(w) == has_arc(*graph, v as int, w),
        bits_below(bv, order_of(*graph) as int),
{
    let n = node_count(graph);
    let mut bv = FixedBitSet::with_capacity(n);
    let list = successors(graph, v);
    let mut i: usize = 0;
    while i < list.len()
        invariant
            i <= list@.len(),
            width_of(bv) == n,
            n == order_of(*graph),
            forall|k: int| 0 <= k < list@.len() ==> (#[trigger] list@[k]) < n,
            forall|w: int| #[trigger]
                bits_of(bv).contains(w) == (exists|k: int| 0 <= k < i && #[trigger] list@[k] == w),
        decreases list@.len() - i,
    {
        let w = list[i];
        bv.insert(w);
        i += 1;
    }
    proof {
        assert forall|w: int| #[trigger] bits_of(bv).contains(w) == has_arc(*graph, v as int, w) by {
            if has_arc(*graph, v as int, w) {
                let k = choose|k: int| 0 <= k < list@.len() && #[trigger] list@[k] == w;
                assert(list@[k] == w);
            }
        }
    }
    bv
}

} // verus!
