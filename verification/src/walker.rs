//! One descent of the enumeration, rooted at a vertex, as a machine that is
//! advanced step by step.
use crate::bitgraph::{Adjacency, BitGraph};
use crate::bitset::lowest_bit;
use crate::search::lemma_zero_has_none;
use crate::model::{state_ok, touches};
use crate::multibitset::MultiBitSet;
use crate::parallel_esu::{joined, merged, theorem_merged_tallies};
use crate::ngraph::{all_zero, dense_has, fits, NautyGraph};
use crate::pattern::is_pattern;
use crate::counts::{add_capped, capped, first_seen, views, Counts};
use crate::esu::check_motif_size;
use crate::graph::DiGraph;
use crate::pattern::{lemma_pattern_is, pattern_of, patterns, tally};
use crate::result::{EnumResult, EsuError};
use crate::search::{counted, lemma_counted_concat, lemma_counted_none, lemma_counted_one};
use crate::theorems::{least_from, lemma_least_from};
use crate::walk::{child_ext, cost, lemma_walk_same, same_from, walk};
use vstd::prelude::*;

verus! {

/// What a walk has still to visit at the depths above `j`, the deepest
/// first: at every depth what grows out of the subgraph of that depth when
/// the vertices of its extension row beyond the vertex in use may be added.
pub open spec fn pending_until(
    g: Adjacency,
    k: nat,
    sub: Seq<usize>,
    rows: Seq<Set<int>>,
    j: int,
) -> Seq<Seq<usize>>
    decreases j,
{
    if j <= 0 {
        Seq::empty()
    } else {
        walk(g, k, sub.take(j), rows[j - 1], (sub[j] + 1) as nat) + pending_until(
            g,
            k,
            sub,
            rows,
            j - 1,
        )
    }
}

/// The number of steps that `pending_until` stands for.
pub open spec fn pending_cost(
    g: Adjacency,
    k: nat,
    sub: Seq<usize>,
    rows: Seq<Set<int>>,
    j: int,
) -> nat
    decreases j,
{
    if j <= 0 {
        0
    } else {
        cost(g, k, sub.take(j), rows[j - 1], (sub[j] + 1) as nat) + pending_cost(
            g,
            k,
            sub,
            rows,
            j - 1,
        )
    }
}

/// What is pending above the depth `j` depends on the subgraph up to that
/// depth and on the rows above it only.
pub proof fn lemma_pending_frame(
    g: Adjacency,
    k: nat,
    sub: Seq<usize>,
    rows: Seq<Set<int>>,
    other_sub: Seq<usize>,
    other_rows: Seq<Set<int>>,
    j: int,
)
    requires
        0 <= j < sub.len(),
        j < other_sub.len(),
        j <= rows.len(),
        j <= other_rows.len(),
        forall|i: int| 0 <= i <= j ==> sub[i] == other_sub[i],
        forall|i: int| 0 <= i < j ==> rows[i] == other_rows[i],
    ensures
        pending_until(g, k, sub, rows, j) == pending_until(g, k, other_sub, other_rows, j),
        pending_cost(g, k, sub, rows, j) == pending_cost(g, k, other_sub, other_rows, j),
    decreases j,
{
    if j > 0 {
        lemma_pending_frame(g, k, sub, rows, other_sub, other_rows, j - 1);
        assert(sub.take(j) =~= other_sub.take(j));
    }
}

/// The vertices known to be in or next to the subgraph `sub[0..=d]`: the
/// root, its neighbors, and of the later vertices the neighbors above the
/// root.
pub open spec fn closed_neighborhood(g: Adjacency, sub: Seq<usize>, d: int) -> Set<int>
    decreases d,
{
    if d <= 0 {
        g.neighbors(sub[0] as int).insert(sub[0] as int)
    } else {
        closed_neighborhood(g, sub, d - 1).union(
            Set::new(|v: int| g.adjacent(sub[d] as int, v) && v > sub[0]),
        )
    }
}

/// The neighbors of `sub[d]` above the root that were not known at depth
/// `d - 1`.
pub open spec fn exclusive_neighborhood(g: Adjacency, sub: Seq<usize>, d: int) -> Set<int> {
    Set::new(
        |v: int|
            g.adjacent(sub[d] as int, v) && v > sub[0] && !closed_neighborhood(
                g,
                sub,
                d - 1,
            ).contains(v),
    )
}

/// A vertex of the closed neighborhood is the root or shares an edge with
/// one of the vertices `sub[0..=d]`.
pub proof fn lemma_closed_touches(g: Adjacency, sub: Seq<usize>, d: int, v: int)
    requires
        g.wf(),
        0 <= d < sub.len(),
        closed_neighborhood(g, sub, d).contains(v),
    ensures
        v == sub[0] || touches(g, sub, d + 1, v),
        0 <= v < g.n || v == sub[0],
    decreases d,
{
    if d <= 0 {
        if v != sub[0] {
            assert(g.adjacent(sub[0] as int, v));
            assert(g.adjacent(v, sub[0] as int));
        }
    } else {
        if closed_neighborhood(g, sub, d - 1).contains(v) {
            lemma_closed_touches(g, sub, d - 1, v);
            if v != sub[0] {
                let j = choose|j: int|
                    0 <= j < d && j < sub.len() && g.adjacent(v, #[trigger] sub[j] as int);
                assert(g.adjacent(v, sub[j] as int));
            }
        } else {
            assert(g.adjacent(sub[d] as int, v));
            assert(g.adjacent(v, sub[d] as int));
        }
    }
}

/// Whether `w` is the least vertex of `row`.
pub open spec fn least_in(row: Set<int>, w: int) -> bool {
    row.contains(w) && forall|v: int| row.contains(v) ==> w <= v
}

/// What a step of the walk did.
#[derive(Debug, Clone, Copy, PartialEq, Eq, Structural)]
pub enum Step {
    /// The subgraph took one more vertex.
    Descended,
    /// The subgraph gave its last vertex back.
    Ascended,
    /// The subgraph is complete and its adjacency stands in the graph
    /// buffer. It waits to be counted and retired.
    Complete,
    /// Nothing is left to visit from this root.
    Finished,
}

#[derive(Debug)]
pub struct Walker<'a> {
    /// A reference to the underlying bitgraph.
    pub bitgraph: &'a BitGraph,
    /// The subgraph of the current walk.
    pub subgraph: Vec<usize>,
    /// The extension of the current walk.
    pub extension: MultiBitSet,
    /// The neighborhood of the current walk.
    pub neighborhood: MultiBitSet,
    /// The exclusive neighborhood of the current walk.
    pub exclusive: MultiBitSet,
    /// The root of the walk.
    pub root: usize,
    /// The current head of the walk.
    pub head: usize,
    /// The parent nodes of the current head.
    pub parent: Vec<usize>,
    /// The maximum size of the subgraph.
    pub k: usize,
    /// The current depth of the walk.
    pub depth: usize,
    /// The underlying nauty graph.
    pub nauty_graph: NautyGraph,
}

impl<'a> Walker<'a> {
    /// The graph that is walked.
    pub open spec fn graph(&self) -> Adjacency {
        self.bitgraph@
    }

    /// The three stacks have a row of the graph's width for each depth, the
    /// subgraph has one vertex for each depth reached, and the rows beyond
    /// the depth are empty.
    pub open spec fn shaped(&self) -> bool {
        &&& self.bitgraph.wf()
        &&& self.k >= 2
        &&& self.depth < self.k
        &&& self.root < self.bitgraph.n
        &&& self.subgraph@.len() == self.depth + 1
        &&& self.subgraph@[0] == self.root
        &&& self.head == self.subgraph@[self.depth as int]
        &&& self.parent@.len() == self.k
        &&& self.parent@[0] == self.root
        &&& forall|d: int| 1 <= d <= self.depth ==> #[trigger] self.parent@[d] == self.subgraph@[d - 1]
        &&& self.extension.wf() && self.extension.n == self.bitgraph.n && self.extension.m == self.k
        &&& self.neighborhood.wf() && self.neighborhood.n == self.bitgraph.n && self.neighborhood.m
            == self.k
        &&& self.exclusive.wf() && self.exclusive.n == self.bitgraph.n && self.exclusive.m == self.k
        &&& forall|d: int|
            self.depth < d < self.k ==> (#[trigger] self.extension.row(d)) == Set::<int>::empty()
        &&& forall|d: int|
            self.depth < d < self.k ==> (#[trigger] self.neighborhood.row(d)) == Set::<int>::empty()
        &&& forall|d: int|
            self.depth < d < self.k ==> (#[trigger] self.exclusive.row(d)) == Set::<int>::empty()
        &&& self.exclusive.row(0) == Set::<int>::empty()
        &&& self.nauty_graph.wf()
        &&& self.nauty_graph.n == self.k
        &&& self.nauty_graph.directed == self.bitgraph.is_directed
    }

    /// What the rows hold at every depth reached: the neighborhood row is
    /// the closed neighborhood of the subgraph so far, the exclusive row the
    /// exclusive neighborhood of the vertex taken at that depth, and the
    /// extension row holds vertices above the root that are known to the
    /// neighborhood and are not in the subgraph so far. The vertex taken at
    /// a depth is the least of the extension row of the depth above.
    pub open spec fn rows_ok(&self) -> bool {
        &&& forall|d: int|
            0 <= d <= self.depth ==> (#[trigger] self.neighborhood.row(d)) == closed_neighborhood(
                self.graph(),
                self.subgraph@,
                d,
            )
        &&& forall|d: int|
            1 <= d <= self.depth ==> (#[trigger] self.exclusive.row(d)) == exclusive_neighborhood(
                self.graph(),
                self.subgraph@,
                d,
            )
        &&& forall|d: int, v: int|
            0 <= d <= self.depth && #[trigger] self.extension.row(d).contains(v) ==> v > self.root
                && self.neighborhood.row(d).contains(v) && forall|i: int|
                0 <= i <= d ==> self.subgraph@[i] != v
        &&& forall|d: int|
            1 <= d <= self.depth ==> least_in(
                self.extension.row(d - 1),
                #[trigger] self.subgraph@[d] as int,
            )
    }

    /// The walk is in order.
    pub open spec fn wf(&self) -> bool {
        &&& self.shaped()
        &&& self.rows_ok()
    }

    /// A walk at `root` with nothing added: the extension holds the
    /// neighbors of the root above it, the neighborhood the root and its
    /// neighbors.
    pub fn new(bitgraph: &'a BitGraph, root: usize, k: usize) -> (r: Self)
        requires
            bitgraph.wf(),
            root < bitgraph.n,
            k >= 2,
            fits(k as int),
        ensures
            r.wf(),
            r.bitgraph == bitgraph,
            r.root == root,
            r.k == k,
            r.depth == 0,
            r.subgraph@ == seq![root],
            r.extension.row(0) =~= Set::new(
                |v: int| bitgraph@.adjacent(root as int, v) && v > root,
            ),
            all_zero(r.nauty_graph.graph@),
    {
        // Initialize the number of nodes.
        let n = bitgraph.n;
        // Initialize the head node as root.
        let head = root;
        // Initialize the parent vector.
        let mut parent: Vec<usize> = Vec::with_capacity(k);
        let mut i: usize = 0;
        while i < k
            invariant
                i <= k,
                parent@.len() == i,
            decreases k - i,
        {
            parent.push(0);
            i += 1;
        }
        parent[0] = root;
        // Initialize the depth.
        let depth: usize = 0;
        // Initialize the underlying nauty graph.
        let nauty_graph = if bitgraph.is_directed {
            NautyGraph::new_directed(k)
        } else {
            NautyGraph::new_undirected(k)
        };
        // Initialize the subgraph, extension, and neighborhood.
        let subgraph = Self::init_subgraph(root, n);
        let mut extension = MultiBitSet::new(n, k);
        let mut neighborhood = MultiBitSet::new(n, k);
        let exclusive = MultiBitSet::new(n, k);
        proof {
            bitgraph.lemma_rows(root as int);
        }
        // Insert the roots neighbors into the extension
        extension.inplace_external_union(0, bitgraph.neighbors(root));
        extension.set_range(0, 0, root + 1, false);
        neighborhood.inplace_external_union(0, bitgraph.neighbors(root));
        neighborhood.set(0, root, true);
        let r = Self {
            bitgraph,
            subgraph,
            extension,
            neighborhood,
            exclusive,
            root,
            head,
            parent,
            k,
            depth,
            nauty_graph,
        };
        proof {
            assert(r.neighborhood.row(0) =~= closed_neighborhood(r.graph(), r.subgraph@, 0));
        }
        r
    }

    fn init_subgraph(root: usize, n: usize) -> (r: Vec<usize>)
        ensures
            r@ == seq![root],
    {
        let mut subgraph = Vec::with_capacity(n);
        subgraph.push(root);
        subgraph
    }

    /// Moves the least vertex of the extension into the subgraph and sets up
    /// the rows of the next depth: the extension there is the old one without
    /// that vertex, joined by its exclusive neighborhood.
    pub fn descend(&mut self)
        requires
            old(self).wf(),
            old(self).depth + 1 < old(self).k,
            exists|v: int| old(self).extension.row(old(self).depth as int).contains(v),
        ensures
            final(self).wf(),
            final(self).bitgraph == old(self).bitgraph,
            final(self).root == old(self).root,
            final(self).k == old(self).k,
            final(self).nauty_graph == old(self).nauty_graph,
            final(self).depth == old(self).depth + 1,
            final(self).subgraph@ == old(self).subgraph@.push(final(self).head),
            old(self).extension.row(old(self).depth as int).contains(final(self).head as int),
            forall|v: int|
                old(self).extension.row(old(self).depth as int).contains(v) ==> final(self).head
                    <= v,
            final(self).extension.row(final(self).depth as int) =~= old(self).extension.row(
                old(self).depth as int,
            ).remove(final(self).head as int).union(
                exclusive_neighborhood(final(self).graph(), final(self).subgraph@, final(self).depth as int),
            ),
            forall|d: int|
                0 <= d <= old(self).depth ==> (#[trigger] final(self).extension.row(d)) == old(
                    self,
                ).extension.row(d),
    {
        let ghost g = self.graph();
        let ghost before = self.subgraph@;
        let ghost was = self.depth as int;
        self.depth += 1;
        // update the parent node
        self.parent[self.depth] = self.head;
        // draw a new head from the extension
        let drawn = lowest_bit(self.extension.get_row(self.depth - 1));
        self.head = match drawn {
            Some(v) => v,
            None => {
                proof {
                    assert(false);
                }
                self.head
            },
        };
        proof {
            assert(old(self).extension.row(was).contains(self.head as int));
            assert(self.head < self.bitgraph.n);
            self.bitgraph.lemma_rows(self.head as int);
        }
        // insert the head into the subgraph
        self.subgraph.push(self.head);
        let ghost sub = self.subgraph@;
        // create the new extension at the depth
        // then remove the head from the extension
        self.extension.inplace_union(self.depth, self.depth - 1);
        self.extension.set(self.depth, self.head, false);
        // create the new neighborhood at the depth
        self.neighborhood.inplace_union(self.depth, self.depth - 1);
        // create the new exclusive neighborhood at the depth
        self.exclusive.inplace_external_union(self.depth, self.bitgraph.neighbors(self.head));
        self.exclusive.difference_with(&self.neighborhood, self.depth, self.depth - 1);
        self.exclusive.set_range(self.depth, 0, self.root + 1, false);
        // add the exclusive neighborhood to the extension and neighborhood
        self.extension.union_with(&self.exclusive, self.depth, self.depth);
        self.neighborhood.union_with(&self.exclusive, self.depth, self.depth);
        proof {
            let d = self.depth as int;
            assert forall|t: int| 0 <= t <= was implies closed_neighborhood(g, sub, t)
                == closed_neighborhood(g, before, t) by {
                lemma_closed_prefix(g, before, sub, t);
            }
            assert(self.exclusive.row(d) =~= exclusive_neighborhood(g, sub, d)) by {
                assert(old(self).neighborhood.row(was) =~= closed_neighborhood(g, before, was));
            }
            assert(self.neighborhood.row(d) =~= closed_neighborhood(g, sub, d)) by {
                assert(old(self).neighborhood.row(was) =~= closed_neighborhood(g, before, was));
            }
            assert forall|t: int|
                0 <= t <= self.depth implies (#[trigger] self.neighborhood.row(t))
                == closed_neighborhood(g, sub, t) by {
                if t < d {
                    assert(self.neighborhood.row(t) == old(self).neighborhood.row(t));
                }
            }
            assert forall|t: int|
                1 <= t <= self.depth implies (#[trigger] self.exclusive.row(t))
                == exclusive_neighborhood(g, sub, t) by {
                if t < d {
                    assert(self.exclusive.row(t) == old(self).exclusive.row(t));
                    assert(old(self).exclusive.row(t) =~= exclusive_neighborhood(g, before, t));
                    lemma_closed_prefix(g, before, sub, t - 1);
                    assert(exclusive_neighborhood(g, before, t) =~= exclusive_neighborhood(g, sub, t));
                }
            }
            assert forall|t: int, v: int|
                0 <= t <= self.depth && #[trigger] self.extension.row(t).contains(
                    v,
                ) implies v > self.root && self.neighborhood.row(t).contains(v) && forall|i: int|
                0 <= i <= t ==> self.subgraph@[i] != v by {
                if t < d {
                    assert(self.extension.row(t) == old(self).extension.row(t));
                    assert(self.neighborhood.row(t) == old(self).neighborhood.row(t));
                    assert(old(self).extension.row(t).contains(v));
                } else {
                    if old(self).extension.row(was).contains(v) {
                        assert(old(self).neighborhood.row(was).contains(v));
                    } else {
                        assert(exclusive_neighborhood(g, sub, d).contains(v));
                        assert(!old(self).neighborhood.row(was).contains(v));
                        assert forall|i: int| 0 <= i <= was implies before[i] != v by {
                            assert forall|s: int| 1 <= s <= was implies #[trigger] before[s]
                                > before[0] && touches(g, before, s, before[s] as int) by {
                                old(self).lemma_members(s);
                            }
                            lemma_sub_in_closed(g, before, was, i);
                        }
                        assert(g.adjacent(self.head as int, v));
                    }
                }
            }
            assert forall|t: int| 1 <= t <= self.depth implies least_in(
                self.extension.row(t - 1),
                #[trigger] self.subgraph@[t] as int,
            ) by {
                assert(self.extension.row(t - 1) == old(self).extension.row(t - 1));
                if t < d {
                    assert(least_in(old(self).extension.row(t - 1), before[t] as int));
                }
            }
            assert forall|t: int| 1 <= t <= self.depth implies #[trigger] self.parent@[t]
                == self.subgraph@[t - 1] by {
                if t < d {
                    assert(old(self).parent@[t] == before[t - 1]);
                }
            }
        }
    }

    /// Gives the last vertex back: it leaves the subgraph and the extension
    /// of the depth above, and the rows of its own depth are cleared.
    pub fn ascend(&mut self)
        requires
            old(self).wf(),
            old(self).depth >= 1,
        ensures
            final(self).wf(),
            final(self).bitgraph == old(self).bitgraph,
            final(self).root == old(self).root,
            final(self).k == old(self).k,
            final(self).nauty_graph == old(self).nauty_graph,
            final(self).depth == old(self).depth - 1,
            final(self).subgraph@ == old(self).subgraph@.drop_last(),
            final(self).extension.row(final(self).depth as int) =~= old(self).extension.row(
                final(self).depth as int,
            ).remove(old(self).head as int),
            forall|d: int|
                0 <= d < final(self).depth ==> (#[trigger] final(self).extension.row(d)) == old(
                    self,
                ).extension.row(d),
    {
        let ghost g = self.graph();
        let ghost before = self.subgraph@;
        // remove the head from the subgraph
        self.subgraph.remove(self.depth);
        // remove the head from the extension a level above
        proof {
            assert(least_in(old(self).extension.row(self.depth - 1), before[self.depth as int] as int));
            old(self).lemma_members(self.depth as int);
        }
        self.extension.set(self.depth - 1, self.head, false);
        // sets the head to the parent
        self.head = self.parent[self.depth];
        // clear the extension at the depth
        self.extension.clear(self.depth);
        // clear the neighborhood at the depth
        self.neighborhood.clear(self.depth);
        // clear the exclusive neighborhood at the depth
        self.exclusive.clear(self.depth);
        // decrement the depth
        self.depth -= 1;
        proof {
            let sub = self.subgraph@;
            assert(sub =~= before.drop_last());
            assert forall|t: int|
                0 <= t <= self.depth implies (#[trigger] self.neighborhood.row(t))
                == closed_neighborhood(g, sub, t) by {
                assert(self.neighborhood.row(t) == old(self).neighborhood.row(t));
                lemma_closed_prefix(g, sub, before, t);
            }
            assert forall|t: int|
                1 <= t <= self.depth implies (#[trigger] self.exclusive.row(t))
                == exclusive_neighborhood(g, sub, t) by {
                assert(self.exclusive.row(t) == old(self).exclusive.row(t));
                assert(old(self).exclusive.row(t) =~= exclusive_neighborhood(g, before, t));
                lemma_closed_prefix(g, sub, before, t - 1);
                assert(exclusive_neighborhood(g, before, t) =~= exclusive_neighborhood(g, sub, t));
            }
            assert forall|t: int, v: int|
                0 <= t <= self.depth && #[trigger] self.extension.row(t).contains(
                    v,
                ) implies v > self.root && self.neighborhood.row(t).contains(v) && forall|i: int|
                0 <= i <= t ==> self.subgraph@[i] != v by {
                assert(old(self).extension.row(t).contains(v));
                assert(self.neighborhood.row(t) == old(self).neighborhood.row(t));
            }
            assert forall|t: int| 1 <= t <= self.depth implies least_in(
                self.extension.row(t - 1),
                #[trigger] self.subgraph@[t] as int,
            ) by {
                assert(self.extension.row(t - 1) == old(self).extension.row(t - 1));
                assert(least_in(old(self).extension.row(t - 1), before[t] as int));
            }
            assert(self.exclusive.row(0) =~= Set::<int>::empty()) by {
                if self.depth >= 1 {
                    assert(self.exclusive.data@[0] == old(self).exclusive.data@[0]);
                } else {
                }
            }
        }
    }

    pub fn is_descending(&self) -> (r: bool)
        requires
            self.k >= 1,
        ensures
            r == (self.depth < self.k - 1),
    {
        self.depth < self.k - 1
    }

    /// checks if the current depth has an extension
    pub fn has_extension(&self) -> (r: bool)
        requires
            self.wf(),
        ensures
            r == exists|v: int| self.extension.row(self.depth as int).contains(v),
    {
        lowest_bit(self.extension.get_row(self.depth)).is_some()
    }

    /// monitors the initial extension to determine completeness
    pub fn is_finished(&self) -> (r: bool)
        requires
            self.wf(),
        ensures
            r == forall|v: int| !self.extension.row(0).contains(v),
    {
        lowest_bit(self.extension.get_row(0)).is_none()
    }

    pub fn subgraph(&self) -> (r: &Vec<usize>)
        ensures
            r@ == self.subgraph@,
    {
        &self.subgraph
    }

    pub fn nauty_graph(&self) -> (r: &Vec<u64>)
        ensures
            r@ == self.nauty_graph.graph@,
    {
        self.nauty_graph.graph()
    }

    /// Fill the nauty graph with the subgraph
    pub fn fill_nauty(&mut self)
        requires
            old(self).wf(),
            old(self).depth == old(self).k - 1,
            all_zero(old(self).nauty_graph.graph@),
        ensures
            final(self).wf(),
            final(self).bitgraph == old(self).bitgraph,
            final(self).subgraph == old(self).subgraph,
            final(self).extension == old(self).extension,
            final(self).neighborhood == old(self).neighborhood,
            final(self).exclusive == old(self).exclusive,
            final(self).root == old(self).root,
            final(self).k == old(self).k,
            final(self).depth == old(self).depth,
            is_pattern(final(self).nauty_graph.graph@, final(self).graph(), final(self).subgraph@),
    {
        let k = self.k;
        let ghost m = self.nauty_graph.m as int;
        let ghost sub = self.subgraph@;
        let ghost g = self.graph();
        proof {
            assert forall|a: int, b: int| 0 <= a < k && 0 <= b < 64 * m implies !(
            #[trigger] self.nauty_graph.has(a, b)) by {
                lemma_zero_has_none(self.nauty_graph.graph@, k as int, m, a, b);
            }
            assert forall|t: int| 0 <= t < sub.len() implies sub[t] < self.bitgraph.n by {
                self.lemma_members(t);
            }
        }
        let mut i: usize = 0;
        while i <= self.depth
            invariant
                i <= k,
                k == self.k,
                self.depth == k - 1,
                m == self.nauty_graph.m,
                sub == self.subgraph@,
                sub.len() == k,
                g == self.bitgraph@,
                self.wf(),
                self.bitgraph == old(self).bitgraph,
                self.subgraph == old(self).subgraph,
                self.extension == old(self).extension,
                self.neighborhood == old(self).neighborhood,
                self.exclusive == old(self).exclusive,
                self.root == old(self).root,
                self.depth == old(self).depth,
                forall|t: int| 0 <= t < sub.len() ==> sub[t] < self.bitgraph.n,
                forall|a: int, b: int|
                    0 <= a < k && 0 <= b < 64 * m ==> (#[trigger] self.nauty_graph.has(a, b) == (a
                        < i && b < k && g.arc(sub[a] as int, sub[b] as int))),
            decreases k - i,
        {
            let mut j: usize = 0;
            while j <= self.depth
                invariant
                    i < k,
                    j <= k,
                    k == self.k,
                    self.depth == k - 1,
                    m == self.nauty_graph.m,
                    sub == self.subgraph@,
                    sub.len() == k,
                    g == self.bitgraph@,
                    self.wf(),
                    self.bitgraph == old(self).bitgraph,
                    self.subgraph == old(self).subgraph,
                    self.extension == old(self).extension,
                    self.neighborhood == old(self).neighborhood,
                    self.exclusive == old(self).exclusive,
                    self.root == old(self).root,
                    self.depth == old(self).depth,
                    forall|t: int| 0 <= t < sub.len() ==> sub[t] < self.bitgraph.n,
                    forall|a: int, b: int|
                        0 <= a < k && 0 <= b < 64 * m ==> (#[trigger] self.nauty_graph.has(a, b)
                            == ((a < i || (a == i && b < j)) && b < k && g.arc(
                            sub[a] as int,
                            sub[b] as int,
                        ))),
                decreases k - j,
            {
                if self.bitgraph.is_connected_directed(self.subgraph[i], self.subgraph[j]) {
                    self.nauty_graph.add_arc(i, j);
                }
                j += 1;
            }
            i += 1;
        }
        proof {
            assert(self.nauty_graph.graph@.len() == k * m) by (nonlinear_arith)
                requires
                    self.nauty_graph.graph@.len() == self.nauty_graph.n * self.nauty_graph.m,
                    self.nauty_graph.n == k,
                    self.nauty_graph.m == m,
            ;
            assert forall|a: int, b: int| 0 <= a < k && 0 <= b < 64 * m implies (
            #[trigger] dense_has(self.nauty_graph.graph@, m, a, b) == (b < k && g.arc(
                sub[a] as int,
                sub[b] as int,
            ))) by {
                assert(self.nauty_graph.has(a, b) == dense_has(self.nauty_graph.graph@, m, a, b));
            }
        }
    }

    /// Zeroes both buffers of the nauty graph.
    pub fn clear_nauty(&mut self)
        requires
            old(self).wf(),
        ensures
            final(self).wf(),
            final(self).bitgraph == old(self).bitgraph,
            final(self).subgraph == old(self).subgraph,
            final(self).extension == old(self).extension,
            final(self).neighborhood == old(self).neighborhood,
            final(self).exclusive == old(self).exclusive,
            final(self).root == old(self).root,
            final(self).k == old(self).k,
            final(self).depth == old(self).depth,
            all_zero(final(self).nauty_graph.graph@),
            all_zero(final(self).nauty_graph.canon@),
    {
        self.nauty_graph.clear_canon();
        self.nauty_graph.clear_graph();
    }

    /// One step of the walk: down where the subgraph is short of its size
    /// and a vertex can be had, up where none can, and at full size the
    /// subgraph is written into the graph buffer to be counted.
    pub fn step(&mut self) -> (r: Step)
        requires
            old(self).wf(),
            all_zero(old(self).nauty_graph.graph@),
        ensures
            final(self).wf(),
            final(self).bitgraph == old(self).bitgraph,
            final(self).root == old(self).root,
            final(self).k == old(self).k,
            r == Step::Finished ==> old(self).extension.row(0) =~= Set::<int>::empty()
                && final(self).depth == old(self).depth && final(self).subgraph == old(
                self,
            ).subgraph,
            r == Step::Descended ==> old(self).depth + 1 < old(self).k && final(self).depth == old(
                self,
            ).depth + 1 && final(self).subgraph@.drop_last() == old(self).subgraph@,
            r == Step::Ascended ==> old(self).depth >= 1 && final(self).depth == old(self).depth - 1
                && final(self).subgraph@ == old(self).subgraph@.drop_last(),
            r == Step::Complete ==> old(self).depth + 1 == old(self).k && final(self).depth == old(
                self,
            ).depth && final(self).subgraph == old(self).subgraph && is_pattern(
                final(self).nauty_graph.graph@,
                final(self).graph(),
                final(self).subgraph@,
            ) && final(self).subgraph@.len() == final(self).k && state_ok(
                final(self).graph(),
                final(self).subgraph@,
                Seq::empty(),
            ),
            r != Step::Complete ==> all_zero(final(self).nauty_graph.graph@),
            final(self).remaining() == old(self).remaining(),
            r == Step::Finished ==> final(self).remaining() == Seq::<Seq<usize>>::empty()
                && forall|v: int| !final(self).extension.row(0).contains(v),
            r == Step::Descended || r == Step::Ascended ==> final(self).remaining_cost() + 1
                == old(self).remaining_cost(),
            r == Step::Complete || r == Step::Finished ==> final(self).remaining_cost() == old(
                self,
            ).remaining_cost(),
    {
        if self.is_finished() {
            proof {
                self.lemma_finished();
            }
            return Step::Finished;
        }
        if self.is_descending() {
            if self.has_extension() {
                self.descend();
                proof {
                    assert(self.subgraph@.drop_last() =~= old(self).subgraph@);
                    self.lemma_descended(old(self));
                }
                Step::Descended
            } else {
                proof {
                    if self.depth == 0 {
                        let v = choose|v: int| self.extension.row(0).contains(v);
                        assert(self.extension.row(0).contains(v));
                    }
                }
                self.ascend();
                proof {
                    self.lemma_ascended(old(self));
                    old(self).lemma_top_empty();
                }
                Step::Ascended
            }
        } else {
            self.fill_nauty();
            proof {
                self.lemma_subgraph_ok();
            }
            Step::Complete
        }
    }

    /// After a complete subgraph has been counted: clears the buffers and
    /// gives the last vertex back.
    pub fn retire(&mut self)
        requires
            old(self).wf(),
            old(self).depth + 1 == old(self).k,
        ensures
            final(self).wf(),
            final(self).bitgraph == old(self).bitgraph,
            final(self).root == old(self).root,
            final(self).k == old(self).k,
            final(self).depth == old(self).depth - 1,
            final(self).subgraph@ == old(self).subgraph@.drop_last(),
            all_zero(final(self).nauty_graph.graph@),
            old(self).remaining() == seq![old(self).subgraph@] + final(self).remaining(),
            final(self).remaining_cost() + 1 == old(self).remaining_cost(),
    {
        self.clear_nauty();
        let ghost cleared = *self;
        self.ascend();
        proof {
            self.lemma_ascended(&cleared);
        }
    }

    /// The extension rows, as sets.
    pub open spec fn rows(&self) -> Seq<Set<int>> {
        Seq::new(self.k as nat, |d: int| self.extension.row(d))
    }

    /// The complete subgraphs that the walk has still to visit, in the order
    /// of the visits: what grows out of the subgraph as it stands, and
    /// what is pending at the depths above.
    pub open spec fn remaining(&self) -> Seq<Seq<usize>> {
        walk(
            self.graph(),
            self.k as nat,
            self.subgraph@,
            self.extension.row(self.depth as int),
            0,
        ) + pending_until(
            self.graph(),
            self.k as nat,
            self.subgraph@,
            self.rows(),
            self.depth as int,
        )
    }

    /// The number of steps that the walk has still to take.
    pub open spec fn remaining_cost(&self) -> nat {
        cost(
            self.graph(),
            self.k as nat,
            self.subgraph@,
            self.extension.row(self.depth as int),
            0,
        ) + pending_cost(
            self.graph(),
            self.k as nat,
            self.subgraph@,
            self.rows(),
            self.depth as int,
        )
    }

    /// A descent changes nothing in what is still to be visited, and is one
    /// of the steps to it.
    pub proof fn lemma_descended(&self, before: &Walker)
        requires
            before.wf(),
            self.wf(),
            before.depth + 1 < before.k,
            self.bitgraph == before.bitgraph,
            self.root == before.root,
            self.k == before.k,
            self.depth == before.depth + 1,
            self.subgraph@ == before.subgraph@.push(self.head),
            least_in(before.extension.row(before.depth as int), self.head as int),
            self.extension.row(self.depth as int) =~= before.extension.row(
                before.depth as int,
            ).remove(self.head as int).union(
                exclusive_neighborhood(self.graph(), self.subgraph@, self.depth as int),
            ),
            forall|d: int|
                0 <= d <= before.depth ==> (#[trigger] self.extension.row(d))
                    == before.extension.row(d),
        ensures
            self.remaining() == before.remaining(),
            self.remaining_cost() + 1 == before.remaining_cost(),
    {
        let g = self.graph();
        let k = self.k as nat;
        let d = before.depth as int;
        let sub = before.subgraph@;
        let row = before.extension.row(d);
        let w = self.head as int;
        let n = g.n;
        // the head is the vertex that the walk takes
        lemma_least_from(row, 0, n as int);
        assert(crate::bitset::bits_below(before.extension.data@[d], n as int));
        let found = least_from(row, 0, n as int);
        if found < n {
            assert(row.contains(found));
        }
        assert(row.contains(w) && 0 <= w < n);
        assert(found == w);
        // the row below is the extension of the larger subgraph
        let below = self.extension.row(self.depth as int);
        assert(same_from(n, below, 0, child_ext(g, sub, row, w), 0)) by {
            assert forall|v: int|
                #![trigger below.contains(v)]
                #![trigger child_ext(g, sub, row, w).contains(v)]
                0 <= v < n implies ((below.contains(v) && v >= 0) == (child_ext(
                g,
                sub,
                row,
                w,
            ).contains(v) && v >= 0)) by {
                if row.contains(v) {
                    assert(w <= v);
                }
            }
        }
        lemma_walk_same(g, k, self.subgraph@, below, 0, child_ext(g, sub, row, w), 0);
        // what was pending is pending still
        assert(self.subgraph@.take(d + 1) =~= sub);
        assert(self.rows()[d] == row);
        lemma_pending_frame(g, k, self.subgraph@, self.rows(), sub, before.rows(), d);
        let top = walk(g, k, self.subgraph@, below, 0);
        let beside = walk(g, k, sub, row, (w + 1) as nat);
        let rest = pending_until(g, k, sub, before.rows(), d);
        assert(walk(g, k, sub, row, 0) == top + beside);
        assert(pending_until(g, k, self.subgraph@, self.rows(), d + 1) == beside + rest);
        assert(top + (beside + rest) =~= (top + beside) + rest);
    }

    /// An ascent leaves to be visited what was pending, and is one of the
    /// steps to it.
    pub proof fn lemma_ascended(&self, before: &Walker)
        requires
            before.wf(),
            self.wf(),
            before.depth >= 1,
            self.bitgraph == before.bitgraph,
            self.root == before.root,
            self.k == before.k,
            self.depth == before.depth - 1,
            self.subgraph@ == before.subgraph@.drop_last(),
            self.extension.row(self.depth as int) =~= before.extension.row(
                self.depth as int,
            ).remove(before.head as int),
            forall|d: int|
                0 <= d < self.depth ==> (#[trigger] self.extension.row(d)) == before.extension.row(
                    d,
                ),
        ensures
            self.remaining() == pending_until(
                before.graph(),
                before.k as nat,
                before.subgraph@,
                before.rows(),
                before.depth as int,
            ),
            self.remaining_cost() == pending_cost(
                before.graph(),
                before.k as nat,
                before.subgraph@,
                before.rows(),
                before.depth as int,
            ),
    {
        let g = self.graph();
        let k = self.k as nat;
        let d = self.depth as int;
        let sub = self.subgraph@;
        let old_sub = before.subgraph@;
        let row = before.extension.row(d);
        let w = before.head as int;
        let n = g.n;
        assert(old_sub.take(d + 1) =~= sub);
        assert(old_sub[d + 1] == w);
        assert(least_in(row, old_sub[d + 1] as int));
        assert(crate::bitset::bits_below(before.extension.data@[d], n as int));
        let left = self.extension.row(d);
        assert(same_from(n, left, 0, row, (w + 1) as nat)) by {
            assert forall|v: int|
                #![trigger left.contains(v)]
                #![trigger row.contains(v)]
                0 <= v < n implies ((left.contains(v) && v >= 0) == (row.contains(v) && v >= w
                + 1)) by {
                if row.contains(v) {
                    assert(w <= v);
                }
            }
        }
        lemma_walk_same(g, k, sub, left, 0, row, (w + 1) as nat);
        assert(before.rows()[d] == row);
        lemma_pending_frame(g, k, sub, self.rows(), old_sub, before.rows(), d);
    }

    /// Where the extension of the subgraph is empty, nothing grows out of
    /// the subgraph as it stands.
    pub proof fn lemma_top_empty(&self)
        requires
            self.wf(),
            self.depth + 1 < self.k,
            forall|v: int| !self.extension.row(self.depth as int).contains(v),
        ensures
            walk(
                self.graph(),
                self.k as nat,
                self.subgraph@,
                self.extension.row(self.depth as int),
                0,
            ) == Seq::<Seq<usize>>::empty(),
            cost(
                self.graph(),
                self.k as nat,
                self.subgraph@,
                self.extension.row(self.depth as int),
                0,
            ) == 1,
    {
        let row = self.extension.row(self.depth as int);
        lemma_least_from(row, 0, self.graph().n as int);
        let found = least_from(row, 0, self.graph().n as int);
        if found < self.graph().n {
            assert(row.contains(found));
        }
    }

    /// A walk that is finished has nothing left to visit.
    pub proof fn lemma_finished(&self)
        requires
            self.wf(),
            forall|v: int| !self.extension.row(0).contains(v),
        ensures
            self.depth == 0,
            self.remaining() == Seq::<Seq<usize>>::empty(),
            self.remaining_cost() == 1,
    {
        if self.depth >= 1 {
            assert(least_in(self.extension.row(0), self.subgraph@[1] as int));
        }
        lemma_least_from(self.extension.row(0), 0, self.graph().n as int);
        let found = least_from(self.extension.row(0), 0, self.graph().n as int);
        if found < self.graph().n {
            assert(self.extension.row(0).contains(found));
        }
        assert(self.remaining() =~= Seq::<Seq<usize>>::empty());
    }

    /// The subgraph of a walk is a subgraph in order: distinct vertices of
    /// the graph, the root the least of them, each later one joined to an
    /// earlier one.
    pub proof fn lemma_subgraph_ok(&self)
        requires
            self.wf(),
        ensures
            state_ok(self.graph(), self.subgraph@, Seq::empty()),
    {
        let sub = self.subgraph@;
        assert forall|i: int| 0 <= i < sub.len() implies #[trigger] sub[i] < self.graph().n by {
            self.lemma_members(i);
        }
        assert forall|i: int| 1 <= i < sub.len() implies #[trigger] sub[i] > sub[0] by {
            self.lemma_members(i);
        }
        assert forall|i: int| 1 <= i < sub.len() implies touches(
            self.graph(),
            sub,
            i,
            #[trigger] sub[i] as int,
        ) by {
            self.lemma_members(i);
        }
        assert forall|i: int, j: int| 0 <= i < j < sub.len() implies sub[i] != sub[j] by {
            self.lemma_members(j);
        }
    }

    /// Every vertex of the subgraph is a vertex of the graph, is the root or
    /// above it, and but for the root shares an edge with an earlier one.
    pub proof fn lemma_members(&self, i: int)
        requires
            self.wf(),
            0 <= i <= self.depth,
        ensures
            self.subgraph@[i] < self.bitgraph.n,
            i >= 1 ==> self.subgraph@[i] > self.root && touches(
                self.graph(),
                self.subgraph@,
                i,
                self.subgraph@[i] as int,
            ),
            forall|j: int| 0 <= j < i ==> self.subgraph@[j] != self.subgraph@[i],
    {
        if i >= 1 {
            let v = self.subgraph@[i] as int;
            assert(least_in(self.extension.row(i - 1), self.subgraph@[i] as int));
            assert(self.neighborhood.row(i - 1).contains(v));
            assert(self.neighborhood.row(i - 1) =~= closed_neighborhood(
                self.graph(),
                self.subgraph@,
                i - 1,
            ));
            lemma_closed_touches(self.graph(), self.subgraph@, i - 1, v);
        }
    }
}

/// The closed neighborhood at depth `d` depends on the first `d + 1`
/// vertices only.
pub proof fn lemma_closed_prefix(g: Adjacency, a: Seq<usize>, b: Seq<usize>, d: int)
    requires
        0 <= d < a.len(),
        a.len() <= b.len(),
        forall|i: int| 0 <= i < a.len() ==> a[i] == b[i],
    ensures
        closed_neighborhood(g, a, d) == closed_neighborhood(g, b, d),
    decreases d,
{
    if d > 0 {
        lemma_closed_prefix(g, a, b, d - 1);
        assert(Set::new(|v: int| g.adjacent(a[d] as int, v) && v > a[0]) =~= Set::new(
            |v: int| g.adjacent(b[d] as int, v) && v > b[0],
        ));
    }
}

/// The vertices of the subgraph so far are in its closed neighborhood, as
/// long as those after the root are above it and each is joined to an
/// earlier one.
pub proof fn lemma_sub_in_closed(g: Adjacency, sub: Seq<usize>, d: int, i: int)
    requires
        g.wf(),
        0 <= i <= d < sub.len(),
        forall|t: int| 1 <= t <= d ==> #[trigger] sub[t] > sub[0] && touches(g, sub, t, sub[t] as int),
    ensures
        closed_neighborhood(g, sub, d).contains(sub[i] as int),
    decreases d,
{
    if d == 0 {
    } else if i < d {
        lemma_sub_in_closed(g, sub, d - 1, i);
    } else {
        assert(touches(g, sub, d, sub[d] as int));
        let j = choose|j: int|
            0 <= j < d && j < sub.len() && g.adjacent(sub[d] as int, #[trigger] sub[j] as int);
        assert(g.adjacent(sub[j] as int, sub[d] as int));
        lemma_in_closed_from(g, sub, d - 1, j, sub[d] as int);
    }
}

/// A neighbor above the root of one of the vertices `sub[0..=d]` is in the
/// closed neighborhood at depth `d`.
pub proof fn lemma_in_closed_from(g: Adjacency, sub: Seq<usize>, d: int, j: int, v: int)
    requires
        0 <= j <= d < sub.len(),
        g.adjacent(sub[j] as int, v),
        v > sub[0],
    ensures
        closed_neighborhood(g, sub, d).contains(v),
    decreases d,
{
    if d == 0 {
    } else if j < d {
        lemma_in_closed_from(g, sub, d - 1, j, v);
    } else {
    }
}

/// Runs the walk to its end: every complete subgraph that it visits is
/// counted under its dense adjacency.
pub fn extend_subgraph(canon_counts: &mut Counts, num_subgraphs: &mut usize, walker: &mut Walker)
    requires
        old(walker).wf(),
        all_zero(old(walker).nauty_graph.graph@),
        old(canon_counts).wf(),
    ensures
        final(walker).wf(),
        final(walker).bitgraph == old(walker).bitgraph,
        final(walker).root == old(walker).root,
        final(walker).k == old(walker).k,
        all_zero(final(walker).nauty_graph.graph@),
        forall|v: int| !final(walker).extension.row(0).contains(v),
        counted(old(walker).graph(), old(canon_counts), final(canon_counts), old(walker).remaining()),
        *final(num_subgraphs) == capped(*old(num_subgraphs) + old(walker).remaining().len()),
{
    let ghost g = walker.graph();
    let ghost all = walker.remaining();
    let ghost mut done: Seq<Seq<usize>> = Seq::empty();
    let mut running = true;
    proof {
        lemma_counted_none(g, canon_counts);
        assert(done + walker.remaining() =~= all);
    }
    while running
        invariant
            walker.wf(),
            walker.bitgraph == old(walker).bitgraph,
            walker.root == old(walker).root,
            walker.k == old(walker).k,
            g == walker.graph(),
            all_zero(walker.nauty_graph.graph@),
            canon_counts.wf(),
            counted(g, old(canon_counts), canon_counts, done),
            *num_subgraphs == capped(*old(num_subgraphs) + done.len()),
            done + walker.remaining() == all,
            !running ==> walker.remaining() == Seq::<Seq<usize>>::empty() && forall|v: int|
                !walker.extension.row(0).contains(v),
        decreases walker.remaining_cost(), (if running { 1nat } else { 0nat }),
    {
        let ghost before = *walker;
        let ghost counts1 = *canon_counts;
        match walker.step() {
            Step::Finished => {
                running = false;
            },
            Step::Descended => {},
            Step::Ascended => {},
            Step::Complete => {
                let ghost sub = walker.subgraph@;
                proof {
                    lemma_pattern_is(walker.nauty_graph.graph@, g, sub);
                }
                canon_counts.add(&walker.nauty_graph.graph, 1);
                *num_subgraphs = add_capped(*num_subgraphs, 1);
                walker.retire();
                proof {
                    lemma_counted_one(g, &counts1, canon_counts, sub);
                    lemma_counted_concat(g, old(canon_counts), &counts1, canon_counts, done, seq![sub]);
                    assert((done + seq![sub]) + walker.remaining() =~= done + (seq![sub]
                        + walker.remaining()));
                    done = done + seq![sub];
                }
            },
        }
    }
    proof {
        assert(done + Seq::<Seq<usize>>::empty() =~= done);
    }
}

/// The neighbors of `v` above `v`: the extension that a walk starts with.
pub open spec fn root_ext(g: Adjacency, v: int) -> Set<int> {
    Set::new(|u: int| g.adjacent(v, u) && u > v)
}

/// What the walks from the roots below `upto` visit, root by root.
pub open spec fn walks_below(g: Adjacency, k: nat, upto: nat) -> Seq<Seq<usize>>
    decreases upto,
{
    if upto == 0 {
        Seq::empty()
    } else {
        walks_below(g, k, (upto - 1) as nat) + walk(
            g,
            k,
            seq![(upto - 1) as usize],
            root_ext(g, upto - 1),
            0,
        )
    }
}

/// Every subgraph of `k` vertices that the walks of all the roots visit, in
/// the order of the visits.
pub open spec fn walks(g: Adjacency, k: nat) -> Seq<Seq<usize>> {
    walks_below(g, k, g.n)
}

/// What the walks from the roots below `upto` visit, root by root, is what
/// the walks below `upto` visit.
pub proof fn lemma_joined_walks(g: Adjacency, k: nat, upto: nat)
    ensures
        joined(|t: int| walk(g, k, seq![t as usize], root_ext(g, t), 0), upto as int)
            == walks_below(g, k, upto),
    decreases upto,
{
    if upto > 0 {
        lemma_joined_walks(g, k, (upto - 1) as nat);
    }
}

/// The counts of the walks from all the roots, added up in the order of
/// the roots, are the counts of the whole enumeration, whoever made the
/// walks and in whatever order.
pub proof fn theorem_merged_walks(parts: Seq<EnumResult>, whole: &EnumResult, g: Adjacency, k: nat)
    requires
        parts.len() == g.n,
        merged(parts, whole),
        forall|t: int|
            0 <= t < parts.len() ==> (#[trigger] parts[t]).tallies(
                g,
                walk(g, k, seq![t as usize], root_ext(g, t), 0),
            ),
    ensures
        whole.tallies(g, walks(g, k)),
{
    let lists = |t: int| walk(g, k, seq![t as usize], root_ext(g, t), 0);
    assert forall|t: int| 0 <= t < parts.len() implies (#[trigger] parts[t]).tallies(
        g,
        lists(t),
    ) by {}
    theorem_merged_tallies(parts, whole, g, lists);
    lemma_joined_walks(g, k, g.n);
}

/// The count of the subgraphs of `k` vertices that the walk from `root`
/// visits, each under its dense adjacency.
pub fn walk_root(bitgraph: &BitGraph, root: usize, k: usize) -> (part: EnumResult)
    requires
        bitgraph.wf(),
        root < bitgraph.n,
        k >= 2,
        fits(k as int),
    ensures
        part.tallies(bitgraph@, walk(bitgraph@, k as nat, seq![root], root_ext(bitgraph@, root as int), 0)),
{
    let ghost g = bitgraph@;
    let mut canon_counts = Counts::new();
    let mut num_subgraphs: usize = 0;
    let ghost empty = canon_counts;
    let mut walker = Walker::new(bitgraph, root, k);
    let ghost here = walker.remaining();
    proof {
        assert(views(canon_counts.keys@) =~= Seq::<Seq<u64>>::empty());
        assert(walker.extension.row(0) == root_ext(g, root as int));
        assert(pending_until(g, k as nat, walker.subgraph@, walker.rows(), 0) =~= Seq::<
            Seq<usize>,
        >::empty());
        assert(here =~= walk(g, k as nat, seq![root], root_ext(g, root as int), 0));
    }
    extend_subgraph(&mut canon_counts, &mut num_subgraphs, &mut walker);
    proof {
        assert forall|key: Seq<u64>| #[trigger]
            canon_counts.count(key) == capped(tally(g, here, key) as int) by {
            assert(canon_counts.count(key) == capped(
                (empty.count(key) + tally(g, here, key)) as int,
            ));
        }
    }
    EnumResult::new(canon_counts, num_subgraphs)
}

/// Counts the connected subgraphs of `motif_size` vertices of `graph` with
/// a walker for every root, each subgraph under its dense adjacency.
pub fn enumerate_subgraphs(graph: &DiGraph, motif_size: usize, is_directed: bool) -> (r: Result<
    EnumResult,
    EsuError,
>)
    ensures
        motif_size < 2 ==> r == Err::<EnumResult, EsuError>(EsuError::MotifTooSmall),
        motif_size >= 2 && !fits(motif_size as int) ==> r == Err::<EnumResult, EsuError>(
            EsuError::MotifTooLarge,
        ),
        motif_size >= 2 && fits(motif_size as int) ==> r.is_ok() && r.unwrap().tallies(
            crate::bitgraph::adjacency_of(*graph, is_directed),
            walks(crate::bitgraph::adjacency_of(*graph, is_directed), motif_size as nat),
        ),
{
    match check_motif_size(motif_size) {
        Err(e) => {
            return Err(e);
        },
        Ok(()) => {},
    }
    let bitgraph = BitGraph::from_graph(graph, is_directed);
    let ghost g = bitgraph@;
    let ghost k = motif_size as nat;
    let mut canon_counts = Counts::new();
    let mut num_subgraphs: usize = 0;
    let ghost empty = canon_counts;
    let mut v: usize = 0;
    proof {
        lemma_counted_none(g, &canon_counts);
        assert(views(canon_counts.keys@) =~= Seq::<Seq<u64>>::empty());
    }
    while v < bitgraph.n
        invariant
            v <= bitgraph.n,
            bitgraph.wf(),
            g == bitgraph@,
            k == motif_size,
            motif_size >= 2,
            fits(motif_size as int),
            empty.wf(),
            empty.positive(),
            views(empty.keys@) == Seq::<Seq<u64>>::empty(),
            forall|key: Seq<u64>| empty.count(key) == 0,
            canon_counts.wf(),
            counted(g, &empty, &canon_counts, walks_below(g, k, v as nat)),
            num_subgraphs == capped(walks_below(g, k, v as nat).len() as int),
        decreases bitgraph.n - v,
    {
        let mut walker = Walker::new(&bitgraph, v, motif_size);
        let ghost before = canon_counts;
        let ghost here = walker.remaining();
        proof {
            assert(walker.extension.row(0) == root_ext(g, v as int));
            assert(pending_until(g, k, walker.subgraph@, walker.rows(), 0) =~= Seq::<
                Seq<usize>,
            >::empty());
            assert(here =~= walk(g, k, seq![v], root_ext(g, v as int), 0));
        }
        extend_subgraph(&mut canon_counts, &mut num_subgraphs, &mut walker);
        proof {
            lemma_counted_concat(g, &empty, &before, &canon_counts, walks_below(g, k, v as nat), here);
        }
        v += 1;
    }
    proof {
        assert forall|key: Seq<u64>| #[trigger]
            canon_counts.count(key) == capped(tally(g, walks(g, k), key) as int) by {
            assert(canon_counts.count(key) == capped(
                (empty.count(key) + tally(g, walks(g, k), key)) as int,
            ));
        }
    }
    Ok(EnumResult::new(canon_counts, num_subgraphs))
}

} // verus!
