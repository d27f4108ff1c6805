//! Random graphs with the degrees of a given graph, by switching arcs.
use crate::graph::{
    add_edge, arcs_of, clone_graph, edge_count, edge_endpoints, node_count, order_of, remove_edge,
    DiGraph,
};
use crate::random::{draw_below, seeded};
use rand_chacha::ChaChaRng;
use vstd::prelude::*;

verus! {

/// The targets of one source node: a `hashbrown::HashSet` of nodes. The
/// verifier does not look into it: what it holds is told by `targets_in`.
#[verifier::external_body]
pub struct Targets {
    set: hashbrown::HashSet<usize>,
}

/// The nodes that `s` holds.
pub uninterp spec fn targets_in(s: Targets) -> Set<int>;

impl Targets {
    /// `HashSet::new` of `hashbrown`: a set without nodes.
    #[verifier::external_body]
    fn new() -> (s: Self)
        ensures
            targets_in(s) == Set::<int>::empty(),
    {
        Targets { set: hashbrown::HashSet::new() }
    }

    /// `HashSet::contains` of `hashbrown`: whether the set holds `y`.
    #[verifier::external_body]
    fn holds(&self, y: usize) -> (r: bool)
        ensures
            r == targets_in(*self).contains(y as int),
    {
        self.set.contains(&y)
    }

    /// `HashSet::remove` of `hashbrown`: takes `y` out of the set, if it is
    /// there.
    #[verifier::external_body]
    fn take_out(&mut self, y: usize)
        ensures
            targets_in(*final(self)) == targets_in(*old(self)).remove(y as int),
    {
        self.set.remove(&y);
    }

    /// `HashSet::insert` of `hashbrown`: puts `y` into the set.
    #[verifier::external_body]
    fn put_in(&mut self, y: usize)
        ensures
            targets_in(*final(self)) == targets_in(*old(self)).insert(y as int),
    {
        self.set.insert(y);
    }
}

/// Data structure for storing the edges of a graph.
///
/// This is used to quickly check if an edge exists between two nodes.
///
/// Organized such that the first key is the source node and the second key is the target node.
///
/// The map is a `hashbrown::HashMap` of sets of targets. The verifier does
/// not look into it: what it holds is told by `sources_in`.
#[verifier::external_body]
pub struct NodeMap {
    map: hashbrown::HashMap<usize, Targets>,
}

/// The source nodes that `m` has a set for, each with the nodes of its set.
pub uninterp spec fn sources_in(m: NodeMap) -> Map<int, Set<int>>;

/// The arcs that `m` holds, as (source, target).
pub open spec fn arcs_in(m: NodeMap) -> Set<(int, int)> {
    Set::new(
        |p: (int, int)| sources_in(m).dom().contains(p.0) && sources_in(m)[p.0].contains(p.1),
    )
}

impl NodeMap {
    /// `HashMap::with_capacity` of `hashbrown`: a map without entries.
    #[verifier::external_body]
    pub(crate) fn with_capacity(n: usize) -> (m: Self)
        ensures
            sources_in(m) == (Map::<int, Set<int>>::empty()),
    {
        NodeMap { map: hashbrown::HashMap::with_capacity(n) }
    }

    /// `HashMap::get` of `hashbrown`: the set under the key `x`, if there
    /// is one.
    #[verifier::external_body]
    fn targets(&self, x: usize) -> (r: Option<&Targets>)
        ensures
            r.is_some() == sources_in(*self).dom().contains(x as int),
            r.is_some() ==> targets_in(*r.unwrap()) == sources_in(*self)[x as int],
    {
        self.map.get(&x)
    }

    /// `HashMap::get_mut` of `hashbrown`: the set under the key `x`, if
    /// there is one, to be changed in its place. Nothing else of the map
    /// changes.
    #[verifier::external_body]
    fn targets_mut(&mut self, x: usize) -> (r: Option<&mut Targets>)
        ensures
            r.is_some() == sources_in(*old(self)).dom().contains(x as int),
            r.is_none() ==> sources_in(*final(self)) == sources_in(*old(self)),
            r.is_some() ==> targets_in(*r.unwrap()) == sources_in(*old(self))[x as int]
                && sources_in(*final(self)) == sources_in(*old(self)).insert(
                x as int,
                targets_in(*final(r.unwrap())),
            ),
    {
        self.map.get_mut(&x)
    }

    /// `HashMap::entry` and `Entry::or_insert_with` of `hashbrown`: the set
    /// under the key `x`, to be changed in its place; an empty set is made
    /// first where the key is new. Nothing else of the map changes.
    #[verifier::external_body]
    fn targets_or_new(&mut self, x: usize) -> (r: &mut Targets)
        ensures
            targets_in(*r) == if sources_in(*old(self)).dom().contains(x as int) {
                sources_in(*old(self))[x as int]
            } else {
                Set::<int>::empty()
            },
            sources_in(*final(self)) == sources_in(*old(self)).insert(
                x as int,
                targets_in(*final(r)),
            ),
    {
        self.map.entry(x).or_insert_with(Targets::new)
    }

    /// Whether the map holds the arc from `x` to `y`.
    pub fn contains_edge(&self, x: usize, y: usize) -> (r: bool)
        ensures
            r == arcs_in(*self).contains((x as int, y as int)),
    {
        match self.targets(x) {
            Some(nbh) => nbh.holds(y),
            None => false,
        }
    }

    /// Takes the arc from `x` to `y` out of the map.
    pub fn remove_edge(&mut self, x: usize, y: usize)
        ensures
            arcs_in(*final(self)) == arcs_in(*old(self)).remove((x as int, y as int)),
    {
        match self.targets_mut(x) {
            Some(xmap) => {
                xmap.take_out(y);
            },
            None => {},
        }
        proof {
            assert(arcs_in(*final(self)) =~= arcs_in(*old(self)).remove((x as int, y as int)));
        }
    }

    /// Puts the arc from `x` to `y` into the map.
    pub fn add_edge(&mut self, x: usize, y: usize)
        ensures
            arcs_in(*final(self)) == arcs_in(*old(self)).insert((x as int, y as int)),
    {
        let nbh = self.targets_or_new(x);
        nbh.put_in(y);
        proof {
            assert(arcs_in(*final(self)) =~= arcs_in(*old(self)).insert((x as int, y as int)));
        }
    }
}

/// How many of the arcs leave `v`.
pub open spec fn out_degree(arcs: Seq<(int, int)>, v: int) -> nat
    decreases arcs.len(),
{
    if arcs.len() == 0 {
        0
    } else {
        out_degree(arcs.drop_last(), v) + if arcs.last().0 == v {
            1nat
        } else {
            0nat
        }
    }
}

/// How many of the arcs enter `v`.
pub open spec fn in_degree(arcs: Seq<(int, int)>, v: int) -> nat
    decreases arcs.len(),
{
    if arcs.len() == 0 {
        0
    } else {
        in_degree(arcs.drop_last(), v) + if arcs.last().1 == v {
            1nat
        } else {
            0nat
        }
    }
}

/// Whether two lists of arcs are as long as each other and give every
/// vertex the same out-degree and the same in-degree.
pub open spec fn same_degrees(a: Seq<(int, int)>, b: Seq<(int, int)>) -> bool {
    &&& a.len() == b.len()
    &&& forall|v: int| #[trigger] out_degree(a, v) == out_degree(b, v)
    &&& forall|v: int| #[trigger] in_degree(a, v) == in_degree(b, v)
}

/// One more arc gives its source one more out-degree and its target one
/// more in-degree.
pub proof fn lemma_degree_push(arcs: Seq<(int, int)>, arc: (int, int), v: int)
    ensures
        out_degree(arcs.push(arc), v) == out_degree(arcs, v) + if arc.0 == v {
            1nat
        } else {
            0nat
        },
        in_degree(arcs.push(arc), v) == in_degree(arcs, v) + if arc.1 == v {
            1nat
        } else {
            0nat
        },
{
    assert(arcs.push(arc).drop_last() =~= arcs);
}

/// Replacing one arc moves one out-degree and one in-degree.
pub proof fn lemma_degree_update(arcs: Seq<(int, int)>, i: int, arc: (int, int), v: int)
    requires
        0 <= i < arcs.len(),
    ensures
        out_degree(arcs.update(i, arc), v) + (if arcs[i].0 == v {
            1nat
        } else {
            0nat
        }) == out_degree(arcs, v) + if arc.0 == v {
            1nat
        } else {
            0nat
        },
        in_degree(arcs.update(i, arc), v) + (if arcs[i].1 == v {
            1nat
        } else {
            0nat
        }) == in_degree(arcs, v) + if arc.1 == v {
            1nat
        } else {
            0nat
        },
    decreases arcs.len(),
{
    let changed = arcs.update(i, arc);
    if i == arcs.len() - 1 {
        assert(changed.drop_last() =~= arcs.drop_last());
    } else {
        assert(changed.drop_last() =~= arcs.drop_last().update(i, arc));
        lemma_degree_update(arcs.drop_last(), i, arc, v);
    }
}

/// Removing the arc at `i` by moving the last arc into its place takes one
/// out-degree from its source and one in-degree from its target.
pub proof fn lemma_degree_swap_remove(arcs: Seq<(int, int)>, i: int, v: int)
    requires
        0 <= i < arcs.len(),
    ensures
        out_degree(arcs.update(i, arcs.last()).drop_last(), v) + (if arcs[i].0 == v {
            1nat
        } else {
            0nat
        }) == out_degree(arcs, v),
        in_degree(arcs.update(i, arcs.last()).drop_last(), v) + (if arcs[i].1 == v {
            1nat
        } else {
            0nat
        }) == in_degree(arcs, v),
{
    if i == arcs.len() - 1 {
        assert(arcs.update(i, arcs.last()) =~= arcs);
    } else {
        assert(arcs.update(i, arcs.last()).drop_last() =~= arcs.drop_last().update(
            i,
            arcs.last(),
        ));
        lemma_degree_update(arcs.drop_last(), i, arcs.last(), v);
    }
}

/// The arcs of the list, as a set.
pub open spec fn arc_set(arcs: Seq<(int, int)>) -> Set<(int, int)> {
    Set::new(|p: (int, int)| arcs.contains(p))
}

/// Whether no arc stands twice in the list and none joins a vertex to
/// itself.
pub open spec fn simple(arcs: Seq<(int, int)>) -> bool {
    &&& arcs.no_duplicates()
    &&& forall|i: int| 0 <= i < arcs.len() ==> (#[trigger] arcs[i]).0 != arcs[i].1
}

/// Removing the arc at `i` from a simple list, by moving the last arc into
/// its place, leaves a simple list without that arc.
pub proof fn lemma_simple_swap_remove(arcs: Seq<(int, int)>, i: int)
    requires
        simple(arcs),
        0 <= i < arcs.len(),
    ensures
        simple(arcs.update(i, arcs.last()).drop_last()),
        arc_set(arcs.update(i, arcs.last()).drop_last()) == arc_set(arcs).remove(arcs[i]),
{
    let left = arcs.update(i, arcs.last()).drop_last();
    assert forall|a: int, b: int| 0 <= a < b < left.len() implies left[a] != left[b] by {
        let from_a = if a == i {
            arcs.len() - 1
        } else {
            a
        };
        let from_b = if b == i {
            arcs.len() - 1
        } else {
            b
        };
        assert(left[a] == arcs[from_a] && left[b] == arcs[from_b]);
    }
    assert forall|t: int| 0 <= t < left.len() implies (#[trigger] left[t]).0 != left[t].1 by {
        if t == i {
            assert(left[t] == arcs[arcs.len() - 1]);
        } else {
            assert(left[t] == arcs[t]);
        }
    }
    assert forall|p: (int, int)| arc_set(left).contains(p) == arc_set(arcs).remove(
        arcs[i],
    ).contains(p) by {
        if left.contains(p) {
            let t = choose|t: int| 0 <= t < left.len() && left[t] == p;
            if t == i {
                assert(arcs[arcs.len() - 1] == p);
            } else {
                assert(arcs[t] == p);
            }
        }
        if arcs.contains(p) && p != arcs[i] {
            let t = choose|t: int| 0 <= t < arcs.len() && arcs[t] == p;
            if t == arcs.len() - 1 {
                assert(left[i] == p);
            } else {
                assert(left[t] == p);
            }
        }
    }
    assert(arc_set(left) =~= arc_set(arcs).remove(arcs[i]));
}

/// Adding to a simple list an arc that is new and no loop leaves a simple
/// list with that arc.
pub proof fn lemma_simple_push(arcs: Seq<(int, int)>, arc: (int, int))
    requires
        simple(arcs),
        !arcs.contains(arc),
        arc.0 != arc.1,
    ensures
        simple(arcs.push(arc)),
        arc_set(arcs.push(arc)) == arc_set(arcs).insert(arc),
{
    let more = arcs.push(arc);
    assert forall|a: int, b: int| 0 <= a < b < more.len() implies more[a] != more[b] by {
        if b == arcs.len() {
            assert(more[a] == arcs[a]);
            assert(arcs.contains(more[a]));
        }
    }
    assert forall|p: (int, int)| arc_set(more).contains(p) == arc_set(arcs).insert(arc).contains(
        p,
    ) by {
        if more.contains(p) {
            let t = choose|t: int| 0 <= t < more.len() && more[t] == p;
            if t < arcs.len() {
                assert(arcs[t] == p);
            }
        }
        if arcs.contains(p) {
            let t = choose|t: int| 0 <= t < arcs.len() && arcs[t] == p;
            assert(more[t] == p);
        }
        if p == arc {
            assert(more[arcs.len() as int] == p);
        }
    }
    assert(arc_set(more) =~= arc_set(arcs).insert(arc));
}

/// The arcs after the arcs at `idx` and `jdx` have swapped their heads: the
/// two arcs are removed, the one with the greater index first and each by
/// moving the last arc into its place, and the two new arcs are added at the
/// end, the one from the source of the arc at `idx` first.
pub open spec fn swapped(arcs: Seq<(int, int)>, idx: int, jdx: int) -> Seq<(int, int)> {
    let hi = if idx < jdx {
        jdx
    } else {
        idx
    };
    let lo = if idx < jdx {
        idx
    } else {
        jdx
    };
    let once = arcs.update(hi, arcs.last()).drop_last();
    let twice = once.update(lo, once.last()).drop_last();
    twice.push((arcs[idx].0, arcs[jdx].1)).push((arcs[jdx].0, arcs[idx].1))
}

/// Whether `pick` names two different arcs of a list of `len` arcs.
pub open spec fn is_pick(pick: (int, int), len: int) -> bool {
    0 <= pick.0 < len && 0 <= pick.1 < len && pick.0 != pick.1
}

/// The arcs after the switches `picks` have been done, one after the other.
pub open spec fn switched_by(arcs: Seq<(int, int)>, picks: Seq<(int, int)>) -> Seq<(int, int)>
    decreases picks.len(),
{
    if picks.len() == 0 {
        arcs
    } else {
        swapped(switched_by(arcs, picks.drop_last()), picks.last().0, picks.last().1)
    }
}

/// The arcs that the map holds after the switches `picks`, when it held the
/// arcs of the list before the first: every switch takes the two old arcs
/// out and puts the two new arcs in.
pub open spec fn map_after(arcs: Seq<(int, int)>, picks: Seq<(int, int)>) -> Set<(int, int)>
    decreases picks.len(),
{
    if picks.len() == 0 {
        arc_set(arcs)
    } else {
        let before = switched_by(arcs, picks.drop_last());
        let i = picks.last().0;
        let j = picks.last().1;
        map_after(arcs, picks.drop_last()).remove(before[i]).remove(before[j]).insert(
            (before[i].0, before[j].1),
        ).insert((before[j].0, before[i].1))
    }
}

/// Whether every one of `picks` was a switch that may be done when its turn
/// came: it names two different arcs of the list as it then is, and
/// swapping their heads makes no loop and no arc that the map then holds.
pub open spec fn valid_picks(arcs: Seq<(int, int)>, picks: Seq<(int, int)>) -> bool
    decreases picks.len(),
{
    picks.len() == 0 || {
        let before = switched_by(arcs, picks.drop_last());
        let i = picks.last().0;
        let j = picks.last().1;
        &&& valid_picks(arcs, picks.drop_last())
        &&& is_pick(picks.last(), before.len() as int)
        &&& !spec_would_loop(before[i].0, before[i].1, before[j].0, before[j].1)
        &&& !spec_would_duplicate(
            map_after(arcs, picks.drop_last()),
            before[i].0,
            before[i].1,
            before[j].0,
            before[j].1,
        )
    }
}

/// The number of switches that are asked for: `q` for every arc, as far as
/// a `usize` can count.
pub open spec fn operations(count: int, q: int) -> int {
    if count * q <= usize::MAX {
        count * q
    } else {
        usize::MAX as int
    }
}

/// The number of switches to do on a graph of `count` arcs.
pub fn num_operations(count: usize, q: usize) -> (r: usize)
    ensures
        r == operations(count as int, q as int),
{
    match count.checked_mul(q) {
        Some(total) => total,
        None => usize::MAX,
    }
}

/// A switch leaves as many arcs as there were.
pub proof fn lemma_swapped_len(arcs: Seq<(int, int)>, idx: int, jdx: int)
    requires
        is_pick((idx, jdx), arcs.len() as int),
    ensures
        swapped(arcs, idx, jdx).len() == arcs.len(),
{
}

/// The two vertices drawn, if they are two: a pair that names one arc twice
/// is no sample.
pub fn pick_distinct(u: usize, v: usize) -> (r: Option<(usize, usize)>)
    ensures
        r == if u != v {
            Some((u, v))
        } else {
            None::<(usize, usize)>
        },
{
    if u != v {
        Some((u, v))
    } else {
        None
    }
}

/// Whether swapping the heads of the arcs `x1 -> x2` and `y1 -> y2` would
/// make a loop, or no new arc at all.
pub open spec fn spec_would_loop(x1: int, x2: int, y1: int, y2: int) -> bool {
    x1 == y2 || y1 == x2 || x2 == y2
}

/// Whether one of the arcs `x1 -> y2` and `y1 -> x2` is among `arcs`
/// already.
pub open spec fn spec_would_duplicate(arcs: Set<(int, int)>, x1: int, x2: int, y1: int, y2: int) -> bool {
    arcs.contains((x1, y2)) || arcs.contains((y1, x2))
}

/// Checks if the switch would create a loop.
pub fn would_loop(x1: usize, x2: usize, y1: usize, y2: usize) -> (r: bool)
    ensures
        r == spec_would_loop(x1 as int, x2 as int, y1 as int, y2 as int),
{
    x1 == y2 || y1 == x2 || x2 == y2
}

/// Checks if the switch would create duplicate edges.
pub fn would_duplicate(node_map: &NodeMap, x1: usize, x2: usize, y1: usize, y2: usize) -> (r: bool)
    ensures
        r == spec_would_duplicate(arcs_in(*node_map), x1 as int, x2 as int, y1 as int, y2 as int),
{
    node_map.contains_edge(x1, y2) || node_map.contains_edge(y1, x2)
}

/// Check if there already exists an edge from x1 => y2 or from y1 => x2.
/// Check if this switch would create a loop.
/// If so, we cannot perform the switch.
pub fn is_invalid_switch(node_map: &NodeMap, x1: usize, x2: usize, y1: usize, y2: usize) -> (r:
    bool)
    ensures
        r == (spec_would_duplicate(arcs_in(*node_map), x1 as int, x2 as int, y1 as int, y2 as int)
            || spec_would_loop(x1 as int, x2 as int, y1 as int, y2 as int)),
{
    would_duplicate(node_map, x1, x2, y1, y2) || would_loop(x1, x2, y1, y2)
}

/// The arcs among the first `upto` of `arcs`.
pub open spec fn arcs_among(arcs: Seq<(int, int)>, upto: int) -> Set<(int, int)> {
    Set::new(|p: (int, int)| exists|i: int| 0 <= i < upto && i < arcs.len() && #[trigger] arcs[i] == p)
}

/// The lookup table of the arcs of `graph`.
pub fn build_map(graph: &DiGraph) -> (m: NodeMap)
    ensures
        arcs_in(m) == arcs_among(arcs_of(*graph), arcs_of(*graph).len() as int),
{
    let n = node_count(graph);
    let count = edge_count(graph);
    let mut map = NodeMap::with_capacity(n);
    let mut e: usize = 0;
    proof {
        assert(arcs_in(map) =~= arcs_among(arcs_of(*graph), 0));
    }
    while e < count
        invariant
            e <= count,
            count == arcs_of(*graph).len(),
            count <= u32::MAX,
            arcs_in(map) == arcs_among(arcs_of(*graph), e as int),
        decreases count - e,
    {
        let ends = edge_endpoints(graph, e);
        let ghost before = arcs_in(map);
        match ends {
            Some((x, y)) => {
                map.add_edge(x, y);
            },
            None => {},
        }
        e += 1;
        proof {
            let arcs = arcs_of(*graph);
            assert forall|p: (int, int)| arcs_in(map).contains(p) == arcs_among(
                arcs,
                e as int,
            ).contains(p) by {
                if arcs_among(arcs, e as int).contains(p) {
                    let i = choose|i: int| 0 <= i < e && i < arcs.len() && #[trigger] arcs[i] == p;
                    if i < e - 1 {
                        assert(arcs_among(arcs, e - 1).contains(p));
                    }
                }
                if before.contains(p) {
                    assert(arcs_among(arcs, e - 1).contains(p));
                    let i = choose|i: int|
                        0 <= i < e - 1 && i < arcs.len() && #[trigger] arcs[i] == p;
                    assert(arcs[i] == p);
                }
                if p == arcs[e - 1] {
                    assert(arcs[e - 1] == p);
                }
            }
            assert(arcs_in(map) =~= arcs_among(arcs, e as int));
        }
    }
    map
}

/// Samples two distinct random edges from a graph of `num_edges` edges. Each
/// pair that is drawn costs one of `budget`, so that the budget falls by
/// the number of pairs drawn: by one at least where there is a sample, and
/// to nothing where the budget is spent before two distinct edges came and
/// there is no sample.
pub fn sample_edges(rng: &mut ChaChaRng, num_edges: usize, budget: &mut u64) -> (r: Option<
    (usize, usize),
>)
    requires
        num_edges > 0,
    ensures
        *final(budget) <= *old(budget),
        match r {
            Some((u, v)) => u < num_edges && v < num_edges && u != v && *final(budget) < *old(
                budget,
            ),
            None => *final(budget) == 0,
        },
{
    while *budget > 0
        invariant
            num_edges > 0,
            *budget <= *old(budget),
        decreases *budget,
    {
        *budget = *budget - 1;
        let u = draw_below(rng, num_edges);
        let v = draw_below(rng, num_edges);
        match pick_distinct(u, v) {
            Some(pair) => {
                return Some(pair);
            },
            None => {},
        }
    }
    None
}

/// Performs a switch on a graph.
///
/// This is done by removing two edges and adding two new edges.
/// The two edges are removed in the reverse order of their indices
/// to avoid invalidating the indices.
pub fn perform_switch(
    graph: &mut DiGraph,
    node_map: &mut NodeMap,
    idx: usize,
    jdx: usize,
    x1: usize,
    x2: usize,
    y1: usize,
    y2: usize,
)
    requires
        idx != jdx,
        idx < arcs_of(*old(graph)).len(),
        jdx < arcs_of(*old(graph)).len(),
        arcs_of(*old(graph)).len() <= u32::MAX,
        order_of(*old(graph)) <= u32::MAX,
        arcs_of(*old(graph))[idx as int] == (x1 as int, x2 as int),
        arcs_of(*old(graph))[jdx as int] == (y1 as int, y2 as int),
        x1 < order_of(*old(graph)),
        x2 < order_of(*old(graph)),
        y1 < order_of(*old(graph)),
        y2 < order_of(*old(graph)),
    ensures
        order_of(*final(graph)) == order_of(*old(graph)),
        arcs_of(*final(graph)) == swapped(arcs_of(*old(graph)), idx as int, jdx as int),
        same_degrees(arcs_of(*final(graph)), arcs_of(*old(graph))),
        arcs_in(*final(node_map)) == arcs_in(*old(node_map)).remove((x1 as int, x2 as int)).remove(
            (y1 as int, y2 as int),
        ).insert((x1 as int, y2 as int)).insert((y1 as int, x2 as int)),
        simple(arcs_of(*old(graph))) && arcs_in(*old(node_map)) == arc_set(arcs_of(*old(graph)))
            && !spec_would_loop(x1 as int, x2 as int, y1 as int, y2 as int)
            && !spec_would_duplicate(
            arcs_in(*old(node_map)),
            x1 as int,
            x2 as int,
            y1 as int,
            y2 as int,
        ) ==> simple(arcs_of(*final(graph))) && arcs_in(*final(node_map)) == arc_set(
            arcs_of(*final(graph)),
        ),
{
    let ghost a0 = arcs_of(*graph);
    let ghost valid = simple(a0) && arcs_in(*node_map) == arc_set(a0) && !spec_would_loop(
        x1 as int,
        x2 as int,
        y1 as int,
        y2 as int,
    ) && !spec_would_duplicate(arcs_in(*node_map), x1 as int, x2 as int, y1 as int, y2 as int);
    // Remove the two edges in the reverse order of their indices.
    if idx < jdx {
        remove_edge(graph, jdx);
        let ghost a1 = arcs_of(*graph);
        proof {
            assert(a1[idx as int] == a0[idx as int]);
        }
        remove_edge(graph, idx);
        proof {
            if valid {
                lemma_simple_swap_remove(a0, jdx as int);
                lemma_simple_swap_remove(a1, idx as int);
            }
            assert forall|v: int|
                out_degree(arcs_of(*graph), v) + (if x1 == v {
                    1nat
                } else {
                    0nat
                }) + (if y1 == v {
                    1nat
                } else {
                    0nat
                }) == out_degree(a0, v) && in_degree(arcs_of(*graph), v) + (if x2 == v {
                    1nat
                } else {
                    0nat
                }) + (if y2 == v {
                    1nat
                } else {
                    0nat
                }) == in_degree(a0, v) by {
                lemma_degree_swap_remove(a0, jdx as int, v);
                lemma_degree_swap_remove(a1, idx as int, v);
            }
        }
    } else {
        remove_edge(graph, idx);
        let ghost a1 = arcs_of(*graph);
        proof {
            assert(a1[jdx as int] == a0[jdx as int]);
        }
        remove_edge(graph, jdx);
        proof {
            if valid {
                lemma_simple_swap_remove(a0, idx as int);
                lemma_simple_swap_remove(a1, jdx as int);
            }
            assert forall|v: int|
                out_degree(arcs_of(*graph), v) + (if x1 == v {
                    1nat
                } else {
                    0nat
                }) + (if y1 == v {
                    1nat
                } else {
                    0nat
                }) == out_degree(a0, v) && in_degree(arcs_of(*graph), v) + (if x2 == v {
                    1nat
                } else {
                    0nat
                }) + (if y2 == v {
                    1nat
                } else {
                    0nat
                }) == in_degree(a0, v) by {
                lemma_degree_swap_remove(a0, idx as int, v);
                lemma_degree_swap_remove(a1, jdx as int, v);
            }
        }
    }
    let ghost a2 = arcs_of(*graph);
    // Remove the two edges from the node map.
    node_map.remove_edge(x1, x2);
    node_map.remove_edge(y1, y2);
    // Add the two new edges.
    add_edge(graph, x1, y2);
    let ghost a3 = arcs_of(*graph);
    add_edge(graph, y1, x2);
    // Add the two new edges to the node map.
    node_map.add_edge(x1, y2);
    node_map.add_edge(y1, x2);
    proof {
        assert forall|v: int|
            out_degree(arcs_of(*graph), v) == out_degree(a0, v) && in_degree(arcs_of(*graph), v)
                == in_degree(a0, v) by {
            lemma_degree_push(a2, (x1 as int, y2 as int), v);
            lemma_degree_push(a3, (y1 as int, x2 as int), v);
        }
        if valid {
            assert(arc_set(a2) == arc_set(a0).remove((x1 as int, x2 as int)).remove(
                (y1 as int, y2 as int),
            ) || arc_set(a2) == arc_set(a0).remove((y1 as int, y2 as int)).remove(
                (x1 as int, x2 as int),
            ));
            assert(!arc_set(a2).contains((x1 as int, y2 as int)));
            assert(!a2.contains((x1 as int, y2 as int)));
            lemma_simple_push(a2, (x1 as int, y2 as int));
            assert(!arc_set(a2).contains((y1 as int, x2 as int)));
            assert(!arc_set(a3).contains((y1 as int, x2 as int)));
            assert(!a3.contains((y1 as int, x2 as int)));
            lemma_simple_push(a3, (y1 as int, x2 as int));
            assert(arcs_in(*node_map) =~= arc_set(arcs_of(*graph)));
        }
    }
}

/// What is done with a pair of arcs that was drawn: their heads are
/// swapped, unless that would make a loop or an arc that the map holds
/// already. Says whether the switch was done. A pair that is not switched
/// leaves graph and map as they were.
pub fn switch_step(graph: &mut DiGraph, node_map: &mut NodeMap, idx: usize, jdx: usize) -> (done:
    bool)
    requires
        idx != jdx,
        idx < arcs_of(*old(graph)).len(),
        jdx < arcs_of(*old(graph)).len(),
    ensures
        done == !(spec_would_loop(
            arcs_of(*old(graph))[idx as int].0,
            arcs_of(*old(graph))[idx as int].1,
            arcs_of(*old(graph))[jdx as int].0,
            arcs_of(*old(graph))[jdx as int].1,
        ) || spec_would_duplicate(
            arcs_in(*old(node_map)),
            arcs_of(*old(graph))[idx as int].0,
            arcs_of(*old(graph))[idx as int].1,
            arcs_of(*old(graph))[jdx as int].0,
            arcs_of(*old(graph))[jdx as int].1,
        )),
        order_of(*final(graph)) == order_of(*old(graph)),
        !done ==> arcs_of(*final(graph)) == arcs_of(*old(graph)) && arcs_in(*final(node_map))
            == arcs_in(*old(node_map)),
        done ==> arcs_of(*final(graph)) == swapped(arcs_of(*old(graph)), idx as int, jdx as int),
        done ==> arcs_in(*final(node_map)) == arcs_in(*old(node_map)).remove(
            arcs_of(*old(graph))[idx as int],
        ).remove(arcs_of(*old(graph))[jdx as int]).insert(
            (arcs_of(*old(graph))[idx as int].0, arcs_of(*old(graph))[jdx as int].1),
        ).insert((arcs_of(*old(graph))[jdx as int].0, arcs_of(*old(graph))[idx as int].1)),
        same_degrees(arcs_of(*final(graph)), arcs_of(*old(graph))),
        simple(arcs_of(*old(graph))) && arcs_in(*old(node_map)) == arc_set(arcs_of(*old(graph)))
            ==> simple(arcs_of(*final(graph))) && arcs_in(*final(node_map)) == arc_set(
            arcs_of(*final(graph)),
        ),
{
    let count = edge_count(graph);
    let order = node_count(graph);
    // Get the nodes of the edges.
    let (x1, x2) = match edge_endpoints(graph, idx) {
        Some(ends) => ends,
        None => {
            return false;
        },
    };
    let (y1, y2) = match edge_endpoints(graph, jdx) {
        Some(ends) => ends,
        None => {
            return false;
        },
    };
    proof {
        assert(arcs_of(*graph)[idx as int] == (x1 as int, x2 as int));
        assert(arcs_of(*graph)[jdx as int] == (y1 as int, y2 as int));
    }
    // Check if the switch is valid and continue if not.
    if is_invalid_switch(node_map, x1, x2, y1, y2) {
        return false;
    }
    // Perform the switch.
    perform_switch(graph, node_map, idx, jdx, x1, x2, y1, y2);
    true
}

/// A switch that may be done on a simple list of arcs leaves a simple
/// list, and takes the two old arcs out of its set and puts in the two new.
pub proof fn lemma_swapped_simple(arcs: Seq<(int, int)>, idx: int, jdx: int)
    requires
        simple(arcs),
        is_pick((idx, jdx), arcs.len() as int),
        !spec_would_loop(arcs[idx].0, arcs[idx].1, arcs[jdx].0, arcs[jdx].1),
        !spec_would_duplicate(arc_set(arcs), arcs[idx].0, arcs[idx].1, arcs[jdx].0, arcs[jdx].1),
    ensures
        simple(swapped(arcs, idx, jdx)),
        arc_set(swapped(arcs, idx, jdx)) == arc_set(arcs).remove(arcs[idx]).remove(
            arcs[jdx],
        ).insert((arcs[idx].0, arcs[jdx].1)).insert((arcs[jdx].0, arcs[idx].1)),
{
    let hi = if idx < jdx {
        jdx
    } else {
        idx
    };
    let lo = if idx < jdx {
        idx
    } else {
        jdx
    };
    let once = arcs.update(hi, arcs.last()).drop_last();
    lemma_simple_swap_remove(arcs, hi);
    assert(once[lo] == arcs[lo]);
    let twice = once.update(lo, once.last()).drop_last();
    lemma_simple_swap_remove(once, lo);
    let first = (arcs[idx].0, arcs[jdx].1);
    let second = (arcs[jdx].0, arcs[idx].1);
    assert(!arc_set(arcs).contains(first));
    assert(!arc_set(twice).contains(first));
    assert(!twice.contains(first));
    lemma_simple_push(twice, first);
    let three = twice.push(first);
    assert(!arc_set(arcs).contains(second));
    assert(!arc_set(twice).contains(second));
    assert(!arc_set(three).contains(second));
    assert(!three.contains(second));
    lemma_simple_push(three, second);
    assert(arc_set(swapped(arcs, idx, jdx)) =~= arc_set(arcs).remove(arcs[idx]).remove(
        arcs[jdx],
    ).insert(first).insert(second));
}

/// On a simple list of arcs switches that may be done leave a simple list,
/// and the map holds the arcs of the list throughout: such a switch makes
/// no loop and no arc that is in the list already.
pub proof fn lemma_valid_picks_simple(arcs: Seq<(int, int)>, picks: Seq<(int, int)>)
    requires
        simple(arcs),
        valid_picks(arcs, picks),
    ensures
        simple(switched_by(arcs, picks)),
        switched_by(arcs, picks).len() == arcs.len(),
        map_after(arcs, picks) == arc_set(switched_by(arcs, picks)),
    decreases picks.len(),
{
    if picks.len() > 0 {
        lemma_valid_picks_simple(arcs, picks.drop_last());
        let before = switched_by(arcs, picks.drop_last());
        lemma_swapped_simple(before, picks.last().0, picks.last().1);
    }
}

/// Whether `result` comes from `arcs` by switches that were asked for: by
/// some switches, every one of which may be done when its turn comes, and
/// no more of which are done than `q` for every arc.
pub open spec fn switched_from(arcs: Seq<(int, int)>, q: int, result: Seq<(int, int)>) -> bool {
    exists|picks: Seq<(int, int)>|
        picks.len() <= operations(arcs.len() as int, q) && valid_picks(arcs, picks) && result
            == #[trigger] switched_by(arcs, picks)
}

/// Whether `result` comes from `arcs` by all the switches that were asked
/// for: `q` for every arc, every one of which may be done when its turn
/// comes.
pub open spec fn fully_switched(arcs: Seq<(int, int)>, q: int, result: Seq<(int, int)>) -> bool {
    exists|picks: Seq<(int, int)>|
        picks.len() == operations(arcs.len() as int, q) && valid_picks(arcs, picks) && result
            == #[trigger] switched_by(arcs, picks)
}

/// Switches the arcs of a copy of `graph` until `q` switches for every arc
/// are done, or until `budget` pairs have been drawn. A pair that cannot be
/// switched is drawn again and does not count as a switch; every pair that
/// is drawn costs one of the budget. Fewer switches than were asked for are
/// done only where the budget is spent.
pub fn switching_within(graph: &DiGraph, q: usize, seed: usize, budget: &mut u64) -> (r: DiGraph)
    ensures
        order_of(r) == order_of(*graph),
        same_degrees(arcs_of(r), arcs_of(*graph)),
        simple(arcs_of(*graph)) ==> simple(arcs_of(r)),
        q == 0 || arcs_of(*graph).len() == 0 ==> arcs_of(r) == arcs_of(*graph),
        switched_from(arcs_of(*graph), q as int, arcs_of(r)),
        fully_switched(arcs_of(*graph), q as int, arcs_of(r)) || *final(budget) == 0,
        *final(budget) <= *old(budget),
{
    let mut rgraph = clone_graph(graph);
    let mut node_map = build_map(&rgraph);
    proof {
        assert(arcs_in(node_map) =~= arc_set(arcs_of(rgraph))) by {
            let arcs = arcs_of(rgraph);
            assert forall|p: (int, int)| arcs_among(arcs, arcs.len() as int).contains(p)
                == arc_set(arcs).contains(p) by {
                if arcs.contains(p) {
                    let i = choose|i: int| 0 <= i < arcs.len() && arcs[i] == p;
                    assert(arcs[i] == p);
                }
            }
        }
    }
    let mut rng = seeded(seed as u64);
    let mut num_switches: usize = 0;
    let count = edge_count(graph);
    let total = num_operations(count, q);
    let ghost mut picks: Seq<(int, int)> = Seq::empty();
    proof {
        if q == 0 || count == 0 {
            assert(count * q == 0) by (nonlinear_arith)
                requires
                    q == 0 || count == 0,
            ;
        }
    }
    let mut drawing = true;
    while drawing && num_switches < total
        invariant
            !drawing ==> *budget == 0,
            count == arcs_of(*graph).len(),
            total == operations(count as int, q as int),
            order_of(rgraph) == order_of(*graph),
            arcs_of(rgraph).len() == count,
            same_degrees(arcs_of(rgraph), arcs_of(*graph)),
            simple(arcs_of(*graph)) ==> simple(arcs_of(rgraph)) && arcs_in(node_map) == arc_set(
                arcs_of(rgraph),
            ),
            num_switches <= total,
            picks.len() == num_switches,
            valid_picks(arcs_of(*graph), picks),
            arcs_in(node_map) == map_after(arcs_of(*graph), picks),
            arcs_of(rgraph) == switched_by(arcs_of(*graph), picks),
            *budget <= *old(budget),
        decreases
                *budget,
                if drawing {
                    1nat
                } else {
                    0nat
                },
    {
        // Pick two random edges.
        match sample_edges(&mut rng, count, budget) {
            Some((idx, jdx)) => {
                let ghost before = arcs_of(rgraph);
                if switch_step(&mut rgraph, &mut node_map, idx, jdx) {
                    num_switches += 1;
                    proof {
                        let more = picks.push((idx as int, jdx as int));
                        assert(more.drop_last() =~= picks);
                        assert(more.last() == (idx as int, jdx as int));
                        lemma_swapped_len(before, idx as int, jdx as int);
                        picks = more;
                    }
                }
            },
            None => {
                drawing = false;
            },
        }
    }
    rgraph
}

/// Creates a random graph that preserves node degrees using the switch model.
///
/// This is done by randomly selecting two edges and switching their endpoints.
/// The switch is not performed if the resulting graph would have a self-loop
/// or if duplicate edges are created.
///
/// # Arguments
/// * `graph` - The graph to create a random graph from.
/// * `q` - The number of operations to perform (total = q * num_edges).
/// * `seed` - The seed for the random number generator.
///
/// Pairs of edges are drawn until that many switches are done. A pair that
/// cannot be switched is drawn again and does not count. The search ends
/// after `u64::MAX` draws at the latest, with the switches done until then:
/// this is `switching_within` with that budget, which says when fewer
/// switches are done than were asked for. Which pairs are drawn is for the
/// generator to say: the result comes from the graph by switches that may
/// be done, no more of them than were asked for, and by none where none is
/// asked for or the graph has no arc.
pub fn switching(graph: &DiGraph, q: usize, seed: usize) -> (r: DiGraph)
    ensures
        order_of(r) == order_of(*graph),
        same_degrees(arcs_of(r), arcs_of(*graph)),
        simple(arcs_of(*graph)) ==> simple(arcs_of(r)),
        q == 0 || arcs_of(*graph).len() == 0 ==> arcs_of(r) == arcs_of(*graph),
        switched_from(arcs_of(*graph), q as int, arcs_of(r)),
{
    let mut budget: u64 = u64::MAX;
    switching_within(graph, q, seed, &mut budget)
}

} // verus!
