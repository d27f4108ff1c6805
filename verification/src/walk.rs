//! What a walk visits.
//!
//! A walker grows a subgraph by the least vertex of its extension, visits
//! what grows out of the larger subgraph, and goes on with the next vertex of
//! the extension. The list `walk` says which complete subgraphs that visits,
//! and the theorems say that these are the connected sets of `k` vertices
//! whose least vertex is the root, each once.
use crate::bitgraph::Adjacency;
use crate::model::{state_ok, touches};
use crate::theorems::{
    connected, crosses, is_motif, least_from, lemma_least_from, lemma_list_connected,
    lemma_occurrences_concat, lemma_vertex_set_len, occurrences, proper_part, vertex_set,
};
use crate::model::lemma_root_ok;
use crate::walker::{
    closed_neighborhood, exclusive_neighborhood, lemma_closed_touches, lemma_in_closed_from,
    lemma_sub_in_closed, root_ext, walks, walks_below,
};
use vstd::prelude::*;

verus! {

/// The extension of the subgraph `sub` once the vertex `w` of its extension
/// `ext` has joined it: the vertices of `ext` above `w`, and the exclusive
/// neighborhood of `w`.
pub open spec fn child_ext(g: Adjacency, sub: Seq<usize>, ext: Set<int>, w: int) -> Set<int> {
    Set::new(
        |v: int|
            (ext.contains(v) && v > w) || exclusive_neighborhood(
                g,
                sub.push(w as usize),
                sub.len() as int,
            ).contains(v),
    )
}

/// The complete subgraphs of `k` vertices that a walk visits from the
/// subgraph `sub` when the vertices of `ext` from `from` on may be added to
/// it, in the order of the visits.
pub open spec fn walk(g: Adjacency, k: nat, sub: Seq<usize>, ext: Set<int>, from: nat) -> Seq<
    Seq<usize>,
>
    decreases k - sub.len(), g.n - from,
{
    if sub.len() >= k {
        seq![sub]
    } else {
        let w = least_from(ext, from as int, g.n as int);
        if w >= g.n || w < from {
            Seq::empty()
        } else {
            walk(g, k, sub.push(w as usize), child_ext(g, sub, ext, w), 0) + walk(
                g,
                k,
                sub,
                ext,
                (w + 1) as nat,
            )
        }
    }
}

/// The number of steps that the walk of `walk` takes.
pub open spec fn cost(g: Adjacency, k: nat, sub: Seq<usize>, ext: Set<int>, from: nat) -> nat
    decreases k - sub.len(), g.n - from,
{
    if sub.len() >= k {
        1
    } else {
        let w = least_from(ext, from as int, g.n as int);
        if w >= g.n || w < from {
            1
        } else {
            1 + cost(g, k, sub.push(w as usize), child_ext(g, sub, ext, w), 0) + cost(
                g,
                k,
                sub,
                ext,
                (w + 1) as nat,
            )
        }
    }
}

/// Whether two extensions hold the same vertices of the graph from `a` on in
/// the one and from `b` on in the other.
pub open spec fn same_from(n: nat, one: Set<int>, a: nat, other: Set<int>, b: nat) -> bool {
    forall|v: int|
        #![trigger one.contains(v)]
        #![trigger other.contains(v)]
        0 <= v < n ==> ((one.contains(v) && v >= a) == (other.contains(v) && v >= b))
}

/// The least vertex from `a` on of one extension is the least vertex from
/// `b` on of another that holds the same vertices, if there is one.
pub proof fn lemma_least_same(n: nat, one: Set<int>, a: nat, other: Set<int>, b: nat)
    requires
        same_from(n, one, a, other, b),
    ensures
        ({
            let x = least_from(one, a as int, n as int);
            let y = least_from(other, b as int, n as int);
            &&& (x >= n || x < a) == (y >= n || y < b)
            &&& !(x >= n || x < a) ==> x == y && one.contains(x) && other.contains(x)
        }),
{
    let x = least_from(one, a as int, n as int);
    let y = least_from(other, b as int, n as int);
    if a <= n {
        lemma_least_from(one, a as int, n as int);
    }
    if b <= n {
        lemma_least_from(other, b as int, n as int);
    }
    if x < n && x >= a {
        assert(one.contains(x));
        assert(other.contains(x) && x >= b);
    }
    if y < n && y >= b {
        assert(other.contains(y));
        assert(one.contains(y) && y >= a);
    }
}

/// A walk reads of its extension only the vertices of the graph from `from`
/// on.
pub proof fn lemma_walk_same(
    g: Adjacency,
    k: nat,
    sub: Seq<usize>,
    one: Set<int>,
    a: nat,
    other: Set<int>,
    b: nat,
)
    requires
        g.n <= usize::MAX,
        same_from(g.n, one, a, other, b),
    ensures
        walk(g, k, sub, one, a) == walk(g, k, sub, other, b),
        cost(g, k, sub, one, a) == cost(g, k, sub, other, b),
    decreases k - sub.len(), g.n - a,
{
    if sub.len() < k {
        lemma_least_same(g.n, one, a, other, b);
        let w = least_from(one, a as int, g.n as int);
        if !(w >= g.n || w < a) {
            let next = sub.push(w as usize);
            assert(same_from(g.n, child_ext(g, sub, one, w), 0, child_ext(g, sub, other, w), 0)) by {
                assert forall|v: int|
                    #![trigger child_ext(g, sub, one, w).contains(v)]
                    #![trigger child_ext(g, sub, other, w).contains(v)]
                    0 <= v < g.n implies ((child_ext(g, sub, one, w).contains(v) && v >= 0) == (
                    child_ext(g, sub, other, w).contains(v) && v >= 0)) by {
                    if v > w {
                        assert((one.contains(v) && v >= a) == (other.contains(v) && v >= b));
                    }
                }
            }
            lemma_walk_same(g, k, next, child_ext(g, sub, one, w), 0, child_ext(g, sub, other, w), 0);
            assert(same_from(g.n, one, (w + 1) as nat, other, (w + 1) as nat)) by {
                assert forall|v: int|
                    #![trigger one.contains(v)]
                    #![trigger other.contains(v)]
                    0 <= v < g.n implies ((one.contains(v) && v >= w + 1) == (other.contains(v)
                    && v >= w + 1)) by {
                    if v >= w + 1 {
                        assert((one.contains(v) && v >= a) == (other.contains(v) && v >= b));
                    }
                }
            }
            lemma_walk_same(g, k, sub, one, (w + 1) as nat, other, (w + 1) as nat);
        }
    }
}

/// What holds of the extension of a walk: its vertices are vertices of the
/// graph above the root, outside the subgraph, and joined to it.
pub open spec fn ext_ok(g: Adjacency, sub: Seq<usize>, ext: Set<int>) -> bool {
    forall|v: int| #[trigger]
        ext.contains(v) ==> sub[0] < v < g.n && !vertex_set(sub).contains(v) && touches(
            g,
            sub,
            sub.len() as int,
            v,
        )
}

/// Whether the set `s` can still be visited from the subgraph `sub` with
/// the vertices of `ext` from `from` on: it is a connected set of `k`
/// vertices that holds `sub` and nothing below the root, and those of its
/// other vertices that are joined to `sub` are in `ext`, at `from` or above.
pub open spec fn in_reach(
    g: Adjacency,
    k: nat,
    sub: Seq<usize>,
    ext: Set<int>,
    from: nat,
    s: Set<int>,
) -> bool {
    &&& is_motif(g, k, s)
    &&& vertex_set(sub).subset_of(s)
    &&& forall|v: int| #[trigger] s.contains(v) ==> v >= sub[0]
    &&& forall|v: int|
        #[trigger] s.contains(v) && !vertex_set(sub).contains(v) && touches(
            g,
            sub,
            sub.len() as int,
            v,
        ) ==> ext.contains(v) && v >= from
}

/// The subgraph with a vertex of its extension added is a subgraph in
/// order, and what `child_ext` gives is an extension of it.
pub proof fn lemma_child_ext_ok(g: Adjacency, sub: Seq<usize>, ext: Set<int>, w: int)
    requires
        g.wf(),
        state_ok(g, sub, Seq::empty()),
        ext_ok(g, sub, ext),
        ext.contains(w),
    ensures
        state_ok(g, sub.push(w as usize), Seq::empty()),
        ext_ok(g, sub.push(w as usize), child_ext(g, sub, ext, w)),
{
    let next = sub.push(w as usize);
    assert(next[0] == sub[0]);
    assert forall|i: int| 1 <= i < next.len() implies touches(g, next, i, #[trigger] next[i] as int) by {
        if i < sub.len() {
            assert(touches(g, sub, i, sub[i] as int));
            let j = choose|j: int|
                0 <= j < i && j < sub.len() && g.adjacent(sub[i] as int, #[trigger] sub[j] as int);
            assert(g.adjacent(next[i] as int, next[j] as int));
        } else {
            let j = choose|j: int|
                0 <= j < sub.len() && j < sub.len() && g.adjacent(w, #[trigger] sub[j] as int);
            assert(g.adjacent(next[i] as int, next[j] as int));
        }
    }
    assert forall|i: int, j: int| 0 <= i < j < next.len() implies next[i] != next[j] by {
        if j == sub.len() {
            if next[i] == next[j] {
                assert(sub[i] == w);
                assert(vertex_set(sub).contains(w));
            }
        }
    }
    assert forall|v: int| #[trigger] child_ext(g, sub, ext, w).contains(v) implies next[0] < v
        < g.n && !vertex_set(next).contains(v) && touches(g, next, next.len() as int, v) by {
        if ext.contains(v) && v > w {
            let j = choose|j: int|
                0 <= j < sub.len() && j < sub.len() && g.adjacent(v, #[trigger] sub[j] as int);
            assert(g.adjacent(v, next[j] as int));
            if vertex_set(next).contains(v) {
                let i = choose|i: int| 0 <= i < next.len() && #[trigger] next[i] == v;
                if i < sub.len() {
                    assert(sub[i] == v);
                    assert(vertex_set(sub).contains(v));
                }
            }
        } else {
            let d = sub.len() as int;
            assert(exclusive_neighborhood(g, next, d).contains(v));
            assert(g.adjacent(next[d] as int, v));
            assert(g.adjacent(v, next[d] as int));
            assert(touches(g, next, next.len() as int, v));
            if vertex_set(next).contains(v) {
                let i = choose|i: int| 0 <= i < next.len() && #[trigger] next[i] == v;
                if i < sub.len() {
                    assert forall|t: int| 1 <= t <= d - 1 implies #[trigger] next[t] > next[0]
                        && touches(g, next, t, next[t] as int) by {
                        assert(next[t] == sub[t]);
                    }
                    lemma_sub_in_closed(g, next, d - 1, i);
                }
            }
        }
    }
}

/// A set in reach that is larger than the subgraph has a vertex in the
/// extension, at `from` or above.
pub proof fn lemma_reach_has_next(
    g: Adjacency,
    k: nat,
    sub: Seq<usize>,
    ext: Set<int>,
    from: nat,
    s: Set<int>,
) -> (v: int)
    requires
        g.wf(),
        state_ok(g, sub, Seq::empty()),
        sub.len() < k,
        in_reach(g, k, sub, ext, from, s),
    ensures
        ext.contains(v),
        v >= from,
        s.contains(v),
{
    let part = vertex_set(sub);
    lemma_vertex_set_len(sub);
    assert(proper_part(s, part)) by {
        assert(sub[0] == sub[0]);
        assert(part.contains(sub[0] as int));
        if forall|x: int| s.contains(x) ==> part.contains(x) {
            assert(part =~= s);
            assert(false);
        }
    }
    assert(crosses(g, s, part));
    let (u, v) = choose|u: int, v: int| #[trigger]
        g.adjacent(u, v) && part.contains(u) && s.contains(v) && !part.contains(v);
    let iu = choose|i: int| 0 <= i < sub.len() && #[trigger] sub[i] == u;
    assert(g.adjacent(v, sub[iu] as int));
    assert(touches(g, sub, sub.len() as int, v));
    v
}

/// A complete subgraph is in reach of its own set of vertices and of no
/// other.
pub proof fn lemma_walk_leaf(
    g: Adjacency,
    k: nat,
    sub: Seq<usize>,
    ext: Set<int>,
    from: nat,
    s: Set<int>,
)
    requires
        g.wf(),
        state_ok(g, sub, Seq::empty()),
        sub.len() == k,
    ensures
        in_reach(g, k, sub, ext, from, s) == (vertex_set(sub) == s),
{
    lemma_vertex_set_len(sub);
    if in_reach(g, k, sub, ext, from, s) {
        vstd::set_lib::lemma_subset_equality(vertex_set(sub), s);
    }
    if vertex_set(sub) == s {
        lemma_list_connected(g, sub);
        assert forall|v: int| #[trigger] s.contains(v) implies v >= sub[0] && 0 <= v < g.n by {
            let i = choose|i: int| 0 <= i < sub.len() && #[trigger] sub[i] == v;
            assert(sub[i] < g.n);
            if i >= 1 {
                assert(sub[i] > sub[0]);
            }
        }
    }
}

/// A set in reach of a state is in reach of the state that follows with the
/// least vertex of the extension if it holds that vertex, and of the rest of
/// the extension if it does not; and a set in reach of either is in reach of
/// the state.
pub proof fn lemma_reach_splits(
    g: Adjacency,
    k: nat,
    sub: Seq<usize>,
    ext: Set<int>,
    from: nat,
    s: Set<int>,
)
    requires
        g.wf(),
        state_ok(g, sub, Seq::empty()),
        ext_ok(g, sub, ext),
        sub.len() < k,
        from <= least_from(ext, from as int, g.n as int) < g.n,
    ensures
        ({
            let w = least_from(ext, from as int, g.n as int);
            let below = in_reach(g, k, sub.push(w as usize), child_ext(g, sub, ext, w), 0, s);
            let beside = in_reach(g, k, sub, ext, (w + 1) as nat, s);
            &&& in_reach(g, k, sub, ext, from, s) == (below || beside)
            &&& !(below && beside)
        }),
{
    let w = least_from(ext, from as int, g.n as int);
    lemma_least_from(ext, from as int, g.n as int);
    let next = sub.push(w as usize);
    let wider = child_ext(g, sub, ext, w);
    let below = in_reach(g, k, next, wider, 0, s);
    let beside = in_reach(g, k, sub, ext, (w + 1) as nat, s);
    let d = sub.len() as int;
    assert(next[0] == sub[0]);
    assert(next[d] == w);
    assert(ext.contains(w));
    assert(touches(g, sub, d, w));
    assert(!vertex_set(sub).contains(w));
    assert(vertex_set(next).contains(w));
    assert forall|x: int| vertex_set(sub).contains(x) implies vertex_set(next).contains(x) by {
        let i = choose|i: int| 0 <= i < sub.len() && #[trigger] sub[i] == x;
        assert(next[i] == x);
    }
    assert forall|x: int| vertex_set(next).contains(x) implies vertex_set(sub).contains(x) || x
        == w by {
        let i = choose|i: int| 0 <= i < next.len() && #[trigger] next[i] == x;
        if i < sub.len() {
            assert(sub[i] == x);
        }
    }
    // the facts of the subgraph that the closed neighborhood asks for
    assert forall|t: int| 1 <= t <= d - 1 implies #[trigger] next[t] > next[0] && touches(
        g,
        next,
        t,
        next[t] as int,
    ) by {
        assert(next[t] == sub[t]);
        assert(touches(g, sub, t, sub[t] as int));
        let j = choose|j: int|
            0 <= j < t && j < sub.len() && g.adjacent(sub[t] as int, #[trigger] sub[j] as int);
        assert(g.adjacent(next[t] as int, next[j] as int));
    }
    if below {
        // in reach of the state itself, and not of the rest of the extension
        assert(s.contains(w));
        assert forall|x: int|
            #[trigger] s.contains(x) && !vertex_set(sub).contains(x) && touches(
                g,
                sub,
                d,
                x,
            ) implies ext.contains(x) && x >= from by {
            if x != w {
                let j = choose|j: int|
                    0 <= j < d && j < sub.len() && g.adjacent(x, #[trigger] sub[j] as int);
                assert(g.adjacent(x, next[j] as int));
                assert(touches(g, next, next.len() as int, x));
                assert(wider.contains(x));
                if exclusive_neighborhood(g, next, d).contains(x) {
                    assert(g.adjacent(sub[j] as int, x));
                    assert(next[j] == sub[j]);
                    lemma_in_closed_from(g, next, d - 1, j, x);
                }
            }
        }
    }
    if beside {
        assert forall|x: int|
            #[trigger] s.contains(x) && !vertex_set(sub).contains(x) && touches(
                g,
                sub,
                d,
                x,
            ) implies ext.contains(x) && x >= from by {}
        if s.contains(w) {
            assert(ext.contains(w) && w >= w + 1);
        }
    }
    if in_reach(g, k, sub, ext, from, s) {
        if s.contains(w) {
            assert forall|x: int|
                #[trigger] s.contains(x) && !vertex_set(next).contains(x) && touches(
                    g,
                    next,
                    next.len() as int,
                    x,
                ) implies wider.contains(x) && x >= 0 by {
                if touches(g, sub, d, x) {
                    assert(ext.contains(x) && x >= from);
                    assert(x >= w);
                } else {
                    let j = choose|j: int|
                        0 <= j < next.len() && j < next.len() && g.adjacent(
                            x,
                            #[trigger] next[j] as int,
                        );
                    if j < d {
                        assert(g.adjacent(x, sub[j] as int));
                        assert(touches(g, sub, d, x));
                    }
                    assert(g.adjacent(next[d] as int, x));
                    assert(x >= sub[0]);
                    if x == sub[0] {
                        assert(sub[0] == x);
                        assert(vertex_set(sub).contains(x));
                    }
                    if closed_neighborhood(g, next, d - 1).contains(x) {
                        lemma_closed_touches(g, next, d - 1, x);
                        let t = choose|t: int|
                            0 <= t < d && t < next.len() && g.adjacent(x, #[trigger] next[t] as int);
                        assert(g.adjacent(x, sub[t] as int));
                        assert(touches(g, sub, d, x));
                    }
                    assert(exclusive_neighborhood(g, next, d).contains(x));
                }
            }
            assert(below);
        } else {
            assert forall|x: int|
                #[trigger] s.contains(x) && !vertex_set(sub).contains(x) && touches(
                    g,
                    sub,
                    d,
                    x,
                ) implies ext.contains(x) && x >= w + 1 by {
                assert(ext.contains(x) && x >= from);
                assert(x >= w);
            }
            assert(beside);
        }
    }
}

/// A walk visits every set in reach of its state once, and no other set.
pub proof fn lemma_walk_count(
    g: Adjacency,
    k: nat,
    sub: Seq<usize>,
    ext: Set<int>,
    from: nat,
    s: Set<int>,
)
    requires
        g.wf(),
        state_ok(g, sub, Seq::empty()),
        ext_ok(g, sub, ext),
        sub.len() <= k,
    ensures
        occurrences(walk(g, k, sub, ext, from), s) == if in_reach(g, k, sub, ext, from, s) {
            1nat
        } else {
            0nat
        },
    decreases k - sub.len(), g.n - from,
{
    if sub.len() >= k {
        let all = walk(g, k, sub, ext, from);
        assert(all.drop_last() =~= Seq::<Seq<usize>>::empty());
        assert(occurrences(all.drop_last(), s) == 0);
        assert(all.last() == sub);
        lemma_walk_leaf(g, k, sub, ext, from, s);
    } else {
        let w = least_from(ext, from as int, g.n as int);
        if w >= g.n || w < from {
            if in_reach(g, k, sub, ext, from, s) {
                let v = lemma_reach_has_next(g, k, sub, ext, from, s);
                if from <= g.n {
                    lemma_least_from(ext, from as int, g.n as int);
                    assert(v < g.n);
                    assert(!ext.contains(v));
                } else {
                    assert(v < g.n);
                }
            }
        } else {
            lemma_least_from(ext, from as int, g.n as int);
            let next = sub.push(w as usize);
            let wider = child_ext(g, sub, ext, w);
            lemma_child_ext_ok(g, sub, ext, w);
            lemma_walk_count(g, k, next, wider, 0, s);
            lemma_walk_count(g, k, sub, ext, (w + 1) as nat, s);
            lemma_occurrences_concat(
                walk(g, k, next, wider, 0),
                walk(g, k, sub, ext, (w + 1) as nat),
                s,
            );
            lemma_reach_splits(g, k, sub, ext, from, s);
        }
    }
}

/// Whether `s` is in reach of the walk that starts at the root `v`.
pub open spec fn root_in_reach(g: Adjacency, k: nat, v: int, s: Set<int>) -> bool {
    0 <= v <= usize::MAX && in_reach(g, k, seq![v as usize], root_ext(g, v), 0, s)
}

/// A walk starts in order.
pub proof fn lemma_root_ext_ok(g: Adjacency, v: usize)
    requires
        g.wf(),
        v < g.n,
    ensures
        state_ok(g, seq![v], Seq::empty()),
        ext_ok(g, seq![v], root_ext(g, v as int)),
{
    lemma_root_ok(g, v);
    let sub = seq![v];
    assert forall|u: int| #[trigger] root_ext(g, v as int).contains(u) implies sub[0] < u < g.n
        && !vertex_set(sub).contains(u) && touches(g, sub, sub.len() as int, u) by {
        assert(g.adjacent(v as int, u));
        assert(g.adjacent(u, sub[0] as int));
        if vertex_set(sub).contains(u) {
            let i = choose|i: int| 0 <= i < sub.len() && #[trigger] sub[i] == u;
        }
    }
}

/// A set is in reach of the walk from the root that is its least vertex,
/// and of no other.
pub proof fn lemma_walk_root_of(g: Adjacency, k: nat, s: Set<int>, v: int)
    requires
        g.wf(),
        k >= 1,
        0 <= v < g.n,
    ensures
        root_in_reach(g, k, v, s) == (is_motif(g, k, s) && s.contains(v) && forall|x: int|
            s.contains(x) ==> v <= x),
{
    let sub = seq![v as usize];
    assert(sub[0] == v);
    if root_in_reach(g, k, v, s) {
        assert(vertex_set(sub).contains(v));
    }
    if is_motif(g, k, s) && s.contains(v) && forall|x: int| s.contains(x) ==> v <= x {
        assert forall|x: int| vertex_set(sub).contains(x) implies s.contains(x) by {
            let i = choose|i: int| 0 <= i < sub.len() && #[trigger] sub[i] == x;
        }
        assert forall|x: int|
            #[trigger] s.contains(x) && !vertex_set(sub).contains(x) && touches(
                g,
                sub,
                sub.len() as int,
                x,
            ) implies root_ext(g, v).contains(x) && x >= 0 by {
            let j = choose|j: int|
                0 <= j < sub.len() && j < sub.len() && g.adjacent(x, #[trigger] sub[j] as int);
            assert(g.adjacent(sub[j] as int, x));
            assert(v <= x);
            if x == v {
                assert(sub[0] == x);
                assert(vertex_set(sub).contains(x));
            }
        }
    }
}

/// The walks from the roots below `upto` visit a set once if it is in reach
/// of one of them, and not at all if it is not.
pub proof fn lemma_walk_roots_count(g: Adjacency, k: nat, upto: nat, s: Set<int>)
    requires
        g.wf(),
        k >= 1,
        upto <= g.n,
    ensures
        occurrences(walks_below(g, k, upto), s) == if exists|v: int|
            0 <= v < upto && root_in_reach(g, k, v, s) {
            1nat
        } else {
            0nat
        },
    decreases upto,
{
    if upto > 0 {
        let v = (upto - 1) as usize;
        let before = walks_below(g, k, (upto - 1) as nat);
        let here = walk(g, k, seq![v], root_ext(g, v as int), 0);
        lemma_occurrences_concat(before, here, s);
        lemma_walk_roots_count(g, k, (upto - 1) as nat, s);
        lemma_root_ext_ok(g, v);
        lemma_walk_count(g, k, seq![v], root_ext(g, v as int), 0, s);
        if root_in_reach(g, k, v as int, s) {
            if exists|u: int| 0 <= u < upto - 1 && root_in_reach(g, k, u, s) {
                let u = choose|u: int| 0 <= u < upto - 1 && root_in_reach(g, k, u, s);
                lemma_walk_root_of(g, k, s, u);
                lemma_walk_root_of(g, k, s, v as int);
            }
        } else {
            if exists|u: int| 0 <= u < upto && root_in_reach(g, k, u, s) {
                let u = choose|u: int| 0 <= u < upto && root_in_reach(g, k, u, s);
                assert(u < upto - 1);
            }
        }
    }
}

/// The walks visit every connected set of `k` vertices exactly once.
pub proof fn theorem_walks_every_motif_once(g: Adjacency, k: nat, s: Set<int>)
    requires
        g.wf(),
        k >= 1,
        is_motif(g, k, s),
    ensures
        occurrences(walks(g, k), s) == 1,
{
    lemma_walk_roots_count(g, k, g.n, s);
    assert(s.len() != 0);
    let x = s.choose();
    assert(s.contains(x));
    lemma_least_from(s, 0, g.n as int);
    let v = least_from(s, 0, g.n as int);
    if v >= g.n {
        assert(!s.contains(x));
    }
    lemma_walk_root_of(g, k, s, v);
    assert(root_in_reach(g, k, v, s));
}

/// The walks visit nothing but connected sets of `k` vertices: a set that is
/// none is not visited.
pub proof fn theorem_walks_nothing_else(g: Adjacency, k: nat, s: Set<int>)
    requires
        g.wf(),
        k >= 1,
        !is_motif(g, k, s),
    ensures
        occurrences(walks(g, k), s) == 0,
{
    lemma_walk_roots_count(g, k, g.n, s);
}

} // verus!
