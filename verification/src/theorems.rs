//! What the enumeration is good for: it visits the connected sets of `k`
//! vertices of the graph, every one of them and none of them twice.
//!
//! A set of vertices is connected when it cannot be cut in two parts without
//! cutting an edge. The enumeration is the list `subgraphs(g, k)` of
//! `model`; the searches of `esu` and `parallel_esu` count exactly that list.
use crate::bitgraph::{adjacency_of, has_arc, Adjacency};
use crate::graph::{order_of, DiGraph};
use crate::model::{
    candidate_set, candidates, children, exclusive, extend, increasing, lemma_ascending,
    lemma_candidate_is_new, lemma_child_ok, lemma_root_ok, lemma_wider_ok, lists, rooted,
    state_ok, subgraphs, subgraphs_below, touches, wider_ok,
};
use crate::ngraph::{dense_has, words_needed};
use crate::pattern::is_pattern;
use vstd::prelude::*;

verus! {

/// The vertices of a list, as a set.
pub open spec fn vertex_set(sub: Seq<usize>) -> Set<int> {
    Set::new(|v: int| exists|i: int| 0 <= i < sub.len() && #[trigger] sub[i] == v)
}

/// Whether an edge of `g` leaves the part `a` of the set `s`: it joins a
/// vertex of `a` to a vertex of `s` outside `a`.
pub open spec fn crosses(g: Adjacency, s: Set<int>, a: Set<int>) -> bool {
    exists|u: int, v: int| #[trigger]
        g.adjacent(u, v) && a.contains(u) && s.contains(v) && !a.contains(v)
}

/// Whether `a` is a part of `s` that is neither empty nor all of `s`.
pub open spec fn proper_part(s: Set<int>, a: Set<int>) -> bool {
    &&& a.subset_of(s)
    &&& exists|u: int| a.contains(u)
    &&& exists|v: int| s.contains(v) && !a.contains(v)
}

/// Whether the subgraph that `g` induces on `s` is connected: an edge
/// leaves every part of `s` that is neither empty nor all of `s`.
pub open spec fn connected(g: Adjacency, s: Set<int>) -> bool {
    forall|a: Set<int>| #[trigger] proper_part(s, a) ==> crosses(g, s, a)
}

/// Whether `s` is a connected set of `k` vertices of `g`.
pub open spec fn is_motif(g: Adjacency, k: nat, s: Set<int>) -> bool {
    &&& s.finite()
    &&& s.len() == k
    &&& forall|v: int| s.contains(v) ==> 0 <= v < g.n
    &&& connected(g, s)
}

/// How many of the lists `subs` have exactly the vertices `s`.
pub open spec fn occurrences(subs: Seq<Seq<usize>>, s: Set<int>) -> nat
    decreases subs.len(),
{
    if subs.len() == 0 {
        0
    } else {
        occurrences(subs.drop_last(), s) + if vertex_set(subs.last()) == s {
            1nat
        } else {
            0nat
        }
    }
}

/// Counting over two lists, one after the other, adds up.
pub proof fn lemma_occurrences_concat(a: Seq<Seq<usize>>, b: Seq<Seq<usize>>, s: Set<int>)
    ensures
        occurrences(a + b, s) == occurrences(a, s) + occurrences(b, s),
    decreases b.len(),
{
    if b.len() == 0 {
        assert(a + b =~= a);
    } else {
        assert((a + b).drop_last() =~= a + b.drop_last());
        lemma_occurrences_concat(a, b.drop_last(), s);
    }
}

/// A list without repetition has as many vertices as items.
pub proof fn lemma_vertex_set_len(sub: Seq<usize>)
    requires
        sub.no_duplicates(),
    ensures
        vertex_set(sub).finite(),
        vertex_set(sub).len() == sub.len(),
    decreases sub.len(),
{
    if sub.len() == 0 {
        assert(vertex_set(sub) =~= Set::<int>::empty());
    } else {
        let front = sub.drop_last();
        lemma_vertex_set_len(front);
        let last = sub.last() as int;
        assert(vertex_set(sub) =~= vertex_set(front).insert(last)) by {
            assert forall|v: int| vertex_set(sub).contains(v) implies vertex_set(front).insert(
                last,
            ).contains(v) by {
                let i = choose|i: int| 0 <= i < sub.len() && #[trigger] sub[i] == v;
                if i < front.len() {
                    assert(front[i] == v);
                }
            }
            assert forall|v: int| vertex_set(front).insert(last).contains(v) implies vertex_set(
                sub,
            ).contains(v) by {
                if v == last {
                    assert(sub[sub.len() - 1] == v);
                } else {
                    let i = choose|i: int| 0 <= i < front.len() && #[trigger] front[i] == v;
                    assert(sub[i] == v);
                }
            }
        }
        if vertex_set(front).contains(last) {
            let i = choose|i: int| 0 <= i < front.len() && #[trigger] front[i] == last;
            assert(sub[i] == sub[sub.len() - 1]);
        }
    }
}

/// The first position from `from` on whose vertex is on the other side of
/// `a` than the first vertex; the length of the list if there is none.
pub open spec fn first_across(sub: Seq<usize>, a: Set<int>, from: int) -> int
    decreases sub.len() - from,
{
    if from >= sub.len() || from < 0 {
        sub.len() as int
    } else if a.contains(sub[from] as int) != a.contains(sub[0] as int) {
        from
    } else {
        first_across(sub, a, from + 1)
    }
}

/// What `first_across` finds.
pub proof fn lemma_first_across(sub: Seq<usize>, a: Set<int>, from: int)
    requires
        0 <= from <= sub.len(),
    ensures
        from <= first_across(sub, a, from) <= sub.len(),
        forall|j: int|
            from <= j < first_across(sub, a, from) ==> a.contains(#[trigger] sub[j] as int)
                == a.contains(sub[0] as int),
        first_across(sub, a, from) < sub.len() ==> a.contains(
            sub[first_across(sub, a, from)] as int,
        ) != a.contains(sub[0] as int),
    decreases sub.len() - from,
{
    if from < sub.len() && a.contains(sub[from] as int) == a.contains(sub[0] as int) {
        lemma_first_across(sub, a, from + 1);
    }
}

/// A list in which every vertex but the first shares an edge with an earlier
/// one holds a connected set.
pub proof fn lemma_list_connected(g: Adjacency, sub: Seq<usize>)
    requires
        g.wf(),
        sub.len() >= 1,
        forall|i: int| 1 <= i < sub.len() ==> touches(g, sub, i, #[trigger] sub[i] as int),
    ensures
        connected(g, vertex_set(sub)),
{
    let s = vertex_set(sub);
    assert forall|a: Set<int>| #[trigger] proper_part(s, a) implies crosses(g, s, a) by {
        lemma_first_across(sub, a, 0);
        let i = first_across(sub, a, 0);
        if i >= sub.len() {
            // every vertex is on the side of the first: then `a` is empty or all
            let u = choose|u: int| a.contains(u);
            let v = choose|v: int| s.contains(v) && !a.contains(v);
            assert(s.contains(u));
            let iu = choose|t: int| 0 <= t < sub.len() && #[trigger] sub[t] == u;
            let iv = choose|t: int| 0 <= t < sub.len() && #[trigger] sub[t] == v;
            assert(a.contains(sub[iu] as int) == a.contains(sub[0] as int));
            assert(a.contains(sub[iv] as int) == a.contains(sub[0] as int));
            assert(false);
        }
        assert(i >= 1);
        assert(touches(g, sub, i, sub[i] as int));
        let j = choose|j: int|
            0 <= j < i && j < sub.len() && g.adjacent(sub[i] as int, #[trigger] sub[j] as int);
        assert(a.contains(sub[j] as int) == a.contains(sub[0] as int));
        assert(s.contains(sub[i] as int));
        assert(s.contains(sub[j] as int));
        if a.contains(sub[0] as int) {
            assert(g.adjacent(sub[j] as int, sub[i] as int));
        } else {
            assert(g.adjacent(sub[i] as int, sub[j] as int));
        }
    }
}

/// What holds of a complete subgraph `t` that has grown out of the
/// subgraph `sub` with the extension `ext`: it starts with `sub`, it is a
/// subgraph in order, and those of its later vertices that are joined to a
/// vertex of `sub` other than the last were in `ext`.
pub open spec fn grown_from(
    g: Adjacency,
    k: nat,
    sub: Seq<usize>,
    ext: Seq<usize>,
    t: Seq<usize>,
) -> bool {
    &&& t.len() == k
    &&& sub.len() <= k
    &&& t.take(sub.len() as int) == sub
    &&& state_ok(g, t, Seq::empty())
    &&& forall|j: int|
        sub.len() <= j < k && touches(g, sub, sub.len() - 1, #[trigger] t[j] as int)
            ==> ext.contains(t[j])
}

/// A vertex of the widened extension that is joined to a vertex of the
/// subgraph other than the last was in the extension before.
pub proof fn lemma_wider_old(g: Adjacency, sub: Seq<usize>, ext: Seq<usize>, q: int)
    requires
        g.wf(),
        state_ok(g, sub, ext),
        0 <= q < (ext + candidates(g, sub)).len(),
        touches(g, sub, sub.len() - 1, (ext + candidates(g, sub))[q] as int),
    ensures
        q < ext.len(),
{
    let c = candidates(g, sub);
    if q >= ext.len() {
        lemma_ascending(candidate_set(g, sub), g.n);
        let v = c[q - ext.len()];
        assert(candidate_set(g, sub).contains(v as int));
        assert(exclusive(g, sub, v as int));
        let j = choose|j: int|
            0 <= j < sub.len() - 1 && j < sub.len() && g.adjacent(v as int, #[trigger] sub[j] as int);
        assert(!g.adjacent(v as int, sub[j] as int));
    }
}

/// Every subgraph that `extend` lists has grown out of the state that it
/// was started from.
pub proof fn lemma_outputs(g: Adjacency, k: nat, sub: Seq<usize>, ext: Seq<usize>, t: Seq<usize>)
    requires
        g.wf(),
        state_ok(g, sub, ext),
        sub.len() <= k,
        extend(g, k, sub, ext).contains(t),
    ensures
        grown_from(g, k, sub, ext, t),
    decreases k - sub.len(), 1nat, 0nat,
{
    if sub.len() >= k {
        let i = choose|i: int| 0 <= i < extend(g, k, sub, ext).len() && extend(g, k, sub, ext)[i] == t;
        assert(t == sub);
        assert(t.take(sub.len() as int) =~= sub);
    } else {
        let wider = ext + candidates(g, sub);
        lemma_children_outputs(g, k, sub, ext, wider, wider.len(), t);
    }
}

/// The same for the subgraphs that `children` lists.
pub proof fn lemma_children_outputs(
    g: Adjacency,
    k: nat,
    sub: Seq<usize>,
    ext: Seq<usize>,
    wider: Seq<usize>,
    upto: nat,
    t: Seq<usize>,
)
    requires
        g.wf(),
        state_ok(g, sub, ext),
        sub.len() < k,
        wider == ext + candidates(g, sub),
        upto <= wider.len(),
        children(g, k, sub, wider, upto).contains(t),
    ensures
        grown_from(g, k, sub, ext, t),
    decreases k - sub.len(), 0nat, upto,
{
    if upto == 0 {
        let i = choose|i: int|
            0 <= i < children(g, k, sub, wider, upto).len() && children(g, k, sub, wider, upto)[i]
                == t;
        assert(false);
    } else {
        let p = (upto - 1) as int;
        let w = wider[p];
        let next = sub.push(w);
        let rest = wider.take(p);
        let first = extend(g, k, next, rest);
        let others = children(g, k, sub, wider, (upto - 1) as nat);
        let all = children(g, k, sub, wider, upto);
        assert(all == first + others);
        let i = choose|i: int| 0 <= i < all.len() && all[i] == t;
        if i < first.len() {
            assert(first[i] == t);
            assert(first.contains(t));
            lemma_wider_ok(g, sub, ext);
            lemma_child_ok(g, sub, wider, p);
            lemma_outputs(g, k, next, rest, t);
            assert(t.take(sub.len() as int) =~= sub) by {
                assert(t.take(next.len() as int) == next);
                assert forall|a: int| 0 <= a < sub.len() implies t[a] == sub[a] by {
                    assert(t.take(next.len() as int)[a] == next[a]);
                }
            }
            assert(t[sub.len() as int] == w) by {
                assert(t.take(next.len() as int)[sub.len() as int] == next[sub.len() as int]);
            }
            assert forall|j: int|
                sub.len() <= j < k && touches(
                    g,
                    sub,
                    sub.len() - 1,
                    #[trigger] t[j] as int,
                ) implies ext.contains(t[j]) by {
                if j == sub.len() {
                    lemma_wider_old(g, sub, ext, p);
                    assert(ext[p] == t[j]);
                } else {
                    let a = choose|a: int|
                        0 <= a < sub.len() - 1 && a < sub.len() && g.adjacent(
                            t[j] as int,
                            #[trigger] sub[a] as int,
                        );
                    assert(g.adjacent(t[j] as int, next[a] as int));
                    assert(touches(g, next, next.len() - 1, t[j] as int));
                    assert(rest.contains(t[j]));
                    let q = choose|q: int| 0 <= q < rest.len() && rest[q] == t[j];
                    assert(wider[q] == t[j]);
                    lemma_wider_old(g, sub, ext, q);
                    assert(ext[q] == t[j]);
                }
            }
        } else {
            assert(others[i - first.len()] == t);
            assert(others.contains(t));
            lemma_children_outputs(g, k, sub, ext, wider, (upto - 1) as nat, t);
        }
    }
}

/// Whether the set `s` can still grow out of the subgraph `sub` with the
/// extension `ext`: it is a connected set of `k` vertices that holds `sub`
/// and nothing below the root, and those of its other vertices that are
/// joined to a vertex of `sub` other than the last are in `ext`.
pub open spec fn reach(g: Adjacency, k: nat, sub: Seq<usize>, ext: Seq<usize>, s: Set<int>) -> bool {
    &&& is_motif(g, k, s)
    &&& vertex_set(sub).subset_of(s)
    &&& forall|v: int| #[trigger] s.contains(v) ==> v >= sub[0]
    &&& forall|v: int|
        #[trigger] s.contains(v) && !vertex_set(sub).contains(v) && touches(
            g,
            sub,
            sub.len() - 1,
            v,
        ) ==> vertex_set(ext).contains(v)
}

/// `reach` for the state that the vertex at `p` of the widened extension
/// leads to.
pub open spec fn child_reach(
    g: Adjacency,
    k: nat,
    sub: Seq<usize>,
    wider: Seq<usize>,
    p: int,
    s: Set<int>,
) -> bool {
    0 <= p < wider.len() && reach(g, k, sub.push(wider[p]), wider.take(p), s)
}

/// A complete subgraph leads to its own set of vertices and to no other.
pub proof fn lemma_leaf(g: Adjacency, k: nat, sub: Seq<usize>, ext: Seq<usize>, s: Set<int>)
    requires
        g.wf(),
        state_ok(g, sub, ext),
        sub.len() == k,
    ensures
        reach(g, k, sub, ext, s) == (vertex_set(sub) == s),
{
    lemma_vertex_set_len(sub);
    if reach(g, k, sub, ext, s) {
        vstd::set_lib::lemma_subset_equality(vertex_set(sub), s);
    }
    if vertex_set(sub) == s {
        lemma_list_connected(g, sub);
        assert forall|v: int| #[trigger] s.contains(v) implies v >= sub[0] && 0 <= v < g.n by {
            let i = choose|i: int| 0 <= i < sub.len() && #[trigger] sub[i] == v;
            assert(sub[i] < g.n);
            if i >= 1 {
                assert(sub[i] > sub[0]);
            }
        }
    }
}

/// The last position before `upto` of the list whose vertex is in `s`, or
/// -1 if there is none.
pub open spec fn last_in(wider: Seq<usize>, s: Set<int>, upto: int) -> int
    decreases upto,
{
    if upto <= 0 {
        -1
    } else if s.contains(wider[upto - 1] as int) {
        upto - 1
    } else {
        last_in(wider, s, upto - 1)
    }
}

/// What `last_in` finds.
pub proof fn lemma_last_in(wider: Seq<usize>, s: Set<int>, upto: int)
    requires
        0 <= upto <= wider.len(),
    ensures
        -1 <= last_in(wider, s, upto) < upto,
        last_in(wider, s, upto) >= 0 ==> s.contains(wider[last_in(wider, s, upto)] as int),
        forall|q: int| last_in(wider, s, upto) < q < upto ==> !s.contains(#[trigger] wider[q] as int),
    decreases upto,
{
    if upto > 0 && !s.contains(wider[upto - 1] as int) {
        lemma_last_in(wider, s, upto - 1);
    }
}

/// A vertex of a set within reach that is outside the subgraph and joined to
/// one of its vertices stands in the widened extension.
pub proof fn lemma_joined_is_wider(
    g: Adjacency,
    k: nat,
    sub: Seq<usize>,
    ext: Seq<usize>,
    s: Set<int>,
    v: int,
) -> (q: int)
    requires
        g.wf(),
        state_ok(g, sub, ext),
        reach(g, k, sub, ext, s),
        s.contains(v),
        !vertex_set(sub).contains(v),
        touches(g, sub, sub.len() as int, v),
    ensures
        0 <= q < (ext + candidates(g, sub)).len(),
        (ext + candidates(g, sub))[q] == v,
{
    let wider = ext + candidates(g, sub);
    if touches(g, sub, sub.len() - 1, v) {
        assert(vertex_set(ext).contains(v));
        let q = choose|q: int| 0 <= q < ext.len() && #[trigger] ext[q] == v;
        assert(wider[q] == v);
        q
    } else {
        let j = choose|j: int|
            0 <= j < sub.len() && j < sub.len() && g.adjacent(v, #[trigger] sub[j] as int);
        if j < sub.len() - 1 {
            assert(touches(g, sub, sub.len() - 1, v));
        }
        assert(g.adjacent(sub.last() as int, v));
        assert(v >= sub[0]);
        if v == sub[0] {
            assert(sub[0] == v);
            assert(vertex_set(sub).contains(v));
        }
        assert(exclusive(g, sub, v)) by {
            assert forall|a: int| 0 <= a < sub.len() - 1 implies !g.adjacent(
                v,
                #[trigger] sub[a] as int,
            ) by {
                if g.adjacent(v, sub[a] as int) {
                    assert(touches(g, sub, sub.len() - 1, v));
                }
            }
        }
        assert(candidate_set(g, sub).contains(v));
        lemma_ascending(candidate_set(g, sub), g.n);
        let c = candidates(g, sub);
        let q = choose|q: int| 0 <= q < c.len() && #[trigger] c[q] == v;
        assert(wider[ext.len() + q] == v);
        ext.len() + q
    }
}

/// From a state that is short of `k` vertices, a set within reach is within
/// reach of one of the states that follow.
pub proof fn lemma_some_child(
    g: Adjacency,
    k: nat,
    sub: Seq<usize>,
    ext: Seq<usize>,
    s: Set<int>,
) -> (p: int)
    requires
        g.wf(),
        state_ok(g, sub, ext),
        sub.len() < k,
        reach(g, k, sub, ext, s),
    ensures
        child_reach(g, k, sub, ext + candidates(g, sub), p, s),
{
    let wider = ext + candidates(g, sub);
    let part = vertex_set(sub);
    lemma_vertex_set_len(sub);
    lemma_wider_ok(g, sub, ext);
    // the subgraph is a part of the set that an edge must leave
    assert(proper_part(s, part)) by {
        assert(sub[0] == sub[0]);
        assert(part.contains(sub[0] as int));
        if forall|v: int| s.contains(v) ==> part.contains(v) {
            assert(part =~= s);
            assert(false);
        }
    }
    assert(crosses(g, s, part));
    let (u, v) = choose|u: int, v: int| #[trigger]
        g.adjacent(u, v) && part.contains(u) && s.contains(v) && !part.contains(v);
    let iu = choose|i: int| 0 <= i < sub.len() && #[trigger] sub[i] == u;
    assert(g.adjacent(v, sub[iu] as int));
    assert(touches(g, sub, sub.len() as int, v));
    let q0 = lemma_joined_is_wider(g, k, sub, ext, s, v);
    lemma_last_in(wider, s, wider.len() as int);
    let p = last_in(wider, s, wider.len() as int);
    if p < q0 {
        assert(!s.contains(wider[q0] as int));
    }
    let w = wider[p];
    let next = sub.push(w);
    let rest = wider.take(p);
    assert forall|x: int| vertex_set(next).contains(x) implies s.contains(x) by {
        let i = choose|i: int| 0 <= i < next.len() && #[trigger] next[i] == x;
        if i < sub.len() {
            assert(sub[i] == x);
            assert(part.contains(x));
        }
    }
    assert forall|x: int|
        #[trigger] s.contains(x) && !vertex_set(next).contains(x) && touches(
            g,
            next,
            next.len() - 1,
            x,
        ) implies vertex_set(rest).contains(x) by {
        if part.contains(x) {
            let i = choose|i: int| 0 <= i < sub.len() && #[trigger] sub[i] == x;
            assert(next[i] == x);
        }
        let j = choose|j: int|
            0 <= j < next.len() - 1 && j < next.len() && g.adjacent(x, #[trigger] next[j] as int);
        assert(g.adjacent(x, sub[j] as int));
        assert(touches(g, sub, sub.len() as int, x));
        let q = lemma_joined_is_wider(g, k, sub, ext, s, x);
        if q == p {
            assert(next[sub.len() as int] == x);
        }
        if q > p {
            assert(!s.contains(wider[q] as int));
        }
        assert(rest[q] == x);
    }
    assert(next[0] == sub[0]);
    p
}

/// A set within reach of a state that follows is within reach of the state
/// itself.
pub proof fn lemma_child_to_parent(
    g: Adjacency,
    k: nat,
    sub: Seq<usize>,
    ext: Seq<usize>,
    p: int,
    s: Set<int>,
)
    requires
        g.wf(),
        state_ok(g, sub, ext),
        child_reach(g, k, sub, ext + candidates(g, sub), p, s),
    ensures
        reach(g, k, sub, ext, s),
{
    let wider = ext + candidates(g, sub);
    let w = wider[p];
    let next = sub.push(w);
    let rest = wider.take(p);
    assert(next[0] == sub[0]);
    assert forall|x: int| vertex_set(sub).contains(x) implies s.contains(x) by {
        let i = choose|i: int| 0 <= i < sub.len() && #[trigger] sub[i] == x;
        assert(next[i] == x);
        assert(vertex_set(next).contains(x));
    }
    assert forall|x: int|
        #[trigger] s.contains(x) && !vertex_set(sub).contains(x) && touches(
            g,
            sub,
            sub.len() - 1,
            x,
        ) implies vertex_set(ext).contains(x) by {
        if x == w {
            lemma_wider_old(g, sub, ext, p);
            assert(ext[p] == x);
        } else {
            if vertex_set(next).contains(x) {
                let i = choose|i: int| 0 <= i < next.len() && #[trigger] next[i] == x;
                if i < sub.len() {
                    assert(sub[i] == x);
                }
            }
            let a = choose|a: int|
                0 <= a < sub.len() - 1 && a < sub.len() && g.adjacent(x, #[trigger] sub[a] as int);
            assert(g.adjacent(x, next[a] as int));
            assert(touches(g, next, next.len() - 1, x));
            assert(vertex_set(rest).contains(x));
            let q = choose|q: int| 0 <= q < rest.len() && #[trigger] rest[q] == x;
            assert(wider[q] == x);
            lemma_wider_old(g, sub, ext, q);
            assert(ext[q] == x);
        }
    }
}

/// A set is within reach of at most one of the states that follow.
pub proof fn lemma_one_child(
    g: Adjacency,
    k: nat,
    sub: Seq<usize>,
    ext: Seq<usize>,
    p: int,
    q: int,
    s: Set<int>,
)
    requires
        g.wf(),
        state_ok(g, sub, ext),
        child_reach(g, k, sub, ext + candidates(g, sub), p, s),
        child_reach(g, k, sub, ext + candidates(g, sub), q, s),
    ensures
        p == q,
{
    let wider = ext + candidates(g, sub);
    lemma_wider_ok(g, sub, ext);
    if p != q {
        let (lo, hi) = if p < q {
            (p, q)
        } else {
            (q, p)
        };
        let low = sub.push(wider[lo]);
        let high = sub.push(wider[hi]);
        let x = wider[hi] as int;
        assert(high[sub.len() as int] == x);
        assert(vertex_set(high).contains(x));
        assert(s.contains(x));
        if vertex_set(low).contains(x) {
            let i = choose|i: int| 0 <= i < low.len() && #[trigger] low[i] == x;
            if i < sub.len() {
                assert(sub[i] == wider[hi]);
                assert(sub.contains(wider[hi]));
            }
        }
        assert(touches(g, sub, sub.len() as int, x));
        let a = choose|a: int|
            0 <= a < sub.len() && a < sub.len() && g.adjacent(x, #[trigger] sub[a] as int);
        assert(g.adjacent(x, low[a] as int));
        assert(touches(g, low, low.len() - 1, x));
        assert(vertex_set(wider.take(lo)).contains(x));
        let i = choose|i: int| 0 <= i < wider.take(lo).len() && #[trigger] wider.take(lo)[i] == x;
        assert(wider[i] == wider[hi]);
    }
}

/// `extend` lists every set within reach of its state once, and no other
/// set.
pub proof fn lemma_extend_count(g: Adjacency, k: nat, sub: Seq<usize>, ext: Seq<usize>, s: Set<int>)
    requires
        g.wf(),
        state_ok(g, sub, ext),
        sub.len() <= k,
    ensures
        occurrences(extend(g, k, sub, ext), s) == if reach(g, k, sub, ext, s) {
            1nat
        } else {
            0nat
        },
    decreases k - sub.len(), 1nat, 0nat,
{
    if sub.len() >= k {
        let all = extend(g, k, sub, ext);
        assert(all.drop_last() =~= Seq::<Seq<usize>>::empty());
        assert(occurrences(all.drop_last(), s) == 0);
        assert(all.last() == sub);
        lemma_leaf(g, k, sub, ext, s);
    } else {
        let wider = ext + candidates(g, sub);
        lemma_children_count(g, k, sub, ext, wider, wider.len(), s);
        if reach(g, k, sub, ext, s) {
            let p = lemma_some_child(g, k, sub, ext, s);
        }
        if exists|p: int| 0 <= p < wider.len() && child_reach(g, k, sub, wider, p, s) {
            let p = choose|p: int| 0 <= p < wider.len() && child_reach(g, k, sub, wider, p, s);
            lemma_child_to_parent(g, k, sub, ext, p, s);
        }
    }
}

/// `children` lists a set once if it is within reach of one of the states
/// that it goes through, and not at all if it is not.
pub proof fn lemma_children_count(
    g: Adjacency,
    k: nat,
    sub: Seq<usize>,
    ext: Seq<usize>,
    wider: Seq<usize>,
    upto: nat,
    s: Set<int>,
)
    requires
        g.wf(),
        state_ok(g, sub, ext),
        sub.len() < k,
        wider == ext + candidates(g, sub),
        upto <= wider.len(),
    ensures
        occurrences(children(g, k, sub, wider, upto), s) == if exists|p: int|
            0 <= p < upto && child_reach(g, k, sub, wider, p, s) {
            1nat
        } else {
            0nat
        },
    decreases k - sub.len(), 0nat, upto,
{
    if upto == 0 {
    } else {
        let p = (upto - 1) as int;
        let next = sub.push(wider[p]);
        let rest = wider.take(p);
        let first = extend(g, k, next, rest);
        let others = children(g, k, sub, wider, (upto - 1) as nat);
        assert(children(g, k, sub, wider, upto) == first + others);
        lemma_occurrences_concat(first, others, s);
        lemma_wider_ok(g, sub, ext);
        lemma_child_ok(g, sub, wider, p);
        lemma_extend_count(g, k, next, rest, s);
        lemma_children_count(g, k, sub, ext, wider, (upto - 1) as nat, s);
        if child_reach(g, k, sub, wider, p, s) {
            if exists|q: int| 0 <= q < upto - 1 && child_reach(g, k, sub, wider, q, s) {
                let q = choose|q: int| 0 <= q < upto - 1 && child_reach(g, k, sub, wider, q, s);
                lemma_one_child(g, k, sub, ext, p, q, s);
            }
        } else {
            if exists|q: int| 0 <= q < upto && child_reach(g, k, sub, wider, q, s) {
                let q = choose|q: int| 0 <= q < upto && child_reach(g, k, sub, wider, q, s);
                assert(q < upto - 1);
            }
        }
    }
}

/// The least number from `from` on, below `n`, that is in `s`; `n` if there
/// is none.
pub open spec fn least_from(s: Set<int>, from: int, n: int) -> int
    decreases n - from,
{
    if from >= n {
        n
    } else if s.contains(from) {
        from
    } else {
        least_from(s, from + 1, n)
    }
}

/// What `least_from` finds.
pub proof fn lemma_least_from(s: Set<int>, from: int, n: int)
    requires
        from <= n,
    ensures
        from <= least_from(s, from, n) <= n,
        least_from(s, from, n) < n ==> s.contains(least_from(s, from, n)),
        forall|x: int| from <= x < least_from(s, from, n) ==> !s.contains(x),
    decreases n - from,
{
    if from < n && !s.contains(from) {
        lemma_least_from(s, from + 1, n);
    }
}

/// Whether `s` is within reach of the search that starts at the root `v`.
pub open spec fn root_reach(g: Adjacency, k: nat, v: int, s: Set<int>) -> bool {
    0 <= v <= usize::MAX && reach(g, k, seq![v as usize], Seq::empty(), s)
}

/// A set is within reach of the root that is its least vertex, and of no
/// other root.
pub proof fn lemma_root_of(g: Adjacency, k: nat, s: Set<int>, v: int)
    requires
        g.wf(),
        k >= 1,
        0 <= v < g.n,
    ensures
        root_reach(g, k, v, s) == (is_motif(g, k, s) && s.contains(v) && forall|x: int|
            s.contains(x) ==> v <= x),
{
    let sub = seq![v as usize];
    assert(sub[0] == v);
    if root_reach(g, k, v, s) {
        assert(vertex_set(sub).contains(v));
    }
    if is_motif(g, k, s) && s.contains(v) && forall|x: int| s.contains(x) ==> v <= x {
        assert forall|x: int| vertex_set(sub).contains(x) implies s.contains(x) by {
            let i = choose|i: int| 0 <= i < sub.len() && #[trigger] sub[i] == x;
        }
        assert forall|x: int|
            #[trigger] s.contains(x) && !vertex_set(sub).contains(x) && touches(
                g,
                sub,
                sub.len() - 1,
                x,
            ) implies vertex_set(Seq::<usize>::empty()).contains(x) by {
            let j = choose|j: int|
                0 <= j < sub.len() - 1 && j < sub.len() && g.adjacent(x, #[trigger] sub[j] as int);
        }
    }
}

/// The searches of the roots below `upto` list a set once if it is within
/// reach of one of them, and not at all if it is not.
pub proof fn lemma_roots_count(g: Adjacency, k: nat, upto: nat, s: Set<int>)
    requires
        g.wf(),
        k >= 1,
        upto <= g.n,
    ensures
        occurrences(subgraphs_below(g, k, upto), s) == if exists|v: int|
            0 <= v < upto && root_reach(g, k, v, s) {
            1nat
        } else {
            0nat
        },
    decreases upto,
{
    if upto > 0 {
        let v = (upto - 1) as usize;
        let before = subgraphs_below(g, k, (upto - 1) as nat);
        let here = rooted(g, k, v);
        lemma_occurrences_concat(before, here, s);
        lemma_roots_count(g, k, (upto - 1) as nat, s);
        lemma_root_ok(g, v);
        lemma_extend_count(g, k, seq![v], Seq::empty(), s);
        if root_reach(g, k, v as int, s) {
            if exists|u: int| 0 <= u < upto - 1 && root_reach(g, k, u, s) {
                let u = choose|u: int| 0 <= u < upto - 1 && root_reach(g, k, u, s);
                lemma_root_of(g, k, s, u);
                lemma_root_of(g, k, s, v as int);
            }
        } else {
            if exists|u: int| 0 <= u < upto && root_reach(g, k, u, s) {
                let u = choose|u: int| 0 <= u < upto && root_reach(g, k, u, s);
                assert(u < upto - 1);
            }
        }
    }
}

/// The enumeration visits every connected set of `k` vertices exactly once.
pub proof fn theorem_every_motif_once(g: Adjacency, k: nat, s: Set<int>)
    requires
        g.wf(),
        k >= 1,
        is_motif(g, k, s),
    ensures
        occurrences(subgraphs(g, k), s) == 1,
{
    lemma_roots_count(g, k, g.n, s);
    assert(s.len() != 0);
    let x = s.choose();
    assert(s.contains(x));
    lemma_least_from(s, 0, g.n as int);
    let v = least_from(s, 0, g.n as int);
    if v >= g.n {
        assert(!s.contains(x));
    }
    lemma_root_of(g, k, s, v);
    assert(root_reach(g, k, v, s));
}

/// The enumeration visits nothing but connected sets of `k` vertices: a set
/// that is none is not listed.
pub proof fn theorem_nothing_else(g: Adjacency, k: nat, s: Set<int>)
    requires
        g.wf(),
        k >= 1,
        !is_motif(g, k, s),
    ensures
        occurrences(subgraphs(g, k), s) == 0,
{
    lemma_roots_count(g, k, g.n, s);
}

/// A subgraph that the searches of the roots below `upto` list is listed by
/// the search of one of these roots.
pub proof fn lemma_listed_where(g: Adjacency, k: nat, upto: nat, t: Seq<usize>) -> (v: usize)
    requires
        subgraphs_below(g, k, upto).contains(t),
    ensures
        v < upto,
        rooted(g, k, v).contains(t),
    decreases upto,
{
    let all = subgraphs_below(g, k, upto);
    let i = choose|i: int| 0 <= i < all.len() && all[i] == t;
    if upto == 0 {
        assert(false);
        0
    } else {
        let before = subgraphs_below(g, k, (upto - 1) as nat);
        let here = rooted(g, k, (upto - 1) as usize);
        assert(all == before + here);
        if i < before.len() {
            assert(before[i] == t);
            assert(before.contains(t));
            lemma_listed_where(g, k, (upto - 1) as nat, t)
        } else {
            assert(here[i - before.len()] == t);
            assert(here.contains(t));
            (upto - 1) as usize
        }
    }
}

/// A subgraph that the search of the root `v` lists starts with `v`, and
/// all its other vertices are above `v`: the root is the least vertex of
/// every subgraph that is listed under it.
pub proof fn theorem_root_is_least(g: Adjacency, k: nat, v: usize, t: Seq<usize>)
    requires
        g.wf(),
        k >= 1,
        v < g.n,
        rooted(g, k, v).contains(t),
    ensures
        t.len() == k,
        t[0] == v,
        forall|j: int| 1 <= j < t.len() ==> (#[trigger] t[j]) > v,
{
    lemma_root_ok(g, v);
    lemma_outputs(g, k, seq![v], Seq::empty(), t);
    assert(t.take(1)[0] == seq![v][0]);
}

/// Every subgraph that is listed is a list of `k` distinct vertices, with
/// its least vertex first, that holds a connected set.
pub proof fn theorem_listed_are_motifs(g: Adjacency, k: nat, t: Seq<usize>)
    requires
        g.wf(),
        k >= 1,
        subgraphs(g, k).contains(t),
    ensures
        t.len() == k,
        t.no_duplicates(),
        forall|j: int| 1 <= j < t.len() ==> (#[trigger] t[j]) > t[0],
        is_motif(g, k, vertex_set(t)),
{
    let v = lemma_listed_where(g, k, g.n, t);
    lemma_root_ok(g, v);
    lemma_outputs(g, k, seq![v], Seq::empty(), t);
    lemma_vertex_set_len(t);
    lemma_list_connected(g, t);
    assert forall|x: int| vertex_set(t).contains(x) implies 0 <= x < g.n by {
        let i = choose|i: int| 0 <= i < t.len() && #[trigger] t[i] == x;
        assert(t[i] < g.n);
    }
}

/// A vertex without an edge is in no subgraph of two or more vertices that
/// is listed.
pub proof fn theorem_isolated_vertex(g: Adjacency, k: nat, v: int, t: Seq<usize>)
    requires
        g.wf(),
        k >= 2,
        forall|w: int| !g.adjacent(v, w),
        subgraphs(g, k).contains(t),
    ensures
        !vertex_set(t).contains(v),
{
    let root = lemma_listed_where(g, k, g.n, t);
    lemma_root_ok(g, root);
    lemma_outputs(g, k, seq![root], Seq::empty(), t);
    if vertex_set(t).contains(v) {
        let i = choose|i: int| 0 <= i < t.len() && #[trigger] t[i] == v;
        if i >= 1 {
            assert(touches(g, t, i, t[i] as int));
            let j = choose|j: int|
                0 <= j < i && j < t.len() && g.adjacent(t[i] as int, #[trigger] t[j] as int);
            assert(false);
        } else {
            assert(touches(g, t, 1, t[1] as int));
            let j = choose|j: int|
                0 <= j < 1 && j < t.len() && g.adjacent(t[1] as int, #[trigger] t[j] as int);
            assert(g.adjacent(t[0] as int, t[1] as int));
            assert(false);
        }
    }
}

/// If every list has the vertices `s`, then `s` occurs as often as there are
/// lists.
pub proof fn lemma_all_occurrences(subs: Seq<Seq<usize>>, s: Set<int>)
    requires
        forall|i: int| 0 <= i < subs.len() ==> vertex_set(#[trigger] subs[i]) == s,
    ensures
        occurrences(subs, s) == subs.len(),
    decreases subs.len(),
{
    if subs.len() > 0 {
        assert(vertex_set(subs[subs.len() - 1]) == s);
        assert forall|i: int| 0 <= i < subs.drop_last().len() implies vertex_set(
            #[trigger] subs.drop_last()[i],
        ) == s by {
            assert(subs.drop_last()[i] == subs[i]);
        }
        lemma_all_occurrences(subs.drop_last(), s);
    }
}

/// The vertices of a graph of `n` vertices.
pub open spec fn all_vertices(n: nat) -> Set<int> {
    Set::new(|v: int| 0 <= v < n)
}

/// With as many vertices to a subgraph as the graph has, one subgraph is
/// listed if the graph is connected, and none if it is not.
pub proof fn theorem_whole_graph(g: Adjacency)
    requires
        g.wf(),
        g.n >= 1,
    ensures
        subgraphs(g, g.n).len() == if connected(g, all_vertices(g.n)) {
            1nat
        } else {
            0nat
        },
{
    let k = g.n;
    let all = all_vertices(k);
    let listed = subgraphs(g, k);
    vstd::set_lib::lemma_int_range(0, k as int);
    assert(all =~= vstd::set_lib::set_int_range(0, k as int));
    assert forall|i: int| 0 <= i < listed.len() implies vertex_set(#[trigger] listed[i]) == all by {
        let t = listed[i];
        assert(listed.contains(t));
        theorem_listed_are_motifs(g, k, t);
        assert(vertex_set(t).subset_of(all));
        vstd::set_lib::lemma_subset_equality(vertex_set(t), all);
    }
    lemma_all_occurrences(listed, all);
    if connected(g, all) {
        theorem_every_motif_once(g, k, all);
    } else {
        theorem_nothing_else(g, k, all);
    }
}

/// The set of the two vertices `u` and `v`.
pub open spec fn pair(u: int, v: int) -> Set<int> {
    Set::<int>::empty().insert(u).insert(v)
}

/// With two vertices to a subgraph the subgraphs are the edges: two vertices
/// are listed as a subgraph once if they share an edge, and not at all if
/// they do not.
pub proof fn theorem_pairs_are_edges(g: Adjacency, u: int, v: int)
    requires
        g.wf(),
        0 <= u < v < g.n,
    ensures
        occurrences(subgraphs(g, 2), pair(u, v)) == if g.adjacent(u, v) {
            1nat
        } else {
            0nat
        },
{
    let s = pair(u, v);
    assert(s.finite() && s.len() == 2);
    if g.adjacent(u, v) {
        assert forall|a: Set<int>| #[trigger] proper_part(s, a) implies crosses(g, s, a) by {
            let x = choose|x: int| a.contains(x);
            let y = choose|y: int| s.contains(y) && !a.contains(y);
            assert(s.contains(x));
            assert(x != y);
            if x == u {
                assert(g.adjacent(u, v));
            } else {
                assert(g.adjacent(v, u));
            }
        }
        theorem_every_motif_once(g, 2, s);
    } else {
        let a = Set::<int>::empty().insert(u);
        assert(a.subset_of(s));
        assert(a.contains(u));
        assert(s.contains(v) && !a.contains(v));
        assert(proper_part(s, a));
        if crosses(g, s, a) {
            let (x, y) = choose|x: int, y: int| #[trigger]
                g.adjacent(x, y) && a.contains(x) && s.contains(y) && !a.contains(y);
            assert(x == u && y == v);
        }
        theorem_nothing_else(g, 2, s);
    }
}

/// Whether `p` puts the numbers below `k` in some order.
pub open spec fn is_order(p: Seq<int>, k: int) -> bool {
    &&& p.len() == k
    &&& forall|i: int| 0 <= i < k ==> 0 <= #[trigger] p[i] < k
    &&& p.no_duplicates()
}

/// Whether the order `p` of the vertices of `a` makes the arcs of `a` those
/// of `b`.
pub open spec fn carries(g: Adjacency, a: Seq<usize>, b: Seq<usize>, p: Seq<int>) -> bool {
    forall|i: int, j: int|
        0 <= i < b.len() && 0 <= j < b.len() ==> g.arc(a[p[i]] as int, a[p[j]] as int) == #[trigger] g.arc(
            b[i] as int,
            b[j] as int,
        )
}

/// Whether the subgraphs that `g` induces on `a` and on `b` are isomorphic.
pub open spec fn isomorphic(g: Adjacency, a: Seq<usize>, b: Seq<usize>) -> bool {
    a.len() == b.len() && exists|p: Seq<int>| #[trigger]
        is_order(p, a.len() as int) && carries(g, a, b, p)
}

/// Whether the order `p` of the rows and columns of `x` makes the dense
/// adjacency `x` of `k` vertices the dense adjacency `y`.
pub open spec fn carries_dense(x: Seq<u64>, y: Seq<u64>, k: int, p: Seq<int>) -> bool {
    forall|i: int, j: int|
        0 <= i < k && 0 <= j < k ==> dense_has(x, words_needed(k), p[i], p[j]) == #[trigger] dense_has(
            y,
            words_needed(k),
            i,
            j,
        )
}

/// Whether two dense adjacencies of `k` vertices show isomorphic graphs.
pub open spec fn same_shape(x: Seq<u64>, y: Seq<u64>, k: int) -> bool {
    exists|p: Seq<int>| #[trigger] is_order(p, k) && carries_dense(x, y, k, p)
}

/// Whether `label_of` is a canonical labelling of the dense adjacencies of
/// `k` vertices: two of them get the same label exactly if they show
/// isomorphic graphs.
pub open spec fn is_canonical(label_of: spec_fn(Seq<u64>) -> Seq<u64>, k: int) -> bool {
    forall|x: Seq<u64>, y: Seq<u64>|
        (#[trigger] label_of(x) == #[trigger] label_of(y)) == same_shape(x, y, k)
}

/// An order that makes the dense adjacency of `a` that of `b` makes the
/// arcs of `a` those of `b`.
pub proof fn lemma_dense_to_arcs(
    g: Adjacency,
    a: Seq<usize>,
    b: Seq<usize>,
    words_a: Seq<u64>,
    words_b: Seq<u64>,
    p: Seq<int>,
)
    requires
        a.len() == b.len(),
        is_pattern(words_a, g, a),
        is_pattern(words_b, g, b),
        is_order(p, a.len() as int),
        carries_dense(words_a, words_b, a.len() as int, p),
    ensures
        carries(g, a, b, p),
{
    let k = a.len() as int;
    let m = words_needed(k);
    assert forall|i: int, j: int| 0 <= i < b.len() && 0 <= j < b.len() implies g.arc(
        a[p[i]] as int,
        a[p[j]] as int,
    ) == #[trigger] g.arc(b[i] as int, b[j] as int) by {
        assert(0 <= p[i] < k && 0 <= p[j] < k);
        assert(dense_has(words_b, m, i, j) == g.arc(b[i] as int, b[j] as int));
        assert(dense_has(words_a, m, p[i], p[j]) == g.arc(a[p[i]] as int, a[p[j]] as int));
        assert(dense_has(words_a, m, p[i], p[j]) == dense_has(words_b, m, i, j));
    }
}

/// An order that makes the arcs of `a` those of `b` makes the dense
/// adjacency of `a` that of `b`.
pub proof fn lemma_arcs_to_dense(
    g: Adjacency,
    a: Seq<usize>,
    b: Seq<usize>,
    words_a: Seq<u64>,
    words_b: Seq<u64>,
    p: Seq<int>,
)
    requires
        a.len() == b.len(),
        is_pattern(words_a, g, a),
        is_pattern(words_b, g, b),
        is_order(p, a.len() as int),
        carries(g, a, b, p),
    ensures
        carries_dense(words_a, words_b, a.len() as int, p),
{
    let k = a.len() as int;
    let m = words_needed(k);
    assert forall|i: int, j: int| 0 <= i < k && 0 <= j < k implies dense_has(
        words_a,
        m,
        p[i],
        p[j],
    ) == #[trigger] dense_has(words_b, m, i, j) by {
        assert(0 <= p[i] < k && 0 <= p[j] < k);
        assert(dense_has(words_b, m, i, j) == g.arc(b[i] as int, b[j] as int));
        assert(dense_has(words_a, m, p[i], p[j]) == g.arc(a[p[i]] as int, a[p[j]] as int));
        assert(g.arc(a[p[i]] as int, a[p[j]] as int) == g.arc(b[i] as int, b[j] as int));
    }
}

/// Two subgraphs are isomorphic exactly if their dense adjacencies show
/// isomorphic graphs: the dense adjacency of a subgraph shows the arcs
/// between its vertices and nothing else.
pub proof fn lemma_shapes(
    g: Adjacency,
    a: Seq<usize>,
    b: Seq<usize>,
    words_a: Seq<u64>,
    words_b: Seq<u64>,
)
    requires
        a.len() == b.len(),
        is_pattern(words_a, g, a),
        is_pattern(words_b, g, b),
    ensures
        same_shape(words_a, words_b, a.len() as int) == isomorphic(g, a, b),
{
    let k = a.len() as int;
    if same_shape(words_a, words_b, k) {
        let p = choose|p: Seq<int>| #[trigger] is_order(p, k) && carries_dense(words_a, words_b, k, p);
        lemma_dense_to_arcs(g, a, b, words_a, words_b, p);
    }
    if isomorphic(g, a, b) {
        let p = choose|p: Seq<int>| #[trigger] is_order(p, k) && carries(g, a, b, p);
        lemma_arcs_to_dense(g, a, b, words_a, words_b, p);
    }
}

/// Under a canonical labelling two subgraphs get the same label exactly if
/// they are isomorphic.
pub proof fn theorem_labels_tell_shapes(
    g: Adjacency,
    a: Seq<usize>,
    b: Seq<usize>,
    words_a: Seq<u64>,
    words_b: Seq<u64>,
    label_of: spec_fn(Seq<u64>) -> Seq<u64>,
)
    requires
        a.len() == b.len(),
        is_pattern(words_a, g, a),
        is_pattern(words_b, g, b),
        is_canonical(label_of, a.len() as int),
    ensures
        (label_of(words_a) == label_of(words_b)) == isomorphic(g, a, b),
{
    lemma_shapes(g, a, b, words_a, words_b);
}

/// The search reads the edges of a graph and the number of its vertices,
/// and nothing else of it.
pub proof fn lemma_extend_reads_edges(
    g: Adjacency,
    h: Adjacency,
    k: nat,
    sub: Seq<usize>,
    ext: Seq<usize>,
)
    requires
        g.n == h.n,
        g.edges == h.edges,
    ensures
        extend(g, k, sub, ext) == extend(h, k, sub, ext),
    decreases k - sub.len(), 1nat, 0nat,
{
    if sub.len() < k {
        assert(candidate_set(g, sub) =~= candidate_set(h, sub));
        let wider = ext + candidates(g, sub);
        lemma_children_read_edges(g, h, k, sub, wider, wider.len());
    }
}

/// The same of the subgraphs that come from adding one vertex.
pub proof fn lemma_children_read_edges(
    g: Adjacency,
    h: Adjacency,
    k: nat,
    sub: Seq<usize>,
    ext: Seq<usize>,
    upto: nat,
)
    requires
        g.n == h.n,
        g.edges == h.edges,
    ensures
        children(g, k, sub, ext, upto) == children(h, k, sub, ext, upto),
    decreases k - sub.len(), 0nat, upto,
{
    if !(upto == 0 || sub.len() >= k || upto > ext.len()) {
        lemma_extend_reads_edges(g, h, k, sub.push(ext[upto - 1]), ext.take(upto - 1));
        lemma_children_read_edges(g, h, k, sub, ext, (upto - 1) as nat);
    }
}

/// The same of the subgraphs rooted below `upto`.
pub proof fn lemma_roots_read_edges(g: Adjacency, h: Adjacency, k: nat, upto: nat)
    requires
        g.n == h.n,
        g.edges == h.edges,
    ensures
        subgraphs_below(g, k, upto) == subgraphs_below(h, k, upto),
    decreases upto,
{
    if upto > 0 {
        lemma_roots_read_edges(g, h, k, (upto - 1) as nat);
        lemma_extend_reads_edges(g, h, k, seq![(upto - 1) as usize], Seq::empty());
    }
}

/// Loops change nothing in what is listed, with direction or without: two
/// graphs of as many vertices that have the same arcs between distinct
/// vertices have the same subgraphs listed, in the same order. A loop makes
/// no vertex its own neighbor.
pub proof fn theorem_loops_change_no_list(g: DiGraph, h: DiGraph, directed: bool, k: nat)
    requires
        order_of(g) == order_of(h),
        forall|u: int, v: int| u != v ==> #[trigger] has_arc(g, u, v) == has_arc(h, u, v),
    ensures
        subgraphs(adjacency_of(g, directed), k) == subgraphs(adjacency_of(h, directed), k),
        forall|v: int| !(#[trigger] adjacency_of(g, directed).adjacent(v, v)),
{
    let a = adjacency_of(g, directed);
    let b = adjacency_of(h, directed);
    assert forall|p: (int, int)| a.edges.contains(p) == b.edges.contains(p) by {
        if p.0 != p.1 {
            assert(has_arc(g, p.0, p.1) == has_arc(h, p.0, p.1));
            assert(has_arc(g, p.1, p.0) == has_arc(h, p.1, p.0));
        }
    }
    assert(a.edges =~= b.edges);
    lemma_roots_read_edges(a, b, k, a.n);
}

/// A subgraph of two vertices that is listed holds two distinct vertices
/// that share an edge.
pub proof fn lemma_listed_pair(g: Adjacency, t: Seq<usize>)
    requires
        g.wf(),
        subgraphs(g, 2).contains(t),
    ensures
        t.len() == 2,
        t[0] != t[1],
        g.adjacent(t[0] as int, t[1] as int),
{
    let root = lemma_listed_where(g, 2, g.n, t);
    lemma_root_ok(g, root);
    lemma_outputs(g, 2, seq![root], Seq::empty(), t);
    assert(touches(g, t, 1, t[1] as int));
    let j = choose|j: int|
        0 <= j < 1 && j < t.len() && g.adjacent(t[1] as int, #[trigger] t[j] as int);
    assert(g.adjacent(t[0] as int, t[1] as int));
}

/// Whether the two vertices of the pair `a` have an arc each way.
pub open spec fn both_ways(g: Adjacency, a: Seq<usize>) -> bool {
    g.arc(a[0] as int, a[1] as int) && g.arc(a[1] as int, a[0] as int)
}

/// Two pairs of vertices without loops, each pair joined, are isomorphic
/// if both have an arc each way or neither has.
pub proof fn lemma_pairs_alike(g: Adjacency, a: Seq<usize>, b: Seq<usize>)
    requires
        a.len() == 2,
        b.len() == 2,
        g.arc(a[0] as int, a[1] as int) || g.arc(a[1] as int, a[0] as int),
        g.arc(b[0] as int, b[1] as int) || g.arc(b[1] as int, b[0] as int),
        !g.arc(a[0] as int, a[0] as int) && !g.arc(a[1] as int, a[1] as int),
        !g.arc(b[0] as int, b[0] as int) && !g.arc(b[1] as int, b[1] as int),
        both_ways(g, a) == both_ways(g, b),
    ensures
        isomorphic(g, a, b),
{
    let p = if g.arc(a[0] as int, a[1] as int) == g.arc(b[0] as int, b[1] as int) {
        seq![0int, 1int]
    } else {
        seq![1int, 0int]
    };
    assert(is_order(p, 2));
    assert forall|i: int, j: int| 0 <= i < b.len() && 0 <= j < b.len() implies g.arc(
        a[p[i]] as int,
        a[p[j]] as int,
    ) == #[trigger] g.arc(b[i] as int, b[j] as int) by {
        assert(i == 0 || i == 1);
        assert(j == 0 || j == 1);
    }
    assert(carries(g, a, b, p));
}

/// With two vertices to a subgraph, in a graph without loops, the subgraphs
/// have two shapes at most where the arcs have a direction (one arc, or an
/// arc each way), and one where they have none: two of any three subgraphs
/// that are listed are isomorphic, and without direction any two are.
pub proof fn theorem_pairs_have_two_shapes(g: Adjacency, a: Seq<usize>, b: Seq<usize>, c: Seq<usize>)
    requires
        g.wf(),
        forall|v: int| !(#[trigger] g.arc(v, v)),
        subgraphs(g, 2).contains(a),
        subgraphs(g, 2).contains(b),
        subgraphs(g, 2).contains(c),
    ensures
        !g.directed ==> isomorphic(g, a, b),
        isomorphic(g, a, b) || isomorphic(g, a, c) || isomorphic(g, b, c),
{
    lemma_listed_pair(g, a);
    lemma_listed_pair(g, b);
    lemma_listed_pair(g, c);
    assert(g.adjacent(a[1] as int, a[0] as int));
    assert(g.adjacent(b[1] as int, b[0] as int));
    assert(g.adjacent(c[1] as int, c[0] as int));
    if both_ways(g, a) == both_ways(g, b) {
        lemma_pairs_alike(g, a, b);
    } else if both_ways(g, a) == both_ways(g, c) {
        lemma_pairs_alike(g, a, c);
    } else {
        lemma_pairs_alike(g, b, c);
    }
}

/// So under a canonical labelling the subgraphs of two vertices of a graph
/// without loops get two labels at most with direction and one without:
/// two of any three that are listed get the same label, and without
/// direction any two do.
pub proof fn theorem_pairs_have_two_labels(
    g: Adjacency,
    a: Seq<usize>,
    b: Seq<usize>,
    c: Seq<usize>,
    words_a: Seq<u64>,
    words_b: Seq<u64>,
    words_c: Seq<u64>,
    label_of: spec_fn(Seq<u64>) -> Seq<u64>,
)
    requires
        g.wf(),
        forall|v: int| !(#[trigger] g.arc(v, v)),
        subgraphs(g, 2).contains(a),
        subgraphs(g, 2).contains(b),
        subgraphs(g, 2).contains(c),
        is_pattern(words_a, g, a),
        is_pattern(words_b, g, b),
        is_pattern(words_c, g, c),
        is_canonical(label_of, 2),
    ensures
        !g.directed ==> label_of(words_a) == label_of(words_b),
        label_of(words_a) == label_of(words_b) || label_of(words_a) == label_of(words_c)
            || label_of(words_b) == label_of(words_c),
{
    theorem_pairs_have_two_shapes(g, a, b, c);
    theorem_listed_are_motifs(g, 2, a);
    theorem_listed_are_motifs(g, 2, b);
    theorem_listed_are_motifs(g, 2, c);
    theorem_labels_tell_shapes(g, a, b, words_a, words_b, label_of);
    theorem_labels_tell_shapes(g, a, c, words_a, words_c, label_of);
    theorem_labels_tell_shapes(g, b, c, words_b, words_c, label_of);
}

} // verus!
