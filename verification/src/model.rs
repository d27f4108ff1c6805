//! What the enumeration computes, stated without the machinery that
//! computes it.
//!
//! A subgraph under construction is a list of distinct vertices, the root
//! first. Beside it stands its extension: the vertices that may still be
//! added to it. The functions `extend` and `children` say which complete
//! subgraphs come out of such a state and in which order.
use crate::bitgraph::Adjacency;
use vstd::prelude::*;

verus! {

/// The members of `s` below `n`, in increasing order.
pub open spec fn ascending(s: Set<int>, n: nat) -> Seq<usize>
    decreases n,
{
    if n == 0 {
        Seq::empty()
    } else if s.contains(n - 1) {
        ascending(s, (n - 1) as nat).push((n - 1) as usize)
    } else {
        ascending(s, (n - 1) as nat)
    }
}

/// Whether every item of `r` is smaller than the next.
pub open spec fn increasing(r: Seq<usize>) -> bool {
    forall|i: int, j: int| 0 <= i < j < r.len() ==> r[i] < r[j]
}

/// Whether `r` lists members of `s` below `n` and misses none of them.
pub open spec fn lists(r: Seq<usize>, s: Set<int>, n: nat) -> bool {
    &&& forall|i: int| 0 <= i < r.len() ==> s.contains(#[trigger] r[i] as int) && r[i] < n
    &&& forall|b: int|
        s.contains(b) && 0 <= b < n ==> exists|i: int| 0 <= i < r.len() && #[trigger] r[i] == b
}

/// `ascending(s, n)` lists the members of `s` below `n`, in increasing order.
pub proof fn lemma_ascending(s: Set<int>, n: nat)
    requires
        n <= usize::MAX,
    ensures
        increasing(ascending(s, n)),
        lists(ascending(s, n), s, n),
    decreases n,
{
    if n > 0 {
        let m = (n - 1) as nat;
        lemma_ascending(s, m);
        let a = ascending(s, m);
        let r = ascending(s, n);
        if s.contains(n - 1) {
            assert(r[a.len() as int] == n - 1);
            assert forall|b: int| s.contains(b) && 0 <= b < n implies exists|i: int|
                0 <= i < r.len() && #[trigger] r[i] == b by {
                if b < m {
                    let i = choose|i: int| 0 <= i < a.len() && #[trigger] a[i] == b;
                    assert(r[i] == b);
                } else {
                    assert(r[a.len() as int] == b);
                }
            }
        }
    }
}

/// There is one increasing list of the members of `s` below `n`.
pub proof fn lemma_ascending_unique(r: Seq<usize>, s: Set<int>, n: nat)
    requires
        n <= usize::MAX,
        increasing(r),
        lists(r, s, n),
    ensures
        r == ascending(s, n),
    decreases n,
{
    if n == 0 {
        if r.len() > 0 {
            assert(r[0] < n);
        }
        assert(r =~= ascending(s, n));
    } else {
        let m = (n - 1) as nat;
        if s.contains(n - 1) {
            let i = choose|i: int| 0 <= i < r.len() && #[trigger] r[i] == n - 1;
            if i != r.len() - 1 {
                assert(r[i] < r[r.len() - 1]);
            }
            let front = r.drop_last();
            assert forall|b: int| s.contains(b) && 0 <= b < m implies exists|j: int|
                0 <= j < front.len() && #[trigger] front[j] == b by {
                let j = choose|j: int| 0 <= j < r.len() && #[trigger] r[j] == b;
                assert(front[j] == b);
            }
            assert forall|j: int| 0 <= j < front.len() implies s.contains(
                #[trigger] front[j] as int,
            ) && front[j] < m by {
                assert(r[j] < r[r.len() - 1]);
            }
            lemma_ascending_unique(front, s, m);
            assert(r =~= front.push((n - 1) as usize));
        } else {
            assert forall|j: int| 0 <= j < r.len() implies s.contains(#[trigger] r[j] as int)
                && r[j] < m by {}
            lemma_ascending_unique(r, s, m);
        }
    }
}

/// A list without repetition of numbers below `n` has at most `n` items.
pub proof fn lemma_pigeonhole(r: Seq<usize>, n: nat)
    requires
        r.no_duplicates(),
        forall|i: int| 0 <= i < r.len() ==> r[i] < n,
    ensures
        r.len() <= n,
{
    let all = Set::<usize>::new(|x: usize| x < n);
    let range = vstd::set_lib::set_int_range(0, n as int);
    vstd::set_lib::lemma_int_range(0, n as int);
    let image = range.map(|i: int| i as usize);
    range.lemma_map_finite(|i: int| i as usize);
    vstd::set_lib::lemma_map_size_bound(range, image, |i: int| i as usize);
    assert forall|x: usize| r.to_set().contains(x) implies image.contains(x) by {
        assert(range.contains(x as int));
    }
    vstd::set_lib::lemma_len_subset(r.to_set(), image);
    r.unique_seq_to_set();
}

/// Whether `v` shares no edge with any vertex of `sub` but, possibly, the
/// last.
pub open spec fn exclusive(g: Adjacency, sub: Seq<usize>, v: int) -> bool {
    forall|j: int| 0 <= j < sub.len() - 1 ==> !g.adjacent(v, #[trigger] sub[j] as int)
}

/// The vertices that the last vertex of `sub` newly brings within reach:
/// its neighbors above the root that no earlier vertex of `sub` is joined to.
pub open spec fn candidate_set(g: Adjacency, sub: Seq<usize>) -> Set<int> {
    Set::new(
        |v: int|
            g.neighbors(sub.last() as int).contains(v) && v > sub[0] && exclusive(g, sub, v),
    )
}

/// The same vertices in increasing order.
pub open spec fn candidates(g: Adjacency, sub: Seq<usize>) -> Seq<usize> {
    ascending(candidate_set(g, sub), g.n)
}

/// The complete subgraphs of `k` vertices that grow out of `sub` when only
/// the vertices of `ext` and those that come within reach later may be added.
pub open spec fn extend(g: Adjacency, k: nat, sub: Seq<usize>, ext: Seq<usize>) -> Seq<Seq<usize>>
    decreases k - sub.len(), 1nat, 0nat,
{
    if sub.len() >= k {
        seq![sub]
    } else {
        let wider = ext + candidates(g, sub);
        children(g, k, sub, wider, wider.len())
    }
}

/// The complete subgraphs that come from adding to `sub` one of the first
/// `upto` vertices of `ext`, the last of them first. A vertex that is added
/// leaves to its subgraph only the vertices that stand before it in `ext`.
pub open spec fn children(
    g: Adjacency,
    k: nat,
    sub: Seq<usize>,
    ext: Seq<usize>,
    upto: nat,
) -> Seq<Seq<usize>>
    decreases k - sub.len(), 0nat, upto,
{
    if upto == 0 || sub.len() >= k || upto > ext.len() {
        Seq::empty()
    } else {
        extend(g, k, sub.push(ext[upto - 1]), ext.take(upto - 1)) + children(
            g,
            k,
            sub,
            ext,
            (upto - 1) as nat,
        )
    }
}

/// The subgraphs of `k` vertices rooted at `v`.
pub open spec fn rooted(g: Adjacency, k: nat, v: usize) -> Seq<Seq<usize>> {
    extend(g, k, seq![v], Seq::empty())
}

/// The subgraphs of `k` vertices rooted at a vertex below `upto`, root by
/// root.
pub open spec fn subgraphs_below(g: Adjacency, k: nat, upto: nat) -> Seq<Seq<usize>>
    decreases upto,
{
    if upto == 0 {
        Seq::empty()
    } else {
        subgraphs_below(g, k, (upto - 1) as nat) + rooted(g, k, (upto - 1) as usize)
    }
}

/// Every subgraph of `k` vertices that the enumeration of `g` visits, in the
/// order of the visits.
pub open spec fn subgraphs(g: Adjacency, k: nat) -> Seq<Seq<usize>> {
    subgraphs_below(g, k, g.n as nat)
}

/// Whether `v` shares an edge with one of the first `upto` vertices of `sub`.
pub open spec fn touches(g: Adjacency, sub: Seq<usize>, upto: int, v: int) -> bool {
    exists|j: int| 0 <= j < upto && j < sub.len() && g.adjacent(v, #[trigger] sub[j] as int)
}

/// What holds of a subgraph under construction and its extension: the
/// vertices are distinct vertices of the graph, the first is the least, each
/// later one shares an edge with an earlier one, and the extension holds
/// distinct vertices above the root, none of them in the subgraph, each
/// joined to a vertex of the subgraph other than the last.
pub open spec fn state_ok(g: Adjacency, sub: Seq<usize>, ext: Seq<usize>) -> bool {
    &&& sub.len() >= 1
    &&& forall|i: int| 0 <= i < sub.len() ==> #[trigger] sub[i] < g.n
    &&& forall|i: int| 1 <= i < sub.len() ==> #[trigger] sub[i] > sub[0]
    &&& sub.no_duplicates()
    &&& forall|i: int| 1 <= i < sub.len() ==> touches(g, sub, i, #[trigger] sub[i] as int)
    &&& ext.no_duplicates()
    &&& forall|i: int|
        0 <= i < ext.len() ==> sub[0] < #[trigger] ext[i] < g.n && !sub.contains(ext[i])
    &&& forall|i: int|
        0 <= i < ext.len() ==> touches(g, sub, sub.len() - 1, #[trigger] ext[i] as int)
}

/// A root with nothing added and nothing to add is a valid state.
pub proof fn lemma_root_ok(g: Adjacency, v: usize)
    requires
        v < g.n,
    ensures
        state_ok(g, seq![v], Seq::empty()),
{
}

/// What the extension looks like once the candidates of the last vertex have
/// joined it: still distinct vertices above the root and outside the
/// subgraph, now each joined to some vertex of the subgraph.
pub open spec fn wider_ok(g: Adjacency, sub: Seq<usize>, wider: Seq<usize>) -> bool {
    &&& wider.no_duplicates()
    &&& forall|i: int|
        0 <= i < wider.len() ==> sub[0] < #[trigger] wider[i] < g.n && !sub.contains(wider[i])
    &&& forall|i: int|
        0 <= i < wider.len() ==> touches(g, sub, sub.len() as int, #[trigger] wider[i] as int)
}

/// A candidate is a vertex above the root, outside the subgraph and outside
/// its extension.
pub proof fn lemma_candidate_is_new(g: Adjacency, sub: Seq<usize>, ext: Seq<usize>, v: usize)
    requires
        g.wf(),
        state_ok(g, sub, ext),
        candidate_set(g, sub).contains(v as int),
    ensures
        sub[0] < v < g.n,
        !sub.contains(v),
        !ext.contains(v),
        g.adjacent(v as int, sub.last() as int),
{
    let last = sub.last();
    assert(g.adjacent(last as int, v as int));
    if sub.contains(v) {
        let i = choose|i: int| 0 <= i < sub.len() && sub[i] == v;
        if i == sub.len() - 1 {
        } else if i == 0 {
        } else {
            assert(touches(g, sub, i, sub[i] as int));
            let j = choose|j: int|
                0 <= j < i && j < sub.len() && g.adjacent(sub[i] as int, #[trigger] sub[j] as int);
            assert(!g.adjacent(v as int, sub[j] as int));
        }
    }
    if ext.contains(v) {
        let i = choose|i: int| 0 <= i < ext.len() && ext[i] == v;
        assert(touches(g, sub, sub.len() - 1, ext[i] as int));
        let j = choose|j: int|
            0 <= j < sub.len() - 1 && j < sub.len() && g.adjacent(
                ext[i] as int,
                #[trigger] sub[j] as int,
            );
        assert(!g.adjacent(v as int, sub[j] as int));
    }
}

/// Adding the candidates of the last vertex to the extension keeps it in
/// order.
pub proof fn lemma_wider_ok(g: Adjacency, sub: Seq<usize>, ext: Seq<usize>)
    requires
        g.wf(),
        state_ok(g, sub, ext),
    ensures
        wider_ok(g, sub, ext + candidates(g, sub)),
{
    let c = candidates(g, sub);
    let wider = ext + c;
    lemma_ascending(candidate_set(g, sub), g.n);
    assert forall|i: int| 0 <= i < wider.len() implies sub[0] < #[trigger] wider[i] < g.n
        && !sub.contains(wider[i]) && touches(g, sub, sub.len() as int, wider[i] as int) by {
        if i < ext.len() {
            assert(wider[i] == ext[i]);
            assert(touches(g, sub, sub.len() - 1, ext[i] as int));
            let j = choose|j: int|
                0 <= j < sub.len() - 1 && j < sub.len() && g.adjacent(
                    ext[i] as int,
                    #[trigger] sub[j] as int,
                );
            assert(g.adjacent(wider[i] as int, sub[j] as int));
        } else {
            let v = c[i - ext.len()];
            assert(wider[i] == v);
            lemma_candidate_is_new(g, sub, ext, v);
            assert(g.adjacent(wider[i] as int, sub[sub.len() - 1] as int));
        }
    }
    assert forall|i: int, j: int| 0 <= i < j < wider.len() implies wider[i] != wider[j] by {
        if j < ext.len() {
        } else if i < ext.len() {
            lemma_candidate_is_new(g, sub, ext, c[j - ext.len()]);
        } else {
            assert(c[i - ext.len()] < c[j - ext.len()]);
        }
    }
}

/// Moving a vertex from the widened extension into the subgraph, and keeping
/// of the extension what stood before it, gives a valid state again.
pub proof fn lemma_child_ok(g: Adjacency, sub: Seq<usize>, wider: Seq<usize>, pick: int)
    requires
        g.wf(),
        state_ok(g, sub, Seq::empty()),
        wider_ok(g, sub, wider),
        0 <= pick < wider.len(),
    ensures
        state_ok(g, sub.push(wider[pick]), wider.take(pick)),
{
    let w = wider[pick];
    let next = sub.push(w);
    let rest = wider.take(pick);
    assert forall|i: int| 1 <= i < next.len() implies touches(g, next, i, #[trigger] next[i] as int) by {
        if i < sub.len() {
            assert(touches(g, sub, i, sub[i] as int));
            let j = choose|j: int|
                0 <= j < i && j < sub.len() && g.adjacent(sub[i] as int, #[trigger] sub[j] as int);
            assert(g.adjacent(next[i] as int, next[j] as int));
        } else {
            assert(touches(g, sub, sub.len() as int, wider[pick] as int));
            let j = choose|j: int|
                0 <= j < sub.len() && j < sub.len() && g.adjacent(
                    wider[pick] as int,
                    #[trigger] sub[j] as int,
                );
            assert(g.adjacent(next[i] as int, next[j] as int));
        }
    }
    assert forall|i: int| 0 <= i < rest.len() implies next[0] < #[trigger] rest[i] < g.n
        && !next.contains(rest[i]) && touches(g, next, next.len() - 1, rest[i] as int) by {
        assert(rest[i] == wider[i]);
        assert(touches(g, sub, sub.len() as int, wider[i] as int));
        let j = choose|j: int|
            0 <= j < sub.len() && j < sub.len() && g.adjacent(
                wider[i] as int,
                #[trigger] sub[j] as int,
            );
        assert(g.adjacent(rest[i] as int, next[j] as int));
        if next.contains(rest[i]) {
            let t = choose|t: int| 0 <= t < next.len() && next[t] == rest[i];
            if t < sub.len() {
                assert(sub.contains(wider[i]));
            }
        }
    }
    assert forall|i: int, j: int| 0 <= i < j < next.len() implies next[i] != next[j] by {
        if j == sub.len() {
            if next[i] == w {
                assert(sub.contains(w));
            }
        }
    }
    assert(next[0] == sub[0]);
}

} // verus!
