//! 2-vertex-connected components as classes of edges: what it means for two
//! edges to lie in one, and that the classes which the search numbers are
//! such classes.

use crate::graph::UndirectedGraph;
use vstd::prelude::*;

verus! {

/// Two edges at `z` share a component id exactly if their far ends stay
/// connected when `z` is removed. An edge without an id yet counts as
/// sharing with every other such edge.
pub open spec fn split_right(g: &UndirectedGraph, vcc: Seq<usize>, z: int) -> bool {
    forall|e1: int, a: int, e2: int, b: int|
        #![trigger g.joins(e1, z, a), g.joins(e2, z, b)]
        g.joins(e1, z, a) && g.joins(e2, z, b) && a != z && b != z ==> (vcc[e1] == vcc[e2]
            <==> g.connects_off(set![z], a, b))
}

/// All edges at `z` that are no loops share one component id.
pub open spec fn unsplit(g: &UndirectedGraph, vcc: Seq<usize>, z: int) -> bool {
    forall|e1: int, a: int, e2: int, b: int|
        #![trigger g.joins(e1, z, a), g.joins(e2, z, b)]
        g.joins(e1, z, a) && g.joins(e2, z, b) && a != z && b != z ==> vcc[e1] == vcc[e2]
}

/// `z` is the least vertex of its connected component.
pub open spec fn is_first(g: &UndirectedGraph, z: int) -> bool {
    forall|w: int| 0 <= w < z ==> !#[trigger] g.connected(w, z)
}

/// A walk that passes through no vertex of a set is a walk.
pub proof fn lemma_connects_off_plain(g: &UndirectedGraph, off: Set<int>, a: int, b: int)
    requires
        g.connects_off(off, a, b),
    ensures
        g.connected(a, b),
{
    let p = choose|p: Seq<int>| #[trigger] g.is_walk_off(off, p) && p[0] == a && p[p.len() - 1] == b;
    assert forall|i: int| 0 <= i < p.len() - 1 implies g.links(Set::empty(), #[trigger] p[i], p[i + 1]) by {
        assert(g.adjacent(p[i], p[i + 1]));
        let e = choose|e: int| #[trigger] g.joins(e, p[i], p[i + 1]);
        assert(g.joins(e, p[i], p[i + 1]) && !Set::<int>::empty().contains(e));
    }
    assert(g.is_walk(Set::empty(), p));
}

/// The edges `e` and `f` meet at a vertex that does not part them: their
/// far ends stay connected when it is removed, or it is the least vertex of
/// its connected component, at which the search does not part edges.
pub open spec fn sticks(g: &UndirectedGraph, e: int, f: int) -> bool {
    exists|z: int, a: int, b: int|
        #![trigger g.joins(e, z, a), g.joins(f, z, b)]
        g.joins(e, z, a) && g.joins(f, z, b) && a != z && b != z && (is_first(g, z) || g.connects_off(
            set![z],
            a,
            b,
        ))
}

/// `c` is a chain of edges, each sticking to the next.
pub open spec fn is_chain(g: &UndirectedGraph, c: Seq<int>) -> bool {
    &&& c.len() > 0
    &&& forall|i: int| 0 <= i < c.len() - 1 ==> sticks(g, #[trigger] c[i], c[i + 1])
}

/// A chain of edges leads from `e` to `f`: they lie in one component.
pub open spec fn same_block(g: &UndirectedGraph, e: int, f: int) -> bool {
    exists|c: Seq<int>| #[trigger] is_chain(g, c) && c[0] == e && c[c.len() - 1] == f
}

/// Every edge lies in one component with itself.
pub proof fn lemma_same_block_self(g: &UndirectedGraph, e: int)
    ensures
        same_block(g, e, e),
{
    let c = seq![e];
    assert(is_chain(g, c));
    assert(c[0] == e && c[c.len() - 1] == e);
}

/// Two edges that stick lie in one component.
pub proof fn lemma_same_block_step(g: &UndirectedGraph, e: int, f: int)
    requires
        sticks(g, e, f),
    ensures
        same_block(g, e, f),
{
    let c = seq![e, f];
    assert(is_chain(g, c));
    assert(c[0] == e && c[c.len() - 1] == f);
}

/// Sticking is symmetric.
pub proof fn lemma_sticks_sym(g: &UndirectedGraph, e: int, f: int)
    requires
        sticks(g, e, f),
    ensures
        sticks(g, f, e),
{
    let (z, a, b) = choose|z: int, a: int, b: int|
        #![trigger g.joins(e, z, a), g.joins(f, z, b)]
        g.joins(e, z, a) && g.joins(f, z, b) && a != z && b != z && (is_first(g, z) || g.connects_off(
            set![z],
            a,
            b,
        ));
    if !is_first(g, z) {
        g.lemma_connects_off_sym(set![z], a, b);
    }
    assert(g.joins(f, z, b) && g.joins(e, z, a));
}

/// Lying in one component is transitive.
pub proof fn lemma_same_block_trans(g: &UndirectedGraph, e: int, f: int, h: int)
    requires
        same_block(g, e, f),
        same_block(g, f, h),
    ensures
        same_block(g, e, h),
{
    let p = choose|c: Seq<int>| #[trigger] is_chain(g, c) && c[0] == e && c[c.len() - 1] == f;
    let q = choose|c: Seq<int>| #[trigger] is_chain(g, c) && c[0] == f && c[c.len() - 1] == h;
    let r = p + q.subrange(1, q.len() as int);
    assert forall|i: int| 0 <= i < r.len() - 1 implies sticks(g, #[trigger] r[i], r[i + 1]) by {
        if i < p.len() - 1 {
            assert(sticks(g, p[i], p[i + 1]));
        } else {
            let k = i - p.len() + 1;
            assert(sticks(g, q[k], q[k + 1]));
        }
    }
    assert(is_chain(g, r));
    assert(r[0] == e && r[r.len() - 1] == h);
}

/// Lying in one component is symmetric.
pub proof fn lemma_same_block_sym(g: &UndirectedGraph, e: int, f: int)
    requires
        same_block(g, e, f),
    ensures
        same_block(g, f, e),
{
    let p = choose|c: Seq<int>| #[trigger] is_chain(g, c) && c[0] == e && c[c.len() - 1] == f;
    let r = Seq::new(p.len(), |i: int| p[p.len() - 1 - i]);
    assert forall|i: int| 0 <= i < r.len() - 1 implies sticks(g, #[trigger] r[i], r[i + 1]) by {
        let k = p.len() - 2 - i;
        assert(sticks(g, p[k], p[k + 1]));
        lemma_sticks_sym(g, p[k], p[k + 1]);
    }
    assert(is_chain(g, r));
    assert(r[0] == f && r[r.len() - 1] == e);
}

/// Where the ids at every vertex are right, two edges that stick share
/// their id.
pub proof fn lemma_sticks_same_id(g: &UndirectedGraph, vcc: Seq<usize>, e: int, f: int)
    requires
        forall|z: int|
            0 <= z < g.adj_lists.len() ==> if #[trigger] is_first(g, z) {
                unsplit(g, vcc, z)
            } else {
                split_right(g, vcc, z)
            },
        g.wf(),
        sticks(g, e, f),
    ensures
        vcc[e] == vcc[f],
{
    let (z, a, b) = choose|z: int, a: int, b: int|
        #![trigger g.joins(e, z, a), g.joins(f, z, b)]
        g.joins(e, z, a) && g.joins(f, z, b) && a != z && b != z && (is_first(g, z) || g.connects_off(
            set![z],
            a,
            b,
        ));
    assert(0 <= z < g.adj_lists.len());
    assert(if is_first(g, z) {
        unsplit(g, vcc, z)
    } else {
        split_right(g, vcc, z)
    });
}

/// Where the ids at every vertex are right, two edges that lie in one
/// component share their id.
pub proof fn lemma_block_same_id(g: &UndirectedGraph, vcc: Seq<usize>, e: int, f: int)
    requires
        forall|z: int|
            0 <= z < g.adj_lists.len() ==> if #[trigger] is_first(g, z) {
                unsplit(g, vcc, z)
            } else {
                split_right(g, vcc, z)
            },
        g.wf(),
        same_block(g, e, f),
    ensures
        vcc[e] == vcc[f],
{
    let c = choose|c: Seq<int>| #[trigger] is_chain(g, c) && c[0] == e && c[c.len() - 1] == f;
    lemma_chain_same_id(g, vcc, c, c.len() - 1);
}

proof fn lemma_chain_same_id(g: &UndirectedGraph, vcc: Seq<usize>, c: Seq<int>, k: int)
    requires
        forall|z: int|
            0 <= z < g.adj_lists.len() ==> if #[trigger] is_first(g, z) {
                unsplit(g, vcc, z)
            } else {
                split_right(g, vcc, z)
            },
        g.wf(),
        is_chain(g, c),
        0 <= k < c.len(),
    ensures
        vcc[c[0]] == vcc[c[k]],
    decreases k,
{
    if k > 0 {
        lemma_chain_same_id(g, vcc, c, k - 1);
        assert(sticks(g, c[k - 1], c[k - 1 + 1]));
        lemma_sticks_same_id(g, vcc, c[k - 1], c[k]);
    }
}

/// The least undiscovered vertex is the least vertex of its connected
/// component, when every edge at a discovered vertex leads to a discovered
/// vertex.
pub proof fn lemma_first(g: &UndirectedGraph, visited: Seq<usize>, u: int)
    requires
        visited.len() == g.adj_lists.len(),
        0 <= u < g.adj_lists.len(),
        forall|w: int| 0 <= w < u ==> #[trigger] visited[w] != 0,
        visited[u] == 0,
        forall|f: int, x: int, y: int| #[trigger] g.joins(f, x, y) && visited[x] != 0 ==> visited[y] != 0,
    ensures
        is_first(g, u),
{
    let mark = Seq::new(visited.len(), |z: int| visited[z] != 0);
    assert forall|w: int| 0 <= w < u implies !#[trigger] g.connected(w, u) by {
        if g.connected(w, u) {
            g.lemma_marks_fence(Set::empty(), mark, w, u);
        }
    }
}

} // verus!
