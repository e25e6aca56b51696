//! What the search for 2-vertex-connected components knows of the component
//! ids of the edges at one vertex, and the steps by which it is kept.

use crate::ap_state::{
    ap_inv, ap_result, elders, has_low_off, lemma_ap_elder, lemma_cut_off, lemma_ladder_off_between,
    low_off_target, upto,
};
use crate::bcc_state::{
    after_push, after_visit, frame, holds, index_of, inv, keeps, lemma_closed, lemma_low_bound,
    lemma_stack_order, placed, renumbered, result, taken, BccState,
};
use crate::blocks::{is_first, lemma_connects_off_plain, split_right, unsplit};
use crate::graph::UndirectedGraph;
use vstd::prelude::*;

verus! {

/// An edge at `z` that has its component id shares it with another edge at
/// `z` exactly if their far ends stay connected when `z` is removed.
pub open spec fn split_so_far(g: &UndirectedGraph, vcc: Seq<usize>, z: int) -> bool {
    forall|e1: int, a: int, e2: int, b: int|
        #![trigger g.joins(e1, z, a), g.joins(e2, z, b)]
        g.joins(e1, z, a) && g.joins(e2, z, b) && a != z && b != z && vcc[e1] != 0 ==> (vcc[e1]
            == vcc[e2] <==> g.connects_off(set![z], a, b))
}

/// Every edge without a component id from `u` to a vertex discovered after
/// `u`, up to time `until`, leads to a vertex that is connected to `p` by a
/// walk that does not pass through `u`.
pub open spec fn pending_up(
    g: &UndirectedGraph,
    visited: Seq<usize>,
    vcc: Seq<usize>,
    u: int,
    p: int,
    until: int,
) -> bool {
    forall|e: int, y: int|
        #[trigger] g.joins(e, u, y) && y != u && vcc[e] == 0 && visited[u] < visited[y] <= until
            ==> g.connects_off(set![u], y, p)
}

/// No edge at `u` that is no loop has a component id.
pub open spec fn none_assigned(g: &UndirectedGraph, vcc: Seq<usize>, u: int) -> bool {
    forall|e: int, y: int| #[trigger] g.joins(e, u, y) && y != u ==> vcc[e] == 0
}

/// Only edges between vertices undiscovered in `visited` have another
/// component id in `after` than in `before`.
pub open spec fn assigned_inside(
    g: &UndirectedGraph,
    visited: Seq<usize>,
    before: Seq<usize>,
    after: Seq<usize>,
) -> bool {
    forall|e: int, x: int, y: int|
        #[trigger] g.joins(e, x, y) && after[e] != before[e] ==> visited[x] == 0
}

/// What holds of the component ids of edges while the search looks at the
/// adjacency entries of the vertex at stack position `k`.
pub open spec fn vcc_frame(
    g: &UndirectedGraph,
    visited: Seq<usize>,
    vcc: Seq<usize>,
    stack: Seq<usize>,
    k: int,
    kp: int,
    until: int,
) -> bool {
    let u = stack[k] as int;
    &&& forall|z: int|
        0 <= z < visited.len() && #[trigger] visited[z] > visited[u] ==> split_right(g, vcc, z)
    &&& k > 0 ==> split_so_far(g, vcc, u) && pending_up(g, visited, vcc, u, stack[kp] as int, until)
    &&& k == 0 ==> none_assigned(g, vcc, u)
}

/// What a search from `v` leaves behind of the component ids of edges at the
/// vertices that it discovered.
pub open spec fn vcc_result(
    g: &UndirectedGraph,
    visited_a: Seq<usize>,
    vcc_a: Seq<usize>,
    visited_b: Seq<usize>,
    vcc_b: Seq<usize>,
    v: int,
    root: bool,
) -> bool {
    &&& forall|z: int|
        0 <= z < visited_a.len() && visited_a[z] == 0 && #[trigger] visited_b[z] != 0 && z != v
            ==> split_right(g, vcc_b, z)
    &&& root ==> unsplit(g, vcc_b, v)
    &&& !root ==> split_right(g, vcc_b, v)
    &&& assigned_inside(g, visited_a, vcc_a, vcc_b)
}

/// When the search comes back from a child `v` of the vertex `u` at stack
/// position `k` whose low-link is not below the discovery time of `u`, every
/// edge at a vertex discovered from `v` on leads to such a vertex or to `u`.
pub proof fn lemma_subtree_closed(
    g: &UndirectedGraph,
    a: BccState,
    b: BccState,
    k: int,
    kp: int,
    pe: int,
    idx: int,
    e: int,
    v: int,
)
    requires
        inv(g, a, -1),
        frame(g, a, k, kp, pe, idx),
        g.joins(e, a.stack[k] as int, v),
        0 <= v < g.adj_lists.len(),
        a.visited[v] == 0,
        result(g, after_push(a, e), b, v, e, k),
        b.visited[a.stack[k] as int] <= b.low[v],
    ensures
        forall|f: int, x: int, y: int|
            #[trigger] g.joins(f, x, y) && 0 <= x < b.visited.len() && 0 <= y < b.visited.len()
                && b.visited[x] > a.time && y != a.stack[k] ==> b.visited[y] > a.time,
{
    let u = a.stack[k] as int;
    lemma_low_bound(g, a.time, a.visited, a.low, a.stack, a.cc, a.num_cc, a.pes, k);
    assert(a.visited[u] != 0 && a.visited[u] <= a.time);
    assert(after_push(a, e).visited[u] != 0);
    assert(b.visited[u] == a.visited[u]);
    assert forall|f: int, x: int, y: int|
        #[trigger] g.joins(f, x, y) && 0 <= x < b.visited.len() && 0 <= y < b.visited.len()
            && b.visited[x] > a.time && y != u implies b.visited[y] > a.time by {
        assert(after_push(a, e).visited[x] == 0) by {
            if a.visited[x] != 0 {
                assert(b.visited[x] == a.visited[x]);
            }
        }
        if f == e {
            assert(x == v && y == u);
        } else {
            assert(b.visited[y] >= b.low[v]);
            if a.visited[y] != 0 {
                assert(b.visited[y] == a.visited[y]);
                assert(a.visited[y] != a.visited[u]);
                assert(g.joins(f, y, x));
                assert(a.visited[x] >= a.low[u]);
            }
        }
    }
}

/// When the search comes back from a child `v` of the vertex `u` at stack
/// position `k` whose low-link is below the discovery time of `u`, every
/// vertex discovered from `v` on is connected to the vertex from which `u`
/// was discovered by a walk that does not pass through `u`.
pub proof fn lemma_child_up(
    g: &UndirectedGraph,
    a: BccState,
    b: BccState,
    k: int,
    kp: int,
    e: int,
    v: int,
    x: int,
)
    requires
        inv(g, a, -1),
        0 < k < a.stack.len(),
        0 <= kp < k,
        0 <= v < g.adj_lists.len(),
        a.visited[v] == 0,
        result(g, after_push(a, e), b, v, e, k),
        ap_inv(g, b.visited, b.low, b.stack, b.is_ap),
        ap_result(g, b.visited, b.is_ap, a.time as int, a.time as int, v),
        b.low[v] < b.visited[a.stack[k] as int],
        0 <= x < g.adj_lists.len(),
        b.visited[x] > a.time,
    ensures
        g.connects_off(set![a.stack[k] as int], x, a.stack[kp] as int),
{
    let u = a.stack[k] as int;
    let p = a.stack[kp] as int;
    let a1 = after_push(a, e);
    let la = a.stack.len() as int;
    assert(b.stack[k] == a1.stack[k]);
    assert(b.stack[kp] == a1.stack[kp]);
    assert(a.visited[u] != 0 && a.visited[u] <= a.time);
    assert(a1.visited[u] != 0);
    assert(b.visited[u] == a.visited[u]);
    assert(b.stack.len() > la && b.stack[la] == v);
    assert(has_low_off(g, b.visited, b.low, b.stack, la));
    let jv = low_off_target(g, b.visited, b.low, b.stack, la);
    let w = b.stack[jv] as int;
    lemma_stack_order(g, b.time, b.visited, b.stack, b.cc, b.num_cc, jv, k);
    assert(set![u].subset_of(elders(b.visited, b.visited[v] as int, w)));
    g.lemma_connects_off_mono(elders(b.visited, b.visited[v] as int, w), set![u], v, w);
    lemma_ladder_off_between(g, b, k, jv, kp);
    g.lemma_connects_off_trans(set![u], v, w, p);
    assert(g.connects_off(upto(b.visited, a.time as int), x, v));
    assert(set![u].subset_of(upto(b.visited, a.time as int)));
    g.lemma_connects_off_mono(upto(b.visited, a.time as int), set![u], x, v);
    g.lemma_connects_off_trans(set![u], x, v, p);
}

/// The search enters a vertex: no edge at it has a component id.
pub proof fn lemma_vcc_enter(g: &UndirectedGraph, s: BccState, u: int, pe: int, kp: int)
    requires
        inv(g, s, pe),
        0 <= u < g.adj_lists.len(),
        s.visited[u] == 0,
        s.time < usize::MAX,
        s.stack.len() == 0 ==> pe == -1,
        s.stack.len() > 0 ==> holds(s.estack, pe),
    ensures
        vcc_frame(
            g,
            after_visit(s, u, pe).visited,
            s.vcc,
            after_visit(s, u, pe).stack,
            s.stack.len() as int,
            kp,
            s.time + 1,
        ),
{
    let t = after_visit(s, u, pe);
    let k = s.stack.len() as int;
    assert(t.stack[k] == u);
    assert forall|z: int| 0 <= z < t.visited.len() implies #[trigger] t.visited[z] <= t.visited[u] by {
        assert(s.visited[z] <= s.time);
    }
    assert forall|e: int, y: int| #[trigger] g.joins(e, u, y) implies s.vcc[e] == 0 by {
        if e == pe {
            let i = index_of(s.estack, pe);
            assert(s.vcc[s.estack[i] as int] == 0);
        } else {
            assert(!placed(s.estack, s.vcc, e));
        }
    }
}

/// The search has come back from the vertex `v`, which it discovered by the
/// edge `e` from the vertex `u` at stack position `k`: the component ids of
/// the edges at `u` and at the vertices discovered after it are as before,
/// and those at the vertices discovered from `v` on are right.
pub proof fn lemma_vcc_ascend(
    g: &UndirectedGraph,
    a: BccState,
    b: BccState,
    k: int,
    kp: int,
    pe: int,
    idx: int,
    e: int,
    v: int,
)
    requires
        inv(g, a, -1),
        frame(g, a, k, kp, pe, idx),
        vcc_frame(g, a.visited, a.vcc, a.stack, k, kp, a.time as int),
        g.joins(e, a.stack[k] as int, v),
        0 <= v < g.adj_lists.len(),
        a.visited[v] == 0,
        result(g, after_push(a, e), b, v, e, k),
        ap_inv(g, b.visited, b.low, b.stack, b.is_ap),
        ap_result(g, b.visited, b.is_ap, a.time as int, a.time as int, v),
        vcc_result(g, a.visited, a.vcc, b.visited, b.vcc, v, false),
    ensures
        vcc_frame(
            g,
            b.visited,
            b.vcc,
            b.stack,
            k,
            kp,
            if k > 0 && b.visited[a.stack[k] as int] <= b.low[v] {
                a.time as int
            } else {
                b.time as int
            },
        ),
{
    let n = g.adj_lists.len() as int;
    let u = a.stack[k] as int;
    let a1 = after_push(a, e);
    assert(b.stack[k] == a1.stack[k]);
    assert(a.visited[u] != 0 && a.visited[u] <= a.time);
    assert(a1.visited[u] != 0);
    assert(b.visited[u] == a.visited[u]);
    // Edges at a vertex discovered before the call have their ids as before.
    assert forall|f: int, x: int, y: int| #[trigger] g.joins(f, x, y) && a.visited[x] != 0 implies b.vcc[f]
        == a.vcc[f] by {}
    assert forall|z: int| 0 <= z < n && #[trigger] b.visited[z] > b.visited[u] implies split_right(
        g,
        b.vcc,
        z,
    ) by {
        if a.visited[z] != 0 {
            assert(a1.visited[z] != 0);
            assert(b.visited[z] == a.visited[z]);
            assert(split_right(g, a.vcc, z));
            assert forall|e1: int, x: int, e2: int, y: int|
                #![trigger g.joins(e1, z, x), g.joins(e2, z, y)]
                g.joins(e1, z, x) && g.joins(e2, z, y) && x != z && y != z implies (b.vcc[e1]
                == b.vcc[e2] <==> g.connects_off(set![z], x, y)) by {
                assert(b.vcc[e1] == a.vcc[e1] && b.vcc[e2] == a.vcc[e2]);
            }
        }
    }
    if k > 0 {
        let p = a.stack[kp] as int;
        assert(b.stack[kp] == a1.stack[kp]);
        let until = if b.visited[u] <= b.low[v] {
            a.time as int
        } else {
            b.time as int
        };
        assert(split_so_far(g, b.vcc, u)) by {
            assert forall|e1: int, x: int, e2: int, y: int|
                #![trigger g.joins(e1, u, x), g.joins(e2, u, y)]
                g.joins(e1, u, x) && g.joins(e2, u, y) && x != u && y != u && b.vcc[e1] != 0 implies (
            b.vcc[e1] == b.vcc[e2] <==> g.connects_off(set![u], x, y)) by {
                assert(b.vcc[e1] == a.vcc[e1] && b.vcc[e2] == a.vcc[e2]);
            }
        }
        assert(pending_up(g, b.visited, b.vcc, u, p, until)) by {
            assert forall|f: int, y: int|
                #[trigger] g.joins(f, u, y) && y != u && b.vcc[f] == 0 && b.visited[u] < b.visited[y]
                    <= until implies g.connects_off(set![u], y, p) by {
                assert(b.vcc[f] == a.vcc[f]);
                if a.visited[y] != 0 {
                    assert(a1.visited[y] != 0);
                    assert(b.visited[y] == a.visited[y]);
                    assert(a.visited[y] <= a.time);
                } else {
                    assert(a1.visited[y] == 0);
                    assert(b.visited[y] > a.time);
                    lemma_child_up(g, a, b, k, kp, e, v, y);
                }
            }
        }
    } else {
        assert(none_assigned(g, b.vcc, u)) by {
            assert forall|f: int, y: int| #[trigger] g.joins(f, u, y) && y != u implies b.vcc[f] == 0 by {
                assert(b.vcc[f] == a.vcc[f]);
            }
        }
    }
}

/// What is taken off the edge stack when the search comes back from a child
/// `v` of the vertex `u` whose low-link is not below the discovery time of
/// `u`: the edges without a component id at the vertices discovered from `v`
/// on, all of them between such vertices and `u`.
pub proof fn lemma_cut_edges(
    g: &UndirectedGraph,
    a: BccState,
    b: BccState,
    k: int,
    kp: int,
    pe: int,
    idx: int,
    e: int,
    v: int,
)
    requires
        inv(g, a, -1),
        frame(g, a, k, kp, pe, idx),
        g.joins(e, a.stack[k] as int, v),
        0 <= v < g.adj_lists.len(),
        a.visited[v] == 0,
        result(g, after_push(a, e), b, v, e, k),
        b.visited[a.stack[k] as int] <= b.low[v],
    ensures
        forall|f: int, x: int, y: int|
            #[trigger] g.joins(f, x, y) && taken(b.estack, a.estack.len() as int, f) ==> (x
                == a.stack[k] || b.visited[x] > a.time) && (b.visited[x] > a.time || b.visited[y]
                > a.time),
        forall|f: int, x: int, y: int|
            #[trigger] g.joins(f, x, y) && b.visited[x] > a.time && b.vcc[f] == 0 ==> taken(
                b.estack,
                a.estack.len() as int,
                f,
            ),
{
    let u = a.stack[k] as int;
    let a1 = after_push(a, e);
    let le = a.estack.len() as int;
    lemma_subtree_closed(g, a, b, k, kp, pe, idx, e, v);
    assert(b.stack[k] == a1.stack[k]);
    assert(a.visited[u] != 0 && a.visited[u] <= a.time);
    assert(a1.visited[u] != 0);
    assert(b.visited[u] == a.visited[u]);
    assert(b.visited[v] > a.time);
    assert forall|f: int, x: int, y: int|
        #[trigger] g.joins(f, x, y) && taken(b.estack, le, f) implies (x == u || b.visited[x] > a.time)
        && (b.visited[x] > a.time || b.visited[y] > a.time) by {
        let i = choose|i: int| le <= i < b.estack.len() && #[trigger] b.estack[i] == f;
        assert(g.joins(f, y, x));
        if f != e {
            assert(b.vcc[b.estack[i] as int] == 0);
            if holds(a1.estack, f) {
                let j = index_of(a1.estack, f);
                assert(b.estack[j] == a1.estack[j]);
                assert(b.estack[le] == a1.estack[le]);
                if j < i {
                    assert(b.estack[j] != b.estack[i]);
                }
            }
            assert(!placed(a1.estack, a1.vcc, f));
            assert((a1.visited[x] == 0 && b.visited[x] != 0) || (a1.visited[y] == 0 && b.visited[y]
                != 0));
            if a1.visited[x] == 0 && b.visited[x] != 0 {
                assert(b.visited[x] > a1.time);
                if y != u {
                    assert(b.visited[y] > a.time);
                }
            } else {
                assert(b.visited[y] > a1.time);
                if x != u {
                    assert(b.visited[x] > a.time);
                }
            }
        }
    }
    assert forall|f: int, x: int, y: int|
        #[trigger] g.joins(f, x, y) && b.visited[x] > a.time && b.vcc[f] == 0 implies taken(
        b.estack,
        le,
        f,
    ) by {
        assert(placed(b.estack, b.vcc, f));
        let i = index_of(b.estack, f);
        if i < le {
            assert(b.estack[i] == a1.estack[i]);
            assert(a.estack[i] == f);
            assert(placed(a.estack, a.vcc, f));
            if a.visited[x] != 0 {
                assert(a1.visited[x] != 0);
                assert(b.visited[x] == a.visited[x]);
            }
            assert(a.visited[x] == 0);
        }
    }
}

/// The search has come back to the vertex `u` at stack position `k` from a
/// child `v` whose low-link is not below the discovery time of `u`, and has
/// given the edges that it took off the edge stack a new component id: the
/// component ids are right.
pub proof fn lemma_vcc_cut(
    g: &UndirectedGraph,
    a: BccState,
    b: BccState,
    k: int,
    kp: int,
    pe: int,
    idx: int,
    e: int,
    v: int,
    after: Seq<usize>,
)
    requires
        inv(g, a, -1),
        frame(g, a, k, kp, pe, idx),
        k > 0,
        g.joins(e, a.stack[k] as int, v),
        0 <= v < g.adj_lists.len(),
        a.visited[v] == 0,
        result(g, after_push(a, e), b, v, e, k),
        ap_result(g, b.visited, b.is_ap, a.time as int, a.time as int, v),
        vcc_result(g, a.visited, a.vcc, b.visited, b.vcc, v, false),
        b.visited[a.stack[k] as int] <= b.low[v],
        vcc_frame(g, b.visited, b.vcc, b.stack, k, kp, a.time as int),
        renumbered(b.vcc, after, b.estack, a.estack.len() as int, b.num_vcc + 1),
    ensures
        vcc_frame(g, b.visited, after, b.stack, k, kp, b.time as int),
        forall|f: int, x: int, y: int|
            #[trigger] g.joins(f, x, y) && after[f] != b.vcc[f] ==> b.visited[x]
                >= b.visited[a.stack[k] as int],
{
    let n = g.adj_lists.len() as int;
    let u = a.stack[k] as int;
    let p = a.stack[kp] as int;
    let a1 = after_push(a, e);
    let le = a.estack.len() as int;
    let id = b.num_vcc + 1;
    lemma_cut_edges(g, a, b, k, kp, pe, idx, e, v);
    lemma_subtree_closed(g, a, b, k, kp, pe, idx, e, v);
    assert(b.stack[k] == a1.stack[k]);
    assert(b.stack[kp] == a1.stack[kp]);
    assert(a.visited[u] != 0 && a.visited[u] <= a.time);
    assert(a1.visited[u] != 0);
    assert(b.visited[u] == a.visited[u]);
    // What the renumbering does to one edge.
    assert forall|f: int, x: int, y: int| #[trigger] g.joins(f, x, y) implies (if taken(b.estack, le, f) {
        after[f] == id && b.vcc[f] == 0
    } else {
        after[f] == b.vcc[f]
    }) && b.vcc[f] < id by {
        assert(b.vcc[f] <= b.num_vcc);
        if taken(b.estack, le, f) {
            let i = choose|i: int| le <= i < b.estack.len() && #[trigger] b.estack[i] == f;
            assert(after[b.estack[i] as int] == id);
        }
    }
    assert forall|z: int| 0 <= z < n && #[trigger] b.visited[z] > b.visited[u] implies split_right(
        g,
        after,
        z,
    ) by {
        assert(split_right(g, b.vcc, z));
        assert forall|e1: int, x1: int, e2: int, x2: int|
            #![trigger g.joins(e1, z, x1), g.joins(e2, z, x2)]
            g.joins(e1, z, x1) && g.joins(e2, z, x2) && x1 != z && x2 != z implies (after[e1]
            == after[e2] <==> g.connects_off(set![z], x1, x2)) by {
            assert(b.vcc[e1] == b.vcc[e2] <==> g.connects_off(set![z], x1, x2));
            if taken(b.estack, le, e1) || taken(b.estack, le, e2) {
                assert(b.visited[z] > a.time);
            }
        }
    }
    assert(split_so_far(g, after, u)) by {
        assert forall|e1: int, x1: int, e2: int, x2: int|
            #![trigger g.joins(e1, u, x1), g.joins(e2, u, x2)]
            g.joins(e1, u, x1) && g.joins(e2, u, x2) && x1 != u && x2 != u && after[e1] != 0 implies (
        after[e1] == after[e2] <==> g.connects_off(set![u], x1, x2)) by {
            assert(g.joins(e1, x1, u) && g.joins(e2, x2, u));
            if taken(b.estack, le, e1) {
                assert(b.visited[x1] > a.time);
                if b.visited[x2] > a.time {
                    assert(a1.visited[x2] == 0) by {
                        if a.visited[x2] != 0 {
                            assert(b.visited[x2] == a.visited[x2]);
                        }
                    }
                    assert(!placed(a.estack, a.vcc, e2));
                    assert(b.vcc[e2] == a.vcc[e2]);
                    assert(taken(b.estack, le, e2));
                    assert(g.connects_off(upto(b.visited, a.time as int), x1, v));
                    assert(g.connects_off(upto(b.visited, a.time as int), x2, v));
                    assert(set![u].subset_of(upto(b.visited, a.time as int)));
                    g.lemma_connects_off_mono(upto(b.visited, a.time as int), set![u], x1, v);
                    g.lemma_connects_off_mono(upto(b.visited, a.time as int), set![u], x2, v);
                    g.lemma_connects_off_sym(set![u], x2, v);
                    g.lemma_connects_off_trans(set![u], x1, v, x2);
                } else {
                    assert(!taken(b.estack, le, e2));
                    lemma_cut_off(g, b.visited, a.time as int, u, x1, x2);
                }
            } else {
                assert(b.vcc[e1] == b.vcc[e2] <==> g.connects_off(set![u], x1, x2));
            }
        }
    }
    assert(pending_up(g, b.visited, after, u, p, b.time as int)) by {
        assert forall|f: int, y: int|
            #[trigger] g.joins(f, u, y) && y != u && after[f] == 0 && b.visited[u] < b.visited[y]
                <= b.time implies g.connects_off(set![u], y, p) by {
            assert(g.joins(f, y, u));
            assert(b.vcc[f] == 0);
            if b.visited[y] > a.time {
                assert(taken(b.estack, le, f));
            }
        }
    }
    assert forall|f: int, x: int, y: int| #[trigger] g.joins(f, x, y) && after[f] != b.vcc[f] implies b.visited[x]
        >= b.visited[u] by {
        assert(taken(b.estack, le, f));
    }
}

/// A loop that becomes a component of its own changes nothing for the
/// edges that are no loops.
pub proof fn lemma_vcc_loop(
    g: &UndirectedGraph,
    visited: Seq<usize>,
    vcc: Seq<usize>,
    stack: Seq<usize>,
    k: int,
    kp: int,
    until: int,
    e: int,
    id: usize,
)
    requires
        vcc_frame(g, visited, vcc, stack, k, kp, until),
        0 <= k < stack.len(),
        vcc.len() == g.edges.len(),
        g.joins(e, stack[k] as int, stack[k] as int),
    ensures
        vcc_frame(g, visited, vcc.update(e, id), stack, k, kp, until),
        forall|z: int| unsplit(g, vcc, z) ==> unsplit(g, vcc.update(e, id), z),
{
    let n = visited.len() as int;
    let u = stack[k] as int;
    let after = vcc.update(e, id);
    assert forall|f: int, x: int, y: int| #[trigger] g.joins(f, x, y) && x != y implies after[f]
        == vcc[f] by {}
    assert forall|z: int| 0 <= z < n && #[trigger] visited[z] > visited[u] implies split_right(
        g,
        after,
        z,
    ) by {
        assert(split_right(g, vcc, z));
        assert forall|e1: int, x1: int, e2: int, x2: int|
            #![trigger g.joins(e1, z, x1), g.joins(e2, z, x2)]
            g.joins(e1, z, x1) && g.joins(e2, z, x2) && x1 != z && x2 != z implies (after[e1]
            == after[e2] <==> g.connects_off(set![z], x1, x2)) by {
            assert(vcc[e1] == vcc[e2] <==> g.connects_off(set![z], x1, x2));
        }
    }
    if k > 0 {
        assert(split_so_far(g, after, u)) by {
            assert forall|e1: int, x1: int, e2: int, x2: int|
                #![trigger g.joins(e1, u, x1), g.joins(e2, u, x2)]
                g.joins(e1, u, x1) && g.joins(e2, u, x2) && x1 != u && x2 != u && after[e1] != 0 implies (
            after[e1] == after[e2] <==> g.connects_off(set![u], x1, x2)) by {
                assert(vcc[e1] == vcc[e2] <==> g.connects_off(set![u], x1, x2));
            }
        }
        assert(pending_up(g, visited, after, u, stack[kp] as int, until));
    } else {
        assert(none_assigned(g, after, u));
    }
    assert forall|z: int| unsplit(g, vcc, z) implies unsplit(g, after, z) by {
        assert forall|e1: int, x1: int, e2: int, x2: int|
            #![trigger g.joins(e1, z, x1), g.joins(e2, z, x2)]
            g.joins(e1, z, x1) && g.joins(e2, z, x2) && x1 != z && x2 != z implies after[e1]
            == after[e2] by {
            assert(vcc[e1] == vcc[e2]);
        }
    }
}

/// The search has looked at every adjacency entry of a root and has given
/// all the edges left on the edge stack one new component id: the component
/// ids are right, and all the edges at the root share one.
pub proof fn lemma_vcc_drain(g: &UndirectedGraph, s0: BccState, c: BccState, kp: int, after: Seq<usize>)
    requires
        inv(g, c, -1),
        c.stack.len() > 0,
        frame(g, c, 0, kp, -1, g.adj_lists[c.stack[0] as int].len() as int),
        keeps(g, s0, c),
        s0.estack.len() == 0,
        s0.visited.len() == g.adj_lists.len(),
        s0.vcc.len() == g.edges.len(),
        forall|x: int| 0 <= x < s0.visited.len() ==> #[trigger] s0.visited[x] <= s0.time,
        c.visited[c.stack[0] as int] == s0.time + 1,
        vcc_frame(g, c.visited, c.vcc, c.stack, 0, kp, c.time as int),
        renumbered(c.vcc, after, c.estack, 0, c.num_vcc + 1),
    ensures
        forall|z: int|
            0 <= z < c.visited.len() && #[trigger] c.visited[z] > c.visited[c.stack[0] as int]
                ==> split_right(g, after, z),
        unsplit(g, after, c.stack[0] as int),
        forall|f: int, x: int, y: int|
            #[trigger] g.joins(f, x, y) && after[f] != c.vcc[f] ==> c.visited[x]
                >= c.visited[c.stack[0] as int],
{
    let n = g.adj_lists.len() as int;
    let u = c.stack[0] as int;
    let id = c.num_vcc + 1;
    lemma_closed(g, c, 0, kp, -1);
    lemma_low_bound(g, c.time, c.visited, c.low, c.stack, c.cc, c.num_cc, c.pes, 0);
    assert(c.low[u] == c.visited[u]);
    assert forall|f: int, x: int, y: int| #[trigger] g.joins(f, x, y) implies (if holds(c.estack, f) {
        after[f] == id && c.vcc[f] == 0
    } else {
        after[f] == c.vcc[f]
    }) && c.vcc[f] < id by {
        assert(c.vcc[f] <= c.num_vcc);
        if holds(c.estack, f) {
            let i = index_of(c.estack, f);
            assert(after[c.estack[i] as int] == id);
            assert(c.vcc[c.estack[i] as int] == 0);
        }
        if taken(c.estack, 0, f) {
            let i = choose|i: int| 0 <= i < c.estack.len() && #[trigger] c.estack[i] == f;
            assert(holds(c.estack, f));
        }
    }
    assert forall|f: int, x: int, y: int|
        #[trigger] g.joins(f, x, y) && c.visited[x] >= c.visited[u] && c.vcc[f] == 0 implies holds(
        c.estack,
        f,
    ) by {
        if x != u {
            assert(c.visited[x] != c.visited[u]);
        }
        assert(placed(c.estack, c.vcc, f));
    }
    assert forall|z: int| 0 <= z < n && #[trigger] c.visited[z] > c.visited[u] implies split_right(
        g,
        after,
        z,
    ) by {
        assert(split_right(g, c.vcc, z));
        assert forall|e1: int, x1: int, e2: int, x2: int|
            #![trigger g.joins(e1, z, x1), g.joins(e2, z, x2)]
            g.joins(e1, z, x1) && g.joins(e2, z, x2) && x1 != z && x2 != z implies (after[e1]
            == after[e2] <==> g.connects_off(set![z], x1, x2)) by {
            assert(c.vcc[e1] == c.vcc[e2] <==> g.connects_off(set![z], x1, x2));
        }
    }
    assert(unsplit(g, after, u)) by {
        assert forall|e1: int, x1: int, e2: int, x2: int|
            #![trigger g.joins(e1, u, x1), g.joins(e2, u, x2)]
            g.joins(e1, u, x1) && g.joins(e2, u, x2) && x1 != u && x2 != u implies after[e1]
            == after[e2] by {
            assert(c.vcc[e1] == 0 && c.vcc[e2] == 0);
        }
    }
    assert forall|f: int, x: int, y: int| #[trigger] g.joins(f, x, y) && after[f] != c.vcc[f] implies c.visited[x]
        >= c.visited[u] by {
        assert(holds(c.estack, f));
        assert(g.joins(f, y, x));
        if s0.vcc[f] != 0 {
            assert(c.vcc[f] == s0.vcc[f]);
        }
        assert(!placed(s0.estack, s0.vcc, f));
        assert(placed(c.estack, c.vcc, f));
        assert((s0.visited[x] == 0 && c.visited[x] != 0) || (s0.visited[y] == 0 && c.visited[y] != 0));
        if s0.visited[x] == 0 && c.visited[x] != 0 {
            assert(c.visited[x] > s0.time);
        } else {
            assert(c.visited[y] > s0.time);
            if y != u {
                assert(c.visited[y] != c.visited[u]);
                assert(c.visited[x] >= c.low[u]);
            } else {
                assert(c.visited[x] >= c.low[u]);
            }
        }
    }
}

/// The search leaves a vertex: the component ids of the edges at every
/// vertex discovered since it entered are right.
pub proof fn lemma_vcc_leave(g: &UndirectedGraph, s0: BccState, c: BccState, k: int, kp: int, pe: int)
    requires
        inv(g, c, -1),
        frame(g, c, k, kp, pe, g.adj_lists[c.stack[k] as int].len() as int),
        keeps(g, s0, c),
        s0.visited.len() == g.adj_lists.len(),
        forall|x: int| 0 <= x < s0.visited.len() ==> #[trigger] s0.visited[x] <= s0.time,
        c.visited[c.stack[k] as int] == s0.time + 1,
        forall|z: int|
            0 <= z < c.visited.len() && #[trigger] c.visited[z] > c.visited[c.stack[k] as int]
                ==> split_right(g, c.vcc, z),
        k > 0 ==> split_so_far(g, c.vcc, c.stack[k] as int) && pending_up(
            g,
            c.visited,
            c.vcc,
            c.stack[k] as int,
            c.stack[kp] as int,
            c.time as int,
        ),
        k == 0 ==> unsplit(g, c.vcc, c.stack[k] as int),
        assigned_inside(g, s0.visited, s0.vcc, c.vcc),
    ensures
        vcc_result(g, s0.visited, s0.vcc, c.visited, c.vcc, c.stack[k] as int, k == 0),
{
    let n = g.adj_lists.len() as int;
    let u = c.stack[k] as int;
    lemma_closed(g, c, k, kp, pe);
    lemma_low_bound(g, c.time, c.visited, c.low, c.stack, c.cc, c.num_cc, c.pes, k);
    assert forall|z: int|
        0 <= z < s0.visited.len() && s0.visited[z] == 0 && #[trigger] c.visited[z] != 0 && z != u implies split_right(
        g,
        c.vcc,
        z,
    ) by {
        assert(c.visited[z] > s0.time);
        assert(c.visited[z] != c.visited[u]);
    }
    if k > 0 {
        let p = c.stack[kp] as int;
        assert forall|f: int, y: int| #[trigger] g.joins(f, u, y) && y != u && c.vcc[f] == 0 implies g.connects_off(
            set![u],
            y,
            p,
        ) by {
            assert(c.visited[y] != c.visited[u]);
            if c.visited[y] <= c.visited[u] {
                lemma_ap_elder(g, c, k, kp, pe, f, y);
            } else {
                assert(c.visited[y] <= c.time);
            }
        }
        assert(split_right(g, c.vcc, u)) by {
            assert forall|e1: int, x1: int, e2: int, x2: int|
                #![trigger g.joins(e1, u, x1), g.joins(e2, u, x2)]
                g.joins(e1, u, x1) && g.joins(e2, u, x2) && x1 != u && x2 != u implies (c.vcc[e1]
                == c.vcc[e2] <==> g.connects_off(set![u], x1, x2)) by {
                if c.vcc[e1] != 0 {
                } else if c.vcc[e2] != 0 {
                    assert(c.vcc[e2] == c.vcc[e1] <==> g.connects_off(set![u], x2, x1));
                    if g.connects_off(set![u], x1, x2) {
                        g.lemma_connects_off_sym(set![u], x1, x2);
                    }
                } else {
                    g.lemma_connects_off_sym(set![u], x2, p);
                    g.lemma_connects_off_trans(set![u], x1, p, x2);
                }
            }
        }
    }
}

/// A search from the least undiscovered vertex `u`, begun when every edge
/// at a discovered vertex led to a discovered vertex, discovers the
/// connected component of `u`, of which `u` is the least vertex.
pub proof fn lemma_roots(
    g: &UndirectedGraph,
    before: Seq<usize>,
    after: Seq<usize>,
    is_ap: Seq<bool>,
    t: int,
    u: int,
)
    requires
        before.len() == g.adj_lists.len(),
        after.len() == g.adj_lists.len(),
        0 <= u < g.adj_lists.len(),
        forall|w: int| 0 <= w < u ==> #[trigger] before[w] != 0,
        before[u] == 0,
        forall|f: int, x: int, y: int| #[trigger] g.joins(f, x, y) && before[x] != 0 ==> before[y] != 0,
        forall|x: int| 0 <= x < before.len() && before[x] == 0 && after[x] != 0 ==> #[trigger] after[x] > t,
        ap_result(g, after, is_ap, t, t, u),
    ensures
        is_first(g, u),
        forall|z: int|
            0 <= z < before.len() && before[z] == 0 && #[trigger] after[z] != 0 && z != u ==> !is_first(
                g,
                z,
            ),
{
    let mark = Seq::new(before.len(), |z: int| before[z] != 0);
    assert forall|w: int| 0 <= w < u implies !#[trigger] g.connected(w, u) by {
        if g.connected(w, u) {
            g.lemma_marks_fence(Set::empty(), mark, w, u);
        }
    }
    assert forall|z: int|
        0 <= z < before.len() && before[z] == 0 && #[trigger] after[z] != 0 && z != u implies !is_first(
        g,
        z,
    ) by {
        assert(after[z] > t);
        assert(g.connects_off(upto(after, t), z, u));
        lemma_connects_off_plain(g, upto(after, t), z, u);
        g.lemma_connects_sym(Set::empty(), z, u);
        if z < u {
            assert(before[z] != 0);
        }
        assert(g.connected(u, z));
    }
}

} // verus!
