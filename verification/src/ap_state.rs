//! What the search for 2-vertex-connected components knows of articulation
//! points: the invariant on the flags, and the steps by which it is kept.

use crate::bcc_state::{
    after_lower, after_push, frame, has_parent, index_of, inv, keeps, lemma_closed, lemma_low_bound,
    lemma_stack_order, result, tree_ok, BccState,
};
use crate::graph::UndirectedGraph;
use vstd::prelude::*;

verus! {

/// The vertices other than `w` that were discovered before time `t`.
pub open spec fn elders(visited: Seq<usize>, t: int, w: int) -> Set<int> {
    Set::new(|z: int| z != w && 0 <= z < visited.len() && 0 < visited[z] < t)
}

/// The vertices that were discovered at time `t` or before.
pub open spec fn upto(visited: Seq<usize>, t: int) -> Set<int> {
    Set::new(|z: int| 0 <= z < visited.len() && 0 < visited[z] <= t)
}

/// The low-link of the vertex at stack position `i` is the discovery time of
/// a vertex at or below it on the stack, to which a walk leads that passes
/// through no other vertex discovered before the one at `i`.
pub open spec fn has_low_off(
    g: &UndirectedGraph,
    visited: Seq<usize>,
    low: Seq<usize>,
    stack: Seq<usize>,
    i: int,
) -> bool {
    exists|j: int|
        0 <= j <= i && low[stack[i] as int] == visited[#[trigger] stack[j] as int] && g.connects_off(
            elders(visited, visited[stack[i] as int] as int, stack[j] as int),
            stack[i] as int,
            stack[j] as int,
        )
}

/// The witness of `has_low_off`.
pub open spec fn low_off_target(
    g: &UndirectedGraph,
    visited: Seq<usize>,
    low: Seq<usize>,
    stack: Seq<usize>,
    i: int,
) -> int {
    choose|j: int|
        0 <= j <= i && low[stack[i] as int] == visited[#[trigger] stack[j] as int] && g.connects_off(
            elders(visited, visited[stack[i] as int] as int, stack[j] as int),
            stack[i] as int,
            stack[j] as int,
        )
}

/// No undiscovered vertex is flagged, and every vertex on the stack has its
/// low-link by a walk through its own subtree.
pub open spec fn ap_inv(
    g: &UndirectedGraph,
    visited: Seq<usize>,
    low: Seq<usize>,
    stack: Seq<usize>,
    is_ap: Seq<bool>,
) -> bool {
    &&& forall|x: int| 0 <= x < visited.len() && visited[x] == 0 ==> !#[trigger] is_ap[x]
    &&& forall|i: int| 0 <= i < stack.len() ==> #[trigger] has_low_off(g, visited, low, stack, i)
}

/// Every vertex discovered after time `since` is connected to `v` by a walk
/// through vertices discovered after time `floor` only, and is flagged
/// exactly if it is an articulation point.
pub open spec fn ap_result(
    g: &UndirectedGraph,
    visited: Seq<usize>,
    is_ap: Seq<bool>,
    since: int,
    floor: int,
    v: int,
) -> bool {
    &&& forall|x: int|
        0 <= x < visited.len() && #[trigger] visited[x] > since ==> g.connects_off(
            upto(visited, floor),
            x,
            v,
        )
    &&& forall|x: int|
        0 <= x < visited.len() && visited[x] > since ==> (#[trigger] is_ap[x] <==> g.is_articulation(
            x,
        ))
}

/// What holds of the flags while the search looks at the adjacency entries
/// of the vertex at stack position `k`, which has `children` children so
/// far, the first of them `first`.
pub open spec fn ap_frame(
    g: &UndirectedGraph,
    visited: Seq<usize>,
    stack: Seq<usize>,
    is_ap: Seq<bool>,
    k: int,
    kp: int,
    children: int,
    first: int,
) -> bool {
    let u = stack[k] as int;
    &&& ap_result(g, visited, is_ap, visited[u] as int, visited[u] - 1, u)
    &&& k > 0 && !is_ap[u] ==> forall|x: int|
        0 <= x < visited.len() && #[trigger] visited[x] > visited[u] ==> g.connects_off(
            set![u],
            x,
            stack[kp] as int,
        )
    &&& k > 0 && is_ap[u] ==> g.is_articulation(u)
    &&& k == 0 ==> !is_ap[u]
    &&& k == 0 && children == 0 ==> forall|x: int|
        0 <= x < visited.len() ==> #[trigger] visited[x] <= visited[u]
    &&& k == 0 && children == 1 ==> {
        &&& g.adjacent(u, first)
        &&& 0 <= first < visited.len()
        &&& visited[first] > visited[u]
        &&& forall|x: int|
            0 <= x < visited.len() && #[trigger] visited[x] > visited[u] ==> g.connects_off(
                set![u],
                x,
                first,
            )
    }
    &&& k == 0 && children >= 2 ==> g.is_articulation(u)
}

/// The tree edges lead from every vertex on the stack down to the bottom of
/// the stack, through vertices of the stack below it only.
pub proof fn lemma_ladder_off(
    g: &UndirectedGraph,
    visited: Seq<usize>,
    low: Seq<usize>,
    stack: Seq<usize>,
    pes: Seq<int>,
    off: Set<int>,
    i: int,
)
    requires
        g.wf(),
        tree_ok(g, visited, low, stack, pes),
        0 <= i < stack.len(),
        forall|j: int|
            0 <= j <= i ==> 0 <= #[trigger] stack[j] < g.adj_lists.len() && !off.contains(
                stack[j] as int,
            ),
    ensures
        g.connects_off(off, stack[i] as int, stack[0] as int),
    decreases i,
{
    if i == 0 {
        g.lemma_connects_off_self(off, stack[0] as int);
    } else {
        assert(has_parent(g, stack, pes, i, 0));
        let p = choose|p: int| 0 <= p < i && #[trigger] g.joins(pes[i], stack[i] as int, stack[p] as int);
        assert(!off.contains(stack[p] as int));
        g.lemma_connects_off_edge(off, pes[i], stack[i] as int, stack[p] as int);
        lemma_ladder_off(g, visited, low, stack, pes, off, p);
        g.lemma_connects_off_trans(off, stack[i] as int, stack[p] as int, stack[0] as int);
    }
}

/// Any two vertices on the stack below position `k` are connected by a walk
/// that does not pass through the vertex at `k`.
pub proof fn lemma_ladder_off_between(g: &UndirectedGraph, s: BccState, k: int, i: int, j: int)
    requires
        inv(g, s, -1),
        0 <= i < k < s.stack.len(),
        0 <= j < k,
    ensures
        g.connects_off(set![s.stack[k] as int], s.stack[i] as int, s.stack[j] as int),
{
    let off = set![s.stack[k] as int];
    assert forall|q: int| 0 <= q < k implies 0 <= #[trigger] s.stack[q] < g.adj_lists.len()
        && !off.contains(s.stack[q] as int) by {
        lemma_stack_order(g, s.time, s.visited, s.stack, s.cc, s.num_cc, q, k);
    }
    lemma_ladder_off(g, s.visited, s.low, s.stack, s.pes, off, i);
    lemma_ladder_off(g, s.visited, s.low, s.stack, s.pes, off, j);
    g.lemma_connects_off_sym(off, s.stack[j] as int, s.stack[0] as int);
    g.lemma_connects_off_trans(off, s.stack[i] as int, s.stack[0] as int, s.stack[j] as int);
}

/// The search enters a vertex: nothing is known of it yet, and nothing has
/// been discovered after it.
pub proof fn lemma_ap_enter(g: &UndirectedGraph, s: BccState, u: int, pe: int, kp: int)
    requires
        inv(g, s, pe),
        ap_inv(g, s.visited, s.low, s.stack, s.is_ap),
        0 <= u < g.adj_lists.len(),
        s.visited[u] == 0,
        s.time < usize::MAX,
    ensures
        ap_inv(
            g,
            s.visited.update(u, (s.time + 1) as usize),
            s.low.update(u, (s.time + 1) as usize),
            s.stack.push(u as usize),
            s.is_ap,
        ),
        ap_frame(
            g,
            s.visited.update(u, (s.time + 1) as usize),
            s.stack.push(u as usize),
            s.is_ap,
            s.stack.len() as int,
            kp,
            0,
            0,
        ),
{
    let t = (s.time + 1) as usize;
    let visited1 = s.visited.update(u, t);
    let low1 = s.low.update(u, t);
    let stack1 = s.stack.push(u as usize);
    let k = s.stack.len() as int;
    assert forall|i: int| 0 <= i < stack1.len() implies #[trigger] has_low_off(
        g,
        visited1,
        low1,
        stack1,
        i,
    ) by {
        if i < k {
            assert(has_low_off(g, s.visited, s.low, s.stack, i));
            let j = low_off_target(g, s.visited, s.low, s.stack, i);
            let x = s.stack[i] as int;
            let w = s.stack[j] as int;
            assert(stack1[i] == s.stack[i] && stack1[j] == s.stack[j]);
            assert(s.visited[x] <= s.time);
            assert(elders(visited1, visited1[x] as int, w).subset_of(
                elders(s.visited, s.visited[x] as int, w),
            ));
            g.lemma_connects_off_mono(
                elders(s.visited, s.visited[x] as int, w),
                elders(visited1, visited1[x] as int, w),
                x,
                w,
            );
        } else {
            g.lemma_connects_off_self(elders(visited1, visited1[u] as int, u), u);
            assert(stack1[k] == u);
        }
    }
    assert forall|x: int| 0 <= x < visited1.len() implies #[trigger] visited1[x] <= visited1[u] by {
        assert(s.visited[x] <= s.time);
    }
}

/// The search has found an edge to lead from the vertex at stack position
/// `k` back to the vertex at position `j`: lowering the low-link to its
/// discovery time keeps the low-links in order.
pub proof fn lemma_ap_back(g: &UndirectedGraph, a: BccState, k: int, j: int, e: int)
    requires
        inv(g, a, -1),
        ap_inv(g, a.visited, a.low, a.stack, a.is_ap),
        0 <= j < k < a.stack.len(),
        g.joins(e, a.stack[k] as int, a.stack[j] as int),
    ensures
        ap_inv(
            g,
            a.visited,
            after_lower(a, a.stack[k] as int, a.visited[a.stack[j] as int]).low,
            a.stack,
            a.is_ap,
        ),
{
    let u = a.stack[k] as int;
    let y = a.stack[j] as int;
    let low1 = after_lower(a, u, a.visited[y]).low;
    lemma_stack_order(g, a.time, a.visited, a.stack, a.cc, a.num_cc, j, k);
    assert forall|i: int| 0 <= i < a.stack.len() implies #[trigger] has_low_off(
        g,
        a.visited,
        low1,
        a.stack,
        i,
    ) by {
        assert(has_low_off(g, a.visited, a.low, a.stack, i));
        let w = low_off_target(g, a.visited, a.low, a.stack, i);
        if i != k {
            lemma_stack_order(g, a.time, a.visited, a.stack, a.cc, a.num_cc, i, k);
            assert(low1[a.stack[i] as int] == a.visited[a.stack[w] as int]);
        } else if a.visited[y] < a.low[u] {
            g.lemma_connects_off_edge(elders(a.visited, a.visited[u] as int, y), e, u, y);
            assert(low1[a.stack[k] as int] == a.visited[a.stack[j] as int]);
        } else {
            assert(low1[a.stack[i] as int] == a.visited[a.stack[w] as int]);
        }
    }
}

/// The search has come back from the vertex `v`, which it discovered from
/// the vertex at stack position `k`: taking the low-link of `v` into account
/// keeps the low-links in order.
pub proof fn lemma_ap_low(g: &UndirectedGraph, b: BccState, k: int, e: int, v: int)
    requires
        inv(g, b, -1),
        ap_inv(g, b.visited, b.low, b.stack, b.is_ap),
        0 <= k < b.stack.len(),
        0 <= v < g.adj_lists.len(),
        g.joins(e, b.stack[k] as int, v),
        b.visited[v] > b.visited[b.stack[k] as int],
        b.low[v] < b.low[b.stack[k] as int] ==> holds_above(b.stack, k, v),
    ensures
        ap_inv(g, b.visited, after_lower(b, b.stack[k] as int, b.low[v]).low, b.stack, b.is_ap),
{
    let u = b.stack[k] as int;
    let low1 = after_lower(b, u, b.low[v]).low;
    lemma_low_bound(g, b.time, b.visited, b.low, b.stack, b.cc, b.num_cc, b.pes, k);
    assert forall|i: int| 0 <= i < b.stack.len() implies #[trigger] has_low_off(
        g,
        b.visited,
        low1,
        b.stack,
        i,
    ) by {
        assert(has_low_off(g, b.visited, b.low, b.stack, i));
        let w = low_off_target(g, b.visited, b.low, b.stack, i);
        if i != k {
            lemma_stack_order(g, b.time, b.visited, b.stack, b.cc, b.num_cc, i, k);
            assert(low1[b.stack[i] as int] == b.visited[b.stack[w] as int]);
        } else if b.low[v] < b.low[u] {
            let lv = choose|lv: int| k < lv < b.stack.len() && #[trigger] b.stack[lv] == v;
            assert(has_low_off(g, b.visited, b.low, b.stack, lv));
            let jv = low_off_target(g, b.visited, b.low, b.stack, lv);
            let t = b.stack[jv] as int;
            lemma_stack_order(g, b.time, b.visited, b.stack, b.cc, b.num_cc, jv, k);
            let more = elders(b.visited, b.visited[v] as int, t);
            let fewer = elders(b.visited, b.visited[u] as int, t);
            assert(fewer.subset_of(more));
            g.lemma_connects_off_mono(more, fewer, v, t);
            g.lemma_connects_off_edge(fewer, e, u, v);
            g.lemma_connects_off_trans(fewer, u, v, t);
            assert(low1[b.stack[k] as int] == b.visited[b.stack[jv] as int]);
        } else {
            assert(low1[b.stack[i] as int] == b.visited[b.stack[w] as int]);
        }
    }
}

/// `v` is on the stack above position `k`.
pub open spec fn holds_above(stack: Seq<usize>, k: int, v: int) -> bool {
    exists|lv: int| k < lv < stack.len() && #[trigger] stack[lv] == v
}

/// Where every edge at a vertex discovered after time `since` leads to such
/// a vertex or to `u`, no walk leads from such a vertex `x` to another
/// vertex `y` but through `u`.
pub proof fn lemma_cut_off(
    g: &UndirectedGraph,
    visited: Seq<usize>,
    since: int,
    u: int,
    x: int,
    y: int,
)
    requires
        visited.len() == g.adj_lists.len(),
        forall|e: int, a: int, b: int|
            #[trigger] g.joins(e, a, b) && 0 <= a < visited.len() && 0 <= b < visited.len() && visited[a]
                > since && b != u ==> visited[b] > since,
        0 <= x < visited.len(),
        0 <= y < visited.len(),
        visited[x] > since,
        visited[y] <= since,
    ensures
        !g.connects_off(set![u], x, y),
{
    let mark = Seq::new(visited.len(), |z: int| visited[z] > since);
    if g.connects_off(set![u], x, y) {
        g.lemma_marks_fence_off(set![u], mark, x, y);
    }
}

/// The search has come back to the vertex `u` at stack position `k` from a
/// child whose low-link is not below the discovery time of `u`, or has found
/// a second child of a root `u`: `u` is an articulation point.
pub proof fn lemma_ap_sound(
    g: &UndirectedGraph,
    a: BccState,
    b: BccState,
    k: int,
    kp: int,
    pe: int,
    idx: int,
    e: int,
    v: int,
    children: int,
    first: int,
)
    requires
        inv(g, a, -1),
        frame(g, a, k, kp, pe, idx),
        ap_frame(g, a.visited, a.stack, a.is_ap, k, kp, children, first),
        g.joins(e, a.stack[k] as int, v),
        0 <= v < g.adj_lists.len(),
        a.visited[v] == 0,
        result(g, after_push(a, e), b, v, e, k),
        k > 0 ==> b.visited[a.stack[k] as int] <= b.low[v],
        k == 0 ==> children == 1,
    ensures
        g.is_articulation(a.stack[k] as int),
{
    let u = a.stack[k] as int;
    let n = g.adj_lists.len() as int;
    lemma_low_bound(g, a.time, a.visited, a.low, a.stack, a.cc, a.num_cc, a.pes, k);
    assert(a.visited[u] != 0 && a.visited[u] <= a.time);
    assert(after_push(a, e).visited[u] != 0);
    assert(b.visited[u] == a.visited[u]);
    assert(g.adjacent(u, v));
    if k > 0 {
        let p = a.stack[kp] as int;
        assert(g.adjacent(u, p));
        lemma_stack_order(g, a.time, a.visited, a.stack, a.cc, a.num_cc, k, kp);
        assert(a.visited[p] != 0);
        assert(after_push(a, e).visited[p] != 0);
        assert(b.visited[p] == a.visited[p]);
        assert forall|f: int, x: int, y: int|
            #[trigger] g.joins(f, x, y) && 0 <= x < b.visited.len() && 0 <= y < b.visited.len()
                && b.visited[x] > a.time && y != u implies b.visited[y] > a.time by {
            assert(after_push(a, e).visited[x] == 0) by {
                if a.visited[x] != 0 {
                    assert(b.visited[x] == a.visited[x]);
                }
            }
            if f == e {
                assert(x == v && y == u);
            } else {
                assert(b.visited[y] >= b.low[v]);
                if a.visited[y] != 0 {
                    assert(b.visited[y] == a.visited[y]);
                    assert(a.visited[y] != a.visited[u]);
                    assert(g.joins(f, y, x));
                    assert(a.visited[x] >= a.low[u]);
                }
            }
        }
        lemma_cut_off(g, b.visited, a.time as int, u, v, p);
    } else {
        assert(a.low[u] == a.visited[u]);
        assert forall|f: int, x: int, y: int|
            #[trigger] g.joins(f, x, y) && 0 <= x < a.visited.len() && 0 <= y < a.visited.len()
                && a.visited[x] > a.visited[u] && y != u implies a.visited[y] > a.visited[u] by {
            assert(a.visited[y] >= a.low[u]);
            assert(a.visited[y] != a.visited[u]);
        }
        lemma_cut_off(g, a.visited, a.visited[u] as int, u, first, v);
        assert(g.adjacent(u, first) && g.adjacent(u, v) && first != u && v != u && !g.connects_off(
            set![u],
            first,
            v,
        ));
    }
}

/// The flags after the search has come back to the vertex `u` from the
/// child `v`: `u` is flagged if it is no root and the low-link of `v` is not
/// below its discovery time.
pub open spec fn flags_after(b: BccState, k: int, v: int) -> Seq<bool> {
    let u = b.stack[k] as int;
    if k > 0 && b.visited[u] <= b.low[v] {
        b.is_ap.update(u, true)
    } else {
        b.is_ap
    }
}

/// The search has come back from the vertex `v`, which it discovered by the
/// edge `e` from the vertex `u` at stack position `k`, and has flagged `u` if
/// that is due: the flags are right.
pub proof fn lemma_ap_ascend(
    g: &UndirectedGraph,
    a: BccState,
    b: BccState,
    c: BccState,
    k: int,
    kp: int,
    pe: int,
    idx: int,
    e: int,
    v: int,
    children: int,
    first: int,
)
    requires
        inv(g, a, -1),
        frame(g, a, k, kp, pe, idx),
        ap_inv(g, a.visited, a.low, a.stack, a.is_ap),
        ap_frame(g, a.visited, a.stack, a.is_ap, k, kp, children, first),
        children >= 0,
        idx < g.adj_lists[a.stack[k] as int].len(),
        g.adj_lists[a.stack[k] as int][idx].0 == e,
        g.adj_lists[a.stack[k] as int][idx].1 == v,
        a.visited[v] == 0,
        result(g, after_push(a, e), b, v, e, k),
        ap_inv(g, b.visited, b.low, b.stack, b.is_ap),
        ap_result(g, b.visited, b.is_ap, a.time as int, a.time as int, v),
        c == after_lower(b, a.stack[k] as int, b.low[v]),
        inv(g, c, -1),
        frame(g, c, k, kp, pe, idx + 1),
    ensures
        ap_inv(g, c.visited, c.low, c.stack, flags_after(b, k, v)),
        ap_frame(
            g,
            c.visited,
            c.stack,
            flags_after(b, k, v),
            k,
            kp,
            children + 1,
            if children == 0 {
                v
            } else {
                first
            },
        ),
{
    let n = g.adj_lists.len() as int;
    let u = a.stack[k] as int;
    let a1 = after_push(a, e);
    let la = a.stack.len() as int;
    let flags = flags_after(b, k, v);
    let entry = g.adj_lists[u][idx];
    assert(g.joins(entry.0 as int, u, entry.1 as int));
    assert(g.joins(e, u, v));
    assert(0 <= v < n);
    lemma_low_bound(g, a.time, a.visited, a.low, a.stack, a.cc, a.num_cc, a.pes, k);
    assert(b.stack[k] == a1.stack[k]);
    assert(a.visited[u] != 0 && a.visited[u] <= a.time);
    assert(a1.visited[u] != 0);
    assert(b.visited[u] == a.visited[u] && b.low[u] == a.low[u] && b.is_ap[u] == a.is_ap[u]);
    lemma_low_bound(g, b.time, b.visited, b.low, b.stack, b.cc, b.num_cc, b.pes, k);
    if b.low[v] < b.low[u] {
        assert(b.stack.len() > la);
        assert(b.stack[la] == v);
        assert(holds_above(b.stack, k, v));
    }
    lemma_ap_low(g, b, k, e, v);
    assert(ap_inv(g, c.visited, c.low, c.stack, flags));
    let tu = a.visited[u] as int;
    // Every vertex discovered after `u` is connected to it within its subtree.
    assert forall|x: int| 0 <= x < n && #[trigger] b.visited[x] > tu implies g.connects_off(
        upto(b.visited, tu - 1),
        x,
        u,
    ) by {
        if a.visited[x] != 0 {
            assert(a1.visited[x] != 0);
            assert(b.visited[x] == a.visited[x]);
            assert(g.connects_off(upto(a.visited, tu - 1), x, u));
            assert(upto(b.visited, tu - 1).subset_of(upto(a.visited, tu - 1))) by {
                assert forall|z: int| #[trigger] upto(b.visited, tu - 1).contains(z) implies upto(
                    a.visited,
                    tu - 1,
                ).contains(z) by {
                    if a.visited[z] == 0 {
                        assert(a1.visited[z] == 0);
                        assert(b.visited[z] > a1.time);
                    } else {
                        assert(a1.visited[z] != 0);
                    }
                }
            }
            g.lemma_connects_off_mono(upto(a.visited, tu - 1), upto(b.visited, tu - 1), x, u);
        } else {
            assert(a1.visited[x] == 0);
            assert(b.visited[x] > a.time);
            assert(g.connects_off(upto(b.visited, a.time as int), x, v));
            assert(upto(b.visited, tu - 1).subset_of(upto(b.visited, a.time as int)));
            g.lemma_connects_off_mono(upto(b.visited, a.time as int), upto(b.visited, tu - 1), x, v);
            g.lemma_connects_off_edge(upto(b.visited, tu - 1), e, v, u);
            g.lemma_connects_off_trans(upto(b.visited, tu - 1), x, v, u);
        }
    }
    assert forall|x: int| 0 <= x < n && b.visited[x] > tu implies (#[trigger] flags[x]
        <==> g.is_articulation(x)) by {
        assert(b.visited[x] != b.visited[u]);
        if a.visited[x] != 0 {
            assert(a1.visited[x] != 0);
            assert(b.visited[x] == a.visited[x] && b.is_ap[x] == a.is_ap[x]);
            assert(a.is_ap[x] <==> g.is_articulation(x));
        } else {
            assert(a1.visited[x] == 0);
            assert(b.visited[x] > a.time);
            assert(b.is_ap[x] <==> g.is_articulation(x));
        }
    }
    if k > 0 {
        let p = a.stack[kp] as int;
        assert(b.stack[kp] == a1.stack[kp]);
        if flags[u] {
            if !a.is_ap[u] {
                lemma_ap_sound(g, a, b, k, kp, pe, idx, e, v, children, first);
            }
        } else {
            assert(b.low[v] < b.visited[u]);
            assert(b.stack.len() > la && b.stack[la] == v);
            assert(has_low_off(g, b.visited, b.low, b.stack, la));
            let jv = low_off_target(g, b.visited, b.low, b.stack, la);
            let w = b.stack[jv] as int;
            lemma_stack_order(g, b.time, b.visited, b.stack, b.cc, b.num_cc, jv, k);
            assert(set![u].subset_of(elders(b.visited, b.visited[v] as int, w)));
            g.lemma_connects_off_mono(elders(b.visited, b.visited[v] as int, w), set![u], v, w);
            lemma_ladder_off_between(g, b, k, jv, kp);
            g.lemma_connects_off_trans(set![u], v, w, p);
            assert forall|x: int| 0 <= x < n && #[trigger] b.visited[x] > tu implies g.connects_off(
                set![u],
                x,
                p,
            ) by {
                if a.visited[x] != 0 {
                    assert(a1.visited[x] != 0);
                    assert(b.visited[x] == a.visited[x]);
                    assert(g.connects_off(set![u], x, a.stack[kp] as int));
                } else {
                    assert(a1.visited[x] == 0);
                    assert(b.visited[x] > a.time);
                    assert(g.connects_off(upto(b.visited, a.time as int), x, v));
                    assert(set![u].subset_of(upto(b.visited, a.time as int)));
                    g.lemma_connects_off_mono(upto(b.visited, a.time as int), set![u], x, v);
                    g.lemma_connects_off_trans(set![u], x, v, p);
                }
            }
        }
    } else {
        if children == 0 {
            assert(g.adjacent(u, v));
            assert(b.visited[v] > tu);
            assert forall|x: int| 0 <= x < n && #[trigger] b.visited[x] > tu implies g.connects_off(
                set![u],
                x,
                v,
            ) by {
                if a.visited[x] != 0 {
                    assert(a.visited[x] <= a.visited[u]);
                    assert(a1.visited[x] != 0);
                    assert(b.visited[x] == a.visited[x]);
                }
                assert(a1.visited[x] == 0);
                assert(b.visited[x] > a.time);
                assert(g.connects_off(upto(b.visited, a.time as int), x, v));
                assert(set![u].subset_of(upto(b.visited, a.time as int)));
                g.lemma_connects_off_mono(upto(b.visited, a.time as int), set![u], x, v);
            }
        } else if children == 1 {
            lemma_ap_sound(g, a, b, k, kp, pe, idx, e, v, children, first);
        }
    }
}

/// The flags when the search leaves the vertex at stack position `k`: a
/// root is flagged if it has more than one child.
pub open spec fn flags_at_end(c: BccState, k: int, children: int) -> Seq<bool> {
    if k == 0 && children > 1 {
        c.is_ap.update(c.stack[k] as int, true)
    } else {
        c.is_ap
    }
}

/// Every neighbour of the vertex `u` at stack position `k` that was
/// discovered before `u` is connected to the vertex from which `u` was
/// discovered by a walk that does not pass through `u`.
pub proof fn lemma_ap_elder(g: &UndirectedGraph, c: BccState, k: int, kp: int, pe: int, f: int, y: int)
    requires
        inv(g, c, -1),
        frame(g, c, k, kp, pe, g.adj_lists[c.stack[k] as int].len() as int),
        k > 0,
        g.joins(f, c.stack[k] as int, y),
        y != c.stack[k],
        c.visited[y] <= c.visited[c.stack[k] as int],
    ensures
        g.connects_off(set![c.stack[k] as int], y, c.stack[kp] as int),
{
    let u = c.stack[k] as int;
    let p = c.stack[kp] as int;
    lemma_closed(g, c, k, kp, pe);
    lemma_low_bound(g, c.time, c.visited, c.low, c.stack, c.cc, c.num_cc, c.pes, k);
    lemma_stack_order(g, c.time, c.visited, c.stack, c.cc, c.num_cc, k, kp);
    if y == p {
        g.lemma_connects_off_self(set![u], p);
    } else {
        assert(f != pe);
        assert(c.visited[y] >= c.low[u]);
        assert(g.joins(f, y, u));
        assert(c.cc[y] == 0);
        assert(crate::bcc_state::holds(c.stack, y));
        let j = index_of(c.stack, y);
        lemma_stack_order(g, c.time, c.visited, c.stack, c.cc, c.num_cc, j, k);
        lemma_ladder_off_between(g, c, k, j, kp);
    }
}

/// The search leaves a vertex: every vertex discovered since it entered is
/// connected to that vertex within its subtree, and is flagged exactly if
/// it is an articulation point.
pub proof fn lemma_ap_leave(
    g: &UndirectedGraph,
    c: BccState,
    k: int,
    kp: int,
    pe: int,
    children: int,
    first: int,
    t0: int,
)
    requires
        inv(g, c, -1),
        frame(g, c, k, kp, pe, g.adj_lists[c.stack[k] as int].len() as int),
        ap_inv(g, c.visited, c.low, c.stack, c.is_ap),
        ap_frame(g, c.visited, c.stack, c.is_ap, k, kp, children, first),
        children >= 0,
        c.visited[c.stack[k] as int] == t0 + 1,
    ensures
        ap_result(g, c.visited, flags_at_end(c, k, children), t0, t0, c.stack[k] as int),
        ap_inv(g, c.visited, c.low, c.stack, flags_at_end(c, k, children)),
        ap_inv(g, c.visited, c.low, c.stack.subrange(0, k), flags_at_end(c, k, children)),
{
    let n = g.adj_lists.len() as int;
    let u = c.stack[k] as int;
    let flags = flags_at_end(c, k, children);
    let rest = c.stack.subrange(0, k);
    lemma_closed(g, c, k, kp, pe);
    lemma_low_bound(g, c.time, c.visited, c.low, c.stack, c.cc, c.num_cc, c.pes, k);
    assert forall|i: int| 0 <= i < rest.len() implies #[trigger] has_low_off(
        g,
        c.visited,
        c.low,
        rest,
        i,
    ) by {
        assert(has_low_off(g, c.visited, c.low, c.stack, i));
        let j = low_off_target(g, c.visited, c.low, c.stack, i);
        assert(rest[i] == c.stack[i] && rest[j] == c.stack[j]);
    }
    assert forall|x: int| 0 <= x < n && #[trigger] c.visited[x] > t0 implies g.connects_off(
        upto(c.visited, t0),
        x,
        u,
    ) by {
        if x == u {
            g.lemma_connects_off_self(upto(c.visited, t0), u);
        } else {
            assert(c.visited[x] != c.visited[u]);
        }
    }
    // The flag of `u` itself.
    if !flags[u] {
        assert forall|a: int, b: int|
            #![trigger g.adjacent(u, a), g.adjacent(u, b)]
            g.adjacent(u, a) && g.adjacent(u, b) && a != u && b != u implies g.connects_off(
            set![u],
            a,
            b,
        ) by {
            let fa = choose|f: int| #[trigger] g.joins(f, u, a);
            let fb = choose|f: int| #[trigger] g.joins(f, u, b);
            assert(c.visited[a] != c.visited[u] && c.visited[b] != c.visited[u]);
            if k > 0 {
                let p = c.stack[kp] as int;
                if c.visited[a] <= c.visited[u] {
                    lemma_ap_elder(g, c, k, kp, pe, fa, a);
                }
                if c.visited[b] <= c.visited[u] {
                    lemma_ap_elder(g, c, k, kp, pe, fb, b);
                }
                assert(g.connects_off(set![u], a, p));
                assert(g.connects_off(set![u], b, p));
                g.lemma_connects_off_sym(set![u], b, p);
                g.lemma_connects_off_trans(set![u], a, p, b);
            } else {
                assert(c.low[u] == c.visited[u]);
                assert(c.visited[a] >= c.low[u]);
                assert(c.visited[b] >= c.low[u]);
                assert(children == 1);
                g.lemma_connects_off_sym(set![u], b, first);
                g.lemma_connects_off_trans(set![u], a, first, b);
            }
        }
    }
    assert forall|x: int| 0 <= x < n && c.visited[x] > t0 implies (#[trigger] flags[x]
        <==> g.is_articulation(x)) by {
        if x != u {
            assert(c.visited[x] != c.visited[u]);
            assert(c.is_ap[x] <==> g.is_articulation(x));
        }
    }
}

} // verus!
