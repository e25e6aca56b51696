//! The invariant that the search for 2-edge-connected and 2-vertex-connected
//! components keeps, and the steps by which it is kept.

use crate::graph::UndirectedGraph;
use crate::traversal::{lemma_zeros_bound, lemma_zeros_some, lemma_zeros_update, used, zeros};
use vstd::prelude::*;

verus! {

/// `x` is on the stack.
pub open spec fn holds(stack: Seq<usize>, x: int) -> bool {
    exists|i: int| 0 <= i < stack.len() && #[trigger] stack[i] == x
}

/// The position of `x` on the stack.
pub open spec fn index_of(stack: Seq<usize>, x: int) -> int {
    choose|i: int| 0 <= i < stack.len() && #[trigger] stack[i] == x
}

/// The vertex stack holds, in the order of their discovery, the vertices
/// that are discovered and not yet in a component; the components so far are
/// numbered from 1 to `num_cc`.
pub open spec fn stack_ok(
    g: &UndirectedGraph,
    time: usize,
    visited: Seq<usize>,
    stack: Seq<usize>,
    cc: Seq<usize>,
    num_cc: usize,
) -> bool {
    let n = g.adj_lists.len();
    &&& g.wf()
    &&& visited.len() == n
    &&& cc.len() == n
    &&& time + zeros(visited) == n
    &&& num_cc + stack.len() <= time
    &&& forall|v: int| 0 <= v < n ==> #[trigger] visited[v] <= time
    &&& forall|i: int|
        0 <= i < stack.len() ==> {
            let x = #[trigger] stack[i] as int;
            x < n && visited[x] != 0 && cc[x] == 0
        }
    &&& forall|i: int, j: int|
        0 <= i < j < stack.len() ==> visited[#[trigger] stack[i] as int] < visited[#[trigger] stack[j] as int]
    &&& forall|v: int| 0 <= v < n && #[trigger] visited[v] != 0 && cc[v] == 0 ==> holds(stack, v)
    &&& forall|v: int| 0 <= v < n ==> #[trigger] cc[v] <= num_cc && (cc[v] != 0 ==> visited[v] != 0)
    &&& forall|c: int| 1 <= c <= num_cc ==> #[trigger] used(cc, c)
}

/// The tree edges by which the vertices at stack positions `1..=i` were
/// discovered; `pes[j]` is the one that led to the vertex at position `j`.
pub open spec fn tree_edges(pes: Seq<int>, i: int) -> Set<int> {
    Set::new(|f: int| exists|j: int| 0 < j <= i && #[trigger] pes[j] == f)
}

/// The vertex at stack position `i` was discovered by its tree edge from a
/// vertex at a position from `floor` on, below `i`.
pub open spec fn has_parent(
    g: &UndirectedGraph,
    stack: Seq<usize>,
    pes: Seq<int>,
    i: int,
    floor: int,
) -> bool {
    exists|j: int| floor <= j < i && #[trigger] g.joins(pes[i], stack[i] as int, stack[j] as int)
}

/// The low-link of the vertex at stack position `i` is the discovery time of
/// a vertex at or below it on the stack, to which a walk leads that uses no
/// tree edge of the stack up to `i`.
pub open spec fn has_low(
    g: &UndirectedGraph,
    visited: Seq<usize>,
    low: Seq<usize>,
    stack: Seq<usize>,
    pes: Seq<int>,
    i: int,
) -> bool {
    exists|j: int|
        0 <= j <= i && low[stack[i] as int] == visited[#[trigger] stack[j] as int] && g.connects(
            tree_edges(pes, i),
            stack[i] as int,
            stack[j] as int,
        )
}

/// The witness of `has_low`.
pub open spec fn low_target(
    g: &UndirectedGraph,
    visited: Seq<usize>,
    low: Seq<usize>,
    stack: Seq<usize>,
    pes: Seq<int>,
    i: int,
) -> int {
    choose|j: int|
        0 <= j <= i && low[stack[i] as int] == visited[#[trigger] stack[j] as int] && g.connects(
            tree_edges(pes, i),
            stack[i] as int,
            stack[j] as int,
        )
}

/// The vertices on the stack form a tree, and each has its low-link.
pub open spec fn tree_ok(
    g: &UndirectedGraph,
    visited: Seq<usize>,
    low: Seq<usize>,
    stack: Seq<usize>,
    pes: Seq<int>,
) -> bool {
    &&& low.len() == g.adj_lists.len()
    &&& pes.len() == stack.len()
    &&& forall|i: int| 0 < i < stack.len() ==> #[trigger] has_parent(g, stack, pes, i, 0)
    &&& forall|i: int| 0 <= i < stack.len() ==> #[trigger] has_low(g, visited, low, stack, pes, i)
}

/// Positions on the stack are ordered as the discovery times are.
pub proof fn lemma_stack_order(
    g: &UndirectedGraph,
    time: usize,
    visited: Seq<usize>,
    stack: Seq<usize>,
    cc: Seq<usize>,
    num_cc: usize,
    i: int,
    j: int,
)
    requires
        stack_ok(g, time, visited, stack, cc, num_cc),
        0 <= i < stack.len(),
        0 <= j < stack.len(),
    ensures
        i < j <==> visited[stack[i] as int] < visited[stack[j] as int],
        i == j <==> stack[i] == stack[j],
{
    if i < j {
        assert(visited[stack[i] as int] < visited[stack[j] as int]);
    } else if j < i {
        assert(visited[stack[j] as int] < visited[stack[i] as int]);
    }
}

/// No vertex is on the stack twice.
pub proof fn lemma_stack_distinct(
    g: &UndirectedGraph,
    time: usize,
    visited: Seq<usize>,
    stack: Seq<usize>,
    cc: Seq<usize>,
    num_cc: usize,
)
    requires
        stack_ok(g, time, visited, stack, cc, num_cc),
    ensures
        forall|i: int, j: int|
            0 <= i < stack.len() && 0 <= j < stack.len() && i != j ==> #[trigger] stack[i]
                != #[trigger] stack[j],
{
    assert forall|i: int, j: int|
        0 <= i < stack.len() && 0 <= j < stack.len() && i != j implies #[trigger] stack[i]
        != #[trigger] stack[j] by {
        lemma_stack_order(g, time, visited, stack, cc, num_cc, i, j);
    }
}

/// Discovering a vertex keeps the vertex stack in order.
pub proof fn lemma_stack_visit(
    g: &UndirectedGraph,
    time: usize,
    visited: Seq<usize>,
    stack: Seq<usize>,
    cc: Seq<usize>,
    num_cc: usize,
    u: int,
)
    requires
        stack_ok(g, time, visited, stack, cc, num_cc),
        0 <= u < g.adj_lists.len(),
        visited[u] == 0,
    ensures
        time < usize::MAX,
        stack_ok(
            g,
            (time + 1) as usize,
            visited.update(u, (time + 1) as usize),
            stack.push(u as usize),
            cc,
            num_cc,
        ),
{
    let n = g.adj_lists.len() as int;
    let t = (time + 1) as usize;
    let visited1 = visited.update(u, t);
    let stack1 = stack.push(u as usize);
    let k = stack.len() as int;
    lemma_zeros_some(visited, u);
    lemma_zeros_bound(visited);
    lemma_zeros_update(visited, u, t);
    assert(cc[u] <= num_cc && (cc[u] != 0 ==> visited[u] != 0));
    assert forall|i: int| 0 <= i < stack1.len() implies {
        let x = #[trigger] stack1[i] as int;
        x < n && visited1[x] != 0 && cc[x] == 0
    } by {
        if i < k {
            assert(stack1[i] == stack[i]);
        }
    }
    assert forall|i: int, j: int| 0 <= i < j < stack1.len() implies visited1[#[trigger] stack1[i] as int]
        < visited1[#[trigger] stack1[j] as int] by {
        assert(stack1[i] == stack[i]);
        assert(visited[stack[i] as int] <= time);
        if j < k {
            assert(stack1[j] == stack[j]);
        }
    }
    assert forall|v: int| 0 <= v < n && #[trigger] visited1[v] != 0 && cc[v] == 0 implies holds(
        stack1,
        v,
    ) by {
        if v == u {
            assert(stack1[k] == u);
        } else {
            assert(holds(stack, v));
            assert(stack1[index_of(stack, v)] == v);
        }
    }
    assert forall|v: int| 0 <= v < n implies #[trigger] visited1[v] <= t by {
        assert(visited[v] <= time);
    }
    assert forall|v: int| 0 <= v < n implies #[trigger] cc[v] <= num_cc && (cc[v] != 0
        ==> visited1[v] != 0) by {
        assert(cc[v] <= num_cc && (cc[v] != 0 ==> visited[v] != 0));
    }
}

/// Discovering a vertex by a tree edge from a vertex on the stack, or as the
/// root of a new tree on an empty stack, keeps the tree.
pub proof fn lemma_tree_visit(
    g: &UndirectedGraph,
    time: usize,
    visited: Seq<usize>,
    low: Seq<usize>,
    stack: Seq<usize>,
    cc: Seq<usize>,
    num_cc: usize,
    pes: Seq<int>,
    u: int,
    pe: int,
)
    requires
        stack_ok(g, time, visited, stack, cc, num_cc),
        tree_ok(g, visited, low, stack, pes),
        0 <= u < g.adj_lists.len(),
        visited[u] == 0,
        stack.len() > 0 ==> has_parent(g, stack.push(u as usize), pes.push(pe), stack.len() as int, 0),
    ensures
        tree_ok(
            g,
            visited.update(u, (time + 1) as usize),
            low.update(u, (time + 1) as usize),
            stack.push(u as usize),
            pes.push(pe),
        ),
{
    let t = (time + 1) as usize;
    let visited1 = visited.update(u, t);
    let low1 = low.update(u, t);
    let stack1 = stack.push(u as usize);
    let pes1 = pes.push(pe);
    let k = stack.len() as int;
    assert forall|i: int| 0 < i < stack1.len() implies #[trigger] has_parent(g, stack1, pes1, i, 0) by {
        if i < k {
            assert(has_parent(g, stack, pes, i, 0));
            let j = choose|j: int|
                0 <= j < i && #[trigger] g.joins(pes[i], stack[i] as int, stack[j] as int);
            assert(g.joins(pes1[i], stack1[i] as int, stack1[j] as int));
        }
    }
    assert forall|i: int| 0 <= i < stack1.len() implies #[trigger] has_low(
        g,
        visited1,
        low1,
        stack1,
        pes1,
        i,
    ) by {
        if i < k {
            assert(has_low(g, visited, low, stack, pes, i));
            let j = low_target(g, visited, low, stack, pes, i);
            assert(stack1[i] == stack[i] && stack1[j] == stack[j]);
            assert(tree_edges(pes1, i) =~= tree_edges(pes, i)) by {
                assert forall|f: int| tree_edges(pes1, i).contains(f) implies tree_edges(
                    pes,
                    i,
                ).contains(f) by {
                    let q = choose|q: int| 0 < q <= i && #[trigger] pes1[q] == f;
                    assert(pes[q] == f);
                }
                assert forall|f: int| tree_edges(pes, i).contains(f) implies tree_edges(
                    pes1,
                    i,
                ).contains(f) by {
                    let q = choose|q: int| 0 < q <= i && #[trigger] pes[q] == f;
                    assert(pes1[q] == f);
                }
            }
        } else {
            g.lemma_connects_self(tree_edges(pes1, i), u);
            assert(stack1[k] == u);
        }
    }
}

/// A low-link on the stack is at most the discovery time of its vertex, and
/// is a discovery time.
pub proof fn lemma_low_bound(
    g: &UndirectedGraph,
    time: usize,
    visited: Seq<usize>,
    low: Seq<usize>,
    stack: Seq<usize>,
    cc: Seq<usize>,
    num_cc: usize,
    pes: Seq<int>,
    i: int,
)
    requires
        stack_ok(g, time, visited, stack, cc, num_cc),
        tree_ok(g, visited, low, stack, pes),
        0 <= i < stack.len(),
    ensures
        0 < low[stack[i] as int] <= visited[stack[i] as int],
        0 <= low_target(g, visited, low, stack, pes, i) <= i,
        low[stack[i] as int] == visited[stack[i] as int] ==> low_target(g, visited, low, stack, pes, i)
            == i,
        low[stack[i] as int] < visited[stack[i] as int] ==> low_target(g, visited, low, stack, pes, i)
            < i,
{
    assert(has_low(g, visited, low, stack, pes, i));
    let j = low_target(g, visited, low, stack, pes, i);
    lemma_stack_order(g, time, visited, stack, cc, num_cc, j, i);
}

/// An edge at a vertex above stack position `bound` is no tree edge of the
/// stack up to `bound`.
pub proof fn lemma_off_ladder(
    g: &UndirectedGraph,
    time: usize,
    visited: Seq<usize>,
    low: Seq<usize>,
    stack: Seq<usize>,
    cc: Seq<usize>,
    num_cc: usize,
    pes: Seq<int>,
    e: int,
    q: int,
    y: int,
    bound: int,
)
    requires
        stack_ok(g, time, visited, stack, cc, num_cc),
        tree_ok(g, visited, low, stack, pes),
        0 <= bound < q < stack.len(),
        g.joins(e, stack[q] as int, y),
    ensures
        !tree_edges(pes, bound).contains(e),
{
    if tree_edges(pes, bound).contains(e) {
        let i = choose|i: int| 0 < i <= bound && #[trigger] pes[i] == e;
        assert(has_parent(g, stack, pes, i, 0));
        let p = choose|p: int| 0 <= p < i && #[trigger] g.joins(pes[i], stack[i] as int, stack[p] as int);
        lemma_stack_order(g, time, visited, stack, cc, num_cc, q, i);
        lemma_stack_order(g, time, visited, stack, cc, num_cc, q, p);
    }
}

/// The tree edges lead from every vertex on the stack down to the bottom of
/// the stack, so a walk does that avoids none of them.
pub proof fn lemma_ladder(
    g: &UndirectedGraph,
    visited: Seq<usize>,
    low: Seq<usize>,
    stack: Seq<usize>,
    pes: Seq<int>,
    avoid: Set<int>,
    i: int,
)
    requires
        g.wf(),
        tree_ok(g, visited, low, stack, pes),
        0 <= i < stack.len(),
        forall|j: int| 0 <= j <= i ==> 0 <= #[trigger] stack[j] < g.adj_lists.len(),
        forall|j: int| 0 < j <= i ==> !avoid.contains(#[trigger] pes[j]),
    ensures
        g.connects(avoid, stack[i] as int, stack[0] as int),
    decreases i,
{
    if i == 0 {
        g.lemma_connects_self(avoid, stack[0] as int);
    } else {
        assert(has_parent(g, stack, pes, i, 0));
        let p = choose|p: int| 0 <= p < i && #[trigger] g.joins(pes[i], stack[i] as int, stack[p] as int);
        assert(!avoid.contains(pes[i]));
        g.lemma_connects_edge(avoid, pes[i], stack[i] as int, stack[p] as int);
        lemma_ladder(g, visited, low, stack, pes, avoid, p);
        g.lemma_connects_trans(avoid, stack[i] as int, stack[p] as int, stack[0] as int);
    }
}

/// Any two vertices on the stack are connected by a walk that avoids `avoid`,
/// if that holds none of the tree edges of the stack up to them.
pub proof fn lemma_ladder_between(
    g: &UndirectedGraph,
    visited: Seq<usize>,
    low: Seq<usize>,
    stack: Seq<usize>,
    pes: Seq<int>,
    avoid: Set<int>,
    i: int,
    j: int,
    bound: int,
)
    requires
        g.wf(),
        tree_ok(g, visited, low, stack, pes),
        0 <= i <= bound < stack.len(),
        0 <= j <= bound,
        forall|q: int| 0 <= q <= bound ==> 0 <= #[trigger] stack[q] < g.adj_lists.len(),
        forall|q: int| 0 < q <= bound ==> !avoid.contains(#[trigger] pes[q]),
    ensures
        g.connects(avoid, stack[i] as int, stack[j] as int),
{
    lemma_ladder(g, visited, low, stack, pes, avoid, i);
    lemma_ladder(g, visited, low, stack, pes, avoid, j);
    g.lemma_connects_sym(avoid, stack[j] as int, stack[0] as int);
    g.lemma_connects_trans(avoid, stack[i] as int, stack[0] as int, stack[j] as int);
}

/// Lowering the low-link of the vertex at stack position `k` to the
/// discovery time of a vertex at or below it, to which a fitting walk
/// leads, keeps the tree.
pub proof fn lemma_low_update(
    g: &UndirectedGraph,
    time: usize,
    visited: Seq<usize>,
    low: Seq<usize>,
    stack: Seq<usize>,
    cc: Seq<usize>,
    num_cc: usize,
    pes: Seq<int>,
    k: int,
    j: int,
)
    requires
        stack_ok(g, time, visited, stack, cc, num_cc),
        tree_ok(g, visited, low, stack, pes),
        0 <= j <= k < stack.len(),
        g.connects(tree_edges(pes, k), stack[k] as int, stack[j] as int),
    ensures
        tree_ok(g, visited, low.update(stack[k] as int, visited[stack[j] as int]), stack, pes),
{
    let low1 = low.update(stack[k] as int, visited[stack[j] as int]);
    assert forall|i: int| 0 <= i < stack.len() implies #[trigger] has_low(
        g,
        visited,
        low1,
        stack,
        pes,
        i,
    ) by {
        if i == k {
            assert(low1[stack[k] as int] == visited[stack[j] as int]);
        } else {
            lemma_stack_order(g, time, visited, stack, cc, num_cc, i, k);
            assert(has_low(g, visited, low, stack, pes, i));
            let w = low_target(g, visited, low, stack, pes, i);
            assert(low1[stack[i] as int] == visited[stack[w] as int]);
        }
    }
}

/// An edge from the vertex at stack position `k`, other than its tree edge,
/// to a vertex discovered earlier and not yet in a component leads down the
/// stack, and is a walk that uses no tree edge of the stack up to `k`.
pub proof fn lemma_back_edge(
    g: &UndirectedGraph,
    time: usize,
    visited: Seq<usize>,
    low: Seq<usize>,
    stack: Seq<usize>,
    cc: Seq<usize>,
    num_cc: usize,
    pes: Seq<int>,
    k: int,
    e: int,
    y: int,
)
    requires
        stack_ok(g, time, visited, stack, cc, num_cc),
        tree_ok(g, visited, low, stack, pes),
        0 <= k < stack.len(),
        g.joins(e, stack[k] as int, y),
        e != pes[k],
        visited[y] != 0,
        visited[y] < visited[stack[k] as int],
        cc[y] == 0,
    ensures
        holds(stack, y),
        0 <= index_of(stack, y) < k,
        g.connects(tree_edges(pes, k), stack[k] as int, y),
{
    assert(holds(stack, y));
    let j = index_of(stack, y);
    lemma_stack_order(g, time, visited, stack, cc, num_cc, j, k);
    if k > 0 {
        lemma_off_ladder(g, time, visited, low, stack, cc, num_cc, pes, e, k, y, k - 1);
    }
    assert(!tree_edges(pes, k).contains(e)) by {
        if tree_edges(pes, k).contains(e) {
            let i = choose|i: int| 0 < i <= k && #[trigger] pes[i] == e;
            assert(i < k);
            assert(tree_edges(pes, k - 1).contains(e));
        }
    }
    g.lemma_connects_edge(tree_edges(pes, k), e, stack[k] as int, y);
}

/// Where the vertex at stack position `lv` was discovered from the vertex at
/// position `k` and has the smaller low-link, that low-link is the discovery
/// time of a vertex below `k`, to which a walk leads from the vertex at `k`
/// that uses no tree edge of the stack up to `k`.
pub proof fn lemma_child_low(
    g: &UndirectedGraph,
    time: usize,
    visited: Seq<usize>,
    low: Seq<usize>,
    stack: Seq<usize>,
    cc: Seq<usize>,
    num_cc: usize,
    pes: Seq<int>,
    k: int,
    lv: int,
) -> (j: int)
    requires
        stack_ok(g, time, visited, stack, cc, num_cc),
        tree_ok(g, visited, low, stack, pes),
        0 <= k < lv < stack.len(),
        g.joins(pes[lv], stack[lv] as int, stack[k] as int),
        low[stack[lv] as int] < low[stack[k] as int],
    ensures
        0 <= j < k,
        low[stack[lv] as int] == visited[stack[j] as int],
        g.connects(tree_edges(pes, k), stack[k] as int, stack[j] as int),
{
    let u = stack[k] as int;
    let v = stack[lv] as int;
    assert(has_low(g, visited, low, stack, pes, lv));
    let j = low_target(g, visited, low, stack, pes, lv);
    lemma_low_bound(g, time, visited, low, stack, cc, num_cc, pes, k);
    lemma_stack_order(g, time, visited, stack, cc, num_cc, j, k);
    assert(tree_edges(pes, k).subset_of(tree_edges(pes, lv))) by {
        assert forall|f: int| tree_edges(pes, k).contains(f) implies tree_edges(pes, lv).contains(
            f,
        ) by {
            let q = choose|q: int| 0 < q <= k && #[trigger] pes[q] == f;
            assert(0 < q <= lv && pes[q] == f);
        }
    }
    g.lemma_connects_mono(tree_edges(pes, lv), tree_edges(pes, k), v, stack[j] as int);
    lemma_off_ladder(g, time, visited, low, stack, cc, num_cc, pes, pes[lv], lv, u, k);
    g.lemma_connects_edge(tree_edges(pes, k), pes[lv], u, v);
    g.lemma_connects_trans(tree_edges(pes, k), u, v, stack[j] as int);
    j
}

/// A vertex whose search ends with a low-link below its own discovery time
/// is two-edge-connected to the vertex from which it was discovered.
pub proof fn lemma_return(
    g: &UndirectedGraph,
    time: usize,
    visited: Seq<usize>,
    low: Seq<usize>,
    stack: Seq<usize>,
    cc: Seq<usize>,
    num_cc: usize,
    pes: Seq<int>,
    k: int,
    kp: int,
)
    requires
        stack_ok(g, time, visited, stack, cc, num_cc),
        tree_ok(g, visited, low, stack, pes),
        0 <= kp < k < stack.len(),
        g.joins(pes[k], stack[k] as int, stack[kp] as int),
        low[stack[k] as int] < visited[stack[k] as int],
    ensures
        g.two_edge_connected(stack[k] as int, stack[kp] as int),
{
    let u = stack[k] as int;
    let p = stack[kp] as int;
    let e = pes[k];
    g.lemma_connects_edge(Set::empty(), e, u, p);
    assert forall|f: int| 0 <= f < g.edges.len() implies #[trigger] g.connects(set![f], u, p) by {
        if f != e {
            g.lemma_connects_edge(set![f], e, u, p);
        } else {
            lemma_low_bound(g, time, visited, low, stack, cc, num_cc, pes, k);
            let j = low_target(g, visited, low, stack, pes, k);
            assert(has_low(g, visited, low, stack, pes, k));
            assert(set![e].subset_of(tree_edges(pes, k)));
            g.lemma_connects_mono(tree_edges(pes, k), set![e], u, stack[j] as int);
            lemma_off_ladder(g, time, visited, low, stack, cc, num_cc, pes, e, k, p, k - 1);
            assert forall|q: int| 0 < q <= k - 1 implies !set![e].contains(#[trigger] pes[q]) by {
                if pes[q] == e {
                    assert(tree_edges(pes, k - 1).contains(e));
                }
            }
            lemma_ladder_between(g, visited, low, stack, pes, set![e], j, kp, k - 1);
            g.lemma_connects_trans(set![e], u, stack[j] as int, p);
        }
    }
}

/// Two vertices share a component id exactly if they are two-edge-connected,
/// as far as ids have been given; and an edge leaves a finished component
/// only towards a vertex discovered before.
pub open spec fn parts_ok(g: &UndirectedGraph, visited: Seq<usize>, cc: Seq<usize>) -> bool {
    let n = g.adj_lists.len();
    &&& forall|x: int, y: int|
        0 <= x < n && 0 <= y < n && #[trigger] cc[x] != 0 && cc[x] == #[trigger] cc[y]
            ==> g.two_edge_connected(x, y)
    &&& forall|x: int, y: int|
        0 <= x < n && 0 <= y < n && #[trigger] cc[x] != 0 && cc[x] != #[trigger] cc[y]
            ==> !g.two_edge_connected(x, y)
    &&& forall|e: int, x: int, y: int|
        #[trigger] g.joins(e, x, y) && cc[x] != 0 ==> cc[y] != 0 || (visited[y] != 0 && visited[y]
            < visited[x])
}

/// The vertex at stack position `i` is two-edge-connected to the vertex
/// from which it was discovered, which sits at a position from `floor` on.
pub open spec fn rung(g: &UndirectedGraph, stack: Seq<usize>, pes: Seq<int>, i: int, floor: int) -> bool {
    exists|j: int|
        floor <= j < i && #[trigger] g.joins(pes[i], stack[i] as int, stack[j] as int)
            && g.two_edge_connected(stack[i] as int, stack[j] as int)
}

/// Every vertex at the stack positions `lo..hi` is two-edge-connected to the
/// vertex from which it was discovered, which sits at a position from `floor`
/// on.
pub open spec fn settled(
    g: &UndirectedGraph,
    stack: Seq<usize>,
    pes: Seq<int>,
    lo: int,
    hi: int,
    floor: int,
) -> bool {
    forall|i: int| lo <= i < hi ==> #[trigger] rung(g, stack, pes, i, floor)
}

/// Every edge but `except` at a vertex discovered after time `since` leads
/// to a vertex discovered at time `bound` or later.
pub open spec fn fenced(
    g: &UndirectedGraph,
    visited: Seq<usize>,
    since: int,
    except: int,
    bound: int,
) -> bool {
    forall|e: int, x: int, y: int|
        #[trigger] g.joins(e, x, y) && e != except && visited[x] > since ==> visited[y] >= bound
}

/// The first `idx` adjacency entries of `u` lead, but for the edge `except`,
/// to vertices discovered at time `bound` or later.
pub open spec fn handled(
    g: &UndirectedGraph,
    visited: Seq<usize>,
    u: int,
    except: int,
    bound: int,
    idx: int,
) -> bool {
    forall|t: int|
        0 <= t < idx ==> {
            let entry = #[trigger] g.adj_lists[u][t];
            entry.0 == except || visited[entry.1 as int] >= bound
        }
}

/// No other vertex has the discovery time of `u`.
pub open spec fn alone(visited: Seq<usize>, u: int) -> bool {
    forall|x: int| 0 <= x < visited.len() && x != u ==> #[trigger] visited[x] != visited[u]
}

/// `v` is on the stack at position `k` or above.
pub open spec fn taken(stack: Seq<usize>, k: int, v: int) -> bool {
    exists|i: int| k <= i < stack.len() && #[trigger] stack[i] == v
}

/// `after` gives the id `id` to the vertices on the stack from position `k`
/// on, and keeps the ids of the others.
pub open spec fn renumbered(
    before: Seq<usize>,
    after: Seq<usize>,
    stack: Seq<usize>,
    k: int,
    id: int,
) -> bool {
    &&& after.len() == before.len()
    &&& forall|i: int| k <= i < stack.len() ==> after[#[trigger] stack[i] as int] == id
    &&& forall|v: int|
        0 <= v < before.len() ==> #[trigger] after[v] == before[v] || (after[v] == id && taken(
            stack,
            k,
            v,
        ))
}

/// Taking the stack from position `k` on as a new component keeps the
/// vertex stack in order.
pub proof fn lemma_stack_pop(
    g: &UndirectedGraph,
    time: usize,
    visited: Seq<usize>,
    stack: Seq<usize>,
    cc: Seq<usize>,
    num_cc: usize,
    after: Seq<usize>,
    k: int,
)
    requires
        stack_ok(g, time, visited, stack, cc, num_cc),
        0 <= k < stack.len(),
        renumbered(cc, after, stack, k, num_cc + 1),
    ensures
        num_cc < usize::MAX,
        stack_ok(g, time, visited, stack.subrange(0, k), after, (num_cc + 1) as usize),
        forall|v: int|
            0 <= v < cc.len() && visited[v] < visited[stack[k] as int] ==> #[trigger] after[v] == cc[v],
        forall|v: int| 0 <= v < cc.len() && #[trigger] cc[v] != 0 ==> after[v] == cc[v],
        forall|v: int| 0 <= v < cc.len() && visited[v] >= visited[stack[k] as int] ==> #[trigger] after[v] != 0,
{
    let n = g.adj_lists.len() as int;
    let rest = stack.subrange(0, k);
    let id = (num_cc + 1) as usize;
    assert forall|v: int| 0 <= v < n && taken(stack, k, v) implies #[trigger] after[v] == id && cc[v] == 0
        && visited[v] >= visited[stack[k] as int] by {
        let i = choose|i: int| k <= i < stack.len() && #[trigger] stack[i] == v;
        lemma_stack_order(g, time, visited, stack, cc, num_cc, k, i);
    }
    assert forall|v: int| 0 <= v < n && #[trigger] cc[v] != 0 implies after[v] == cc[v] by {
        assert(cc[v] <= num_cc && (cc[v] != 0 ==> visited[v] != 0));
    }
    assert forall|v: int| 0 <= v < cc.len() && visited[v] >= visited[stack[k] as int] implies #[trigger] after[v]
        != 0 by {
        assert(visited[stack[k] as int] != 0);
        if cc[v] == 0 {
            assert(holds(stack, v));
            let i = index_of(stack, v);
            lemma_stack_order(g, time, visited, stack, cc, num_cc, i, k);
            assert(after[stack[i] as int] == id);
        }
    }
    assert forall|i: int| 0 <= i < rest.len() implies {
        let x = #[trigger] rest[i] as int;
        x < n && visited[x] != 0 && after[x] == 0
    } by {
        let x = stack[i] as int;
        assert(rest[i] == stack[i]);
        if taken(stack, k, x) {
            let j = choose|j: int| k <= j < stack.len() && #[trigger] stack[j] == x;
            lemma_stack_order(g, time, visited, stack, cc, num_cc, i, j);
        }
    }
    assert forall|i: int, j: int| 0 <= i < j < rest.len() implies visited[#[trigger] rest[i] as int]
        < visited[#[trigger] rest[j] as int] by {
        assert(rest[i] == stack[i]);
        assert(rest[j] == stack[j]);
    }
    assert forall|v: int| 0 <= v < n && #[trigger] visited[v] != 0 && after[v] == 0 implies holds(
        rest,
        v,
    ) by {
        assert(holds(stack, v));
        let i = index_of(stack, v);
        if i >= k {
            assert(after[stack[i] as int] == id);
        }
        assert(rest[i] == v);
    }
    assert forall|v: int| 0 <= v < n implies #[trigger] after[v] <= id && (after[v] != 0
        ==> visited[v] != 0) by {
        assert(cc[v] <= num_cc && (cc[v] != 0 ==> visited[v] != 0));
    }
    assert forall|c: int| 1 <= c <= id implies #[trigger] used(after, c) by {
        if c == id {
            assert(after[stack[k] as int] == id);
        } else {
            assert(used(cc, c));
            let v = choose|v: int| 0 <= v < cc.len() && #[trigger] cc[v] == c;
            assert(after[v] == c);
        }
    }
}

/// The bottom of the stack is a tree of its own.
pub proof fn lemma_tree_pop(
    g: &UndirectedGraph,
    visited: Seq<usize>,
    low: Seq<usize>,
    stack: Seq<usize>,
    pes: Seq<int>,
    k: int,
)
    requires
        tree_ok(g, visited, low, stack, pes),
        0 <= k <= stack.len(),
    ensures
        tree_ok(g, visited, low, stack.subrange(0, k), pes.subrange(0, k)),
{
    let rest = stack.subrange(0, k);
    let pes1 = pes.subrange(0, k);
    assert forall|i: int| 0 < i < rest.len() implies #[trigger] has_parent(g, rest, pes1, i, 0) by {
        assert(has_parent(g, stack, pes, i, 0));
        let j = choose|j: int| 0 <= j < i && #[trigger] g.joins(pes[i], stack[i] as int, stack[j] as int);
        assert(g.joins(pes1[i], rest[i] as int, rest[j] as int));
    }
    assert forall|i: int| 0 <= i < rest.len() implies #[trigger] has_low(
        g,
        visited,
        low,
        rest,
        pes1,
        i,
    ) by {
        assert(has_low(g, visited, low, stack, pes, i));
        let j = low_target(g, visited, low, stack, pes, i);
        assert(rest[i] == stack[i] && rest[j] == stack[j]);
        assert(tree_edges(pes1, i) =~= tree_edges(pes, i)) by {
            assert forall|f: int| tree_edges(pes1, i).contains(f) implies tree_edges(pes, i).contains(
                f,
            ) by {
                let q = choose|q: int| 0 < q <= i && #[trigger] pes1[q] == f;
                assert(pes[q] == f);
            }
            assert forall|f: int| tree_edges(pes, i).contains(f) implies tree_edges(pes1, i).contains(
                f,
            ) by {
                let q = choose|q: int| 0 < q <= i && #[trigger] pes[q] == f;
                assert(pes1[q] == f);
            }
        }
    }
}

/// Every settled vertex above stack position `k` is two-edge-connected to
/// the vertex at `k`.
pub proof fn lemma_chain(g: &UndirectedGraph, stack: Seq<usize>, pes: Seq<int>, k: int, i: int)
    requires
        g.wf(),
        0 <= k <= i < stack.len(),
        0 <= stack[k] < g.adj_lists.len(),
        settled(g, stack, pes, k + 1, stack.len() as int, k),
    ensures
        g.two_edge_connected(stack[i] as int, stack[k] as int),
    decreases i,
{
    if i == k {
        g.lemma_two_edge_connected_self(stack[k] as int);
    } else {
        assert(rung(g, stack, pes, i, k));
        let j = choose|j: int|
            k <= j < i && #[trigger] g.joins(pes[i], stack[i] as int, stack[j] as int)
                && g.two_edge_connected(stack[i] as int, stack[j] as int);
        lemma_chain(g, stack, pes, k, j);
        g.lemma_two_edge_connected_trans(stack[i] as int, stack[j] as int, stack[k] as int);
    }
}

/// A vertex that is its own low-link when its search ends is the root of a
/// 2-edge-connected component, which is the stack from it upwards: giving
/// that a new id keeps the components right.
pub proof fn lemma_parts_pop(
    g: &UndirectedGraph,
    time: usize,
    visited: Seq<usize>,
    stack: Seq<usize>,
    cc: Seq<usize>,
    num_cc: usize,
    pes: Seq<int>,
    after: Seq<usize>,
    k: int,
    kp: int,
)
    requires
        stack_ok(g, time, visited, stack, cc, num_cc),
        parts_ok(g, visited, cc),
        0 <= k < stack.len(),
        renumbered(cc, after, stack, k, num_cc + 1),
        settled(g, stack, pes, k + 1, stack.len() as int, k),
        alone(visited, stack[k] as int),
        fenced(g, visited, visited[stack[k] as int] as int, -1, visited[stack[k] as int] as int),
        forall|e: int, y: int|
            #[trigger] g.joins(e, stack[k] as int, y) && (k == 0 || e != pes[k]) ==> visited[y]
                >= visited[stack[k] as int],
        k > 0 ==> 0 <= kp < k && g.joins(pes[k], stack[k] as int, stack[kp] as int),
    ensures
        parts_ok(g, visited, after),
{
    let n = g.adj_lists.len() as int;
    let u = stack[k] as int;
    let id = (num_cc + 1) as usize;
    lemma_stack_pop(g, time, visited, stack, cc, num_cc, after, k);
    lemma_stack_distinct(g, time, visited, stack, cc, num_cc);
    let avoid = if k > 0 {
        set![pes[k]]
    } else {
        Set::<int>::empty()
    };
    let mark = Seq::new(n as nat, |z: int| visited[z] >= visited[u]);
    assert forall|e: int, x: int, y: int|
        #[trigger] g.joins(e, x, y) && !avoid.contains(e) && 0 <= x < mark.len() && 0 <= y
            < mark.len() && mark[x] implies mark[y] by {
        if x != u {
            assert(visited[x] != visited[u]);
        }
    }
    assert forall|v: int| 0 <= v < n && taken(stack, k, v) implies cc[v] == 0 && #[trigger] after[v] == id
        && g.two_edge_connected(v, u) && visited[v] >= visited[u] by {
        let i = choose|i: int| k <= i < stack.len() && #[trigger] stack[i] == v;
        lemma_chain(g, stack, pes, k, i);
        lemma_stack_order(g, time, visited, stack, cc, num_cc, k, i);
    }
    assert forall|x: int, y: int|
        0 <= x < n && 0 <= y < n && #[trigger] after[x] != 0 && after[x] == #[trigger] after[y] implies g.two_edge_connected(
        x,
        y,
    ) by {
        assert(cc[x] <= num_cc && cc[y] <= num_cc);
        if after[x] == id {
            assert(taken(stack, k, x) && taken(stack, k, y));
            g.lemma_two_edge_connected_sym(y, u);
            g.lemma_two_edge_connected_trans(x, u, y);
        } else {
            assert(cc[x] != 0 && cc[x] == cc[y]);
        }
    }
    assert forall|x: int, y: int|
        0 <= x < n && 0 <= y < n && #[trigger] after[x] != 0 && after[x] != #[trigger] after[y] implies !g.two_edge_connected(
        x,
        y,
    ) by {
        assert(cc[x] <= num_cc && cc[y] <= num_cc);
        if after[x] == id {
            assert(taken(stack, k, x));
            if cc[y] != 0 {
                assert(cc[y] != 0 && cc[y] != cc[x]);
                if g.two_edge_connected(x, y) {
                    g.lemma_two_edge_connected_sym(x, y);
                }
            } else {
                assert(!mark[y]);
                if g.two_edge_connected(x, y) {
                    if k > 0 {
                        assert(g.connects(set![pes[k]], x, y));
                    }
                    g.lemma_marks_fence(avoid, mark, x, y);
                }
            }
        } else {
            assert(cc[x] != 0 && cc[x] != cc[y]);
        }
    }
    assert forall|e: int, x: int, y: int| #[trigger] g.joins(e, x, y) && after[x] != 0 implies after[y]
        != 0 || (visited[y] != 0 && visited[y] < visited[x]) by {
        if cc[x] != 0 {
            assert(cc[y] != 0 || (visited[y] != 0 && visited[y] < visited[x]));
        } else {
            assert(taken(stack, k, x));
            if avoid.contains(e) {
                let i = choose|i: int| k <= i < stack.len() && #[trigger] stack[i] == x;
                assert(visited[stack[kp] as int] < visited[stack[k] as int]);
                assert(stack[i] != stack[kp]);
            } else {
                assert(mark[x]);
                assert(mark[y]);
            }
        }
    }
}

/// Edge `f` has been put on the edge stack at some time: it is there still,
/// or has its 2-vertex-connected component.
pub open spec fn placed(estack: Seq<usize>, vcc: Seq<usize>, f: int) -> bool {
    vcc[f] != 0 || holds(estack, f)
}

/// The edge stack holds, each once, edges that have no component yet; no
/// edge at an undiscovered vertex has been placed, but for `pending`; and
/// the components so far are numbered from 1 to `num_vcc`, each taking at
/// least one edge.
pub open spec fn edges_ok(
    g: &UndirectedGraph,
    visited: Seq<usize>,
    estack: Seq<usize>,
    vcc: Seq<usize>,
    num_vcc: usize,
    pending: int,
) -> bool {
    let m = g.edges.len();
    &&& vcc.len() == m
    &&& forall|i: int|
        0 <= i < estack.len() ==> {
            let f = #[trigger] estack[i] as int;
            f < m && vcc[f] == 0
        }
    &&& forall|i: int, j: int|
        0 <= i < j < estack.len() ==> #[trigger] estack[i] != #[trigger] estack[j]
    &&& forall|e: int, x: int, y: int|
        #[trigger] g.joins(e, x, y) && e != pending && visited[x] == 0 ==> !placed(estack, vcc, e)
    &&& forall|f: int| 0 <= f < m ==> #[trigger] vcc[f] <= num_vcc
    &&& forall|c: int| 1 <= c <= num_vcc ==> #[trigger] used(vcc, c)
    &&& num_vcc + zeros(vcc) <= m
}

/// Every edge at a vertex discovered after time `since` has been placed.
pub open spec fn placed_since(
    g: &UndirectedGraph,
    visited: Seq<usize>,
    estack: Seq<usize>,
    vcc: Seq<usize>,
    since: int,
) -> bool {
    forall|e: int, x: int, y: int|
        #[trigger] g.joins(e, x, y) && visited[x] > since ==> placed(estack, vcc, e)
}

/// The edges of the first `idx` adjacency entries of `u` have been placed.
pub open spec fn placed_prefix(
    g: &UndirectedGraph,
    estack: Seq<usize>,
    vcc: Seq<usize>,
    u: int,
    idx: int,
) -> bool {
    forall|t: int| 0 <= t < idx ==> placed(estack, vcc, (#[trigger] g.adj_lists[u][t]).0 as int)
}

/// Of the adjacency entries of `u` from `idx` on, only the edge `except` and
/// edges to vertices discovered after `u` have been placed.
pub open spec fn fresh_rest(
    g: &UndirectedGraph,
    visited: Seq<usize>,
    estack: Seq<usize>,
    vcc: Seq<usize>,
    u: int,
    except: int,
    idx: int,
) -> bool {
    forall|t: int|
        idx <= t < g.adj_lists[u].len() ==> {
            let entry = #[trigger] g.adj_lists[u][t];
            placed(estack, vcc, entry.0 as int) ==> entry.0 == except || visited[entry.1 as int]
                > visited[u]
        }
}

/// Every edge placed between two states has an end discovered between them.
pub open spec fn newly(
    g: &UndirectedGraph,
    visited_a: Seq<usize>,
    estack_a: Seq<usize>,
    vcc_a: Seq<usize>,
    visited_b: Seq<usize>,
    estack_b: Seq<usize>,
    vcc_b: Seq<usize>,
) -> bool {
    forall|e: int, x: int, y: int|
        #[trigger] g.joins(e, x, y) && placed(estack_b, vcc_b, e) && !placed(estack_a, vcc_a, e) ==> (
        visited_a[x] == 0 && visited_b[x] != 0) || (visited_a[y] == 0 && visited_b[y] != 0)
}

/// The discovery of a vertex takes its tree edge off the list of edges that
/// are placed with an end undiscovered.
pub proof fn lemma_edges_visit(
    g: &UndirectedGraph,
    visited: Seq<usize>,
    estack: Seq<usize>,
    vcc: Seq<usize>,
    num_vcc: usize,
    pe: int,
    u: int,
    p: int,
    t: usize,
)
    requires
        g.wf(),
        edges_ok(g, visited, estack, vcc, num_vcc, pe),
        0 <= u < visited.len(),
        visited.len() == g.adj_lists.len(),
        t != 0,
        pe >= 0 ==> g.joins(pe, u, p) && visited[p] != 0,
    ensures
        edges_ok(g, visited.update(u, t), estack, vcc, num_vcc, -1),
        visited[u] == 0 ==> fresh_rest(g, visited.update(u, t), estack, vcc, u, pe, 0),
{
    let visited1 = visited.update(u, t);
    assert forall|e: int, x: int, y: int|
        #[trigger] g.joins(e, x, y) && e != -1 && visited1[x] == 0 implies !placed(estack, vcc, e) by {
        if e == pe {
            assert(g.joins(pe, u, p));
        }
    }
    if visited[u] == 0 {
        assert forall|i: int| 0 <= i < g.adj_lists[u].len() implies {
            let entry = #[trigger] g.adj_lists[u][i];
            placed(estack, vcc, entry.0 as int) ==> entry.0 == pe || visited1[entry.1 as int]
                > visited1[u]
        } by {
            let entry = g.adj_lists[u][i];
            assert(g.joins(entry.0 as int, u, entry.1 as int));
        }
    }
}

/// An edge that has not been placed can go onto the edge stack.
pub proof fn lemma_edges_push(
    g: &UndirectedGraph,
    visited: Seq<usize>,
    estack: Seq<usize>,
    vcc: Seq<usize>,
    num_vcc: usize,
    e: int,
)
    requires
        edges_ok(g, visited, estack, vcc, num_vcc, -1),
        0 <= e < g.edges.len(),
        !placed(estack, vcc, e),
    ensures
        edges_ok(g, visited, estack.push(e as usize), vcc, num_vcc, e),
        forall|f: int|
            0 <= f < g.edges.len() ==> (#[trigger] placed(estack.push(e as usize), vcc, f) <==> f == e
                || placed(estack, vcc, f)),
{
    let estack1 = estack.push(e as usize);
    assert forall|f: int| 0 <= f < g.edges.len() implies (#[trigger] placed(estack1, vcc, f) <==> f
        == e || placed(estack, vcc, f)) by {
        if holds(estack, f) {
            assert(estack1[index_of(estack, f)] == f);
        }
        if f == e {
            assert(estack1[estack.len() as int] == e);
        }
        if holds(estack1, f) && f != e {
            let i = index_of(estack1, f);
            assert(estack[i] == f);
        }
    }
    assert forall|i: int, j: int| 0 <= i < j < estack1.len() implies #[trigger] estack1[i]
        != #[trigger] estack1[j] by {
        assert(estack1[i] == estack[i]);
        if j < estack.len() {
            assert(estack1[j] == estack[j]);
        }
    }
    assert forall|i: int| 0 <= i < estack1.len() implies {
        let f = #[trigger] estack1[i] as int;
        f < g.edges.len() && vcc[f] == 0
    } by {
        if i < estack.len() {
            assert(estack1[i] == estack[i]);
        }
    }
    assert forall|f: int, x: int, y: int|
        #[trigger] g.joins(f, x, y) && f != e && visited[x] == 0 implies !placed(estack1, vcc, f) by {
        assert(!placed(estack, vcc, f));
    }
}

/// An edge that has not been placed can be a component of its own.
pub proof fn lemma_edges_assign(
    g: &UndirectedGraph,
    visited: Seq<usize>,
    estack: Seq<usize>,
    vcc: Seq<usize>,
    num_vcc: usize,
    e: int,
    x: int,
    y: int,
)
    requires
        edges_ok(g, visited, estack, vcc, num_vcc, -1),
        g.joins(e, x, y),
        visited[x] != 0,
        visited[y] != 0,
        !placed(estack, vcc, e),
    ensures
        num_vcc < usize::MAX,
        edges_ok(g, visited, estack, vcc.update(e, (num_vcc + 1) as usize), (num_vcc + 1) as usize, -1),
        forall|f: int|
            0 <= f < g.edges.len() ==> (#[trigger] placed(
                estack,
                vcc.update(e, (num_vcc + 1) as usize),
                f,
            ) <==> f == e || placed(estack, vcc, f)),
{
    lemma_zeros_some(vcc, e);
    lemma_zeros_update(vcc, e, (num_vcc + 1) as usize);
    let vcc1 = vcc.update(e, (num_vcc + 1) as usize);
    assert forall|c: int| 1 <= c <= num_vcc + 1 implies #[trigger] used(vcc1, c) by {
        if c == num_vcc + 1 {
            assert(vcc1[e] == c);
        } else {
            assert(used(vcc, c));
            let f = choose|f: int| 0 <= f < vcc.len() && #[trigger] vcc[f] == c;
            assert(vcc1[f] == c);
        }
    }
    assert forall|i: int| 0 <= i < estack.len() implies {
        let f = #[trigger] estack[i] as int;
        f < g.edges.len() && vcc1[f] == 0
    } by {}
    assert forall|f: int, a: int, b: int|
        #[trigger] g.joins(f, a, b) && f != -1 && visited[a] == 0 implies !placed(estack, vcc1, f) by {
        assert(!placed(estack, vcc, f));
    }
}

/// Taking the edge stack from position `k` on as a new component keeps the
/// edges in order, and leaves placed what was placed.
pub proof fn lemma_edges_pop(
    g: &UndirectedGraph,
    visited: Seq<usize>,
    estack: Seq<usize>,
    vcc: Seq<usize>,
    num_vcc: usize,
    after: Seq<usize>,
    k: int,
)
    requires
        edges_ok(g, visited, estack, vcc, num_vcc, -1),
        0 <= k < estack.len(),
        renumbered(vcc, after, estack, k, num_vcc + 1),
        num_vcc + 1 + zeros(after) <= g.edges.len(),
    ensures
        edges_ok(g, visited, estack.subrange(0, k), after, (num_vcc + 1) as usize, -1),
        forall|f: int|
            0 <= f < g.edges.len() ==> (#[trigger] placed(estack.subrange(0, k), after, f) <==> placed(
                estack,
                vcc,
                f,
            )),
        forall|f: int| 0 <= f < g.edges.len() && #[trigger] vcc[f] != 0 ==> after[f] == vcc[f],
{
    let rest = estack.subrange(0, k);
    let id = (num_vcc + 1) as usize;
    assert forall|f: int| 0 <= f < g.edges.len() && taken(estack, k, f) implies #[trigger] after[f] == id
        && vcc[f] == 0 by {
        let i = choose|i: int| k <= i < estack.len() && #[trigger] estack[i] == f;
    }
    assert forall|f: int| 0 <= f < g.edges.len() && #[trigger] vcc[f] != 0 implies after[f] == vcc[f] by {}
    assert forall|c: int| 1 <= c <= id implies #[trigger] used(after, c) by {
        if c == id {
            assert(after[estack[k] as int] == id);
        } else {
            assert(used(vcc, c));
            let f = choose|f: int| 0 <= f < vcc.len() && #[trigger] vcc[f] == c;
            assert(after[f] == c);
        }
    }
    assert forall|i: int| 0 <= i < rest.len() implies {
        let f = #[trigger] rest[i] as int;
        f < g.edges.len() && after[f] == 0
    } by {
        let f = estack[i] as int;
        assert(rest[i] == estack[i]);
        if taken(estack, k, f) {
            let j = choose|j: int| k <= j < estack.len() && #[trigger] estack[j] == f;
            assert(estack[i] != estack[j]);
        }
    }
    assert forall|i: int, j: int| 0 <= i < j < rest.len() implies #[trigger] rest[i]
        != #[trigger] rest[j] by {
        assert(rest[i] == estack[i] && rest[j] == estack[j]);
    }
    assert forall|f: int| 0 <= f < g.edges.len() implies (#[trigger] placed(rest, after, f) <==> placed(
        estack,
        vcc,
        f,
    )) by {
        if holds(rest, f) {
            let i = index_of(rest, f);
            assert(estack[i] == f);
        }
        if holds(estack, f) {
            let i = index_of(estack, f);
            if i < k {
                assert(rest[i] == f);
            } else {
                assert(after[estack[i] as int] == id);
            }
        }
    }
    assert forall|e: int, x: int, y: int|
        #[trigger] g.joins(e, x, y) && e != -1 && visited[x] == 0 implies !placed(rest, after, e) by {
        assert(!placed(estack, vcc, e));
    }
}

/// What the search has recorded at one moment, with the tree edge by which
/// each vertex on the stack was discovered.
pub struct BccState {
    pub time: usize,
    pub visited: Seq<usize>,
    pub low: Seq<usize>,
    pub stack: Seq<usize>,
    pub pes: Seq<int>,
    pub cc: Seq<usize>,
    pub num_cc: usize,
    pub estack: Seq<usize>,
    pub vcc: Seq<usize>,
    pub num_vcc: usize,
    pub is_ap: Seq<bool>,
}

/// The invariant of the search, between any two of its steps; `pending` is
/// the tree edge that has been placed for a vertex about to be discovered.
pub open spec fn inv(g: &UndirectedGraph, s: BccState, pending: int) -> bool {
    &&& stack_ok(g, s.time, s.visited, s.stack, s.cc, s.num_cc)
    &&& tree_ok(g, s.visited, s.low, s.stack, s.pes)
    &&& parts_ok(g, s.visited, s.cc)
    &&& edges_ok(g, s.visited, s.estack, s.vcc, s.num_vcc, pending)
    &&& s.is_ap.len() == g.adj_lists.len()
}

/// Between `a` and `b` the search has changed nothing that it had recorded
/// of a discovered vertex or a placed edge, and has taken nothing off the
/// stacks of `a`.
pub open spec fn keeps(g: &UndirectedGraph, a: BccState, b: BccState) -> bool {
    &&& a.time <= b.time
    &&& a.num_cc <= b.num_cc
    &&& forall|x: int|
        0 <= x < a.visited.len() && #[trigger] a.visited[x] != 0 ==> {
            &&& b.visited[x] == a.visited[x]
            &&& b.low[x] == a.low[x]
            &&& b.cc[x] == a.cc[x]
            &&& b.is_ap[x] == a.is_ap[x]
        }
    &&& forall|x: int|
        0 <= x < a.visited.len() && a.visited[x] == 0 && #[trigger] b.visited[x] != 0 ==> b.visited[x]
            > a.time
    &&& a.stack.len() <= b.stack.len()
    &&& forall|i: int|
        0 <= i < a.stack.len() ==> #[trigger] b.stack[i] == a.stack[i] && b.pes[i] == a.pes[i]
    &&& a.estack.len() <= b.estack.len()
    &&& forall|i: int| 0 <= i < a.estack.len() ==> #[trigger] b.estack[i] == a.estack[i]
    &&& forall|f: int| 0 <= f < a.vcc.len() && #[trigger] a.vcc[f] != 0 ==> b.vcc[f] == a.vcc[f]
    &&& newly(g, a.visited, a.estack, a.vcc, b.visited, b.estack, b.vcc)
}

/// What holds while the search looks at the adjacency entries of the vertex
/// at stack position `k`, which was discovered by the edge `pe` from the
/// vertex at position `kp` or is the root of its tree, and has looked at the
/// first `idx` of them.
pub open spec fn frame(g: &UndirectedGraph, s: BccState, k: int, kp: int, pe: int, idx: int) -> bool {
    let u = s.stack[k] as int;
    &&& 0 <= k < s.stack.len()
    &&& s.pes[k] == pe
    &&& k > 0 ==> 0 <= kp < k && g.joins(pe, u, s.stack[kp] as int) && placed(s.estack, s.vcc, pe)
    &&& k == 0 ==> pe == -1
    &&& 0 <= idx <= g.adj_lists[u].len()
    &&& settled(g, s.stack, s.pes, k + 1, s.stack.len() as int, k)
    &&& fenced(g, s.visited, s.visited[u] as int, -1, s.low[u] as int)
    &&& handled(g, s.visited, u, pe, s.low[u] as int, idx)
    &&& alone(s.visited, u)
    &&& placed_since(g, s.visited, s.estack, s.vcc, s.visited[u] as int)
    &&& placed_prefix(g, s.estack, s.vcc, u, idx)
    &&& fresh_rest(g, s.visited, s.estack, s.vcc, u, pe, idx)
}

/// What a search from `u`, begun in state `a` with `u` discovered by the
/// edge `pe` from the vertex at stack position `kp`, leaves behind in `b`.
pub open spec fn result(
    g: &UndirectedGraph,
    a: BccState,
    b: BccState,
    u: int,
    pe: int,
    kp: int,
) -> bool {
    let k = a.stack.len() as int;
    &&& inv(g, b, -1)
    &&& keeps(g, a, b)
    &&& b.visited[u] == a.time + 1
    &&& b.stack.len() > k ==> b.stack[k] == u && b.pes[k] == pe && b.low[u] < b.visited[u]
    &&& b.stack.len() == k ==> b.low[u] == b.visited[u]
    &&& settled(g, b.stack, b.pes, k, b.stack.len() as int, kp)
    &&& 0 < b.low[u] <= b.visited[u]
    &&& fenced(g, b.visited, a.time as int, pe, b.low[u] as int)
    &&& placed_since(g, b.visited, b.estack, b.vcc, a.time as int)
    &&& k == 0 ==> b.stack.len() == 0 && b.estack.len() == 0
}

/// The state after the discovery of `u` by the tree edge `pe`.
pub open spec fn after_visit(s: BccState, u: int, pe: int) -> BccState {
    BccState {
        time: (s.time + 1) as usize,
        visited: s.visited.update(u, (s.time + 1) as usize),
        low: s.low.update(u, (s.time + 1) as usize),
        stack: s.stack.push(u as usize),
        pes: s.pes.push(pe),
        ..s
    }
}

/// The state after the low-link of `u` has been lowered to `val`.
pub open spec fn after_lower(s: BccState, u: int, val: usize) -> BccState {
    BccState { low: s.low.update(u, if val < s.low[u] { val } else { s.low[u] }), ..s }
}

/// The state after edge `e` has gone onto the edge stack.
pub open spec fn after_push(s: BccState, e: int) -> BccState {
    BccState { estack: s.estack.push(e as usize), ..s }
}

/// Keeping is transitive.
pub proof fn lemma_keeps_trans(g: &UndirectedGraph, a: BccState, b: BccState, c: BccState)
    requires
        g.wf(),
        keeps(g, a, b),
        keeps(g, b, c),
        a.visited.len() == g.adj_lists.len(),
        a.visited.len() == b.visited.len(),
        a.vcc.len() == b.vcc.len(),
    ensures
        keeps(g, a, c),
{
    assert forall|x: int| 0 <= x < a.visited.len() && #[trigger] a.visited[x] != 0 implies {
        &&& c.visited[x] == a.visited[x]
        &&& c.low[x] == a.low[x]
        &&& c.cc[x] == a.cc[x]
        &&& c.is_ap[x] == a.is_ap[x]
    } by {
        assert(b.visited[x] != 0);
    }
    assert forall|x: int|
        0 <= x < a.visited.len() && a.visited[x] == 0 && #[trigger] c.visited[x] != 0 implies c.visited[x]
        > a.time by {
        if b.visited[x] != 0 {
            assert(b.visited[x] > a.time);
        }
    }
    assert forall|i: int| 0 <= i < a.stack.len() implies #[trigger] c.stack[i] == a.stack[i]
        && c.pes[i] == a.pes[i] by {
        assert(b.stack[i] == a.stack[i]);
    }
    assert forall|i: int| 0 <= i < a.estack.len() implies #[trigger] c.estack[i] == a.estack[i] by {
        assert(b.estack[i] == a.estack[i]);
    }
    assert forall|f: int| 0 <= f < a.vcc.len() && #[trigger] a.vcc[f] != 0 implies c.vcc[f]
        == a.vcc[f] by {
        assert(b.vcc[f] != 0);
    }
    assert forall|e: int, x: int, y: int|
        #[trigger] g.joins(e, x, y) && placed(c.estack, c.vcc, e) && !placed(a.estack, a.vcc, e) implies (
    a.visited[x] == 0 && c.visited[x] != 0) || (a.visited[y] == 0 && c.visited[y] != 0) by {
        assert(0 <= x < a.visited.len() && 0 <= y < a.visited.len());
        if placed(b.estack, b.vcc, e) {
            if a.visited[x] == 0 && b.visited[x] != 0 {
                assert(c.visited[x] == b.visited[x]);
            } else {
                assert(c.visited[y] == b.visited[y]);
            }
        } else {
            if b.visited[x] == 0 && c.visited[x] != 0 {
                if a.visited[x] != 0 {
                    assert(b.visited[x] == a.visited[x]);
                }
            } else {
                if a.visited[y] != 0 {
                    assert(b.visited[y] == a.visited[y]);
                }
            }
        }
    }
}

/// The search enters a vertex: discovering it keeps the invariant, and
/// nothing has been looked at yet.
pub proof fn lemma_enter(g: &UndirectedGraph, s: BccState, u: int, pe: int, kp: int)
    requires
        inv(g, s, pe),
        0 <= u < g.adj_lists.len(),
        s.visited[u] == 0,
        s.stack.len() == 0 ==> pe == -1,
        s.stack.len() > 0 ==> 0 <= kp < s.stack.len() && g.joins(pe, u, s.stack[kp] as int)
            && placed(s.estack, s.vcc, pe),
    ensures
        s.time < usize::MAX,
        inv(g, after_visit(s, u, pe), -1),
        keeps(g, s, after_visit(s, u, pe)),
        frame(g, after_visit(s, u, pe), s.stack.len() as int, kp, pe, 0),
{
    let t = after_visit(s, u, pe);
    let k = s.stack.len() as int;
    lemma_stack_visit(g, s.time, s.visited, s.stack, s.cc, s.num_cc, u);
    if k > 0 {
        assert(g.joins(t.pes[k], t.stack[k] as int, t.stack[kp] as int));
        assert(has_parent(g, t.stack, t.pes, k, 0));
    }
    lemma_tree_visit(g, s.time, s.visited, s.low, s.stack, s.cc, s.num_cc, s.pes, u, pe);
    assert(parts_ok(g, t.visited, t.cc)) by {
        assert forall|e: int, x: int, y: int| #[trigger] g.joins(e, x, y) && t.cc[x] != 0 implies t.cc[y]
            != 0 || (t.visited[y] != 0 && t.visited[y] < t.visited[x]) by {
            assert(s.cc[x] <= s.num_cc && (s.cc[x] != 0 ==> s.visited[x] != 0));
        }
    }
    lemma_edges_visit(
        g,
        s.visited,
        s.estack,
        s.vcc,
        s.num_vcc,
        pe,
        u,
        if k > 0 {
            s.stack[kp] as int
        } else {
            0
        },
        t.time,
    );
    assert(alone(t.visited, u)) by {
        assert forall|x: int| 0 <= x < t.visited.len() && x != u implies #[trigger] t.visited[x]
            != t.visited[u] by {
            assert(s.visited[x] <= s.time);
        }
    }
    assert(fenced(g, t.visited, t.visited[u] as int, -1, t.low[u] as int)) by {
        assert forall|e: int, x: int, y: int|
            #[trigger] g.joins(e, x, y) && e != -1 && t.visited[x] > t.visited[u] implies t.visited[y]
            >= t.low[u] by {
            assert(s.visited[x] <= s.time);
        }
    }
    assert(placed_since(g, t.visited, t.estack, t.vcc, t.visited[u] as int)) by {
        assert forall|e: int, x: int, y: int|
            #[trigger] g.joins(e, x, y) && t.visited[x] > t.visited[u] implies placed(
            t.estack,
            t.vcc,
            e,
        ) by {
            assert(s.visited[x] <= s.time);
        }
    }
    assert(t.stack[k] == u);
}

/// The search is about to follow edge `e` to the undiscovered vertex `v`:
/// the edge can go onto the edge stack.
pub proof fn lemma_descend(
    g: &UndirectedGraph,
    a: BccState,
    k: int,
    kp: int,
    pe: int,
    idx: int,
    e: int,
    v: int,
)
    requires
        inv(g, a, -1),
        frame(g, a, k, kp, pe, idx),
        idx < g.adj_lists[a.stack[k] as int].len(),
        g.adj_lists[a.stack[k] as int][idx].0 == e,
        g.adj_lists[a.stack[k] as int][idx].1 == v,
        a.visited[v] == 0,
    ensures
        0 <= e < g.edges.len(),
        0 <= v < g.adj_lists.len(),
        g.joins(e, v, a.stack[k] as int),
        !placed(a.estack, a.vcc, e),
        inv(g, after_push(a, e), e),
        placed(after_push(a, e).estack, a.vcc, e),
{
    let u = a.stack[k] as int;
    let entry = g.adj_lists[u][idx];
    assert(g.joins(entry.0 as int, u, entry.1 as int));
    assert(g.joins(e, v, u));
    lemma_edges_push(g, a.visited, a.estack, a.vcc, a.num_vcc, e);
    let a1 = after_push(a, e);
    assert(placed(a1.estack, a1.vcc, e));
}

/// What is placed stays placed where the search keeps its records.
pub proof fn lemma_placed_stays(g: &UndirectedGraph, a: BccState, b: BccState, f: int)
    requires
        keeps(g, a, b),
        0 <= f < a.vcc.len(),
        placed(a.estack, a.vcc, f),
    ensures
        placed(b.estack, b.vcc, f),
{
    if a.vcc[f] == 0 {
        let i = index_of(a.estack, f);
        assert(b.estack[i] == a.estack[i]);
    }
}

/// The search has come back from the vertex `v`, which it discovered by the
/// edge `e` from the vertex `u` at stack position `k`, and has lowered the
/// low-link of `u` to that of `v`: the edge has been looked at.
pub proof fn lemma_ascend(
    g: &UndirectedGraph,
    s0: BccState,
    a: BccState,
    b: BccState,
    c: BccState,
    k: int,
    kp: int,
    pe: int,
    idx: int,
    e: int,
    v: int,
)
    requires
        inv(g, a, -1),
        frame(g, a, k, kp, pe, idx),
        keeps(g, s0, a),
        s0.visited.len() == g.adj_lists.len(),
        s0.vcc.len() == g.edges.len(),
        s0.stack.len() == k,
        s0.visited[a.stack[k] as int] == 0,
        idx < g.adj_lists[a.stack[k] as int].len(),
        g.adj_lists[a.stack[k] as int][idx].0 == e,
        g.adj_lists[a.stack[k] as int][idx].1 == v,
        a.visited[v] == 0,
        result(g, after_push(a, e), b, v, e, k),
        c == after_lower(b, a.stack[k] as int, b.low[v]),
    ensures
        inv(g, c, -1),
        frame(g, c, k, kp, pe, idx + 1),
        keeps(g, s0, c),
        c.stack[k] == a.stack[k],
        c.visited[a.stack[k] as int] == a.visited[a.stack[k] as int],
        a.estack.len() < c.estack.len(),
        c.estack[a.estack.len() as int] == e,
        c.vcc[e] == 0,
        0 < c.low[a.stack[k] as int] <= c.visited[a.stack[k] as int],
{
    let n = g.adj_lists.len() as int;
    let u = a.stack[k] as int;
    let a1 = after_push(a, e);
    let la = a.stack.len() as int;
    let lb = b.stack.len() as int;
    lemma_descend(g, a, k, kp, pe, idx, e, v);
    lemma_low_bound(g, a.time, a.visited, a.low, a.stack, a.cc, a.num_cc, a.pes, k);
    assert(b.stack[k] == a1.stack[k]);
    assert(a.visited[u] != 0 && a.visited[u] <= a.time);
    assert(b.visited[u] == a.visited[u] && b.low[u] == a.low[u]);
    lemma_low_bound(g, b.time, b.visited, b.low, b.stack, b.cc, b.num_cc, b.pes, k);
    assert(b.estack[a.estack.len() as int] == a1.estack[a.estack.len() as int]);
    // The low-link of `u` keeps a witness.
    if b.low[v] < b.low[u] {
        assert(lb > la);
        let j = lemma_child_low(g, b.time, b.visited, b.low, b.stack, b.cc, b.num_cc, b.pes, k, la);
        lemma_low_update(g, b.time, b.visited, b.low, b.stack, b.cc, b.num_cc, b.pes, k, j);
        assert(c.low =~= b.low.update(u, b.visited[b.stack[j] as int]));
    } else {
        assert(c.low =~= b.low);
    }
    // Between `a` and `b` the search kept its records.
    assert(keeps(g, a, b)) by {
        assert forall|i: int| 0 <= i < a.stack.len() implies #[trigger] b.stack[i] == a.stack[i]
            && b.pes[i] == a.pes[i] by {
            assert(b.stack[i] == a1.stack[i]);
        }
        assert forall|i: int| 0 <= i < a.estack.len() implies #[trigger] b.estack[i] == a.estack[i] by {
            assert(b.estack[i] == a1.estack[i]);
        }
        assert forall|f: int, x: int, y: int|
            #[trigger] g.joins(f, x, y) && placed(b.estack, b.vcc, f) && !placed(a.estack, a.vcc, f) implies (
        a.visited[x] == 0 && b.visited[x] != 0) || (a.visited[y] == 0 && b.visited[y] != 0) by {
            if f != e {
                if holds(a1.estack, f) {
                    let i = index_of(a1.estack, f);
                    assert(a.estack[i] == f);
                }
                assert(!placed(a1.estack, a1.vcc, f));
            }
        }
    }
    lemma_keeps_trans(g, s0, a, b);
    assert(keeps(g, s0, c));
    assert forall|f: int| 0 <= f < g.edges.len() && placed(a.estack, a.vcc, f) implies placed(
        c.estack,
        c.vcc,
        f,
    ) by {
        lemma_placed_stays(g, a, b, f);
    }
    assert(settled(g, c.stack, c.pes, k + 1, c.stack.len() as int, k)) by {
        assert forall|i: int| k + 1 <= i < c.stack.len() implies #[trigger] rung(
            g,
            c.stack,
            c.pes,
            i,
            k,
        ) by {
            if i < la {
                assert(rung(g, a.stack, a.pes, i, k));
                let j = choose|j: int|
                    k <= j < i && #[trigger] g.joins(a.pes[i], a.stack[i] as int, a.stack[j] as int)
                        && g.two_edge_connected(a.stack[i] as int, a.stack[j] as int);
                assert(b.stack[i] == a.stack[i] && b.stack[j] == a.stack[j]);
                assert(g.joins(c.pes[i], c.stack[i] as int, c.stack[j] as int));
            } else {
                assert(rung(g, b.stack, b.pes, i, k));
            }
        }
    }
    assert(fenced(g, c.visited, c.visited[u] as int, -1, c.low[u] as int)) by {
        assert forall|f: int, x: int, y: int|
            #[trigger] g.joins(f, x, y) && f != -1 && c.visited[x] > c.visited[u] implies c.visited[y]
            >= c.low[u] by {
            if a.visited[x] != 0 {
                assert(a.visited[y] >= a.low[u]);
            } else if f == e {
                assert(x == v && y == u);
            }
        }
    }
    assert(handled(g, c.visited, u, pe, c.low[u] as int, idx + 1)) by {
        assert forall|t: int| 0 <= t < idx + 1 implies ({
            let entry = #[trigger] g.adj_lists[u][t];
            entry.0 == pe || c.visited[entry.1 as int] >= c.low[u]
        }) by {
            let entry = g.adj_lists[u][t];
            assert(g.joins(entry.0 as int, u, entry.1 as int));
            if t < idx {
                if entry.0 != pe {
                    assert(a.visited[entry.1 as int] >= a.low[u]);
                }
            }
        }
    }
    assert(alone(c.visited, u)) by {
        assert forall|x: int| 0 <= x < c.visited.len() && x != u implies #[trigger] c.visited[x]
            != c.visited[u] by {
            if a.visited[x] != 0 {
                assert(a.visited[x] != a.visited[u]);
            }
        }
    }
    assert(placed_since(g, c.visited, c.estack, c.vcc, c.visited[u] as int)) by {
        assert forall|f: int, x: int, y: int|
            #[trigger] g.joins(f, x, y) && c.visited[x] > c.visited[u] implies placed(
            c.estack,
            c.vcc,
            f,
        ) by {
            if a.visited[x] != 0 {
                assert(placed(a.estack, a.vcc, f));
            }
        }
    }
    assert(placed_prefix(g, c.estack, c.vcc, u, idx + 1)) by {
        assert forall|t: int| 0 <= t < idx + 1 implies placed(
            c.estack,
            c.vcc,
            (#[trigger] g.adj_lists[u][t]).0 as int,
        ) by {
            let entry = g.adj_lists[u][t];
            assert(g.joins(entry.0 as int, u, entry.1 as int));
            if t < idx {
                assert(placed(a.estack, a.vcc, entry.0 as int));
            }
        }
    }
    assert(fresh_rest(g, c.visited, c.estack, c.vcc, u, pe, idx + 1)) by {
        assert forall|t: int| idx + 1 <= t < g.adj_lists[u].len() implies ({
            let entry = #[trigger] g.adj_lists[u][t];
            placed(c.estack, c.vcc, entry.0 as int) ==> entry.0 == pe || c.visited[entry.1 as int]
                > c.visited[u]
        }) by {
            let entry = g.adj_lists[u][t];
            let f = entry.0 as int;
            let y = entry.1 as int;
            assert(g.joins(f, u, y));
            assert(g.adj_lists[u][idx].0 != g.adj_lists[u][t].0);
            if placed(c.estack, c.vcc, f) && !placed(a.estack, a.vcc, f) {
                assert(a.visited[y] == 0 && b.visited[y] != 0);
            }
        }
    }
    if k > 0 {
        assert(c.stack[kp] == a.stack[kp]);
    }
}

/// The state after edge `e` has become a component of its own.
pub open spec fn after_assign(s: BccState, e: int) -> BccState {
    BccState {
        vcc: s.vcc.update(e, (s.num_vcc + 1) as usize),
        num_vcc: (s.num_vcc + 1) as usize,
        ..s
    }
}

/// The state after the edge stack from position `k` on has become a
/// component, with the ids `vcc`.
pub open spec fn after_cut(s: BccState, k: int, vcc: Seq<usize>) -> BccState {
    BccState { estack: s.estack.subrange(0, k), vcc, num_vcc: (s.num_vcc + 1) as usize, ..s }
}

/// The state after the vertex stack from position `k` on has become a
/// component, with the ids `cc`.
pub open spec fn after_pop(s: BccState, k: int, cc: Seq<usize>) -> BccState {
    BccState {
        stack: s.stack.subrange(0, k),
        pes: s.pes.subrange(0, k),
        cc,
        num_cc: (s.num_cc + 1) as usize,
        ..s
    }
}

/// The search has found the edge `e` to lead from the vertex `u` at stack
/// position `k` back to a vertex `v` discovered before it: the low-link of `u`
/// takes the discovery time of `v` into account, and the edge goes onto the
/// edge stack.
pub proof fn lemma_back(
    g: &UndirectedGraph,
    s0: BccState,
    a: BccState,
    c: BccState,
    k: int,
    kp: int,
    pe: int,
    idx: int,
    e: int,
    v: int,
)
    requires
        inv(g, a, -1),
        frame(g, a, k, kp, pe, idx),
        keeps(g, s0, a),
        s0.stack.len() == k,
        s0.visited.len() == g.adj_lists.len(),
        s0.vcc.len() == g.edges.len(),
        s0.visited[a.stack[k] as int] == 0,
        idx < g.adj_lists[a.stack[k] as int].len(),
        g.adj_lists[a.stack[k] as int][idx].0 == e,
        g.adj_lists[a.stack[k] as int][idx].1 == v,
        a.visited[v] != 0,
        e != pe,
        a.visited[v] < a.visited[a.stack[k] as int],
        c == after_push(after_lower(a, a.stack[k] as int, a.visited[v]), e),
    ensures
        k > 0,
        inv(g, c, -1),
        frame(g, c, k, kp, pe, idx + 1),
        keeps(g, s0, c),
        holds(a.stack, v),
        0 <= index_of(a.stack, v) < k,
{
    let u = a.stack[k] as int;
    let entry = g.adj_lists[u][idx];
    assert(g.joins(entry.0 as int, u, entry.1 as int));
    assert(g.joins(e, v, u));
    assert(a.cc[v] == 0);
    lemma_back_edge(g, a.time, a.visited, a.low, a.stack, a.cc, a.num_cc, a.pes, k, e, v);
    let j = index_of(a.stack, v);
    lemma_low_update(g, a.time, a.visited, a.low, a.stack, a.cc, a.num_cc, a.pes, k, j);
    lemma_low_bound(g, a.time, a.visited, a.low, a.stack, a.cc, a.num_cc, a.pes, k);
    if a.visited[v] < a.low[u] {
        assert(c.low =~= a.low.update(u, a.visited[a.stack[j] as int]));
    } else {
        assert(c.low =~= a.low);
    }
    assert(!placed(a.estack, a.vcc, e));
    lemma_edges_push(g, a.visited, a.estack, a.vcc, a.num_vcc, e);
    assert(edges_ok(g, c.visited, c.estack, c.vcc, c.num_vcc, -1)) by {
        assert forall|f: int, x: int, y: int|
            #[trigger] g.joins(f, x, y) && f != -1 && c.visited[x] == 0 implies !placed(
            c.estack,
            c.vcc,
            f,
        ) by {
            if f != e {
                assert(!placed(a.estack, a.vcc, f));
            }
        }
    }
    assert(fresh_rest(g, c.visited, c.estack, c.vcc, u, pe, idx + 1)) by {
        assert forall|t: int| idx + 1 <= t < g.adj_lists[u].len() implies ({
            let entry = #[trigger] g.adj_lists[u][t];
            placed(c.estack, c.vcc, entry.0 as int) ==> entry.0 == pe || c.visited[entry.1 as int]
                > c.visited[u]
        }) by {
            let entry = g.adj_lists[u][t];
            assert(g.joins(entry.0 as int, u, entry.1 as int));
            assert(g.adj_lists[u][idx].0 != g.adj_lists[u][t].0);
        }
    }
    assert(placed_prefix(g, c.estack, c.vcc, u, idx + 1)) by {
        assert forall|t: int| 0 <= t < idx + 1 implies placed(
            c.estack,
            c.vcc,
            (#[trigger] g.adj_lists[u][t]).0 as int,
        ) by {
            let entry = g.adj_lists[u][t];
            assert(g.joins(entry.0 as int, u, entry.1 as int));
        }
    }
    assert(placed_since(g, c.visited, c.estack, c.vcc, c.visited[u] as int)) by {
        assert forall|f: int, x: int, y: int|
            #[trigger] g.joins(f, x, y) && c.visited[x] > c.visited[u] implies placed(
            c.estack,
            c.vcc,
            f,
        ) by {
            assert(placed(a.estack, a.vcc, f));
        }
    }
    assert(keeps(g, s0, c)) by {
        assert forall|i: int| 0 <= i < s0.estack.len() implies #[trigger] c.estack[i]
            == s0.estack[i] by {
            assert(a.estack[i] == s0.estack[i]);
        }
        assert forall|f: int, x: int, y: int|
            #[trigger] g.joins(f, x, y) && placed(c.estack, c.vcc, f) && !placed(
                s0.estack,
                s0.vcc,
                f,
            ) implies (s0.visited[x] == 0 && c.visited[x] != 0) || (s0.visited[y] == 0
            && c.visited[y] != 0) by {
            if f != e {
                assert(placed(a.estack, a.vcc, f));
            }
        }
    }
    if k > 0 {
        assert(placed(c.estack, c.vcc, pe));
    }
}

/// The search has found the edge `e` to be a loop at the vertex at stack
/// position `k`: the edge becomes a component of its own.
pub proof fn lemma_self_loop(
    g: &UndirectedGraph,
    s0: BccState,
    a: BccState,
    k: int,
    kp: int,
    pe: int,
    idx: int,
    e: int,
)
    requires
        inv(g, a, -1),
        frame(g, a, k, kp, pe, idx),
        keeps(g, s0, a),
        s0.stack.len() == k,
        s0.visited.len() == g.adj_lists.len(),
        s0.vcc.len() == g.edges.len(),
        s0.visited[a.stack[k] as int] == 0,
        idx < g.adj_lists[a.stack[k] as int].len(),
        g.adj_lists[a.stack[k] as int][idx].0 == e,
        g.adj_lists[a.stack[k] as int][idx].1 == a.stack[k],
    ensures
        a.num_vcc < usize::MAX,
        0 <= e < g.edges.len(),
        inv(g, after_assign(a, e), -1),
        frame(g, after_assign(a, e), k, kp, pe, idx + 1),
        keeps(g, s0, after_assign(a, e)),
{
    let u = a.stack[k] as int;
    let c = after_assign(a, e);
    let entry = g.adj_lists[u][idx];
    assert(g.joins(entry.0 as int, u, entry.1 as int));
    assert(g.joins(e, u, u));
    lemma_low_bound(g, a.time, a.visited, a.low, a.stack, a.cc, a.num_cc, a.pes, k);
    if k > 0 {
        lemma_stack_order(g, a.time, a.visited, a.stack, a.cc, a.num_cc, k, kp);
    }
    assert(e != pe);
    assert(!placed(a.estack, a.vcc, e));
    lemma_edges_assign(g, a.visited, a.estack, a.vcc, a.num_vcc, e, u, u);
    assert(fresh_rest(g, c.visited, c.estack, c.vcc, u, pe, idx + 1)) by {
        assert forall|t: int| idx + 1 <= t < g.adj_lists[u].len() implies ({
            let entry = #[trigger] g.adj_lists[u][t];
            placed(c.estack, c.vcc, entry.0 as int) ==> entry.0 == pe || c.visited[entry.1 as int]
                > c.visited[u]
        }) by {
            let entry = g.adj_lists[u][t];
            assert(g.joins(entry.0 as int, u, entry.1 as int));
            assert(g.adj_lists[u][idx].0 != g.adj_lists[u][t].0);
        }
    }
    assert(placed_prefix(g, c.estack, c.vcc, u, idx + 1)) by {
        assert forall|t: int| 0 <= t < idx + 1 implies placed(
            c.estack,
            c.vcc,
            (#[trigger] g.adj_lists[u][t]).0 as int,
        ) by {
            let entry = g.adj_lists[u][t];
            assert(g.joins(entry.0 as int, u, entry.1 as int));
        }
    }
    assert(placed_since(g, c.visited, c.estack, c.vcc, c.visited[u] as int)) by {
        assert forall|f: int, x: int, y: int|
            #[trigger] g.joins(f, x, y) && c.visited[x] > c.visited[u] implies placed(
            c.estack,
            c.vcc,
            f,
        ) by {
            assert(placed(a.estack, a.vcc, f));
        }
    }
    assert(keeps(g, s0, c)) by {
        assert forall|f: int| 0 <= f < s0.vcc.len() && #[trigger] s0.vcc[f] != 0 implies c.vcc[f]
            == s0.vcc[f] by {
            assert(a.vcc[f] == s0.vcc[f]);
        }
        assert forall|f: int, x: int, y: int|
            #[trigger] g.joins(f, x, y) && placed(c.estack, c.vcc, f) && !placed(
                s0.estack,
                s0.vcc,
                f,
            ) implies (s0.visited[x] == 0 && c.visited[x] != 0) || (s0.visited[y] == 0
            && c.visited[y] != 0) by {
            if f != e {
                assert(placed(a.estack, a.vcc, f));
            }
        }
    }
    if k > 0 {
        assert(placed(c.estack, c.vcc, pe));
    }
}

/// The search has found the edge `e` to be the tree edge of the vertex at
/// stack position `k`, or to lead to a vertex discovered after it: there is
/// nothing to do.
pub proof fn lemma_skip(
    g: &UndirectedGraph,
    a: BccState,
    k: int,
    kp: int,
    pe: int,
    idx: int,
    e: int,
    v: int,
)
    requires
        inv(g, a, -1),
        frame(g, a, k, kp, pe, idx),
        idx < g.adj_lists[a.stack[k] as int].len(),
        g.adj_lists[a.stack[k] as int][idx].0 == e,
        g.adj_lists[a.stack[k] as int][idx].1 == v,
        a.visited[v] != 0,
        e == pe || a.visited[v] >= a.visited[a.stack[k] as int],
        v != a.stack[k],
    ensures
        frame(g, a, k, kp, pe, idx + 1),
{
    let u = a.stack[k] as int;
    let entry = g.adj_lists[u][idx];
    assert(g.joins(entry.0 as int, u, entry.1 as int));
    assert(g.joins(e, v, u));
    lemma_low_bound(g, a.time, a.visited, a.low, a.stack, a.cc, a.num_cc, a.pes, k);
    assert(a.visited[v] != a.visited[u]);
    assert(placed_prefix(g, a.estack, a.vcc, u, idx + 1)) by {
        assert forall|t: int| 0 <= t < idx + 1 implies placed(
            a.estack,
            a.vcc,
            (#[trigger] g.adj_lists[u][t]).0 as int,
        ) by {}
    }
}

/// When the search has looked at every adjacency entry of the vertex at
/// stack position `k`, every edge at that vertex has been placed, and all
/// but its tree edge lead to vertices discovered no earlier than its
/// low-link says.
pub proof fn lemma_closed(g: &UndirectedGraph, a: BccState, k: int, kp: int, pe: int)
    requires
        inv(g, a, -1),
        frame(g, a, k, kp, pe, g.adj_lists[a.stack[k] as int].len() as int),
    ensures
        forall|f: int, y: int|
            #[trigger] g.joins(f, a.stack[k] as int, y) ==> placed(a.estack, a.vcc, f) && (f == pe
                || a.visited[y] >= a.low[a.stack[k] as int]),
{
    let u = a.stack[k] as int;
    assert forall|f: int, y: int| #[trigger] g.joins(f, u, y) implies placed(a.estack, a.vcc, f) && (f
        == pe || a.visited[y] >= a.low[u]) by {
        if g.edges[f].0 == u {
            assert(g.lists(f, g.edges[f].0 as int, g.edges[f].1 as int));
        } else {
            assert(g.lists(f, g.edges[f].1 as int, g.edges[f].0 as int));
        }
        let i = choose|i: int|
            0 <= i < g.adj_lists[u].len() && #[trigger] g.adj_lists[u][i] == (f as usize, y as usize);
        assert(placed(a.estack, a.vcc, g.adj_lists[u][i].0 as int));
    }
}

/// The edge stack from position `le` on has become a new component: that
/// keeps the invariant, and leaves placed what was placed.
pub proof fn lemma_cut(
    g: &UndirectedGraph,
    s0: BccState,
    c: BccState,
    k: int,
    kp: int,
    pe: int,
    idx: int,
    le: int,
    vcc: Seq<usize>,
)
    requires
        inv(g, c, -1),
        frame(g, c, k, kp, pe, idx),
        keeps(g, s0, c),
        s0.vcc.len() == g.edges.len(),
        s0.estack.len() <= le < c.estack.len(),
        renumbered(c.vcc, vcc, c.estack, le, c.num_vcc + 1),
        c.num_vcc + 1 + zeros(vcc) <= g.edges.len(),
    ensures
        inv(g, after_cut(c, le, vcc), -1),
        frame(g, after_cut(c, le, vcc), k, kp, pe, idx),
        keeps(g, s0, after_cut(c, le, vcc)),
{
    let d = after_cut(c, le, vcc);
    let u = c.stack[k] as int;
    lemma_edges_pop(g, c.visited, c.estack, c.vcc, c.num_vcc, vcc, le);
    assert forall|f: int, x: int, y: int| #[trigger] g.joins(f, x, y) implies (placed(
        d.estack,
        d.vcc,
        f,
    ) <==> placed(c.estack, c.vcc, f)) by {}
    assert(placed_prefix(g, d.estack, d.vcc, u, idx)) by {
        assert forall|t: int| 0 <= t < idx implies placed(
            d.estack,
            d.vcc,
            (#[trigger] g.adj_lists[u][t]).0 as int,
        ) by {
            let entry = g.adj_lists[u][t];
            assert(g.joins(entry.0 as int, u, entry.1 as int));
        }
    }
    assert(fresh_rest(g, d.visited, d.estack, d.vcc, u, pe, idx)) by {
        assert forall|t: int| idx <= t < g.adj_lists[u].len() implies ({
            let entry = #[trigger] g.adj_lists[u][t];
            placed(d.estack, d.vcc, entry.0 as int) ==> entry.0 == pe || d.visited[entry.1 as int]
                > d.visited[u]
        }) by {
            let entry = g.adj_lists[u][t];
            assert(g.joins(entry.0 as int, u, entry.1 as int));
        }
    }
    assert(keeps(g, s0, d)) by {
        assert forall|i: int| 0 <= i < s0.estack.len() implies #[trigger] d.estack[i]
            == s0.estack[i] by {
            assert(c.estack[i] == s0.estack[i]);
        }
        assert forall|f: int| 0 <= f < s0.vcc.len() && #[trigger] s0.vcc[f] != 0 implies d.vcc[f]
            == s0.vcc[f] by {
            assert(c.vcc[f] == s0.vcc[f]);
        }
    }
}

/// The search leaves a vertex that is its own low-link: the vertex stack
/// from it upwards has become a 2-edge-connected component.
pub proof fn lemma_leave_pop(
    g: &UndirectedGraph,
    s0: BccState,
    c: BccState,
    k: int,
    kp: int,
    pe: int,
    cc: Seq<usize>,
)
    requires
        inv(g, c, -1),
        frame(g, c, k, kp, pe, g.adj_lists[c.stack[k] as int].len() as int),
        keeps(g, s0, c),
        s0.stack.len() == k,
        s0.visited.len() == g.adj_lists.len(),
        s0.visited[c.stack[k] as int] == 0,
        forall|x: int| 0 <= x < s0.visited.len() ==> #[trigger] s0.visited[x] <= s0.time,
        c.visited[c.stack[k] as int] == s0.time + 1,
        c.low[c.stack[k] as int] == c.visited[c.stack[k] as int],
        renumbered(c.cc, cc, c.stack, k, c.num_cc + 1),
        k == 0 ==> c.estack.len() == 0,
    ensures
        result(g, s0, after_pop(c, k, cc), c.stack[k] as int, pe, kp),
{
    let u = c.stack[k] as int;
    let d = after_pop(c, k, cc);
    lemma_closed(g, c, k, kp, pe);
    lemma_stack_pop(g, c.time, c.visited, c.stack, c.cc, c.num_cc, cc, k);
    lemma_tree_pop(g, c.visited, c.low, c.stack, c.pes, k);
    assert forall|e: int, y: int|
        #[trigger] g.joins(e, c.stack[k] as int, y) && (k == 0 || e != c.pes[k]) implies c.visited[y]
        >= c.visited[c.stack[k] as int] by {}
    lemma_parts_pop(g, c.time, c.visited, c.stack, c.cc, c.num_cc, c.pes, cc, k, kp);
    assert(keeps(g, s0, d)) by {
        assert forall|i: int| 0 <= i < s0.stack.len() implies #[trigger] d.stack[i] == s0.stack[i]
            && d.pes[i] == s0.pes[i] by {
            assert(c.stack[i] == s0.stack[i]);
        }
        assert forall|x: int| 0 <= x < s0.visited.len() && #[trigger] s0.visited[x] != 0 implies {
            &&& d.visited[x] == s0.visited[x]
            &&& d.low[x] == s0.low[x]
            &&& d.cc[x] == s0.cc[x]
            &&& d.is_ap[x] == s0.is_ap[x]
        } by {
            assert(c.visited[x] == s0.visited[x]);
            assert(cc[x] == c.cc[x]);
        }
    }
    assert(fenced(g, d.visited, s0.time as int, pe, d.low[u] as int)) by {
        assert forall|f: int, x: int, y: int|
            #[trigger] g.joins(f, x, y) && f != pe && d.visited[x] > s0.time implies d.visited[y]
            >= d.low[u] by {
            if x != u {
                assert(c.visited[x] != c.visited[u]);
            }
        }
    }
    assert(placed_since(g, d.visited, d.estack, d.vcc, s0.time as int)) by {
        assert forall|f: int, x: int, y: int|
            #[trigger] g.joins(f, x, y) && d.visited[x] > s0.time implies placed(
            d.estack,
            d.vcc,
            f,
        ) by {
            if x != u {
                assert(c.visited[x] != c.visited[u]);
            }
        }
    }
}

/// The search leaves a vertex whose low-link is below its discovery time:
/// the vertex stays on the stack, two-edge-connected to the vertex from
/// which it was discovered.
pub proof fn lemma_leave_keep(
    g: &UndirectedGraph,
    s0: BccState,
    c: BccState,
    k: int,
    kp: int,
    pe: int,
)
    requires
        inv(g, c, -1),
        frame(g, c, k, kp, pe, g.adj_lists[c.stack[k] as int].len() as int),
        keeps(g, s0, c),
        s0.stack.len() == k,
        s0.visited.len() == g.adj_lists.len(),
        s0.visited[c.stack[k] as int] == 0,
        c.visited[c.stack[k] as int] == s0.time + 1,
        c.low[c.stack[k] as int] != c.visited[c.stack[k] as int],
    ensures
        k > 0,
        result(g, s0, c, c.stack[k] as int, pe, kp),
{
    let u = c.stack[k] as int;
    lemma_closed(g, c, k, kp, pe);
    lemma_low_bound(g, c.time, c.visited, c.low, c.stack, c.cc, c.num_cc, c.pes, k);
    assert(k > 0);
    lemma_return(g, c.time, c.visited, c.low, c.stack, c.cc, c.num_cc, c.pes, k, kp);
    assert(settled(g, c.stack, c.pes, k, c.stack.len() as int, kp)) by {
        assert forall|i: int| k <= i < c.stack.len() implies #[trigger] rung(
            g,
            c.stack,
            c.pes,
            i,
            kp,
        ) by {
            if i == k {
                assert(g.joins(c.pes[k], c.stack[k] as int, c.stack[kp] as int));
            } else {
                assert(rung(g, c.stack, c.pes, i, k));
                let j = choose|j: int|
                    k <= j < i && #[trigger] g.joins(c.pes[i], c.stack[i] as int, c.stack[j] as int)
                        && g.two_edge_connected(c.stack[i] as int, c.stack[j] as int);
                assert(kp <= j < i && g.joins(c.pes[i], c.stack[i] as int, c.stack[j] as int));
            }
        }
    }
    assert(fenced(g, c.visited, s0.time as int, pe, c.low[u] as int)) by {
        assert forall|f: int, x: int, y: int|
            #[trigger] g.joins(f, x, y) && f != pe && c.visited[x] > s0.time implies c.visited[y]
            >= c.low[u] by {
            if x != u {
                assert(c.visited[x] != c.visited[u]);
            }
        }
    }
    assert(placed_since(g, c.visited, c.estack, c.vcc, s0.time as int)) by {
        assert forall|f: int, x: int, y: int|
            #[trigger] g.joins(f, x, y) && c.visited[x] > s0.time implies placed(
            c.estack,
            c.vcc,
            f,
        ) by {
            if x != u {
                assert(c.visited[x] != c.visited[u]);
            }
        }
    }
}

/// Giving the id to the entry on top of what is left of the stack goes one
/// step on with the renumbering.
pub proof fn lemma_renumber_step(
    before: Seq<usize>,
    mid: Seq<usize>,
    stack: Seq<usize>,
    len: int,
    id: usize,
)
    requires
        0 < len <= stack.len(),
        renumbered(before, mid, stack, len, id as int),
        forall|i: int| 0 <= i < stack.len() ==> #[trigger] stack[i] < before.len(),
        forall|i: int, j: int|
            0 <= i < j < stack.len() ==> #[trigger] stack[i] != #[trigger] stack[j],
    ensures
        mid[stack[len - 1] as int] == before[stack[len - 1] as int],
        renumbered(before, mid.update(stack[len - 1] as int, id), stack, len - 1, id as int),
{
    let top = stack[len - 1] as int;
    let after = mid.update(top, id);
    if taken(stack, len, top) {
        let i = choose|i: int| len <= i < stack.len() && #[trigger] stack[i] == top;
        assert(stack[len - 1] != stack[i]);
    }
    assert forall|i: int| len - 1 <= i < stack.len() implies after[#[trigger] stack[i] as int] == id by {
        if i >= len {
            assert(mid[stack[i] as int] == id);
        }
    }
    assert forall|v: int| 0 <= v < before.len() implies #[trigger] after[v] == before[v] || (after[v]
        == id && taken(stack, len - 1, v)) by {
        if v == top {
            assert(stack[len - 1] == v);
        } else if mid[v] != before[v] {
            assert(taken(stack, len, v));
            let i = choose|i: int| len <= i < stack.len() && #[trigger] stack[i] == v;
            assert(stack[i] == v);
        }
    }
}

/// Before anything is taken off the stack, nothing is renumbered.
pub proof fn lemma_renumber_start(before: Seq<usize>, stack: Seq<usize>, id: int)
    ensures
        renumbered(before, before, stack, stack.len() as int, id),
{
}

} // verus!
