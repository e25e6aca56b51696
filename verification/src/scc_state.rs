//! The invariant that the search for strongly connected components keeps, and
//! the steps by which it is kept.

use crate::graph::DirectedGraph;
use crate::traversal::{lemma_zeros_bound, lemma_zeros_some, lemma_zeros_update, used, zeros};
use vstd::prelude::*;

verus! {

/// What the search has recorded at one moment.
pub struct SccState {
    pub time: usize,
    pub visited: Seq<usize>,
    pub low: Seq<usize>,
    pub stack: Seq<usize>,
    pub cc: Seq<usize>,
    pub num_cc: usize,
}

/// Vertex `v` is on the stack.
pub open spec fn stacked(s: SccState, v: int) -> bool {
    exists|i: int| 0 <= i < s.stack.len() && #[trigger] s.stack[i] == v
}

/// The low-link of the vertex at stack position `i` is the discovery time of
/// a vertex at or below it on the stack, which it reaches.
pub open spec fn low_witness(g: &DirectedGraph, s: SccState, i: int) -> bool {
    exists|j: int|
        0 <= j <= i && s.low[s.stack[i] as int] == s.visited[#[trigger] s.stack[j] as int]
            && g.reaches(s.stack[i] as int, s.stack[j] as int)
}

/// Vertex `y` is discovered, and is either in a finished component or was
/// discovered no earlier than the low-link of `x` says.
pub open spec fn handled(s: SccState, x: int, y: int) -> bool {
    s.visited[y] != 0 && (s.cc[y] != 0 || s.low[x] <= s.visited[y])
}

/// Every edge that leaves `x` has been looked at.
pub open spec fn closed(g: &DirectedGraph, s: SccState, x: int) -> bool {
    forall|e: int|
        0 <= e < g.edges.len() && (#[trigger] g.edges[e]).0 == x ==> handled(
            s,
            x,
            g.edges[e].1 as int,
        )
}

/// The vertices at stack positions `lo..hi` are done with: each is closed,
/// is reached from `root`, and has a low-link below its own discovery time
/// and not below `bound`.
pub open spec fn settled(
    g: &DirectedGraph,
    s: SccState,
    root: int,
    lo: int,
    hi: int,
    bound: int,
) -> bool {
    forall|i: int|
        lo <= i < hi ==> {
            let x = #[trigger] s.stack[i] as int;
            &&& s.low[x] < s.visited[x]
            &&& s.low[x] >= bound
            &&& g.reaches(root, x)
            &&& closed(g, s, x)
        }
}

/// The invariant of the search, between any two of its steps.
pub open spec fn inv(g: &DirectedGraph, s: SccState) -> bool {
    let n = g.adj_lists.len();
    &&& g.wf()
    &&& s.visited.len() == n
    &&& s.low.len() == n
    &&& s.cc.len() == n
    &&& s.time + zeros(s.visited) == n
    &&& s.num_cc + s.stack.len() <= s.time
    &&& forall|v: int| 0 <= v < n ==> #[trigger] s.visited[v] <= s.time
    &&& forall|i: int|
        0 <= i < s.stack.len() ==> {
            let x = #[trigger] s.stack[i] as int;
            x < n && s.visited[x] != 0 && s.cc[x] == 0
        }
    &&& forall|i: int, j: int|
        0 <= i < j < s.stack.len() ==> s.visited[#[trigger] s.stack[i] as int]
            < s.visited[#[trigger] s.stack[j] as int]
    &&& forall|v: int| 0 <= v < n && #[trigger] s.visited[v] != 0 && s.cc[v] == 0 ==> stacked(s, v)
    &&& forall|i: int| 0 <= i < s.stack.len() ==> #[trigger] low_witness(g, s, i)
    &&& forall|v: int|
        0 <= v < n ==> #[trigger] s.cc[v] <= s.num_cc && (s.cc[v] != 0 ==> s.visited[v] != 0)
    &&& forall|x: int, y: int|
        0 <= x < n && 0 <= y < n && #[trigger] s.cc[x] != 0 && s.cc[x] == #[trigger] s.cc[y]
            ==> g.reaches(x, y)
    &&& forall|e: int|
        0 <= e < g.edges.len() && s.cc[(#[trigger] g.edges[e]).0 as int] != 0 ==> {
            &&& s.cc[g.edges[e].1 as int] != 0
            &&& s.cc[g.edges[e].1 as int] <= s.cc[g.edges[e].0 as int]
        }
    &&& forall|c: int| 1 <= c <= s.num_cc ==> #[trigger] used(s.cc, c)
}

/// What the search has recorded of a discovered vertex does not change
/// between `a` and `b`, and the stack of `a` is the bottom of that of `b`.
pub open spec fn keeps(a: SccState, b: SccState) -> bool {
    &&& a.time <= b.time
    &&& a.num_cc <= b.num_cc
    &&& a.stack.len() <= b.stack.len()
    &&& forall|i: int| 0 <= i < a.stack.len() ==> #[trigger] b.stack[i] == a.stack[i]
    &&& forall|v: int|
        0 <= v < a.visited.len() && #[trigger] a.visited[v] != 0 ==> {
            &&& b.visited[v] == a.visited[v]
            &&& b.low[v] == a.low[v]
            &&& b.cc[v] == a.cc[v]
        }
}

/// What a search from `u`, begun in state `a`, leaves behind in state `b`.
pub open spec fn searched(g: &DirectedGraph, a: SccState, b: SccState, u: int) -> bool {
    &&& keeps(a, b)
    &&& a.time < b.time
    &&& b.visited[u] != 0
    &&& b.stack.len() > a.stack.len() ==> b.stack[a.stack.len() as int] == u
    &&& settled(g, b, u, a.stack.len() as int, b.stack.len() as int, b.low[u] as int)
}

/// The state after the discovery of `u`.
pub open spec fn after_visit(s: SccState, u: int) -> SccState {
    SccState {
        time: (s.time + 1) as usize,
        visited: s.visited.update(u, (s.time + 1) as usize),
        low: s.low.update(u, (s.time + 1) as usize),
        stack: s.stack.push(u as usize),
        ..s
    }
}

/// The state after the low-link of `u` has been lowered to `val`.
pub open spec fn after_lower(s: SccState, u: int, val: usize) -> SccState {
    SccState { low: s.low.update(u, if val < s.low[u] { val } else { s.low[u] }), ..s }
}

/// Positions on the stack are ordered as the discovery times are.
pub proof fn lemma_stack_order(g: &DirectedGraph, s: SccState, i: int, j: int)
    requires
        inv(g, s),
        0 <= i < s.stack.len(),
        0 <= j < s.stack.len(),
    ensures
        i < j <==> s.visited[s.stack[i] as int] < s.visited[s.stack[j] as int],
        i == j <==> s.stack[i] == s.stack[j],
{
    if i < j {
        assert(s.visited[s.stack[i] as int] < s.visited[s.stack[j] as int]);
    } else if j < i {
        assert(s.visited[s.stack[j] as int] < s.visited[s.stack[i] as int]);
    }
}

/// A low-link on the stack is at most the discovery time of its vertex.
pub proof fn lemma_low_bound(g: &DirectedGraph, s: SccState, i: int)
    requires
        inv(g, s),
        0 <= i < s.stack.len(),
    ensures
        s.low[s.stack[i] as int] <= s.visited[s.stack[i] as int],
        s.low[s.stack[i] as int] != 0,
{
    assert(low_witness(g, s, i));
    let j = choose|j: int|
        0 <= j <= i && s.low[s.stack[i] as int] == s.visited[#[trigger] s.stack[j] as int]
            && g.reaches(s.stack[i] as int, s.stack[j] as int);
    lemma_stack_order(g, s, j, i);
}

/// Discovering a vertex keeps the invariant.
pub proof fn lemma_visit(g: &DirectedGraph, s: SccState, u: int)
    requires
        inv(g, s),
        0 <= u < g.adj_lists.len(),
        s.visited[u] == 0,
    ensures
        s.time < usize::MAX,
        inv(g, after_visit(s, u)),
        keeps(s, after_visit(s, u)),
{
    let t = after_visit(s, u);
    let k = s.stack.len() as int;
    lemma_zeros_some(s.visited, u);
    lemma_zeros_bound(s.visited);
    lemma_zeros_update(s.visited, u, (s.time + 1) as usize);
    assert forall|i: int| 0 <= i < t.stack.len() implies {
        let x = #[trigger] t.stack[i] as int;
        x < g.adj_lists.len() && t.visited[x] != 0 && t.cc[x] == 0
    } by {
        if i < k {
            assert(t.stack[i] == s.stack[i]);
        }
    }
    assert forall|i: int, j: int| 0 <= i < j < t.stack.len() implies t.visited[#[trigger] t.stack[i] as int]
        < t.visited[#[trigger] t.stack[j] as int] by {
        assert(t.stack[i] == s.stack[i]);
        assert(s.visited[s.stack[i] as int] <= s.time);
        if j < k {
            assert(t.stack[j] == s.stack[j]);
        }
    }
    assert forall|v: int|
        0 <= v < g.adj_lists.len() && #[trigger] t.visited[v] != 0 && t.cc[v] == 0 implies stacked(
        t,
        v,
    ) by {
        if v == u {
            assert(t.stack[k] == u);
        } else {
            assert(stacked(s, v));
            let i = choose|i: int| 0 <= i < s.stack.len() && #[trigger] s.stack[i] == v;
            assert(t.stack[i] == v);
        }
    }
    assert forall|i: int| 0 <= i < t.stack.len() implies #[trigger] low_witness(g, t, i) by {
        if i < k {
            assert(low_witness(g, s, i));
            let j = choose|j: int|
                0 <= j <= i && s.low[s.stack[i] as int] == s.visited[#[trigger] s.stack[j] as int]
                    && g.reaches(s.stack[i] as int, s.stack[j] as int);
            assert(t.stack[i] == s.stack[i]);
            assert(t.stack[j] == s.stack[j]);
        } else {
            g.lemma_reaches_self(u);
            assert(t.stack[k] == u);
        }
    }
    assert forall|v: int| 0 <= v < g.adj_lists.len() implies #[trigger] t.cc[v] <= t.num_cc && (t.cc[v]
        != 0 ==> t.visited[v] != 0) by {
        assert(s.cc[v] <= s.num_cc && (s.cc[v] != 0 ==> s.visited[v] != 0));
    }
    assert forall|v: int| 0 <= v < g.adj_lists.len() implies #[trigger] t.visited[v] <= t.time by {
        assert(s.visited[v] <= s.time);
    }
    assert forall|e: int|
        0 <= e < g.edges.len() && t.cc[(#[trigger] g.edges[e]).0 as int] != 0 implies {
        &&& t.cc[g.edges[e].1 as int] != 0
        &&& t.cc[g.edges[e].1 as int] <= t.cc[g.edges[e].0 as int]
    } by {}
    assert forall|c: int| 1 <= c <= t.num_cc implies #[trigger] used(t.cc, c) by {
        assert(used(s.cc, c));
    }
}

/// The witness of a low-link, as a stack position.
pub open spec fn low_target(g: &DirectedGraph, s: SccState, i: int) -> int {
    choose|j: int|
        0 <= j <= i && s.low[s.stack[i] as int] == s.visited[#[trigger] s.stack[j] as int]
            && g.reaches(s.stack[i] as int, s.stack[j] as int)
}

/// The position of a vertex on the stack.
pub open spec fn position(s: SccState, v: int) -> int {
    choose|i: int| 0 <= i < s.stack.len() && #[trigger] s.stack[i] == v
}

/// A vertex whose every adjacency entry has been handled is closed.
pub proof fn lemma_closed(g: &DirectedGraph, s: SccState, u: int)
    requires
        g.wf(),
        0 <= u < g.adj_lists.len(),
        forall|t: int|
            0 <= t < g.adj_lists[u].len() ==> handled(s, u, (#[trigger] g.adj_lists[u][t]).1 as int),
    ensures
        closed(g, s, u),
{
    assert forall|e: int| 0 <= e < g.edges.len() && (#[trigger] g.edges[e]).0 == u implies handled(
        s,
        u,
        g.edges[e].1 as int,
    ) by {
        assert(g.lists(e));
        let t = choose|t: int|
            0 <= t < g.adj_lists[g.edges[e].0 as int].len()
                && #[trigger] g.adj_lists[g.edges[e].0 as int][t] == (e as usize, g.edges[e].1);
        assert(handled(s, u, g.adj_lists[u][t].1 as int));
    }
}

/// One edge `e` from `u`, at stack position `k`, to `v` has been looked at:
/// between `a` and `b` the search may have run from `v`, and between `b` and
/// `c` the low-link of `u` took that of `v` into account if `v` is still on
/// the stack.
pub proof fn lemma_step(
    g: &DirectedGraph,
    a: SccState,
    b: SccState,
    c: SccState,
    k: int,
    u: int,
    v: int,
    e: int,
)
    requires
        inv(g, a),
        inv(g, b),
        keeps(a, b),
        0 <= k < a.stack.len(),
        a.stack[k] == u,
        settled(g, a, u, k + 1, a.stack.len() as int, a.low[u] as int),
        0 <= e < g.edges.len(),
        g.edges[e].0 == u,
        g.edges[e].1 == v,
        b.visited[v] != 0,
        b.stack.len() > a.stack.len() ==> b.stack[a.stack.len() as int] == v,
        settled(g, b, v, a.stack.len() as int, b.stack.len() as int, b.low[v] as int),
        c == if b.cc[v] == 0 {
            after_lower(b, u, b.low[v])
        } else {
            b
        },
    ensures
        inv(g, c),
        c.stack == b.stack,
        settled(g, c, u, k + 1, c.stack.len() as int, c.low[u] as int),
        handled(c, u, v),
        forall|y: int| 0 <= y < g.adj_lists.len() && handled(a, u, y) ==> handled(c, u, y),
        c.low[u] <= a.low[u],
{
    let n = g.adj_lists.len() as int;
    let la = a.stack.len() as int;
    let lb = b.stack.len() as int;
    assert(0 <= u < n && 0 <= v < n);
    assert(a.visited[u] != 0) by {
        assert(a.stack[k] == u);
    }
    assert(b.stack[k] == a.stack[k]);
    // What was settled in `a` is settled in `b`.
    assert forall|i: int| k < i < la implies {
        let x = #[trigger] b.stack[i] as int;
        &&& b.low[x] < b.visited[x]
        &&& b.low[x] >= b.low[u]
        &&& g.reaches(u, x)
        &&& closed(g, b, x)
        &&& x != u
    } by {
        let x = a.stack[i] as int;
        assert(b.stack[i] == a.stack[i]);
        assert(a.visited[x] != 0);
        assert(closed(g, a, x));
        assert forall|f: int| 0 <= f < g.edges.len() && (#[trigger] g.edges[f]).0 == x implies handled(
            b,
            x,
            g.edges[f].1 as int,
        ) by {
            assert(handled(a, x, g.edges[f].1 as int));
        }
        lemma_stack_order(g, a, k, i);
    }
    if b.cc[v] != 0 {
        if lb > la {
            assert(b.stack[la] == v);
        }
        assert(lb == la);
    } else {
        assert(stacked(b, v));
        let iv = position(b, v);
        lemma_low_bound(g, b, iv);
        lemma_low_bound(g, b, k);
        g.lemma_reaches_edge(e);
        let m = if b.low[v] < b.low[u] {
            b.low[v]
        } else {
            b.low[u]
        };
        assert(c.low[u] == m);
        assert forall|i: int| 0 <= i < c.stack.len() implies #[trigger] low_witness(g, c, i) by {
            assert(low_witness(g, b, i));
            let j = low_target(g, b, i);
            if i != k {
                lemma_stack_order(g, b, i, k);
                assert(c.stack[j] == b.stack[j]);
            } else if m == b.low[u] {
                assert(c.stack[j] == b.stack[j]);
            } else {
                assert(low_witness(g, b, iv));
                let jv = low_target(g, b, iv);
                lemma_stack_order(g, b, jv, k);
                g.lemma_reaches_trans(u, v, b.stack[jv] as int);
                assert(c.stack[jv] == b.stack[jv]);
            }
        }
        assert forall|i: int| k < i < lb implies {
            let x = #[trigger] c.stack[i] as int;
            &&& c.low[x] < c.visited[x]
            &&& c.low[x] >= c.low[u]
            &&& g.reaches(u, x)
            &&& closed(g, c, x)
        } by {
            let x = b.stack[i] as int;
            lemma_stack_order(g, b, k, i);
            if i >= la {
                g.lemma_reaches_trans(u, v, x);
            }
            assert(closed(g, b, x));
            assert forall|f: int|
                0 <= f < g.edges.len() && (#[trigger] g.edges[f]).0 == x implies handled(
                c,
                x,
                g.edges[f].1 as int,
            ) by {
                assert(handled(b, x, g.edges[f].1 as int));
            }
        }
        assert forall|x: int| 0 <= x < n implies #[trigger] c.cc[x] <= c.num_cc && (c.cc[x] != 0
            ==> c.visited[x] != 0) by {
            assert(b.cc[x] <= b.num_cc && (b.cc[x] != 0 ==> b.visited[x] != 0));
        }
        assert forall|cid: int| 1 <= cid <= c.num_cc implies #[trigger] used(c.cc, cid) by {
            assert(used(b.cc, cid));
        }
        assert forall|x: int| 0 <= x < n && #[trigger] c.visited[x] != 0 && c.cc[x] == 0 implies stacked(
            c,
            x,
        ) by {
            assert(stacked(b, x));
            assert(c.stack[position(b, x)] == x);
        }
    }
}

/// Vertex `v` is on the stack at position `k` or above.
pub open spec fn popped(stack: Seq<usize>, k: int, v: int) -> bool {
    exists|i: int| k <= i < stack.len() && #[trigger] stack[i] == v
}

/// Where the vertex at position `k` is its own low-link, every vertex above
/// it on the stack reaches it.
pub proof fn lemma_reaches_root(g: &DirectedGraph, s: SccState, k: int, i: int)
    requires
        inv(g, s),
        0 <= k <= i < s.stack.len(),
        s.low[s.stack[k] as int] == s.visited[s.stack[k] as int],
        settled(
            g,
            s,
            s.stack[k] as int,
            k + 1,
            s.stack.len() as int,
            s.low[s.stack[k] as int] as int,
        ),
    ensures
        g.reaches(s.stack[i] as int, s.stack[k] as int),
    decreases i,
{
    let x = s.stack[i] as int;
    if i == k {
        g.lemma_reaches_self(x);
    } else {
        assert(low_witness(g, s, i));
        let j = low_target(g, s, i);
        lemma_stack_order(g, s, j, i);
        lemma_stack_order(g, s, j, k);
        lemma_reaches_root(g, s, k, j);
        g.lemma_reaches_trans(x, s.stack[j] as int, s.stack[k] as int);
    }
}

/// A vertex that is its own low-link when its search ends is the root of a
/// strongly connected component, which is the stack from it upwards: taking
/// that off the stack under a new id keeps the invariant.
pub proof fn lemma_pop(g: &DirectedGraph, s: SccState, t: SccState, k: int, u: int)
    requires
        inv(g, s),
        0 <= k < s.stack.len(),
        s.stack[k] == u,
        s.low[u] == s.visited[u],
        closed(g, s, u),
        settled(g, s, u, k + 1, s.stack.len() as int, s.low[u] as int),
        t.time == s.time,
        t.visited == s.visited,
        t.low == s.low,
        t.stack == s.stack.subrange(0, k),
        t.num_cc == s.num_cc + 1,
        t.cc.len() == s.cc.len(),
        forall|i: int| k <= i < s.stack.len() ==> t.cc[#[trigger] s.stack[i] as int] == t.num_cc,
        forall|v: int|
            0 <= v < s.cc.len() ==> #[trigger] t.cc[v] == s.cc[v] || (t.cc[v] == t.num_cc && popped(
                s.stack,
                k,
                v,
            )),
    ensures
        inv(g, t),
        forall|v: int|
            0 <= v < s.cc.len() && s.visited[v] != 0 && s.visited[v] < s.visited[u] ==> #[trigger] t.cc[v]
                == s.cc[v],
{
    let n = g.adj_lists.len() as int;
    let len = s.stack.len() as int;
    // A vertex is popped exactly if its id changes, and then it sat at `k` or above.
    assert forall|v: int| 0 <= v < n && popped(s.stack, k, v) implies #[trigger] t.cc[v] == t.num_cc
        && s.cc[v] == 0 && s.visited[v] >= s.visited[u] by {
        let i = choose|i: int| k <= i < s.stack.len() && #[trigger] s.stack[i] == v;
        lemma_stack_order(g, s, k, i);
    }
    assert forall|v: int| 0 <= v < n && !popped(s.stack, k, v) implies #[trigger] t.cc[v] == s.cc[v] by {}
    assert forall|v: int| 0 <= v < n && #[trigger] s.cc[v] != 0 implies t.cc[v] == s.cc[v] by {
        assert(s.cc[v] <= s.num_cc && (s.cc[v] != 0 ==> s.visited[v] != 0));
    }
    assert forall|i: int| 0 <= i < t.stack.len() implies {
        let x = #[trigger] t.stack[i] as int;
        x < n && t.visited[x] != 0 && t.cc[x] == 0
    } by {
        let x = s.stack[i] as int;
        assert(t.stack[i] == s.stack[i]);
        if popped(s.stack, k, x) {
            let j = choose|j: int| k <= j < s.stack.len() && #[trigger] s.stack[j] == x;
            lemma_stack_order(g, s, i, j);
        }
    }
    assert forall|i: int, j: int| 0 <= i < j < t.stack.len() implies t.visited[#[trigger] t.stack[i] as int]
        < t.visited[#[trigger] t.stack[j] as int] by {
        assert(t.stack[i] == s.stack[i]);
        assert(t.stack[j] == s.stack[j]);
    }
    assert forall|v: int| 0 <= v < n && #[trigger] t.visited[v] != 0 && t.cc[v] == 0 implies stacked(
        t,
        v,
    ) by {
        assert(stacked(s, v));
        let i = position(s, v);
        if i >= k {
            assert(t.cc[s.stack[i] as int] == t.num_cc);
        }
        assert(t.stack[i] == v);
    }
    assert forall|i: int| 0 <= i < t.stack.len() implies #[trigger] low_witness(g, t, i) by {
        assert(low_witness(g, s, i));
        let j = low_target(g, s, i);
        assert(t.stack[i] == s.stack[i]);
        assert(t.stack[j] == s.stack[j]);
    }
    assert forall|v: int| 0 <= v < n implies #[trigger] t.cc[v] <= t.num_cc && (t.cc[v] != 0
        ==> t.visited[v] != 0) by {
        assert(s.cc[v] <= s.num_cc && (s.cc[v] != 0 ==> s.visited[v] != 0));
    }
    assert forall|x: int, y: int|
        0 <= x < n && 0 <= y < n && #[trigger] t.cc[x] != 0 && t.cc[x] == #[trigger] t.cc[y] implies g.reaches(
        x,
        y,
    ) by {
        assert(s.cc[x] <= s.num_cc && s.cc[y] <= s.num_cc);
        if t.cc[x] == t.num_cc {
            assert(popped(s.stack, k, x));
            assert(popped(s.stack, k, y));
            let i = choose|i: int| k <= i < s.stack.len() && #[trigger] s.stack[i] == x;
            let j = choose|j: int| k <= j < s.stack.len() && #[trigger] s.stack[j] == y;
            lemma_reaches_root(g, s, k, i);
            if j == k {
                g.lemma_reaches_self(u);
            }
            g.lemma_reaches_trans(x, u, y);
        } else {
            assert(t.cc[x] == s.cc[x] && t.cc[y] == s.cc[y]);
        }
    }
    assert forall|e: int|
        0 <= e < g.edges.len() && t.cc[(#[trigger] g.edges[e]).0 as int] != 0 implies {
        &&& t.cc[g.edges[e].1 as int] != 0
        &&& t.cc[g.edges[e].1 as int] <= t.cc[g.edges[e].0 as int]
    } by {
        let x = g.edges[e].0 as int;
        let y = g.edges[e].1 as int;
        assert(s.cc[x] <= s.num_cc && s.cc[y] <= s.num_cc);
        if popped(s.stack, k, x) {
            let i = choose|i: int| k <= i < s.stack.len() && #[trigger] s.stack[i] == x;
            assert(closed(g, s, x));
            assert(handled(s, x, y));
            if s.cc[y] == 0 {
                assert(stacked(s, y));
                let j = position(s, y);
                lemma_stack_order(g, s, j, k);
                assert(t.cc[s.stack[j] as int] == t.num_cc);
            }
        } else {
            assert(t.cc[x] == s.cc[x]);
        }
    }
    assert forall|c: int| 1 <= c <= t.num_cc implies #[trigger] used(t.cc, c) by {
        if c == t.num_cc {
            assert(t.cc[s.stack[k] as int] == t.num_cc);
        } else {
            assert(used(s.cc, c));
            let v = choose|v: int| 0 <= v < s.cc.len() && #[trigger] s.cc[v] == c;
            assert(t.cc[v] == c);
        }
    }
    assert forall|v: int| 0 <= v < n implies #[trigger] t.visited[v] <= t.time by {
        assert(s.visited[v] <= s.time);
    }
}

/// What holds while the search looks at the adjacency entries of the vertex
/// `u`, which it entered in state `s0` and which sits at stack position `k`,
/// and has looked at the first `idx` of them.
pub open spec fn active(g: &DirectedGraph, s0: SccState, s: SccState, k: int, u: int, idx: int) -> bool {
    &&& 0 <= u < g.adj_lists.len()
    &&& 0 <= idx <= g.adj_lists[u].len()
    &&& s0.visited.len() == g.adj_lists.len()
    &&& s0.low.len() == g.adj_lists.len()
    &&& s0.cc.len() == g.adj_lists.len()
    &&& forall|x: int| 0 <= x < s0.visited.len() ==> #[trigger] s0.visited[x] <= s0.time
    &&& s0.visited[u] == 0
    &&& k == s0.stack.len()
    &&& inv(g, s)
    &&& keeps(s0, s)
    &&& s0.time < s.time
    &&& s.visited[u] == s0.time + 1
    &&& k < s.stack.len()
    &&& s.stack[k] == u
    &&& settled(g, s, u, k + 1, s.stack.len() as int, s.low[u] as int)
    &&& forall|t: int| 0 <= t < idx ==> handled(s, u, (#[trigger] g.adj_lists[u][t]).1 as int)
}

/// What the search remembers of a vertex while it searches from one of its
/// neighbours: the state in which it entered the vertex, the state in which
/// it left for the neighbour, and the stack position of the vertex.
pub struct Waiting {
    pub s0: SccState,
    pub a: SccState,
    pub k: int,
}

/// The search from `u` waits at its adjacency entry `idx`, which leads to
/// the vertex `v`, undiscovered when the search left for it.
pub open spec fn suspended(g: &DirectedGraph, w: Waiting, u: int, idx: int, v: int) -> bool {
    &&& active(g, w.s0, w.a, w.k, u, idx)
    &&& idx < g.adj_lists[u].len()
    &&& g.adj_lists[u][idx].1 == v
    &&& w.a.visited[v] == 0
}

/// The adjacency entries that the vertices on the work stack have yet to
/// look at, and one more for each of them.
pub open spec fn weight(g: &DirectedGraph, frames: Seq<(usize, usize)>) -> nat
    decreases frames.len(),
{
    if frames.len() == 0 {
        0
    } else {
        weight(g, frames.drop_last()) + (g.adj_lists[frames.last().0 as int].len() - frames.last().1
            + 1) as nat
    }
}

/// Looking at one more entry of the vertex on top of the work stack takes
/// one off the weight.
pub proof fn lemma_weight_step(g: &DirectedGraph, frames: Seq<(usize, usize)>)
    requires
        frames.len() > 0,
        frames.last().1 < g.adj_lists[frames.last().0 as int].len(),
    ensures
        weight(
            g,
            frames.update(frames.len() - 1, (frames.last().0, (frames.last().1 + 1) as usize)),
        ) + 1 == weight(g, frames),
{
    let after = frames.update(frames.len() - 1, (frames.last().0, (frames.last().1 + 1) as usize));
    assert(after.drop_last() =~= frames.drop_last());
}

/// Taking the top off the work stack takes at least one off the weight.
pub proof fn lemma_weight_pop(g: &DirectedGraph, frames: Seq<(usize, usize)>)
    requires
        frames.len() > 0,
        frames.last().1 <= g.adj_lists[frames.last().0 as int].len(),
    ensures
        weight(g, frames.drop_last()) < weight(g, frames),
{
}

/// Entering a vertex: nothing has been looked at.
pub proof fn lemma_enter(g: &DirectedGraph, s: SccState, u: int)
    requires
        inv(g, s),
        0 <= u < g.adj_lists.len(),
        s.visited[u] == 0,
    ensures
        s.time < usize::MAX,
        active(g, s, after_visit(s, u), s.stack.len() as int, u, 0),
{
    lemma_visit(g, s, u);
    let t = after_visit(s, u);
    assert(t.stack[s.stack.len() as int] == u);
}

/// One adjacency entry of `u`, which leads to `v`, has been looked at:
/// between `a` and `b` the search may have run from `v`, and between `b` and
/// `c` the low-link of `u` took that of `v` into account if `v` is still on
/// the stack.
pub proof fn lemma_looked(
    g: &DirectedGraph,
    s0: SccState,
    a: SccState,
    b: SccState,
    c: SccState,
    k: int,
    u: int,
    idx: int,
    v: int,
)
    requires
        active(g, s0, a, k, u, idx),
        idx < g.adj_lists[u].len(),
        g.adj_lists[u][idx].1 == v,
        inv(g, b),
        a == b || searched(g, a, b, v),
        b.visited[v] != 0,
        c == if b.cc[v] == 0 {
            after_lower(b, u, b.low[v])
        } else {
            b
        },
    ensures
        active(g, s0, c, k, u, idx + 1),
{
    let entry = g.adj_lists[u][idx];
    let e = entry.0 as int;
    assert(e < g.edges.len() && g.edges[e] == (u as usize, entry.1));
    assert(keeps(a, b));
    lemma_step(g, a, b, c, k, u, v, e);
    assert(keeps(s0, c));
    assert forall|t: int| 0 <= t < idx + 1 implies handled(c, u, (#[trigger] g.adj_lists[u][t]).1 as int) by {
        if t < idx {
            assert(handled(a, u, g.adj_lists[u][t].1 as int));
        }
    }
    assert(a.visited[u] != 0);
    assert(b.visited[u] == a.visited[u]);
    assert(b.stack[k] == a.stack[k]);
}

/// The search leaves a vertex that is its own low-link, having taken the
/// stack from it upwards as a new component.
pub proof fn lemma_leave_pop(g: &DirectedGraph, s0: SccState, s: SccState, t: SccState, k: int, u: int)
    requires
        active(g, s0, s, k, u, g.adj_lists[u].len() as int),
        s.low[u] == s.visited[u],
        t.time == s.time,
        t.visited == s.visited,
        t.low == s.low,
        t.stack == s.stack.subrange(0, k),
        t.num_cc == s.num_cc + 1,
        t.cc.len() == s.cc.len(),
        forall|i: int| k <= i < s.stack.len() ==> t.cc[#[trigger] s.stack[i] as int] == t.num_cc,
        forall|v: int|
            0 <= v < s.cc.len() ==> #[trigger] t.cc[v] == s.cc[v] || (t.cc[v] == t.num_cc && popped(
                s.stack,
                k,
                v,
            )),
    ensures
        inv(g, t),
        searched(g, s0, t, u),
{
    lemma_closed(g, s, u);
    lemma_pop(g, s, t, k, u);
    assert(t.stack =~= s0.stack);
    assert forall|v: int| 0 <= v < s0.visited.len() && #[trigger] s0.visited[v] != 0 implies {
        &&& t.visited[v] == s0.visited[v]
        &&& t.low[v] == s0.low[v]
        &&& t.cc[v] == s0.cc[v]
    } by {
        assert(s.visited[v] == s0.visited[v]);
        assert(s0.visited[v] <= s0.time);
    }
}

/// The search leaves a vertex whose low-link is below its discovery time:
/// the vertex stays on the stack.
pub proof fn lemma_leave_keep(g: &DirectedGraph, s0: SccState, s: SccState, k: int, u: int)
    requires
        active(g, s0, s, k, u, g.adj_lists[u].len() as int),
        s.low[u] != s.visited[u],
    ensures
        searched(g, s0, s, u),
{
    lemma_closed(g, s, u);
    lemma_low_bound(g, s, k);
    g.lemma_reaches_self(u);
}

/// Every vertex on the work stack but the top one waits for the search from
/// the next, which began in the state in which it left.
pub open spec fn waiting_ok(g: &DirectedGraph, waits: Seq<Waiting>, frames: Seq<(usize, usize)>) -> bool {
    forall|i: int|
        0 <= i < frames.len() - 1 ==> #[trigger] suspended(
            g,
            waits[i],
            frames[i].0 as int,
            frames[i].1 as int,
            frames[i + 1].0 as int,
        ) && waits[i + 1].s0 == waits[i].a
}

} // verus!
