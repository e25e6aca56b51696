//! The edges with one component id lie in one 2-vertex-connected component:
//! the invariant on the edge stack by which the search knows it, and the
//! steps by which it is kept.

use crate::bcc_state::{renumbered, taken};
use crate::blocks::{
    is_first, lemma_same_block_self, lemma_same_block_step, lemma_same_block_sym,
    lemma_same_block_trans, same_block, split_right, sticks,
};
use crate::graph::UndirectedGraph;
use vstd::prelude::*;

verus! {

/// Two edges that share a component id lie in one component.
pub open spec fn classes_ok(g: &UndirectedGraph, vcc: Seq<usize>) -> bool {
    forall|e: int, f: int|
        0 <= e < vcc.len() && 0 <= f < vcc.len() && #[trigger] vcc[e] != 0 && vcc[e] == #[trigger] vcc[f]
            ==> same_block(g, e, f)
}

/// Edge `e` is at `x`, and is no loop.
pub open spec fn hangs(g: &UndirectedGraph, e: int, x: int) -> bool {
    exists|y: int| #[trigger] g.joins(e, x, y) && y != x
}

/// The edge at position `i` of the edge stack was put there from the vertex
/// `ups[i].1`, at which the edge at the lower position `ups[i].0` is too,
/// unless that position is -1.
pub open spec fn link(g: &UndirectedGraph, estack: Seq<usize>, ups: Seq<(int, int)>, i: int) -> bool {
    &&& -1 <= ups[i].0 < i
    &&& hangs(g, estack[i] as int, ups[i].1)
    &&& ups[i].0 >= 0 ==> hangs(g, estack[ups[i].0] as int, ups[i].1)
}

/// Every edge on the edge stack is linked to one below it.
pub open spec fn links_ok(g: &UndirectedGraph, estack: Seq<usize>, ups: Seq<(int, int)>) -> bool {
    &&& ups.len() == estack.len()
    &&& forall|i: int| 0 <= i < estack.len() ==> #[trigger] link(g, estack, ups, i)
}

/// The edges at the stack positions from `lo` on are linked to edges at
/// positions from `floor` on, and were put there from vertices discovered
/// after time `since`.
pub open spec fn links_above(
    visited: Seq<usize>,
    ups: Seq<(int, int)>,
    lo: int,
    floor: int,
    since: int,
) -> bool {
    forall|i: int|
        lo <= i < ups.len() ==> {
            let up = #[trigger] ups[i];
            up.0 >= floor && 0 <= up.1 < visited.len() && visited[up.1] > since
        }
}

/// Putting an edge on the stack from the vertex `x`, linked to the edge at
/// position `j`, keeps the links.
pub proof fn lemma_links_push(
    g: &UndirectedGraph,
    estack: Seq<usize>,
    ups: Seq<(int, int)>,
    e: int,
    j: int,
    x: int,
    y: int,
)
    requires
        links_ok(g, estack, ups),
        -1 <= j < estack.len(),
        0 <= e <= usize::MAX,
        g.joins(e, x, y),
        y != x,
        j >= 0 ==> hangs(g, estack[j] as int, x),
    ensures
        links_ok(g, estack.push(e as usize), ups.push((j, x))),
{
    let estack1 = estack.push(e as usize);
    let ups1 = ups.push((j, x));
    assert forall|i: int| 0 <= i < estack1.len() implies #[trigger] link(g, estack1, ups1, i) by {
        if i < estack.len() {
            assert(link(g, estack, ups, i));
            assert(estack1[i] == estack[i] && ups1[i] == ups[i]);
            if ups[i].0 >= 0 {
                assert(estack1[ups[i].0] == estack[ups[i].0]);
            }
        } else {
            if j >= 0 {
                assert(estack1[j] == estack[j]);
            }
        }
    }
}

/// The bottom of the edge stack keeps its links.
pub proof fn lemma_links_pop(g: &UndirectedGraph, estack: Seq<usize>, ups: Seq<(int, int)>, k: int)
    requires
        links_ok(g, estack, ups),
        0 <= k <= estack.len(),
    ensures
        links_ok(g, estack.subrange(0, k), ups.subrange(0, k)),
{
    let rest = estack.subrange(0, k);
    let ups1 = ups.subrange(0, k);
    assert forall|i: int| 0 <= i < rest.len() implies #[trigger] link(g, rest, ups1, i) by {
        assert(link(g, estack, ups, i));
        assert(rest[i] == estack[i] && ups1[i] == ups[i]);
        if ups[i].0 >= 0 {
            assert(rest[ups[i].0] == estack[ups[i].0]);
        }
    }
}

/// Where each edge above position `le` of the edge stack sticks to the edge
/// that it is linked to, at `le` or above, every one of them lies in one
/// component with the edge at `le`.
pub proof fn lemma_chain_down(
    g: &UndirectedGraph,
    estack: Seq<usize>,
    ups: Seq<(int, int)>,
    le: int,
    i: int,
)
    requires
        0 <= le <= i < estack.len(),
        ups.len() == estack.len(),
        forall|q: int|
            le < q < estack.len() ==> le <= (#[trigger] ups[q]).0 < q && sticks(
                g,
                estack[q] as int,
                estack[ups[q].0] as int,
            ),
    ensures
        same_block(g, estack[i] as int, estack[le] as int),
    decreases i,
{
    if i == le {
        lemma_same_block_self(g, estack[le] as int);
    } else {
        let j = ups[i].0;
        lemma_same_block_step(g, estack[i] as int, estack[j] as int);
        lemma_chain_down(g, estack, ups, le, j);
        lemma_same_block_trans(g, estack[i] as int, estack[j] as int, estack[le] as int);
    }
}

/// The edge stack from position `le` on has become a new component: the
/// edges with one id still lie in one component.
pub proof fn lemma_classes_cut(
    g: &UndirectedGraph,
    visited: Seq<usize>,
    estack: Seq<usize>,
    ups: Seq<(int, int)>,
    vcc: Seq<usize>,
    after: Seq<usize>,
    le: int,
    id: int,
    since: int,
)
    requires
        g.wf(),
        classes_ok(g, vcc),
        vcc.len() == g.edges.len(),
        visited.len() == g.adj_lists.len(),
        links_ok(g, estack, ups),
        0 <= le < estack.len(),
        forall|i: int| 0 <= i < estack.len() ==> #[trigger] estack[i] < vcc.len(),
        links_above(visited, ups, le + 1, le, since),
        renumbered(vcc, after, estack, le, id),
        forall|f: int| 0 <= f < vcc.len() ==> #[trigger] vcc[f] < id,
        forall|x: int|
            0 <= x < visited.len() && #[trigger] visited[x] > since ==> is_first(g, x) || split_right(
                g,
                after,
                x,
            ),
    ensures
        classes_ok(g, after),
{
    assert forall|q: int| le < q < estack.len() implies le <= (#[trigger] ups[q]).0 < q && sticks(
        g,
        estack[q] as int,
        estack[ups[q].0] as int,
    ) by {
        assert(link(g, estack, ups, q));
        let j = ups[q].0;
        let x = ups[q].1;
        let e = estack[q] as int;
        let f = estack[j] as int;
        let a = choose|y: int| #[trigger] g.joins(e, x, y) && y != x;
        let b = choose|y: int| #[trigger] g.joins(f, x, y) && y != x;
        assert(after[estack[q] as int] == id);
        assert(after[estack[j] as int] == id);
        assert(visited[x] > since);
        if !is_first(g, x) {
            assert(split_right(g, after, x));
            assert(g.joins(e, x, a) && g.joins(f, x, b));
            assert(after[e] == after[f] <==> g.connects_off(set![x], a, b));
        }
        assert(g.joins(e, x, a) && g.joins(f, x, b) && a != x && b != x && (is_first(g, x)
            || g.connects_off(set![x], a, b)));
    }
    assert forall|e: int, f: int|
        0 <= e < after.len() && 0 <= f < after.len() && #[trigger] after[e] != 0 && after[e]
            == #[trigger] after[f] implies same_block(g, e, f) by {
        assert(vcc[e] < id && vcc[f] < id);
        if after[e] == id {
            assert(taken(estack, le, e) && taken(estack, le, f));
            let ie = choose|i: int| le <= i < estack.len() && #[trigger] estack[i] == e;
            let jf = choose|i: int| le <= i < estack.len() && #[trigger] estack[i] == f;
            lemma_chain_down(g, estack, ups, le, ie);
            lemma_chain_down(g, estack, ups, le, jf);
            lemma_same_block_sym(g, f, estack[le] as int);
            lemma_same_block_trans(g, e, estack[le] as int, f);
        } else {
            assert(vcc[e] != 0 && vcc[e] == vcc[f]);
        }
    }
}

/// An edge that becomes a component of its own is a class of its own.
pub proof fn lemma_classes_assign(g: &UndirectedGraph, vcc: Seq<usize>, e: int, id: usize)
    requires
        classes_ok(g, vcc),
        0 <= e < vcc.len(),
        forall|f: int| 0 <= f < vcc.len() ==> #[trigger] vcc[f] < id,
    ensures
        classes_ok(g, vcc.update(e, id)),
{
    let after = vcc.update(e, id);
    assert forall|f: int, h: int|
        0 <= f < after.len() && 0 <= h < after.len() && #[trigger] after[f] != 0 && after[f]
            == #[trigger] after[h] implies same_block(g, f, h) by {
        assert(vcc[f] < id && vcc[h] < id);
        if f == e || h == e {
            assert(f == h);
            lemma_same_block_self(g, e);
        } else {
            assert(vcc[f] != 0 && vcc[f] == vcc[h]);
        }
    }
}

} // verus!
