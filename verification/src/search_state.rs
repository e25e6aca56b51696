//! The work stack of the search for 2-edge-connected and 2-vertex-connected
//! components: what the search knows of a vertex while it looks at its
//! adjacency entries, and while it waits for the search from a neighbour.

use crate::ap_state::{ap_frame, ap_inv, ap_result};
use crate::bcc_state::{after_push, frame, holds, inv, keeps, placed, result, BccState};
use crate::blocks::is_first;
use crate::class_state::{classes_ok, links_above, links_ok};
use crate::graph::UndirectedGraph;
use crate::vcc_state::{assigned_inside, vcc_frame, vcc_result};
use vstd::prelude::*;

verus! {

/// One entry of the work stack: a vertex, the vertex and the edge from which
/// it was discovered (both `usize::MAX` for the root of a tree), the number
/// of the adjacency entry that it looks at next, and how many children it
/// has so far.
#[derive(Clone, Copy)]
pub struct Frame {
    pub u: usize,
    pub parent: usize,
    pub parent_edge: usize,
    pub idx: usize,
    pub children: usize,
}

/// What the proof remembers of an entry of the work stack.
pub struct Waiting {
    /// The state in which the search came to the vertex, before it marked
    /// the vertex as discovered.
    pub s0: BccState,
    /// The links of the edge stack at that time.
    pub ups0: Seq<(int, int)>,
    /// The position of the vertex on the vertex stack.
    pub k: int,
    /// The position on the vertex stack of the vertex from which it was
    /// discovered.
    pub kp: int,
    /// The first child of the vertex, once it has one.
    pub first: int,
    /// The state in which the search left for a child, before the tree edge
    /// went onto the edge stack.
    pub a: BccState,
    /// The links of the edge stack at that time.
    pub ups_a: Seq<(int, int)>,
}

/// The tree edge of the vertex of a work-stack entry: none for a root.
pub open spec fn tree_edge(f: Frame) -> int {
    if f.parent == usize::MAX {
        -1
    } else {
        f.parent_edge as int
    }
}

/// The position on the edge stack to which an edge put there from the
/// vertex at stack position `k` is linked.
pub open spec fn link_target(k: int, est0: int, le: int) -> int {
    if k == 0 {
        if le == 0 {
            -1
        } else {
            0
        }
    } else {
        est0 - 1
    }
}

/// The search has come to an undiscovered vertex in state `s`, by its tree
/// edge, which is on top of the edge stack, or as the root of a new tree
/// with both stacks empty.
pub open spec fn arriving(
    g: &UndirectedGraph,
    f: Frame,
    w: Waiting,
    s: BccState,
    ups: Seq<(int, int)>,
) -> bool {
    &&& w.s0 == s
    &&& w.ups0 == ups
    &&& w.k == s.stack.len()
    &&& f.idx == 0
    &&& f.children == 0
    &&& inv(g, s, tree_edge(f))
    &&& ap_inv(g, s.visited, s.low, s.stack, s.is_ap)
    &&& links_ok(g, s.estack, ups)
    &&& classes_ok(g, s.vcc)
    &&& f.u < g.adj_lists.len()
    &&& s.visited[f.u as int] == 0
    &&& f.parent == usize::MAX ==> f.parent_edge == usize::MAX && s.stack.len() == 0
        && s.estack.len() == 0 && is_first(g, f.u as int)
    &&& f.parent != usize::MAX ==> {
        &&& 0 <= w.kp < s.stack.len()
        &&& s.stack[w.kp] == f.parent
        &&& g.joins(f.parent_edge as int, f.u as int, f.parent as int)
        &&& placed(s.estack, s.vcc, f.parent_edge as int)
        &&& holds(s.estack, f.parent_edge as int)
        &&& s.estack.len() > 0
        &&& s.estack[s.estack.len() - 1] == f.parent_edge
    }
}

/// What the state in which the search came to a vertex has to do with its
/// work-stack entry.
pub open spec fn entered(g: &UndirectedGraph, f: Frame, w: Waiting) -> bool {
    &&& f.u < g.adj_lists.len()
    &&& f.parent == usize::MAX ==> f.parent_edge == usize::MAX
    &&& f.parent == usize::MAX <==> w.k == 0
    &&& w.s0.stack.len() == w.k
    &&& w.s0.visited.len() == g.adj_lists.len()
    &&& w.s0.vcc.len() == g.edges.len()
    &&& w.s0.visited[f.u as int] == 0
    &&& forall|x: int| 0 <= x < w.s0.visited.len() ==> #[trigger] w.s0.visited[x] <= w.s0.time
    &&& w.k == 0 ==> is_first(g, f.u as int) && w.s0.estack.len() == 0
    &&& w.k > 0 ==> w.s0.estack.len() > 0 && w.s0.estack[w.s0.estack.len() - 1] == tree_edge(f)
}

/// What holds while the search looks at the adjacency entries of the vertex
/// of a work-stack entry, in state `s` with the edge stack linked by `ups`.
pub open spec fn active(
    g: &UndirectedGraph,
    f: Frame,
    w: Waiting,
    s: BccState,
    ups: Seq<(int, int)>,
) -> bool {
    let u = f.u as int;
    let k = w.k;
    let est0 = w.s0.estack.len() as int;
    let lo = if k == 0 {
        1
    } else {
        est0
    };
    &&& entered(g, f, w)
    &&& f.idx <= g.adj_lists[u].len()
    &&& f.children <= f.idx
    &&& inv(g, s, -1)
    &&& frame(g, s, k, w.kp, tree_edge(f), f.idx as int)
    &&& keeps(g, w.s0, s)
    &&& ap_inv(g, s.visited, s.low, s.stack, s.is_ap)
    &&& ap_frame(g, s.visited, s.stack, s.is_ap, k, w.kp, f.children as int, w.first)
    &&& vcc_frame(g, s.visited, s.vcc, s.stack, k, w.kp, s.time as int)
    &&& assigned_inside(g, w.s0.visited, w.s0.vcc, s.vcc)
    &&& links_ok(g, s.estack, ups)
    &&& classes_ok(g, s.vcc)
    &&& links_above(s.visited, ups, lo, lo - 1, w.s0.time as int)
    &&& forall|i: int| 0 <= i < est0 ==> #[trigger] ups[i] == w.ups0[i]
    &&& k == 0 && s.estack.len() > 0 ==> ups[0].1 == u
    &&& s.stack[k] == u
    &&& s.visited[u] == w.s0.time + 1
    &&& k == 0 ==> (f.children > 0 <==> s.estack.len() > 0)
}

/// The search from the vertex of a work-stack entry waits at an adjacency
/// entry that led to an undiscovered vertex.
pub open spec fn suspended(g: &UndirectedGraph, f: Frame, w: Waiting) -> bool {
    &&& active(g, f, w, w.a, w.ups_a)
    &&& f.idx < g.adj_lists[f.u as int].len()
    &&& w.a.visited[g.adj_lists[f.u as int][f.idx as int].1 as int] == 0
}

/// The work-stack entry `fc` is that of the vertex for which the entry `fp`
/// waits.
pub open spec fn child_of(g: &UndirectedGraph, fp: Frame, wp: Waiting, fc: Frame, wc: Waiting) -> bool {
    let entry = g.adj_lists[fp.u as int][fp.idx as int];
    &&& fc.u == entry.1
    &&& fc.parent == fp.u
    &&& fc.parent_edge == entry.0
    &&& fc.parent != usize::MAX
    &&& wc.s0 == after_push(wp.a, entry.0 as int)
    &&& wc.ups0 == wp.ups_a.push(
        (link_target(wp.k, wp.s0.estack.len() as int, wp.a.estack.len() as int), fp.u as int),
    )
    &&& wc.kp == wp.k
    &&& wc.k == wp.a.stack.len()
}

/// What the search from the vertex of a work-stack entry leaves behind.
pub open spec fn finished(
    g: &UndirectedGraph,
    f: Frame,
    w: Waiting,
    t: BccState,
    ups: Seq<(int, int)>,
) -> bool {
    let est0 = w.s0.estack.len() as int;
    &&& result(g, w.s0, t, f.u as int, tree_edge(f), w.kp)
    &&& links_ok(g, t.estack, ups)
    &&& classes_ok(g, t.vcc)
    &&& links_above(t.visited, ups, est0, est0 - 1, w.s0.time as int)
    &&& forall|i: int| 0 <= i < est0 ==> #[trigger] ups[i] == w.ups0[i]
    &&& ap_inv(g, t.visited, t.low, t.stack, t.is_ap)
    &&& ap_result(g, t.visited, t.is_ap, w.s0.time as int, w.s0.time as int, f.u as int)
    &&& vcc_result(g, w.s0.visited, w.s0.vcc, t.visited, t.vcc, f.u as int, f.parent == usize::MAX)
}

/// The adjacency entries that the vertices on the work stack have yet to
/// look at, and one more for each of them.
pub open spec fn weight(g: &UndirectedGraph, frames: Seq<Frame>) -> nat
    decreases frames.len(),
{
    if frames.len() == 0 {
        0
    } else {
        weight(g, frames.drop_last()) + (g.adj_lists[frames.last().u as int].len() - frames.last().idx
            + 1) as nat
    }
}

/// Looking at one more entry of the vertex on top of the work stack takes
/// one off the weight.
pub proof fn lemma_weight_step(g: &UndirectedGraph, frames: Seq<Frame>, next: Frame)
    requires
        frames.len() > 0,
        frames.last().idx < g.adj_lists[frames.last().u as int].len(),
        next.u == frames.last().u,
        next.idx == frames.last().idx + 1,
    ensures
        weight(g, frames.update(frames.len() - 1, next)) + 1 == weight(g, frames),
{
    let after = frames.update(frames.len() - 1, next);
    assert(after.drop_last() =~= frames.drop_last());
}

/// Taking the top off the work stack takes at least one off the weight.
pub proof fn lemma_weight_pop(g: &UndirectedGraph, frames: Seq<Frame>)
    requires
        frames.len() > 0,
        frames.last().idx <= g.adj_lists[frames.last().u as int].len(),
    ensures
        weight(g, frames.drop_last()) < weight(g, frames),
{
}

/// `arriving`, for the search to hand on without looking into it.
#[verifier::opaque]
pub open spec fn is_arriving(
    g: &UndirectedGraph,
    f: Frame,
    w: Waiting,
    s: BccState,
    ups: Seq<(int, int)>,
) -> bool {
    arriving(g, f, w, s, ups)
}

/// `active`, for the search to hand on without looking into it.
#[verifier::opaque]
pub open spec fn is_active(
    g: &UndirectedGraph,
    f: Frame,
    w: Waiting,
    s: BccState,
    ups: Seq<(int, int)>,
) -> bool {
    active(g, f, w, s, ups)
}

/// `suspended` and `child_of`, for the search to hand on without looking
/// into them.
#[verifier::opaque]
pub open spec fn is_waiting(g: &UndirectedGraph, fp: Frame, wp: Waiting, fc: Frame, wc: Waiting) -> bool {
    suspended(g, fp, wp) && child_of(g, fp, wp, fc, wc)
}

/// `finished`, for the search to hand on without looking into it.
#[verifier::opaque]
pub open spec fn is_finished(
    g: &UndirectedGraph,
    f: Frame,
    w: Waiting,
    t: BccState,
    ups: Seq<(int, int)>,
) -> bool {
    finished(g, f, w, t, ups)
}

/// What the search needs to know of the entry on top of the work stack to
/// go on.
pub proof fn lemma_active_bounds(
    g: &UndirectedGraph,
    f: Frame,
    w: Waiting,
    s: BccState,
    ups: Seq<(int, int)>,
)
    requires
        is_active(g, f, w, s, ups),
    ensures
        g.wf(),
        f.u < g.adj_lists.len(),
        f.idx <= g.adj_lists[f.u as int].len(),
        s.visited.len() == g.adj_lists.len(),
        s.time <= g.adj_lists.len(),
        w.k == 0 <==> f.parent == usize::MAX,
{
    reveal(is_active);
}

/// An entry waits for the top of the work stack whatever the top has looked
/// at, and whatever it has left for.
pub proof fn lemma_waiting_same(
    g: &UndirectedGraph,
    fp: Frame,
    wp: Waiting,
    fc: Frame,
    wc: Waiting,
    fc2: Frame,
    wc2: Waiting,
)
    requires
        is_waiting(g, fp, wp, fc, wc),
        fc2.u == fc.u,
        fc2.parent == fc.parent,
        fc2.parent_edge == fc.parent_edge,
        wc2.s0 == wc.s0,
        wc2.ups0 == wc.ups0,
        wc2.kp == wc.kp,
        wc2.k == wc.k,
    ensures
        is_waiting(g, fp, wp, fc2, wc2),
{
    reveal(is_waiting);
}

/// What a search leaves behind does not depend on what its work-stack
/// entry looked at last.
pub proof fn lemma_finished_same(
    g: &UndirectedGraph,
    f: Frame,
    w: Waiting,
    f2: Frame,
    w2: Waiting,
    t: BccState,
    ups: Seq<(int, int)>,
)
    requires
        is_finished(g, f, w, t, ups),
        f2.u == f.u,
        f2.parent == f.parent,
        f2.parent_edge == f.parent_edge,
        w2.s0 == w.s0,
        w2.ups0 == w.ups0,
        w2.kp == w.kp,
    ensures
        is_finished(g, f2, w2, t, ups),
{
    reveal(is_finished);
}

/// Every entry of the work stack but the top one waits for the next.
pub open spec fn all_waiting(g: &UndirectedGraph, frames: Seq<Frame>, waits: Seq<Waiting>) -> bool {
    forall|i: int|
        0 <= i < frames.len() - 1 ==> #[trigger] is_waiting(
            g,
            frames[i],
            waits[i],
            frames[i + 1],
            waits[i + 1],
        )
}

} // verus!
