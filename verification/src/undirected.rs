//! 2-edge-connected and 2-vertex-connected components of an undirected
//! graph, and the queries that read them: bridges and cut vertices.

use crate::ap_state::{
    ap_inv, ap_result, flags_after, flags_at_end, lemma_ap_ascend, lemma_ap_back, lemma_ap_enter,
    lemma_ap_leave,
};
use crate::bcc_state::{
    after_assign, after_cut, after_lower, after_pop, after_push, after_visit, holds, index_of, inv,
    keeps, lemma_ascend, lemma_back, lemma_cut, lemma_descend, lemma_enter, lemma_leave_keep,
    lemma_leave_pop, lemma_renumber_start, lemma_renumber_step, lemma_self_loop, lemma_skip,
    lemma_stack_distinct, lemma_stack_order, placed, renumbered, result, BccState,
};
use crate::blocks::{
    is_chain, is_first, lemma_block_same_id, lemma_first, same_block, split_right, sticks, unsplit,
};
use crate::class_state::{
    classes_ok, hangs, lemma_classes_assign, lemma_classes_cut, lemma_links_pop, lemma_links_push,
    link, links_above, links_ok,
};
use crate::graph::UndirectedGraph;
use crate::search_state::{
    active, all_waiting, arriving, child_of, finished, is_active, is_arriving, is_finished,
    is_waiting, lemma_active_bounds, lemma_finished_same, lemma_waiting_same, lemma_weight_pop,
    lemma_weight_step, link_target, suspended, tree_edge, weight, Frame, Waiting,
};
use crate::traversal::{lemma_zeros_some, lemma_zeros_update, used, zeros, ConnectivityData};
use crate::vcc_state::{
    assigned_inside, lemma_roots, lemma_vcc_ascend, lemma_vcc_cut, lemma_vcc_drain, lemma_vcc_enter,
    lemma_vcc_leave, lemma_vcc_loop, vcc_result,
};
use vstd::prelude::*;

verus! {

/// The decomposition of an undirected graph into its 2-edge-connected and
/// its 2-vertex-connected components.
#[allow(non_snake_case)]
pub struct ConnectivityUndirectedGraph<'a> {
    /// The graph that was decomposed.
    pub graph: &'a UndirectedGraph,
    /// Per vertex, the id of its 2-edge-connected component, from 1 to
    /// `num_cc`.
    pub cc: Vec<usize>,
    /// Per edge, the id of its 2-vertex-connected component, from 1 to
    /// `num_vcc`.
    pub vcc: Vec<usize>,
    /// Per vertex, whether the search found it to be an articulation point.
    pub isAP: Vec<bool>,
    /// The number of 2-edge-connected components.
    pub num_cc: usize,
    /// The number of 2-vertex-connected components.
    pub num_vcc: usize,
}

/// The state of a search that fills `c` and keeps its books in `d`, with the
/// tree edges `pes` of the vertices on the stack.
spec fn bcc_state(c: ConnectivityUndirectedGraph, d: ConnectivityData, pes: Seq<int>) -> BccState {
    BccState {
        time: d.time,
        visited: d.visited@,
        low: d.low@,
        stack: d.v_stack@,
        pes,
        cc: c.cc@,
        num_cc: c.num_cc,
        estack: d.e_stack@,
        vcc: c.vcc@,
        num_vcc: c.num_vcc,
        is_ap: c.isAP@,
    }
}

impl<'a> ConnectivityUndirectedGraph<'a> {
    /// The decomposition is that of the graph:
    /// - every vertex has a component id from 1 to `num_cc`, every edge one
    ///   from 1 to `num_vcc`, and every id is taken;
    /// - two vertices share an id exactly if they are two-edge-connected;
    /// - a vertex is flagged exactly if it is an articulation point;
    /// - two edges share an id exactly if they lie in one 2-vertex-connected
    ///   component, where the edges at the least vertex of a connected
    ///   component, from which the search of that component starts, count as
    ///   lying in one; at any other vertex two edges share an id exactly if
    ///   their far ends stay connected when the vertex is removed.
    pub open spec fn wf(&self) -> bool {
        let g = self.graph;
        let n = g.adj_lists.len();
        &&& g.wf()
        &&& self.cc.len() == n
        &&& self.vcc.len() == g.edges.len()
        &&& self.isAP.len() == n
        &&& forall|v: int| 0 <= v < n ==> 1 <= #[trigger] self.cc[v] <= self.num_cc
        &&& forall|c: int| 1 <= c <= self.num_cc ==> #[trigger] used(self.cc@, c)
        &&& forall|e: int| 0 <= e < g.edges.len() ==> 1 <= #[trigger] self.vcc[e] <= self.num_vcc
        &&& forall|c: int| 1 <= c <= self.num_vcc ==> #[trigger] used(self.vcc@, c)
        &&& forall|u: int, v: int|
            0 <= u < n && 0 <= v < n ==> (#[trigger] self.cc[u] == #[trigger] self.cc[v]
                <==> g.two_edge_connected(u, v))
        &&& forall|u: int| 0 <= u < n ==> (#[trigger] self.isAP[u] <==> g.is_articulation(u))
        &&& forall|u: int|
            0 <= u < n ==> if #[trigger] is_first(g, u) {
                unsplit(g, self.vcc@, u)
            } else {
                split_right(g, self.vcc@, u)
            }
        &&& forall|e: int, f: int|
            0 <= e < g.edges.len() && 0 <= f < g.edges.len() ==> (#[trigger] self.vcc[e]
                == #[trigger] self.vcc[f] <==> same_block(g, e, f))
    }

    /// The edges at `u` are not all in one 2-vertex-connected component.
    pub open spec fn spans_components(&self, u: int) -> bool {
        exists|i: int|
            0 <= i < self.graph.adj_lists[u].len() && self.vcc[(
            #[trigger] self.graph.adj_lists[u][i]).0 as int] != self.vcc[self.graph.adj_lists[u][0].0 as int]
    }

    /// Decomposes `graph` into its 2-edge-connected and its
    /// 2-vertex-connected components, and marks the articulation points.
    /// One depth-first search is run from the least vertex of each connected
    /// component.
    pub fn new(graph: &'a UndirectedGraph) -> (connect: Self)
        requires
            graph.wf(),
        ensures
            connect.graph == graph,
            connect.wf(),
    {
        let n = graph.num_v();
        let mut connect = Self {
            graph,
            cc: vec![0; n],
            vcc: vec![0; graph.num_e()],
            isAP: vec![false; n],
            num_cc: 0,
            num_vcc: 0,
        };
        let mut data = ConnectivityData::new(n);
        proof {
            let s = bcc_state(connect, data, Seq::empty());
            crate::traversal::lemma_zeros_bound(s.vcc);
            assert(inv(graph, s, -1));
        }
        let mut u: usize = 0;
        while u < n
            invariant
                u <= n,
                n == graph.adj_lists.len(),
                connect.graph == graph,
                inv(graph, bcc_state(connect, data, Seq::empty()), -1),
                ap_inv(graph, data.visited@, data.low@, data.v_stack@, connect.isAP@),
                classes_ok(graph, connect.vcc@),
                data.v_stack.len() == 0,
                data.e_stack.len() == 0,
                forall|v: int| 0 <= v < u ==> #[trigger] data.visited[v] != 0,
                forall|x: int|
                    0 <= x < n && data.visited[x] != 0 ==> (#[trigger] connect.isAP[x]
                        <==> graph.is_articulation(x)),
                forall|f: int, x: int, y: int|
                    #[trigger] graph.joins(f, x, y) && data.visited[x] != 0 ==> data.visited[y] != 0,
                forall|z: int|
                    0 <= z < n && #[trigger] data.visited[z] != 0 ==> if is_first(graph, z) {
                        unsplit(graph, connect.vcc@, z)
                    } else {
                        split_right(graph, connect.vcc@, z)
                    },
                forall|e: int, x: int, y: int|
                    #[trigger] graph.joins(e, x, y) && data.visited[x] != 0 ==> connect.vcc[e] != 0,
            decreases n - u,
        {
            if data.visited[u] == 0 {
                let ghost a = bcc_state(connect, data, Seq::empty());
                proof {
                    lemma_first(graph, a.visited, u as int);
                }
                connect.bcc(&mut data, u);
                proof {
                    let b = bcc_state(connect, data, Seq::empty());
                    assert forall|v: int| 0 <= v < u + 1 implies #[trigger] data.visited[v] != 0 by {
                        if v < u {
                            assert(a.visited[v] != 0);
                        }
                    }
                    lemma_roots(graph, a.visited, b.visited, b.is_ap, a.time as int, u as int);
                    assert forall|f: int, x: int, y: int|
                        #[trigger] graph.joins(f, x, y) && data.visited[x] != 0 implies data.visited[y]
                        != 0 by {
                        if a.visited[x] != 0 {
                            assert(a.visited[y] != 0);
                            assert(b.visited[y] == a.visited[y]);
                        } else {
                            assert(b.visited[x] > a.time);
                            assert(b.visited[y] >= b.low[u as int]);
                        }
                    }
                    assert forall|z: int| 0 <= z < n && #[trigger] data.visited[z] != 0 implies if is_first(
                        graph,
                        z,
                    ) {
                        unsplit(graph, connect.vcc@, z)
                    } else {
                        split_right(graph, connect.vcc@, z)
                    } by {
                        if a.visited[z] != 0 {
                            lemma_same_ids(graph, a.visited, a.vcc, b.vcc, z);
                        }
                    }
                    assert forall|x: int| 0 <= x < n && data.visited[x] != 0 implies (
                    #[trigger] connect.isAP[x] <==> graph.is_articulation(x)) by {
                        if a.visited[x] != 0 {
                            assert(b.is_ap[x] == a.is_ap[x]);
                        } else {
                            assert(b.visited[x] > a.time);
                        }
                    }
                    assert forall|e: int, x: int, y: int|
                        #[trigger] graph.joins(e, x, y) && data.visited[x] != 0 implies connect.vcc[e]
                        != 0 by {
                        if a.visited[x] != 0 {
                            assert(a.vcc[e] != 0);
                        } else {
                            assert(b.visited[x] > a.time);
                            assert(placed(b.estack, b.vcc, e));
                        }
                    }
                }
            }
            u += 1;
        }
        proof {
            let s = bcc_state(connect, data, Seq::empty());
            assert forall|v: int| 0 <= v < n implies 1 <= #[trigger] connect.cc[v] <= connect.num_cc by {
                assert(s.visited[v] != 0);
                assert(s.cc[v] <= s.num_cc);
                if s.cc[v] == 0 {
                    assert(holds(s.stack, v));
                }
            }
            assert forall|x: int| 0 <= x < n implies (#[trigger] connect.isAP[x]
                <==> graph.is_articulation(x)) by {
                assert(s.visited[x] != 0);
            }
            assert forall|z: int| 0 <= z < n implies if #[trigger] is_first(graph, z) {
                unsplit(graph, connect.vcc@, z)
            } else {
                split_right(graph, connect.vcc@, z)
            } by {
                assert(s.visited[z] != 0);
            }
            assert forall|e: int, f: int|
                0 <= e < graph.edges.len() && 0 <= f < graph.edges.len() implies (
            #[trigger] connect.vcc[e] == #[trigger] connect.vcc[f] <==> same_block(graph, e, f)) by {
                assert(graph.joins(e, graph.edges[e].0 as int, graph.edges[e].1 as int));
                if same_block(graph, e, f) {
                    lemma_block_same_id(graph, connect.vcc@, e, f);
                }
            }
            assert forall|e: int| 0 <= e < graph.edges.len() implies 1 <= #[trigger] connect.vcc[e]
                <= connect.num_vcc by {
                assert(graph.joins(e, graph.edges[e].0 as int, graph.edges[e].1 as int));
            }
            assert forall|x: int, y: int| 0 <= x < n && 0 <= y < n implies (#[trigger] connect.cc[x]
                == #[trigger] connect.cc[y] <==> graph.two_edge_connected(x, y)) by {
                if connect.cc[x] == connect.cc[y] {
                    assert(s.cc[x] != 0 && s.cc[x] == s.cc[y]);
                } else {
                    assert(s.cc[x] != 0 && s.cc[x] != s.cc[y]);
                }
            }
        }
        connect
    }

    /// In an undirected graph, determines whether the edges at `u` lie in
    /// more than one 2-vertex-connected component. At a vertex without
    /// loops that is so exactly if `u` is an articulation point and not the
    /// least vertex of its connected component; at a vertex with a loop,
    /// which is a component of its own, exactly if there is another edge.
    /// `isAP` tells the articulation points without these exceptions.
    pub fn is_cut_vertex(&self, u: usize) -> (r: bool)
        requires
            self.graph.wf(),
            self.vcc.len() == self.graph.edges.len(),
            u < self.graph.adj_lists.len(),
        ensures
            r == self.spans_components(u as int),
            self.wf() && !self.graph.adjacent(u as int, u as int) ==> r == (!is_first(
                self.graph,
                u as int,
            ) && self.graph.is_articulation(u as int)),
            self.wf() && self.graph.adjacent(u as int, u as int) ==> r == (
            self.graph.adj_lists[u as int].len() >= 2),
    {
        proof {
            if self.wf() {
                if self.graph.adjacent(u as int, u as int) {
                    lemma_cut_vertex_with_loop(*self, u as int);
                } else {
                    lemma_cut_vertex(*self, u as int);
                }
            }
        }
        let m = self.graph.adj_lists[u].len();
        if m == 0 {
            return false;
        }
        proof {
            let entry = self.graph.adj_lists[u as int][0];
            assert(self.graph.joins(entry.0 as int, u as int, entry.1 as int));
        }
        let first_e = self.graph.adj_lists[u][0].0;
        let mut i: usize = 0;
        while i < m
            invariant
                self.graph.wf(),
                self.vcc.len() == self.graph.edges.len(),
                u < self.graph.adj_lists.len(),
                m == self.graph.adj_lists[u as int].len(),
                0 < m,
                i <= m,
                first_e == self.graph.adj_lists[u as int][0].0,
                first_e < self.vcc.len(),
                self.wf() && !self.graph.adjacent(u as int, u as int) ==> (self.spans_components(
                    u as int,
                ) <==> !is_first(self.graph, u as int) && self.graph.is_articulation(u as int)),
                self.wf() && self.graph.adjacent(u as int, u as int) ==> (self.spans_components(
                    u as int,
                ) <==> self.graph.adj_lists[u as int].len() >= 2),
                forall|j: int|
                    0 <= j < i ==> self.vcc[(#[trigger] self.graph.adj_lists[u as int][j]).0 as int]
                        == self.vcc[first_e as int],
            decreases m - i,
        {
            proof {
                let entry = self.graph.adj_lists[u as int][i as int];
                assert(self.graph.joins(entry.0 as int, u as int, entry.1 as int));
            }
            let e = self.graph.adj_lists[u][i].0;
            if self.vcc[first_e] != self.vcc[e] {
                return true;
            }
            i += 1;
        }
        false
    }

    /// In an undirected graph, determines whether `e` is a bridge: whether
    /// its ends lie in different 2-edge-connected components.
    pub fn is_cut_edge(&self, e: usize) -> (r: bool)
        requires
            self.graph.wf(),
            self.cc.len() == self.graph.adj_lists.len(),
            e < self.graph.edges.len(),
        ensures
            r == (self.cc[self.graph.edges[e as int].0 as int] != self.cc[self.graph.edges[e as int].1 as int]),
            self.wf() ==> r == self.graph.is_bridge(e as int),
    {
        let u = self.graph.edges[e].0;
        let v = self.graph.edges[e].1;
        proof {
            if self.wf() {
                lemma_bridge(self.graph, e as int);
                assert(self.cc[u as int] == self.cc[v as int] <==> self.graph.two_edge_connected(
                    u as int,
                    v as int,
                ));
            }
        }
        self.cc[u] != self.cc[v]
    }

    /// Searches from the undiscovered vertex `u`, the least vertex of its
    /// connected component, as the root of a new tree, and gives an id to
    /// every component that the search completes. The vertices whose
    /// adjacency entries are not all looked at wait on a work stack.
    fn bcc(&mut self, data: &mut ConnectivityData, u: usize)
        requires
            inv(old(self).graph, bcc_state(*old(self), *old(data), Seq::empty()), -1),
            ap_inv(
                old(self).graph,
                old(data).visited@,
                old(data).low@,
                old(data).v_stack@,
                old(self).isAP@,
            ),
            classes_ok(old(self).graph, old(self).vcc@),
            u < old(self).graph.adj_lists.len(),
            old(data).visited[u as int] == 0,
            old(data).v_stack.len() == 0,
            old(data).e_stack.len() == 0,
            is_first(old(self).graph, u as int),
        ensures
            final(self).graph == old(self).graph,
            result(
                old(self).graph,
                bcc_state(*old(self), *old(data), Seq::empty()),
                bcc_state(*final(self), *final(data), Seq::empty()),
                u as int,
                -1,
                0,
            ),
            classes_ok(final(self).graph, final(self).vcc@),
            ap_inv(
                final(self).graph,
                final(data).visited@,
                final(data).low@,
                final(data).v_stack@,
                final(self).isAP@,
            ),
            ap_result(
                final(self).graph,
                final(data).visited@,
                final(self).isAP@,
                old(data).time as int,
                old(data).time as int,
                u as int,
            ),
            vcc_result(
                old(self).graph,
                old(data).visited@,
                old(self).vcc@,
                final(data).visited@,
                final(self).vcc@,
                u as int,
                true,
            ),
    {
        let ghost g = self.graph;
        let ghost entry = bcc_state(*self, *data, Seq::empty());
        let root = Frame { u, parent: usize::MAX, parent_edge: usize::MAX, idx: 0, children: 0 };
        let ghost w0 = Waiting {
            s0: entry,
            ups0: Seq::empty(),
            k: 0,
            kp: 0,
            first: 0,
            a: entry,
            ups_a: Seq::empty(),
        };
        let ghost mut pes: Seq<int> = Seq::empty();
        let ghost mut ups: Seq<(int, int)> = Seq::empty();
        let ghost mut waits: Seq<Waiting> = seq![w0];
        proof {
            assert(links_ok(g, entry.estack, ups));
            assert(arriving(g, root, w0, entry, ups));
            reveal(is_arriving);
        }
        let entered = self.enter(data, root, Ghost(w0), Ghost(pes), Ghost(ups));
        proof {
            pes = entered@;
            lemma_active_bounds(g, root, w0, bcc_state(*self, *data, pes), ups);
        }
        let mut frames: Vec<Frame> = Vec::new();
        frames.push(root);
        while frames.len() > 0
            invariant
                self.graph == g,
                g == old(self).graph,
                g.wf(),
                entry == bcc_state(*old(self), *old(data), Seq::empty()),
                root == (Frame { u, parent: usize::MAX, parent_edge: usize::MAX, idx: 0, children: 0 }),
                w0.s0 == entry,
                w0.ups0 == Seq::<(int, int)>::empty(),
                w0.kp == 0,
                waits.len() == frames.len(),
                data.time <= g.adj_lists.len(),
                data.visited.len() == g.adj_lists.len(),
                frames.len() > 0 ==> {
                    &&& is_active(
                        g,
                        frames[frames.len() - 1],
                        waits[frames.len() - 1],
                        bcc_state(*self, *data, pes),
                        ups,
                    )
                    &&& waits[0].s0 == entry
                    &&& waits[0].ups0 == w0.ups0
                    &&& waits[0].kp == 0
                    &&& frames[0].u == u
                    &&& frames[0].parent == usize::MAX
                    &&& frames[0].parent_edge == usize::MAX
                },
                all_waiting(g, frames@, waits),
                frames.len() == 0 ==> is_finished(g, root, w0, bcc_state(*self, *data, pes), ups),
            decreases g.adj_lists.len() - data.time, weight(g, frames@),
        {
            let t = frames.len() - 1;
            let f = frames[t];
            let ghost w = waits[t as int];
            let ghost frames0 = frames@;
            let ghost waits0 = waits;
            proof {
                lemma_active_bounds(g, f, w, bcc_state(*self, *data, pes), ups);
            }
            if f.idx < self.graph.adj_lists[f.u].len() {
                let v = self.graph.adj_lists[f.u][f.idx].1;
                proof {
                    let entry = g.adj_lists[f.u as int][f.idx as int];
                    assert(g.joins(entry.0 as int, f.u as int, entry.1 as int));
                }
                if data.visited[v] == 0 {
                    let down = self.descend(data, f, Ghost(w), Ghost(pes), Ghost(ups));
                    proof {
                        pes = down.1@.2;
                        ups = down.1@.3;
                        waits = waits.update(t as int, down.1@.0).push(down.1@.1);
                        lemma_active_bounds(g, down.0, down.1@.1, bcc_state(*self, *data, pes), ups);
                    }
                    frames.push(down.0);
                    proof {
                        assert forall|i: int| 0 <= i < frames@.len() - 1 implies #[trigger] is_waiting(
                            g,
                            frames@[i],
                            waits[i],
                            frames@[i + 1],
                            waits[i + 1],
                        ) by {
                            assert(frames@[i] == frames0[i]);
                            if i < t {
                                assert(is_waiting(
                                    g,
                                    frames0[i],
                                    waits0[i],
                                    frames0[i + 1],
                                    waits0[i + 1],
                                ));
                                assert(waits[i] == waits0[i]);
                                assert(frames@[i + 1] == frames0[i + 1]);
                                lemma_waiting_same(
                                    g,
                                    frames0[i],
                                    waits0[i],
                                    frames0[i + 1],
                                    waits0[i + 1],
                                    frames@[i + 1],
                                    waits[i + 1],
                                );
                            }
                        }
                    }
                } else {
                    let looked = self.look(data, f, Ghost(w), Ghost(pes), Ghost(ups));
                    let next = Frame { idx: f.idx + 1, ..f };
                    proof {
                        ups = looked@;
                        lemma_weight_step(g, frames@, next);
                    }
                    frames[t] = next;
                    proof {
                        assert forall|i: int| 0 <= i < frames@.len() - 1 implies #[trigger] is_waiting(
                            g,
                            frames@[i],
                            waits[i],
                            frames@[i + 1],
                            waits[i + 1],
                        ) by {
                            assert(is_waiting(g, frames0[i], waits0[i], frames0[i + 1], waits0[i + 1]));
                            assert(frames@[i] == frames0[i]);
                            lemma_waiting_same(
                                g,
                                frames0[i],
                                waits0[i],
                                frames0[i + 1],
                                waits0[i + 1],
                                frames@[i + 1],
                                waits[i + 1],
                            );
                        }
                    }
                }
            } else {
                let closed = self.close(data, f, Ghost(w), Ghost(pes), Ghost(ups));
                proof {
                    pes = closed@.0;
                    ups = closed@.1;
                    lemma_weight_pop(g, frames@);
                    waits = waits.drop_last();
                }
                frames.pop();
                if frames.len() > 0 {
                    let fp = frames[t - 1];
                    let ghost wp = waits[t - 1];
                    proof {
                        assert(is_waiting(
                            g,
                            frames0[t - 1],
                            waits0[t - 1],
                            frames0[t - 1 + 1],
                            waits0[t - 1 + 1],
                        ));
                    }
                    let resumed = self.resume(data, fp, f, Ghost(wp), Ghost(w), Ghost(pes), Ghost(ups));
                    let next = Frame { idx: fp.idx + 1, children: fp.children + 1, ..fp };
                    proof {
                        ups = resumed@.1;
                        lemma_weight_step(g, frames@, next);
                        waits = waits.update(t - 1, resumed@.0);
                    }
                    frames[t - 1] = next;
                    proof {
                        assert forall|i: int| 0 <= i < frames@.len() - 1 implies #[trigger] is_waiting(
                            g,
                            frames@[i],
                            waits[i],
                            frames@[i + 1],
                            waits[i + 1],
                        ) by {
                            assert(is_waiting(g, frames0[i], waits0[i], frames0[i + 1], waits0[i + 1]));
                            assert(frames@[i] == frames0[i]);
                            assert(waits[i] == waits0[i]);
                            lemma_waiting_same(
                                g,
                                frames0[i],
                                waits0[i],
                                frames0[i + 1],
                                waits0[i + 1],
                                frames@[i + 1],
                                waits[i + 1],
                            );
                        }
                    }
                } else {
                    proof {
                        lemma_finished_same(g, f, w, root, w0, bcc_state(*self, *data, pes), ups);
                    }
                }
            }
        }
        proof {
            reveal(is_finished);
            assert(pes =~= Seq::<int>::empty());
        }
    }

    /// Marks the vertex of a new work-stack entry as discovered.
    fn enter(
        &mut self,
        data: &mut ConnectivityData,
        f: Frame,
        Ghost(w): Ghost<Waiting>,
        Ghost(pes): Ghost<Seq<int>>,
        Ghost(ups): Ghost<Seq<(int, int)>>,
    ) -> (out: Ghost<Seq<int>>)
        requires
            is_arriving(old(self).graph, f, w, bcc_state(*old(self), *old(data), pes), ups),
        ensures
            final(self).graph == old(self).graph,
            final(data).time == old(data).time + 1,
            is_active(final(self).graph, f, w, bcc_state(*final(self), *final(data), out@), ups),
    {
        let ghost g = self.graph;
        let ghost s0 = bcc_state(*self, *data, pes);
        let ghost pe = tree_edge(f);
        proof {
            reveal(is_arriving);
            assert(arriving(g, f, w, s0, ups));
            lemma_enter(g, s0, f.u as int, pe, w.kp);
            lemma_ap_enter(g, s0, f.u as int, pe, w.kp);
            lemma_vcc_enter(g, s0, f.u as int, pe, w.kp);
        }
        data.visit(f.u);
        proof {
            let s = bcc_state(*self, *data, pes.push(pe));
            assert(s == after_visit(s0, f.u as int, pe));
            assert(s.stack[w.k] == f.u);
            assert(assigned_inside(g, s0.visited, s0.vcc, s.vcc));
            assert(active(g, f, w, s, ups));
            reveal(is_active);
        }
        Ghost(pes.push(pe))
    }

    /// Follows the adjacency entry that a work-stack entry looks at next to
    /// an undiscovered vertex: the edge goes onto the edge stack, and the
    /// vertex gets a work-stack entry of its own, which is returned.
    fn descend(
        &mut self,
        data: &mut ConnectivityData,
        f: Frame,
        Ghost(w): Ghost<Waiting>,
        Ghost(pes): Ghost<Seq<int>>,
        Ghost(ups): Ghost<Seq<(int, int)>>,
    ) -> (out: (Frame, Ghost<(Waiting, Waiting, Seq<int>, Seq<(int, int)>)>))
        requires
            is_active(old(self).graph, f, w, bcc_state(*old(self), *old(data), pes), ups),
            f.idx < old(self).graph.adj_lists[f.u as int].len(),
            old(data).visited[old(self).graph.adj_lists[f.u as int][f.idx as int].1 as int] == 0,
        ensures
            final(self).graph == old(self).graph,
            final(data).time == old(data).time + 1,
            final(data).visited.len() == old(data).visited.len(),
            out.1@.0 == (Waiting { a: bcc_state(*old(self), *old(data), pes), ups_a: ups, ..w }),
            is_waiting(final(self).graph, f, out.1@.0, out.0, out.1@.1),
            is_active(
                final(self).graph,
                out.0,
                out.1@.1,
                bcc_state(*final(self), *final(data), out.1@.2),
                out.1@.3,
            ),
    {
        let ghost g = self.graph;
        let ghost a = bcc_state(*self, *data, pes);
        proof {
            reveal(is_active);
            assert(active(g, f, w, a, ups));
        }
        let ghost k = w.k;
        let ghost pe = tree_edge(f);
        let ghost est0 = w.s0.estack.len() as int;
        let e = self.graph.adj_lists[f.u][f.idx].0;
        let v = self.graph.adj_lists[f.u][f.idx].1;
        let child = Frame { u: v, parent: f.u, parent_edge: e, idx: 0, children: 0 };
        let ghost j = link_target(k, est0, a.estack.len() as int);
        let ghost ups1 = ups.push((j, f.u as int));
        let ghost wp = Waiting { a, ups_a: ups, ..w };
        let ghost wc = Waiting {
            s0: after_push(a, e as int),
            ups0: ups1,
            k: a.stack.len() as int,
            kp: k,
            first: 0,
            a: after_push(a, e as int),
            ups_a: ups1,
        };
        proof {
            let entry = g.adj_lists[f.u as int][f.idx as int];
            assert(g.joins(entry.0 as int, f.u as int, entry.1 as int));
            lemma_descend(g, a, k, w.kp, pe, f.idx as int, e as int, v as int);
            if k > 0 {
                assert(a.estack[est0 - 1] == w.s0.estack[est0 - 1]);
                lemma_stack_order(g, a.time, a.visited, a.stack, a.cc, a.num_cc, k, w.kp);
                assert(g.joins(pe, f.u as int, a.stack[w.kp] as int) && a.stack[w.kp] != f.u);
                assert(hangs(g, a.estack[j] as int, f.u as int));
            } else if a.estack.len() > 0 {
                assert(link(g, a.estack, ups, 0));
            }
            lemma_links_push(g, a.estack, ups, e as int, j, f.u as int, v as int);
        }
        data.e_stack.push(e);
        proof {
            let a1 = bcc_state(*self, *data, pes);
            assert(a1 == after_push(a, e as int));
            assert(a1.estack[a.estack.len() as int] == e);
            assert(holds(a1.estack, e as int));
            assert(arriving(g, child, wc, a1, ups1));
            reveal(is_arriving);
            assert(suspended(g, f, wp) && child_of(g, f, wp, child, wc));
            reveal(is_waiting);
        }
        let entered = self.enter(data, child, Ghost(wc), Ghost(pes), Ghost(ups1));
        proof {
            lemma_active_bounds(g, child, wc, bcc_state(*self, *data, entered@), ups1);
        }
        (child, Ghost((wp, wc, entered@, ups1)))
    }

    /// Looks at an adjacency entry that leads to a discovered vertex: an
    /// edge back to a vertex discovered earlier lowers the low-link and goes
    /// onto the edge stack, unless it is the tree edge; a loop becomes a
    /// component of its own.
    fn look(
        &mut self,
        data: &mut ConnectivityData,
        f: Frame,
        Ghost(w): Ghost<Waiting>,
        Ghost(pes): Ghost<Seq<int>>,
        Ghost(ups): Ghost<Seq<(int, int)>>,
    ) -> (out: Ghost<Seq<(int, int)>>)
        requires
            is_active(old(self).graph, f, w, bcc_state(*old(self), *old(data), pes), ups),
            f.idx < old(self).graph.adj_lists[f.u as int].len(),
            old(data).visited[old(self).graph.adj_lists[f.u as int][f.idx as int].1 as int] != 0,
        ensures
            final(self).graph == old(self).graph,
            final(data).time == old(data).time,
            final(data).visited.len() == old(data).visited.len(),
            is_active(
                final(self).graph,
                Frame { idx: (f.idx + 1) as usize, ..f },
                w,
                bcc_state(*final(self), *final(data), pes),
                out@,
            ),
    {
        let ghost g = self.graph;
        let ghost a = bcc_state(*self, *data, pes);
        proof {
            reveal(is_active);
            assert(active(g, f, w, a, ups));
        }
        let ghost s0 = w.s0;
        let ghost k = w.k;
        let ghost kp = w.kp;
        let ghost pe = tree_edge(f);
        let ghost est0 = w.s0.estack.len() as int;
        let ghost mut ups1 = ups;
        let u = f.u;
        let e = self.graph.adj_lists[u][f.idx].0;
        let v = self.graph.adj_lists[u][f.idx].1;
        proof {
            let entry = g.adj_lists[u as int][f.idx as int];
            assert(g.joins(entry.0 as int, u as int, entry.1 as int));
        }
        if e != f.parent_edge && data.visited[v] < data.visited[u] {
            let visited_v = data.visited[v];
            data.lower(u, visited_v);
            data.e_stack.push(e);
            proof {
                let c = bcc_state(*self, *data, pes);
                assert(c == after_push(after_lower(a, u as int, a.visited[v as int]), e as int));
                lemma_back(g, s0, a, c, k, kp, pe, f.idx as int, e as int, v as int);
                assert(a.estack[est0 - 1] == s0.estack[est0 - 1]);
                lemma_stack_order(g, a.time, a.visited, a.stack, a.cc, a.num_cc, k, kp);
                assert(g.joins(pe, u as int, a.stack[kp] as int) && a.stack[kp] != u);
                assert(hangs(g, a.estack[est0 - 1] as int, u as int));
                lemma_links_push(g, a.estack, ups, e as int, est0 - 1, u as int, v as int);
                ups1 = ups.push((est0 - 1, u as int));
                lemma_ap_back(g, a, k, index_of(a.stack, v as int), e as int);
            }
        } else if v == u {
            proof {
                lemma_self_loop(g, s0, a, k, kp, pe, f.idx as int, e as int);
                lemma_classes_assign(g, a.vcc, e as int, (a.num_vcc + 1) as usize);
                lemma_vcc_loop(
                    g,
                    a.visited,
                    a.vcc,
                    a.stack,
                    k,
                    kp,
                    a.time as int,
                    e as int,
                    (a.num_vcc + 1) as usize,
                );
            }
            self.num_vcc += 1;
            self.vcc[e] = self.num_vcc;
            assert(bcc_state(*self, *data, pes) == after_assign(a, e as int));
            assert(assigned_inside(g, s0.visited, s0.vcc, self.vcc@)) by {
                assert forall|h: int, x: int, y: int|
                    #[trigger] g.joins(h, x, y) && self.vcc@[h] != s0.vcc[h] implies s0.visited[x]
                    == 0 by {
                    if h == e {
                        assert(x == u);
                    }
                }
            }
        } else {
            proof {
                lemma_skip(g, a, k, kp, pe, f.idx as int, e as int, v as int);
            }
        }
        proof {
            assert(active(
                g,
                Frame { idx: (f.idx + 1) as usize, ..f },
                w,
                bcc_state(*self, *data, pes),
                ups1,
            ));
            reveal(is_active);
        }
        Ghost(ups1)
    }

    /// Comes back to the vertex of the work-stack entry `fp` from its child,
    /// the vertex of the entry `fc`, whose search has ended: the low-link of
    /// the child is taken into account, and if it is not below the
    /// discovery time of a vertex that is no root, the vertex is an
    /// articulation point and the edges on the edge stack down to the tree
    /// edge of the child become a component.
    fn resume(
        &mut self,
        data: &mut ConnectivityData,
        fp: Frame,
        fc: Frame,
        Ghost(wp): Ghost<Waiting>,
        Ghost(wc): Ghost<Waiting>,
        Ghost(pes): Ghost<Seq<int>>,
        Ghost(ups): Ghost<Seq<(int, int)>>,
    ) -> (out: Ghost<(Waiting, Seq<(int, int)>)>)
        requires
            is_waiting(old(self).graph, fp, wp, fc, wc),
            is_finished(old(self).graph, fc, wc, bcc_state(*old(self), *old(data), pes), ups),
        ensures
            final(self).graph == old(self).graph,
            final(data).time == old(data).time,
            final(data).visited.len() == old(data).visited.len(),
            fp.idx < old(self).graph.adj_lists[fp.u as int].len(),
            fp.children < usize::MAX,
            out@.0 == (Waiting { first: out@.0.first, ..wp }),
            is_active(
                final(self).graph,
                Frame { idx: (fp.idx + 1) as usize, children: (fp.children + 1) as usize, ..fp },
                out@.0,
                bcc_state(*final(self), *final(data), pes),
                out@.1,
            ),
    {
        let ghost g = self.graph;
        let ghost s0 = wp.s0;
        let ghost a = wp.a;
        let ghost ups_a = wp.ups_a;
        let ghost ups_a1 = wc.ups0;
        let ghost b = bcc_state(*self, *data, pes);
        let ghost k = wp.k;
        let ghost kp = wp.kp;
        let ghost pe = tree_edge(fp);
        let ghost est0 = s0.estack.len() as int;
        let ghost lo = if k == 0 {
            1
        } else {
            est0
        };
        let ghost idx = fp.idx as int;
        let ghost mut ups1 = ups;
        let u = fp.u;
        let v = fc.u;
        let e = fc.parent_edge;
        let ghost first = if fp.children == 0 {
            v as int
        } else {
            wp.first
        };
        proof {
            reveal(is_waiting);
            reveal(is_finished);
            assert(suspended(g, fp, wp) && child_of(g, fp, wp, fc, wc));
            assert(finished(g, fc, wc, b, ups));
            let entry = g.adj_lists[u as int][fp.idx as int];
            assert(g.joins(entry.0 as int, u as int, entry.1 as int));
            assert(tree_edge(fc) == e);
        }
        let low_v = data.low[v];
        data.lower(u, low_v);
        proof {
            let c = bcc_state(*self, *data, pes);
            assert(c == after_lower(b, u as int, b.low[v as int]));
            lemma_ascend(g, s0, a, b, c, k, kp, pe, idx, e as int, v as int);
            lemma_ap_ascend(g, a, b, c, k, kp, pe, idx, e as int, v as int, fp.children as int, wp.first);
            assert(b.stack[k] == u);
            lemma_vcc_ascend(g, a, b, k, kp, pe, idx, e as int, v as int);
            assert(links_above(b.visited, ups, lo, lo - 1, s0.time as int)) by {
                assert forall|i: int| lo <= i < ups.len() implies ({
                    let up = #[trigger] ups[i];
                    up.0 >= lo - 1 && 0 <= up.1 < b.visited.len() && b.visited[up.1] > s0.time
                }) by {
                    if i < a.estack.len() {
                        assert(ups[i] == ups_a1[i]);
                        assert(ups_a1[i] == ups_a[i]);
                        let x = ups_a[i].1;
                        assert(a.visited[x] > s0.time);
                        assert(b.visited[x] == a.visited[x]);
                    } else if i == a.estack.len() {
                        assert(ups[i] == ups_a1[i]);
                        assert(b.visited[u as int] == a.visited[u as int]);
                    }
                }
            }
            assert forall|i: int| 0 <= i < est0 implies #[trigger] ups[i] == wp.ups0[i] by {
                assert(ups[i] == ups_a1[i]);
                assert(ups_a1[i] == ups_a[i]);
            }
            if k == 0 {
                assert(ups[0] == ups_a1[0]);
            }
            assert(assigned_inside(g, s0.visited, s0.vcc, b.vcc)) by {
                assert forall|h: int, x: int, y: int|
                    #[trigger] g.joins(h, x, y) && b.vcc[h] != s0.vcc[h] implies s0.visited[x] == 0 by {
                    if b.vcc[h] != a.vcc[h] {
                        assert(a.visited[x] == 0);
                    }
                }
            }
        }
        if fp.parent < usize::MAX && data.visited[u] <= data.low[v] {
            let ghost c = bcc_state(*self, *data, pes);
            let ghost le = a.estack.len() as int;
            self.cut(data, e, Ghost(pes), Ghost(le));
            proof {
                lemma_cut(g, s0, c, k, kp, pe, idx + 1, le, self.vcc@);
                lemma_vcc_cut(g, a, b, k, kp, pe, idx, e as int, v as int, self.vcc@);
                lemma_classes_cut(
                    g,
                    b.visited,
                    b.estack,
                    ups,
                    b.vcc,
                    self.vcc@,
                    le,
                    b.num_vcc + 1,
                    a.time as int,
                );
                lemma_links_pop(g, b.estack, ups, le);
                ups1 = ups.subrange(0, le);
                assert(assigned_inside(g, s0.visited, s0.vcc, self.vcc@)) by {
                    assert forall|h: int, x: int, y: int|
                        #[trigger] g.joins(h, x, y) && self.vcc@[h] != s0.vcc[h] implies s0.visited[x]
                        == 0 by {
                        if self.vcc@[h] != b.vcc[h] {
                            assert(b.visited[x] >= b.visited[u as int]);
                            assert(s0.visited[x] <= s0.time);
                        }
                    }
                }
            }
            self.isAP[u] = true;
            assert(self.isAP@ == flags_after(b, k, v as int));
        } else {
            assert(self.isAP@ == flags_after(b, k, v as int));
        }
        proof {
            assert(active(
                g,
                Frame { idx: (fp.idx + 1) as usize, children: (fp.children + 1) as usize, ..fp },
                Waiting { first, ..wp },
                bcc_state(*self, *data, pes),
                ups1,
            ));
            reveal(is_active);
        }
        Ghost((Waiting { first, ..wp }, ups1))
    }

    /// Ends the search from the vertex of a work-stack entry, all of whose
    /// adjacency entries have been looked at. At a root, the edges left on
    /// the edge stack become one component, and the root is an articulation
    /// point if it has more than one child. A vertex that is its own
    /// low-link ends a 2-edge-connected component, which is the vertex stack
    /// from it upwards.
    fn close(
        &mut self,
        data: &mut ConnectivityData,
        f: Frame,
        Ghost(w): Ghost<Waiting>,
        Ghost(pes): Ghost<Seq<int>>,
        Ghost(ups): Ghost<Seq<(int, int)>>,
    ) -> (out: Ghost<(Seq<int>, Seq<(int, int)>)>)
        requires
            is_active(old(self).graph, f, w, bcc_state(*old(self), *old(data), pes), ups),
            f.idx == old(self).graph.adj_lists[f.u as int].len(),
        ensures
            final(self).graph == old(self).graph,
            final(data).time == old(data).time,
            final(data).visited.len() == old(data).visited.len(),
            is_finished(
                final(self).graph,
                f,
                w,
                bcc_state(*final(self), *final(data), out@.0),
                out@.1,
            ),
    {
        let ghost g = self.graph;
        let ghost s0 = w.s0;
        proof {
            reveal(is_active);
            assert(active(g, f, w, bcc_state(*self, *data, pes), ups));
        }
        let ghost k = w.k;
        let ghost kp = w.kp;
        let ghost pe = tree_edge(f);
        let ghost mut pes1 = pes;
        let ghost mut ups1 = ups;
        let u = f.u;
        proof {
            lemma_ap_leave(
                g,
                bcc_state(*self, *data, pes),
                k,
                kp,
                pe,
                f.children as int,
                w.first,
                s0.time as int,
            );
        }
        let ghost flags = flags_at_end(bcc_state(*self, *data, pes), k, f.children as int);
        if f.parent == usize::MAX && f.children > 0 {
            let ghost c = bcc_state(*self, *data, pes);
            self.drain(data, Ghost(pes));
            proof {
                lemma_cut(g, s0, c, k, kp, pe, f.idx as int, 0, self.vcc@);
                lemma_vcc_drain(g, s0, c, kp, self.vcc@);
                assert forall|x: int|
                    0 <= x < c.visited.len() && #[trigger] c.visited[x] > s0.time implies is_first(g, x)
                    || split_right(g, self.vcc@, x) by {
                    if x != u {
                        assert(c.visited[x] != c.visited[u as int]);
                    }
                }
                lemma_classes_cut(
                    g,
                    c.visited,
                    c.estack,
                    ups,
                    c.vcc,
                    self.vcc@,
                    0,
                    c.num_vcc + 1,
                    s0.time as int,
                );
                lemma_links_pop(g, c.estack, ups, 0);
                ups1 = ups.subrange(0, 0);
                assert(assigned_inside(g, s0.visited, s0.vcc, self.vcc@)) by {
                    assert forall|h: int, x: int, y: int|
                        #[trigger] g.joins(h, x, y) && self.vcc@[h] != s0.vcc[h] implies s0.visited[x]
                        == 0 by {
                        if self.vcc@[h] != c.vcc[h] {
                            assert(c.visited[x] >= c.visited[u as int]);
                            assert(s0.visited[x] <= s0.time);
                        }
                    }
                }
            }
            if f.children > 1 {
                self.isAP[u] = true;
            }
        }
        assert(self.isAP@ == flags);
        proof {
            lemma_vcc_leave(g, s0, bcc_state(*self, *data, pes), k, kp, pe);
        }
        if data.visited[u] == data.low[u] {
            let ghost c = bcc_state(*self, *data, pes);
            self.pop_component(data, u, Ghost(pes), Ghost(k));
            proof {
                lemma_leave_pop(g, s0, c, k, kp, pe, self.cc@);
                pes1 = pes.subrange(0, k);
            }
        } else {
            proof {
                lemma_leave_keep(g, s0, bcc_state(*self, *data, pes), k, kp, pe);
            }
        }
        proof {
            assert(finished(g, f, w, bcc_state(*self, *data, pes1), ups1));
            reveal(is_finished);
        }
        Ghost((pes1, ups1))
    }

    /// Gives the edges on the edge stack, from the top down to the edge `e`,
    /// a new component id.
    fn cut(&mut self, data: &mut ConnectivityData, e: usize, Ghost(pes): Ghost<Seq<int>>, Ghost(le): Ghost<int>)
        requires
            inv(old(self).graph, bcc_state(*old(self), *old(data), pes), -1),
            0 <= le < old(data).e_stack.len(),
            old(data).e_stack[le] == e,
        ensures
            final(self).graph == old(self).graph,
            bcc_state(*final(self), *final(data), pes) == after_cut(
                bcc_state(*old(self), *old(data), pes),
                le,
                final(self).vcc@,
            ),
            renumbered(old(self).vcc@, final(self).vcc@, old(data).e_stack@, le, old(self).num_vcc + 1),
            old(self).num_vcc + 1 + zeros(final(self).vcc@) <= old(self).graph.edges.len(),
    {
        let ghost g = self.graph;
        let ghost c = bcc_state(*self, *data, pes);
        proof {
            assert(c.vcc[c.estack[le] as int] == 0);
            lemma_zeros_some(c.vcc, e as int);
            lemma_renumber_start(c.vcc, c.estack, c.num_vcc + 1);
        }
        self.num_vcc += 1;
        loop
            invariant_except_break
                data.e_stack.len() > le,
            invariant
                self.graph == g,
                inv(g, c, -1),
                0 <= le < c.estack.len(),
                c.estack[le] == e,
                le <= data.e_stack.len() <= c.estack.len(),
                data.e_stack@ == c.estack.subrange(0, data.e_stack.len() as int),
                renumbered(c.vcc, self.vcc@, c.estack, data.e_stack.len() as int, c.num_vcc + 1),
                self.num_vcc == c.num_vcc + 1,
                self.num_vcc + zeros(self.vcc@) <= g.edges.len() + 1,
                data.e_stack.len() < c.estack.len() ==> self.num_vcc + zeros(self.vcc@)
                    <= g.edges.len(),
                self.cc@ == c.cc,
                self.isAP@ == c.is_ap,
                self.num_cc == c.num_cc,
                data.time == c.time,
                data.visited@ == c.visited,
                data.low@ == c.low,
                data.v_stack@ == c.stack,
            ensures
                data.e_stack.len() == le,
            decreases data.e_stack.len(),
        {
            let ghost len = data.e_stack.len() as int;
            let ghost mid = self.vcc@;
            match data.e_stack.pop() {
                Some(top_e) => {
                    proof {
                        assert(top_e == c.estack[len - 1]);
                        lemma_renumber_step(c.vcc, mid, c.estack, len, self.num_vcc);
                        lemma_zeros_update(mid, top_e as int, self.num_vcc);
                    }
                    if self.vcc[top_e] == 0 {
                        self.vcc[top_e] = self.num_vcc;
                    }
                    if e == top_e {
                        assert(len - 1 == le);
                        break ;
                    }
                },
                None => {
                    break ;
                },
            }
        }
    }

    /// Gives all the edges on the edge stack a new component id.
    fn drain(&mut self, data: &mut ConnectivityData, Ghost(pes): Ghost<Seq<int>>)
        requires
            inv(old(self).graph, bcc_state(*old(self), *old(data), pes), -1),
            old(data).e_stack.len() > 0,
        ensures
            final(self).graph == old(self).graph,
            bcc_state(*final(self), *final(data), pes) == after_cut(
                bcc_state(*old(self), *old(data), pes),
                0,
                final(self).vcc@,
            ),
            renumbered(old(self).vcc@, final(self).vcc@, old(data).e_stack@, 0, old(self).num_vcc + 1),
            old(self).num_vcc + 1 + zeros(final(self).vcc@) <= old(self).graph.edges.len(),
    {
        let ghost g = self.graph;
        let ghost c = bcc_state(*self, *data, pes);
        proof {
            assert(c.vcc[c.estack[0] as int] == 0);
            lemma_zeros_some(c.vcc, c.estack[0] as int);
            lemma_renumber_start(c.vcc, c.estack, c.num_vcc + 1);
        }
        self.num_vcc += 1;
        loop
            invariant
                self.graph == g,
                inv(g, c, -1),
                data.e_stack.len() <= c.estack.len(),
                data.e_stack@ == c.estack.subrange(0, data.e_stack.len() as int),
                renumbered(c.vcc, self.vcc@, c.estack, data.e_stack.len() as int, c.num_vcc + 1),
                self.num_vcc == c.num_vcc + 1,
                self.num_vcc + zeros(self.vcc@) <= g.edges.len() + 1,
                data.e_stack.len() < c.estack.len() ==> self.num_vcc + zeros(self.vcc@)
                    <= g.edges.len(),
                self.cc@ == c.cc,
                self.isAP@ == c.is_ap,
                self.num_cc == c.num_cc,
                data.time == c.time,
                data.visited@ == c.visited,
                data.low@ == c.low,
                data.v_stack@ == c.stack,
            ensures
                data.e_stack.len() == 0,
            decreases data.e_stack.len(),
        {
            let ghost len = data.e_stack.len() as int;
            let ghost mid = self.vcc@;
            match data.e_stack.pop() {
                Some(top_e) => {
                    proof {
                        assert(top_e == c.estack[len - 1]);
                        lemma_renumber_step(c.vcc, mid, c.estack, len, self.num_vcc);
                        lemma_zeros_update(mid, top_e as int, self.num_vcc);
                    }
                    self.vcc[top_e] = self.num_vcc;
                },
                None => {
                    break ;
                },
            }
        }
    }

    /// Gives the vertices on the vertex stack, from the top down to `u`, a
    /// new component id.
    fn pop_component(
        &mut self,
        data: &mut ConnectivityData,
        u: usize,
        Ghost(pes): Ghost<Seq<int>>,
        Ghost(k): Ghost<int>,
    )
        requires
            inv(old(self).graph, bcc_state(*old(self), *old(data), pes), -1),
            0 <= k < old(data).v_stack.len(),
            old(data).v_stack[k] == u,
        ensures
            final(self).graph == old(self).graph,
            bcc_state(*final(self), *final(data), pes.subrange(0, k)) == after_pop(
                bcc_state(*old(self), *old(data), pes),
                k,
                final(self).cc@,
            ),
            renumbered(old(self).cc@, final(self).cc@, old(data).v_stack@, k, old(self).num_cc + 1),
    {
        let ghost g = self.graph;
        let ghost c = bcc_state(*self, *data, pes);
        proof {
            lemma_renumber_start(c.cc, c.stack, c.num_cc + 1);
            lemma_stack_distinct(g, c.time, c.visited, c.stack, c.cc, c.num_cc);
        }
        self.num_cc += 1;
        loop
            invariant_except_break
                data.v_stack.len() > k,
            invariant
                self.graph == g,
                inv(g, c, -1),
                0 <= k < c.stack.len(),
                c.stack[k] == u,
                k <= data.v_stack.len() <= c.stack.len(),
                data.v_stack@ == c.stack.subrange(0, data.v_stack.len() as int),
                renumbered(c.cc, self.cc@, c.stack, data.v_stack.len() as int, c.num_cc + 1),
                forall|i: int, j: int|
                    0 <= i < j < c.stack.len() ==> #[trigger] c.stack[i] != #[trigger] c.stack[j],
                self.num_cc == c.num_cc + 1,
                self.vcc@ == c.vcc,
                self.isAP@ == c.is_ap,
                self.num_vcc == c.num_vcc,
                data.time == c.time,
                data.visited@ == c.visited,
                data.low@ == c.low,
                data.e_stack@ == c.estack,
            ensures
                data.v_stack.len() == k,
            decreases data.v_stack.len(),
        {
            let ghost len = data.v_stack.len() as int;
            let ghost mid = self.cc@;
            match data.v_stack.pop() {
                Some(v) => {
                    proof {
                        assert(v == c.stack[len - 1]);
                        lemma_renumber_step(c.cc, mid, c.stack, len, self.num_cc);
                    }
                    self.cc[v] = self.num_cc;
                    if v == u {
                        assert(len - 1 == k);
                        break ;
                    }
                },
                None => {
                    break ;
                },
            }
        }
    }
}

/// An edge is a bridge exactly if its ends are not two-edge-connected.
pub proof fn lemma_bridge(g: &UndirectedGraph, e: int)
    requires
        g.wf(),
        0 <= e < g.edges.len(),
    ensures
        g.is_bridge(e) <==> !g.two_edge_connected(g.edges[e].0 as int, g.edges[e].1 as int),
{
    let a = g.edges[e].0 as int;
    let b = g.edges[e].1 as int;
    assert(g.joins(e, a, b));
    if !g.is_bridge(e) {
        g.lemma_connects_edge(Set::empty(), e, a, b);
        assert forall|f: int| 0 <= f < g.edges.len() implies #[trigger] g.connects(set![f], a, b) by {
            if f != e {
                g.lemma_connects_edge(set![f], e, a, b);
            }
        }
    }
    if g.two_edge_connected(a, b) {
        assert(g.connects(set![e], a, b));
    }
}

/// Where no edge at `z` has changed its component id, the ids at `z` are
/// as right as they were.
proof fn lemma_same_ids(
    g: &UndirectedGraph,
    visited: Seq<usize>,
    before: Seq<usize>,
    after: Seq<usize>,
    z: int,
)
    requires
        assigned_inside(g, visited, before, after),
        visited[z] != 0,
    ensures
        unsplit(g, before, z) ==> unsplit(g, after, z),
        split_right(g, before, z) ==> split_right(g, after, z),
{
    assert forall|e: int, x: int| #[trigger] g.joins(e, z, x) implies after[e] == before[e] by {}
    if unsplit(g, before, z) {
        assert forall|e1: int, x1: int, e2: int, x2: int|
            #![trigger g.joins(e1, z, x1), g.joins(e2, z, x2)]
            g.joins(e1, z, x1) && g.joins(e2, z, x2) && x1 != z && x2 != z implies after[e1]
            == after[e2] by {
            assert(before[e1] == before[e2]);
        }
    }
    if split_right(g, before, z) {
        assert forall|e1: int, x1: int, e2: int, x2: int|
            #![trigger g.joins(e1, z, x1), g.joins(e2, z, x2)]
            g.joins(e1, z, x1) && g.joins(e2, z, x2) && x1 != z && x2 != z implies (after[e1]
            == after[e2] <==> g.connects_off(set![z], x1, x2)) by {
            assert(before[e1] == before[e2] <==> g.connects_off(set![z], x1, x2));
        }
    }
}

/// At a vertex without loops, the edges lie in more than one
/// 2-vertex-connected component exactly if the vertex is an articulation
/// point and not the least vertex of its connected component, from which
/// the search of that component started.
pub proof fn lemma_cut_vertex(c: ConnectivityUndirectedGraph, u: int)
    requires
        c.wf(),
        0 <= u < c.graph.adj_lists.len(),
        !c.graph.adjacent(u, u),
    ensures
        c.spans_components(u) <==> !is_first(c.graph, u) && c.graph.is_articulation(u),
        c.isAP[u] <==> c.graph.is_articulation(u),
{
    let g = c.graph;
    assert(if is_first(g, u) {
        unsplit(g, c.vcc@, u)
    } else {
        split_right(g, c.vcc@, u)
    });
    if c.spans_components(u) {
        let i = choose|i: int|
            0 <= i < g.adj_lists[u].len() && c.vcc[(#[trigger] g.adj_lists[u][i]).0 as int]
                != c.vcc[g.adj_lists[u][0].0 as int];
        let ei = g.adj_lists[u][i];
        let e0 = g.adj_lists[u][0];
        assert(g.joins(ei.0 as int, u, ei.1 as int));
        assert(g.joins(e0.0 as int, u, e0.1 as int));
        assert(g.adjacent(u, ei.1 as int) && g.adjacent(u, e0.1 as int));
        if is_first(g, u) {
            assert(c.vcc[ei.0 as int] == c.vcc[e0.0 as int]);
        } else {
            assert(!g.connects_off(set![u], ei.1 as int, e0.1 as int));
        }
    }
    if !is_first(g, u) && g.is_articulation(u) {
        let (a, b) = choose|a: int, b: int|
            #![trigger g.adjacent(u, a), g.adjacent(u, b)]
            g.adjacent(u, a) && g.adjacent(u, b) && a != u && b != u && !g.connects_off(set![u], a, b);
        let ea = choose|e: int| #[trigger] g.joins(e, u, a);
        let eb = choose|e: int| #[trigger] g.joins(e, u, b);
        assert(c.vcc[ea] != c.vcc[eb]);
        lemma_listed(g, ea, u, a);
        lemma_listed(g, eb, u, b);
        let ia = choose|i: int|
            0 <= i < g.adj_lists[u].len() && #[trigger] g.adj_lists[u][i] == (ea as usize, a as usize);
        let ib = choose|i: int|
            0 <= i < g.adj_lists[u].len() && #[trigger] g.adj_lists[u][i] == (eb as usize, b as usize);
        if c.vcc[ea] != c.vcc[g.adj_lists[u][0].0 as int] {
            assert(c.vcc[g.adj_lists[u][ia].0 as int] != c.vcc[g.adj_lists[u][0].0 as int]);
        } else {
            assert(c.vcc[g.adj_lists[u][ib].0 as int] != c.vcc[g.adj_lists[u][0].0 as int]);
        }
    }
}

/// An edge is listed at each of its ends.
pub proof fn lemma_listed(g: &UndirectedGraph, e: int, x: int, y: int)
    requires
        g.wf(),
        g.joins(e, x, y),
    ensures
        g.lists(e, x, y),
{
    if g.edges[e].0 == x {
        assert(g.lists(e, g.edges[e].0 as int, g.edges[e].1 as int));
    } else {
        assert(g.lists(e, g.edges[e].1 as int, g.edges[e].0 as int));
    }
}

/// Two runs of the decomposition on one graph agree on the partition of
/// the vertices into 2-edge-connected components, on the articulation
/// points, and on the partition of the edges into 2-vertex-connected
/// components, whatever ids they gave.
pub proof fn lemma_same_decomposition(
    c: ConnectivityUndirectedGraph,
    d: ConnectivityUndirectedGraph,
    u: int,
    v: int,
    e: int,
    f: int,
)
    requires
        c.wf(),
        d.wf(),
        c.graph == d.graph,
        0 <= u < c.graph.adj_lists.len(),
        0 <= v < c.graph.adj_lists.len(),
        0 <= e < c.graph.edges.len(),
        0 <= f < c.graph.edges.len(),
    ensures
        c.cc[u] == c.cc[v] <==> d.cc[u] == d.cc[v],
        c.isAP[u] == d.isAP[u],
        c.vcc[e] == c.vcc[f] <==> d.vcc[e] == d.vcc[f],
{
    let g = c.graph;
    assert(c.cc[u] == c.cc[v] <==> g.two_edge_connected(u, v));
    assert(d.cc[u] == d.cc[v] <==> g.two_edge_connected(u, v));
    assert(c.isAP[u] <==> g.is_articulation(u));
    assert(d.isAP[u] <==> g.is_articulation(u));
    assert(c.vcc[e] == c.vcc[f] <==> same_block(g, e, f));
    assert(d.vcc[e] == d.vcc[f] <==> same_block(g, e, f));
}

/// A loop shares its 2-vertex-connected component with no other edge.
pub proof fn lemma_loop_alone(c: ConnectivityUndirectedGraph, e: int, f: int)
    requires
        c.wf(),
        0 <= e < c.graph.edges.len(),
        0 <= f < c.graph.edges.len(),
        c.graph.edges[e].0 == c.graph.edges[e].1,
        e != f,
    ensures
        c.vcc[e] != c.vcc[f],
{
    let g = c.graph;
    assert(c.vcc[e] == c.vcc[f] <==> same_block(g, e, f));
    if same_block(g, e, f) {
        let chain = choose|chain: Seq<int>| #[trigger]
            is_chain(g, chain) && chain[0] == e && chain[chain.len() - 1] == f;
        assert(sticks(g, chain[0int], chain[0int + 1]));
    }
}

/// At a vertex with a loop, the edges lie in more than one
/// 2-vertex-connected component exactly if there is another edge at it.
pub proof fn lemma_cut_vertex_with_loop(c: ConnectivityUndirectedGraph, u: int)
    requires
        c.wf(),
        0 <= u < c.graph.adj_lists.len(),
        c.graph.adjacent(u, u),
    ensures
        c.spans_components(u) <==> c.graph.adj_lists[u].len() >= 2,
{
    let g = c.graph;
    let e = choose|e: int| #[trigger] g.joins(e, u, u);
    lemma_listed(g, e, u, u);
    let i = choose|i: int|
        0 <= i < g.adj_lists[u].len() && #[trigger] g.adj_lists[u][i] == (e as usize, u as usize);
    if g.adj_lists[u].len() >= 2 {
        let j = if i == 0 {
            1int
        } else {
            0int
        };
        let other = g.adj_lists[u][j];
        assert(g.joins(other.0 as int, u, other.1 as int));
        if i < j {
            assert(g.adj_lists[u][i].0 != g.adj_lists[u][j].0);
        } else {
            assert(g.adj_lists[u][j].0 != g.adj_lists[u][i].0);
        }
        lemma_loop_alone(c, e, other.0 as int);
        if i == 0 {
            assert(c.vcc[g.adj_lists[u][1].0 as int] != c.vcc[g.adj_lists[u][0].0 as int]);
        } else {
            assert(c.vcc[g.adj_lists[u][i].0 as int] != c.vcc[g.adj_lists[u][0].0 as int]);
        }
    }
}

} // verus!
