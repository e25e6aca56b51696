//! Strongly connected components of a directed graph, and the queries that
//! read them: a 2-SAT assignment and a topological order.

use crate::graph::{negated, DirectedGraph};
use crate::scc_state::{
    active, inv, lemma_enter, lemma_leave_keep, lemma_leave_pop, lemma_looked, lemma_weight_pop,
    lemma_weight_step, low_witness, popped, searched, suspended, waiting_ok, weight, SccState,
    Waiting,
};
use crate::traversal::{used, ConnectivityData};
use vstd::prelude::*;

verus! {

/// The decomposition of a directed graph into its strongly connected
/// components.
pub struct ConnectivityDirectedGraph<'a> {
    /// The graph that was decomposed.
    pub graph: &'a DirectedGraph,
    /// Per vertex, the id of its strongly connected component, from 1 to
    /// `num_cc`.
    pub cc: Vec<usize>,
    /// Per edge, 0: a directed graph has no 2-vertex-connected components.
    pub vcc: Vec<usize>,
    /// The number of strongly connected components.
    pub num_cc: usize,
    /// Always 0.
    pub num_vcc: usize,
}

/// The state of a search that fills `c` and keeps its books in `d`.
spec fn scc_state(c: ConnectivityDirectedGraph, d: ConnectivityData) -> SccState {
    SccState {
        time: d.time,
        visited: d.visited@,
        low: d.low@,
        stack: d.v_stack@,
        cc: c.cc@,
        num_cc: c.num_cc,
    }
}

impl<'a> ConnectivityDirectedGraph<'a> {
    /// The ids are those of the strongly connected components of the graph,
    /// numbered so that no edge leads from a smaller id to a larger one.
    pub open spec fn wf(&self) -> bool {
        let g = self.graph;
        let n = g.adj_lists.len();
        &&& g.wf()
        &&& self.cc.len() == n
        &&& self.vcc@ == Seq::new(g.edges.len() as nat, |e: int| 0usize)
        &&& self.num_vcc == 0
        &&& forall|v: int| 0 <= v < n ==> 1 <= #[trigger] self.cc[v] <= self.num_cc
        &&& forall|c: int| 1 <= c <= self.num_cc ==> #[trigger] used(self.cc@, c)
        &&& forall|u: int, v: int|
            0 <= u < n && 0 <= v < n ==> (#[trigger] self.cc[u] == #[trigger] self.cc[v] <==> g.reaches(
                u,
                v,
            ) && g.reaches(v, u))
        &&& forall|e: int|
            0 <= e < g.edges.len() ==> self.cc[(#[trigger] g.edges[e]).0 as int]
                >= self.cc[g.edges[e].1 as int]
    }

    /// Decomposes `graph` into its strongly connected components.
    pub fn new(graph: &'a DirectedGraph) -> (connect: Self)
        requires
            graph.wf(),
        ensures
            connect.graph == graph,
            connect.wf(),
    {
        let mut connect = Self {
            graph,
            cc: vec![0; graph.num_v()],
            vcc: vec![0; graph.num_e()],
            num_cc: 0,
            num_vcc: 0,
        };
        let mut data = ConnectivityData::new(graph.num_v());
        let n = graph.num_v();
        assert(connect.vcc@ =~= Seq::new(graph.edges.len() as nat, |e: int| 0usize));
        let mut u: usize = 0;
        while u < n
            invariant
                u <= n,
                n == graph.adj_lists.len(),
                connect.graph == graph,
                connect.vcc@ == Seq::new(graph.edges.len() as nat, |e: int| 0usize),
                connect.num_vcc == 0,
                inv(graph, scc_state(connect, data)),
                data.v_stack.len() == 0,
                forall|v: int| 0 <= v < u ==> #[trigger] data.visited[v] != 0,
            decreases n - u,
        {
            if data.visited[u] == 0 {
                let ghost before = scc_state(connect, data);
                connect.scc(&mut data, u);
                proof {
                    let after = scc_state(connect, data);
                    if after.stack.len() > 0 {
                        assert(after.stack[0] == u);
                        assert(low_witness(graph, after, 0));
                    }
                    assert forall|v: int| 0 <= v < u + 1 implies #[trigger] data.visited[v] != 0 by {
                        if v < u {
                            assert(before.visited[v] != 0);
                        }
                    }
                }
            }
            u += 1;
        }
        proof {
            let s = scc_state(connect, data);
            assert forall|v: int| 0 <= v < n implies 1 <= #[trigger] connect.cc[v]
                <= connect.num_cc by {
                assert(s.visited[v] != 0);
                assert(s.cc[v] <= s.num_cc);
                if s.cc[v] == 0 {
                    assert(crate::scc_state::stacked(s, v));
                }
            }
            assert forall|e: int| 0 <= e < graph.edges.len() implies connect.cc[(
            #[trigger] graph.edges[e]).0 as int] >= connect.cc[graph.edges[e].1 as int] by {
                assert(s.cc[graph.edges[e].0 as int] != 0);
            }
            assert forall|a: int, b: int| 0 <= a < n && 0 <= b < n implies (
            #[trigger] connect.cc[a] == #[trigger] connect.cc[b] <==> graph.reaches(a, b)
                && graph.reaches(b, a)) by {
                if connect.cc[a] == connect.cc[b] {
                    assert(s.cc[a] != 0 && s.cc[a] == s.cc[b]);
                    assert(s.cc[b] != 0 && s.cc[b] == s.cc[a]);
                }
                if graph.reaches(a, b) && graph.reaches(b, a) {
                    graph.lemma_labels_descend(connect.cc@, a, b);
                    graph.lemma_labels_descend(connect.cc@, b, a);
                }
            }
        }
        connect
    }

    /// Searches from the undiscovered vertex `u`, and gives an id to every
    /// strongly connected component that the search completes. The vertices
    /// whose adjacency entries are not all looked at wait on a work stack,
    /// each with the number of the entry that it looks at next.
    #[verifier::rlimit(30)]
    fn scc(&mut self, data: &mut ConnectivityData, u: usize)
        requires
            inv(old(self).graph, scc_state(*old(self), *old(data))),
            u < old(self).graph.adj_lists.len(),
            old(data).visited[u as int] == 0,
        ensures
            final(self).graph == old(self).graph,
            final(self).vcc@ == old(self).vcc@,
            final(self).num_vcc == old(self).num_vcc,
            final(data).e_stack@ == old(data).e_stack@,
            inv(final(self).graph, scc_state(*final(self), *final(data))),
            searched(
                old(self).graph,
                scc_state(*old(self), *old(data)),
                scc_state(*final(self), *final(data)),
                u as int,
            ),
    {
        let ghost g = self.graph;
        let ghost entry = scc_state(*self, *data);
        proof {
            lemma_enter(g, entry, u as int);
        }
        data.visit(u);
        let mut frames: Vec<(usize, usize)> = Vec::new();
        frames.push((u, 0));
        let ghost mut waits: Seq<Waiting> = seq![Waiting { s0: entry, a: entry, k: entry.stack.len() as int }];
        while frames.len() > 0
            invariant
                self.graph == g,
                g == old(self).graph,
                self.vcc@ == old(self).vcc@,
                self.num_vcc == old(self).num_vcc,
                data.e_stack@ == old(data).e_stack@,
                entry == scc_state(*old(self), *old(data)),
                waits.len() == frames.len(),
                data.time <= g.adj_lists.len(),
                frames.len() > 0 ==> {
                    &&& active(
                        g,
                        waits[frames.len() - 1].s0,
                        scc_state(*self, *data),
                        waits[frames.len() - 1].k,
                        frames[frames.len() - 1].0 as int,
                        frames[frames.len() - 1].1 as int,
                    )
                    &&& waits[0].s0 == entry
                    &&& frames[0].0 == u
                },
                waiting_ok(g, waits, frames@),
                frames.len() == 0 ==> inv(g, scc_state(*self, *data)) && searched(
                    g,
                    entry,
                    scc_state(*self, *data),
                    u as int,
                ),
            decreases g.adj_lists.len() - data.time, weight(g, frames@),
        {
            let t = frames.len() - 1;
            let x = frames[t].0;
            let idx = frames[t].1;
            let ghost s0 = waits[t as int].s0;
            let ghost k = waits[t as int].k;
            let ghost a = scc_state(*self, *data);
            let ghost frames0 = frames@;
            let ghost waits0 = waits;
            if idx < self.graph.adj_lists[x].len() {
                let v = self.graph.adj_lists[x][idx].1;
                if data.visited[v] == 0 {
                    proof {
                        lemma_enter(g, a, v as int);
                        waits = waits.update(t as int, Waiting { s0, a, k }).push(
                            Waiting { s0: a, a, k: a.stack.len() as int },
                        );
                    }
                    data.visit(v);
                    frames.push((v, 0));
                    proof {
                        assert forall|i: int| 0 <= i < frames@.len() - 1 implies #[trigger] suspended(
                            g,
                            waits[i],
                            frames@[i].0 as int,
                            frames@[i].1 as int,
                            frames@[i + 1].0 as int,
                        ) && waits[i + 1].s0 == waits[i].a by {
                            assert(frames[i] == frames0[i]);
                            if i < t {
                                assert(suspended(
                                    g,
                                    waits0[i],
                                    frames0[i].0 as int,
                                    frames0[i].1 as int,
                                    frames0[i + 1].0 as int,
                                ));
                                assert(waits[i] == waits0[i]);
                                assert(frames[i + 1] == frames0[i + 1]);
                                assert(waits[i + 1].s0 == waits0[i + 1].s0);
                            } else {
                                assert(waits[i] == Waiting { s0, a, k });
                                assert(frames[i + 1].0 == v);
                                assert(active(g, s0, a, k, x as int, idx as int));
                            }
                        }
                    }
                } else {
                    if self.cc[v] == 0 {
                        let low_v = data.low[v];
                        data.lower(x, low_v);
                    }
                    proof {
                        lemma_looked(
                            g,
                            s0,
                            a,
                            a,
                            scc_state(*self, *data),
                            k,
                            x as int,
                            idx as int,
                            v as int,
                        );
                        lemma_weight_step(g, frames@);
                    }
                    frames[t] = (x, idx + 1);
                    proof {
                        assert forall|i: int| 0 <= i < frames@.len() - 1 implies #[trigger] suspended(
                            g,
                            waits[i],
                            frames@[i].0 as int,
                            frames@[i].1 as int,
                            frames@[i + 1].0 as int,
                        ) && waits[i + 1].s0 == waits[i].a by {
                            assert(suspended(
                                g,
                                waits0[i],
                                frames0[i].0 as int,
                                frames0[i].1 as int,
                                frames0[i + 1].0 as int,
                            ));
                            assert(frames[i] == frames0[i]);
                            assert(frames[i + 1].0 == frames0[i + 1].0);
                        }
                    }
                }
            } else {
                self.close(data, x, Ghost(s0), Ghost(k));
                proof {
                    lemma_weight_pop(g, frames@);
                    waits = waits.drop_last();
                }
                frames.pop();
                if frames.len() > 0 {
                    let p = frames[t - 1].0;
                    let pidx = frames[t - 1].1;
                    let ghost w = waits[t - 1];
                    let ghost b = scc_state(*self, *data);
                    proof {
                        assert(suspended(
                            g,
                            waits0[t - 1],
                            frames0[t - 1].0 as int,
                            frames0[t - 1].1 as int,
                            frames0[t - 1 + 1].0 as int,
                        ));
                        assert(b.visited[x as int] != 0);
                    }
                    if self.cc[x] == 0 {
                        let low_x = data.low[x];
                        data.lower(p, low_x);
                    }
                    proof {
                        lemma_looked(
                            g,
                            w.s0,
                            w.a,
                            b,
                            scc_state(*self, *data),
                            w.k,
                            p as int,
                            pidx as int,
                            x as int,
                        );
                        lemma_weight_step(g, frames@);
                    }
                    frames[t - 1] = (p, pidx + 1);
                    proof {
                        assert forall|i: int| 0 <= i < frames@.len() - 1 implies #[trigger] suspended(
                            g,
                            waits[i],
                            frames@[i].0 as int,
                            frames@[i].1 as int,
                            frames@[i + 1].0 as int,
                        ) && waits[i + 1].s0 == waits[i].a by {
                            assert(suspended(
                                g,
                                waits0[i],
                                frames0[i].0 as int,
                                frames0[i].1 as int,
                                frames0[i + 1].0 as int,
                            ));
                            assert(frames[i] == frames0[i]);
                            assert(frames[i + 1].0 == frames0[i + 1].0);
                            assert(waits[i] == waits0[i]);
                            assert(waits[i + 1] == waits0[i + 1]);
                        }
                    }
                }
            }
        }
    }

    /// Ends the search from `u`, all of whose adjacency entries have been
    /// looked at: if `u` is its own low-link, the stack from `u` upwards
    /// becomes a strongly connected component.
    fn close(&mut self, data: &mut ConnectivityData, u: usize, Ghost(s0): Ghost<SccState>, Ghost(k): Ghost<int>)
        requires
            active(
                old(self).graph,
                s0,
                scc_state(*old(self), *old(data)),
                k,
                u as int,
                old(self).graph.adj_lists[u as int].len() as int,
            ),
        ensures
            final(self).graph == old(self).graph,
            final(self).vcc@ == old(self).vcc@,
            final(self).num_vcc == old(self).num_vcc,
            final(data).e_stack@ == old(data).e_stack@,
            final(data).time == old(data).time,
            inv(final(self).graph, scc_state(*final(self), *final(data))),
            searched(old(self).graph, s0, scc_state(*final(self), *final(data)), u as int),
    {
        let ghost g = self.graph;
        let ghost vcc0 = self.vcc@;
        let ghost e_stack0 = data.e_stack@;
        if data.visited[u] == data.low[u] {
            let ghost sp = scc_state(*self, *data);
            self.num_cc += 1;
            loop
                invariant_except_break
                    k < data.v_stack.len(),
                invariant
                    self.graph == g,
                    self.vcc@ == vcc0,
                    self.num_vcc == old(self).num_vcc,
                    self.num_cc == sp.num_cc + 1,
                    data.e_stack@ == e_stack0,
                    data.time == sp.time,
                    data.visited@ == sp.visited,
                    data.low@ == sp.low,
                    inv(g, sp),
                    0 <= k < sp.stack.len(),
                    sp.stack[k] == u,
                    k <= data.v_stack.len() <= sp.stack.len(),
                    data.v_stack@ == sp.stack.subrange(0, data.v_stack.len() as int),
                    self.cc.len() == sp.cc.len(),
                    forall|i: int|
                        data.v_stack.len() <= i < sp.stack.len() ==> self.cc[#[trigger] sp.stack[i] as int]
                            == self.num_cc,
                    forall|v: int|
                        0 <= v < sp.cc.len() ==> #[trigger] self.cc[v] == sp.cc[v] || (self.cc[v]
                            == self.num_cc && popped(sp.stack, data.v_stack.len() as int, v)),
                ensures
                    data.v_stack.len() == k,
                decreases data.v_stack.len(),
            {
                let ghost len = data.v_stack.len() as int;
                let ghost cc_before = self.cc@;
                match data.v_stack.pop() {
                    Some(v) => {
                        assert(v == sp.stack[len - 1]);
                        self.cc[v] = self.num_cc;
                        proof {
                            lemma_stack_distinct(g, sp, len - 1);
                            assert forall|w: int| 0 <= w < sp.cc.len() implies #[trigger] self.cc[w]
                                == sp.cc[w] || (self.cc[w] == self.num_cc && popped(
                                sp.stack,
                                len - 1,
                                w,
                            )) by {
                                if w == v {
                                    assert(sp.stack[len - 1] == w);
                                } else if cc_before[w] != sp.cc[w] {
                                    assert(popped(sp.stack, len, w));
                                    let i = choose|i: int|
                                        len <= i < sp.stack.len() && #[trigger] sp.stack[i] == w;
                                    assert(sp.stack[i] == w);
                                }
                            }
                        }
                        if v == u {
                            assert(len - 1 == k);
                            break ;
                        }
                    },
                    None => {
                        break ;
                    },
                }
            }
            proof {
                lemma_leave_pop(g, s0, sp, scc_state(*self, *data), k, u as int);
            }
        } else {
            proof {
                lemma_leave_keep(g, s0, scc_state(*self, *data), k, u as int);
            }
        }
    }

    /// There is one id per vertex, each from 1 to `num_cc`.
    pub open spec fn labelled(&self) -> bool {
        &&& self.cc.len() == self.graph.adj_lists.len()
        &&& forall|v: int| 0 <= v < self.cc.len() ==> 1 <= #[trigger] self.cc[v] <= self.num_cc
    }

    /// Variable `i` has both its literals in one component.
    pub open spec fn clashes(&self, i: int) -> bool {
        self.cc[2 * i] == self.cc[2 * i + 1]
    }

    /// Vertex `x` comes before vertex `y` in the topological order: its
    /// component has the larger id, or they share a component and `x` is the
    /// smaller vertex.
    pub open spec fn precedes(&self, x: int, y: int) -> bool {
        self.cc[x] > self.cc[y] || (self.cc[x] == self.cc[y] && x < y)
    }

    /// `order` lists every vertex once, each before those that it precedes.
    pub open spec fn is_topological_order(&self, order: Seq<usize>) -> bool {
        let n = self.graph.adj_lists.len();
        &&& order.len() == n
        &&& forall|i: int| 0 <= i < n ==> #[trigger] order[i] < n
        &&& forall|v: int| 0 <= v < n ==> appears(order, v)
        &&& forall|i: int, j: int|
            0 <= i < j < n ==> self.precedes(#[trigger] order[i] as int, #[trigger] order[j] as int)
    }

    /// Reads a satisfying assignment off the components of the implication
    /// graph of a 2-SAT instance, in which variable `i` is vertex `2 * i` and
    /// its negation vertex `2 * i + 1`: `None` if some variable shares a
    /// component with its negation, else per variable whether the component of
    /// its positive literal has the smaller id.
    pub fn two_sat_assign(&self) -> (result: Option<Vec<bool>>)
        requires
            self.cc.len() == self.graph.adj_lists.len(),
        ensures
            result is None <==> exists|i: int|
                0 <= i < self.graph.adj_lists.len() / 2 && #[trigger] self.clashes(i),
            result matches Some(assign) ==> {
                &&& assign.len() == self.graph.adj_lists.len() / 2
                &&& forall|i: int|
                    0 <= i < assign.len() ==> #[trigger] assign[i] == (self.cc[2 * i] < self.cc[2 * i
                        + 1])
            },
    {
        let vars = self.graph.num_v() / 2;
        let mut assign: Vec<bool> = Vec::new();
        let mut i: usize = 0;
        while i < vars
            invariant
                vars == self.graph.adj_lists.len() / 2,
                self.cc.len() == self.graph.adj_lists.len(),
                i <= vars,
                assign.len() == i,
                forall|j: int| 0 <= j < i ==> !#[trigger] self.clashes(j),
                forall|j: int|
                    0 <= j < i ==> #[trigger] assign[j] == (self.cc[2 * j] < self.cc[2 * j + 1]),
            decreases vars - i,
        {
            let scc_true = self.cc[2 * i];
            let scc_false = self.cc[2 * i + 1];
            if scc_true == scc_false {
                assert(self.clashes(i as int));
                return None;
            }
            assign.push(scc_true < scc_false);
            i += 1;
        }
        Some(assign)
    }

    /// The vertices in a topological order of the components: by falling
    /// component id, and within a component by rising vertex number.
    pub fn topological_sort(&self) -> (vertices: Vec<usize>)
        requires
            self.labelled(),
        ensures
            self.is_topological_order(vertices@),
    {
        let n = self.graph.num_v();
        // One bucket per component, that of the largest id first.
        let mut buckets: Vec<Vec<usize>> = Vec::new();
        let mut c: usize = 0;
        while c < self.num_cc
            invariant
                c <= self.num_cc,
                buckets.len() == c,
                forall|b: int| 0 <= b < c ==> (#[trigger] buckets[b]).len() == 0,
            decreases self.num_cc - c,
        {
            buckets.push(Vec::new());
            c += 1;
        }
        let mut v: usize = 0;
        while v < n
            invariant
                self.labelled(),
                n == self.graph.adj_lists.len(),
                v <= n,
                buckets.len() == self.num_cc,
                forall|b: int, i: int|
                    0 <= b < buckets.len() && 0 <= i < buckets[b].len() ==> {
                        let x = #[trigger] buckets[b][i];
                        x < v && self.cc[x as int] == self.num_cc - b
                    },
                forall|b: int, i: int, j: int|
                    0 <= b < buckets.len() && 0 <= i < j < buckets[b].len() ==> #[trigger] buckets[b][i]
                        < #[trigger] buckets[b][j],
                forall|w: int| 0 <= w < v ==> appears(buckets[self.num_cc - self.cc[w]]@, w),
            decreases n - v,
        {
            let b = self.num_cc - self.cc[v];
            let ghost before = buckets@;
            buckets[b].push(v);
            proof {
                assert forall|w: int| 0 <= w < v + 1 implies appears(
                    buckets[self.num_cc - self.cc[w]]@,
                    w,
                ) by {
                    let bw = self.num_cc - self.cc[w];
                    if w == v {
                        assert(buckets[bw]@[before[bw].len() as int] == w);
                    } else {
                        assert(appears(before[bw]@, w));
                        let i = choose|i: int| 0 <= i < before[bw]@.len() && #[trigger] before[bw]@[i] == w;
                        assert(buckets[bw]@[i] == w);
                    }
                }
            }
            v += 1;
        }
        let mut vertices: Vec<usize> = Vec::new();
        let mut b: usize = 0;
        while b < buckets.len()
            invariant
                self.labelled(),
                n == self.graph.adj_lists.len(),
                buckets.len() == self.num_cc,
                b <= buckets.len(),
                forall|b: int, i: int|
                    0 <= b < buckets.len() && 0 <= i < buckets[b].len() ==> {
                        let x = #[trigger] buckets[b][i];
                        x < n && self.cc[x as int] == self.num_cc - b
                    },
                forall|b: int, i: int, j: int|
                    0 <= b < buckets.len() && 0 <= i < j < buckets[b].len() ==> #[trigger] buckets[b][i]
                        < #[trigger] buckets[b][j],
                forall|w: int| 0 <= w < n ==> appears(buckets[self.num_cc - self.cc[w]]@, w),
                forall|p: int|
                    0 <= p < vertices.len() ==> {
                        let x = #[trigger] vertices[p];
                        x < n && self.num_cc - self.cc[x as int] < b
                    },
                forall|p: int, q: int|
                    0 <= p < q < vertices.len() ==> self.precedes(
                        #[trigger] vertices[p] as int,
                        #[trigger] vertices[q] as int,
                    ),
                forall|w: int|
                    0 <= w < n && self.num_cc - self.cc[w] < b ==> appears(vertices@, w),
            decreases buckets.len() - b,
        {
            let mut i: usize = 0;
            while i < buckets[b as usize].len()
                invariant
                    self.labelled(),
                    n == self.graph.adj_lists.len(),
                    buckets.len() == self.num_cc,
                    b < buckets.len(),
                    i <= buckets[b as int].len(),
                    forall|b: int, i: int|
                        0 <= b < buckets.len() && 0 <= i < buckets[b].len() ==> {
                            let x = #[trigger] buckets[b][i];
                            x < n && self.cc[x as int] == self.num_cc - b
                        },
                    forall|b: int, i: int, j: int|
                        0 <= b < buckets.len() && 0 <= i < j < buckets[b].len()
                            ==> #[trigger] buckets[b][i] < #[trigger] buckets[b][j],
                    forall|p: int|
                        0 <= p < vertices.len() ==> {
                            let x = #[trigger] vertices[p];
                            &&& x < n
                            &&& self.num_cc - self.cc[x as int] <= b
                            &&& self.num_cc - self.cc[x as int] == b ==> i > 0 && x <= buckets[b as int][i
                                - 1]
                        },
                    forall|p: int, q: int|
                        0 <= p < q < vertices.len() ==> self.precedes(
                            #[trigger] vertices[p] as int,
                            #[trigger] vertices[q] as int,
                        ),
                    forall|w: int|
                        0 <= w < n && self.num_cc - self.cc[w] < b ==> appears(vertices@, w),
                    forall|j: int| 0 <= j < i ==> appears(vertices@, #[trigger] buckets[b as int][j] as int),
                decreases buckets[b as int].len() - i,
            {
                let x = buckets[b][i];
                let ghost before = vertices@;
                vertices.push(x);
                proof {
                    assert forall|p: int| 0 <= p < vertices.len() implies {
                        let y = #[trigger] vertices[p];
                        &&& y < n
                        &&& self.num_cc - self.cc[y as int] <= b
                        &&& self.num_cc - self.cc[y as int] == b ==> y <= buckets[b as int][i as int]
                    } by {
                        if p < before.len() {
                            assert(vertices[p] == before[p]);
                            if i > 0 {
                                assert(buckets[b as int][i - 1] < buckets[b as int][i as int]);
                            }
                        }
                    }
                    assert forall|p: int, q: int| 0 <= p < q < vertices.len() implies self.precedes(
                        #[trigger] vertices[p] as int,
                        #[trigger] vertices[q] as int,
                    ) by {
                        assert(vertices[p] == before[p]);
                        if q < before.len() {
                            assert(vertices[q] == before[q]);
                        } else if i > 0 {
                            assert(buckets[b as int][i - 1] < buckets[b as int][i as int]);
                        }
                    }
                    assert forall|w: int| appears(before, w) implies appears(vertices@, w) by {
                        let p = choose|p: int| 0 <= p < before.len() && #[trigger] before[p] == w;
                        assert(vertices@[p] == w);
                    }
                    assert forall|w: int|
                        0 <= w < n && self.num_cc - self.cc[w] < b implies appears(vertices@, w) by {
                        assert(appears(before, w));
                    }
                    assert(vertices@[before.len() as int] == x);
                }
                i += 1;
            }
            proof {
                assert forall|w: int|
                    0 <= w < n && self.num_cc - self.cc[w] < b + 1 implies appears(vertices@, w) by {
                    if self.num_cc - self.cc[w] == b {
                        assert(appears(buckets[b as int]@, w));
                        let j = choose|j: int|
                            0 <= j < buckets[b as int]@.len() && #[trigger] buckets[b as int]@[j] == w;
                        assert(appears(vertices@, buckets[b as int][j] as int));
                    }
                }
            }
            b += 1;
        }
        proof {
            assert forall|p: int, q: int| 0 <= p < q < vertices.len() implies #[trigger] vertices[p]
                != #[trigger] vertices[q] by {
                assert(self.precedes(vertices[p] as int, vertices[q] as int));
            }
            lemma_listing_len(vertices@, n as nat);
        }
        vertices
    }
}

/// The vertex at stack position `i` sits at no other position.
proof fn lemma_stack_distinct(g: &DirectedGraph, s: SccState, i: int)
    requires
        inv(g, s),
        0 <= i < s.stack.len(),
    ensures
        forall|j: int| 0 <= j < s.stack.len() && j != i ==> #[trigger] s.stack[j] != s.stack[i],
{
    assert forall|j: int| 0 <= j < s.stack.len() && j != i implies #[trigger] s.stack[j]
        != s.stack[i] by {
        crate::scc_state::lemma_stack_order(g, s, i, j);
    }
}

/// Vertex `v` occurs in `order`.
pub open spec fn appears(order: Seq<usize>, v: int) -> bool {
    exists|i: int| 0 <= i < order.len() && #[trigger] order[i] == v
}

/// A sequence that lists each of the numbers below `n` once, and nothing
/// else, has `n` entries.
proof fn lemma_listing_len(order: Seq<usize>, n: nat)
    requires
        forall|i: int| 0 <= i < order.len() ==> #[trigger] order[i] < n,
        forall|i: int, j: int|
            0 <= i < j < order.len() ==> #[trigger] order[i] != #[trigger] order[j],
        forall|v: int| 0 <= v < n ==> appears(order, v),
    ensures
        order.len() == n,
{
    let ints = order.map_values(|x: usize| x as int);
    assert(ints.no_duplicates()) by {
        assert forall|i: int, j: int| 0 <= i < ints.len() && 0 <= j < ints.len() && i != j implies ints[i]
            != ints[j] by {
            if i < j {
                assert(order[i] != order[j]);
            } else {
                assert(order[j] != order[i]);
            }
        }
    }
    ints.unique_seq_to_set();
    assert(ints.to_set() =~= vstd::set_lib::set_int_range(0, n as int)) by {
        assert forall|x: int| vstd::set_lib::set_int_range(0, n as int).contains(x) implies ints.to_set().contains(
            x,
        ) by {
            assert(appears(order, x));
            let i = choose|i: int| 0 <= i < order.len() && #[trigger] order[i] == x;
            assert(ints[i] == x);
        }
        assert forall|x: int| ints.to_set().contains(x) implies vstd::set_lib::set_int_range(
            0,
            n as int,
        ).contains(x) by {
            let i = choose|i: int| 0 <= i < ints.len() && ints[i] == x;
            assert(order[i] < n);
        }
    }
    vstd::set_lib::lemma_int_range(0, n as int);
}

/// The truth value of a literal under an assignment to the variables.
pub open spec fn literal_value(assign: Seq<bool>, lit: int) -> bool {
    if lit % 2 == 0 {
        assign[lit / 2]
    } else {
        !assign[lit / 2]
    }
}

/// The graph holds the contrapositive of the implication `e`: an edge from the
/// negation of its head to the negation of its tail.
pub open spec fn has_contrapositive(g: &DirectedGraph, e: int) -> bool {
    g.has_edge(negated(g.edges[e].1 as int), negated(g.edges[e].0 as int))
}

/// With every implication the graph holds its contrapositive.
pub open spec fn holds_contrapositives(g: &DirectedGraph) -> bool {
    forall|e: int| 0 <= e < g.edges.len() ==> #[trigger] has_contrapositive(g, e)
}

/// `assign` is what `two_sat_assign` returns where no variable clashes.
pub open spec fn is_assignment(c: ConnectivityDirectedGraph, assign: Seq<bool>) -> bool {
    &&& assign.len() == c.graph.adj_lists.len() / 2
    &&& forall|i: int| 0 <= i < assign.len() ==> !#[trigger] c.clashes(i)
    &&& forall|i: int|
        0 <= i < assign.len() ==> #[trigger] assign[i] == (c.cc[2 * i] < c.cc[2 * i + 1])
}

/// In a graph without cycles, the topological order has the tail of every
/// edge before its head.
pub proof fn lemma_order_follows_edges(
    c: ConnectivityDirectedGraph,
    order: Seq<usize>,
    e: int,
    i: int,
    j: int,
)
    requires
        c.wf(),
        c.graph.acyclic(),
        c.is_topological_order(order),
        0 <= e < c.graph.edges.len(),
        0 <= i < order.len(),
        0 <= j < order.len(),
        order[i] == c.graph.edges[e].0,
        order[j] == c.graph.edges[e].1,
    ensures
        i < j,
{
    lemma_order_follows_crossing_edges(c, order, e, i, j);
}

/// In any graph, the topological order has the tail of an edge before its
/// head unless the head leads back to the tail.
pub proof fn lemma_order_follows_crossing_edges(
    c: ConnectivityDirectedGraph,
    order: Seq<usize>,
    e: int,
    i: int,
    j: int,
)
    requires
        c.wf(),
        c.is_topological_order(order),
        0 <= e < c.graph.edges.len(),
        !c.graph.reaches(c.graph.edges[e].1 as int, c.graph.edges[e].0 as int),
        0 <= i < order.len(),
        0 <= j < order.len(),
        order[i] == c.graph.edges[e].0,
        order[j] == c.graph.edges[e].1,
    ensures
        i < j,
{
    let a = c.graph.edges[e].0 as int;
    let b = c.graph.edges[e].1 as int;
    c.graph.lemma_reaches_edge(e);
    assert(c.cc[a] >= c.cc[b]);
    assert(c.cc[a] == c.cc[b] <==> c.graph.reaches(a, b) && c.graph.reaches(b, a));
    if j < i {
        assert(c.precedes(order[j] as int, order[i] as int));
    }
}

/// Two vertices are given one id exactly if each reaches the other, whatever
/// run of the decomposition gave the ids.
pub proof fn lemma_same_partition(
    c: ConnectivityDirectedGraph,
    d: ConnectivityDirectedGraph,
    u: int,
    v: int,
)
    requires
        c.wf(),
        d.wf(),
        c.graph == d.graph,
        0 <= u < c.graph.adj_lists.len(),
        0 <= v < c.graph.adj_lists.len(),
    ensures
        c.cc[u] == c.cc[v] <==> d.cc[u] == d.cc[v],
{
    assert(c.cc[u] == c.cc[v] <==> c.graph.reaches(u, v) && c.graph.reaches(v, u));
    assert(d.cc[u] == d.cc[v] <==> d.graph.reaches(u, v) && d.graph.reaches(v, u));
}

/// The assignment read off the components makes every implication of the
/// graph true, if the graph holds the contrapositive of each.
pub proof fn lemma_assignment_satisfies(c: ConnectivityDirectedGraph, assign: Seq<bool>, e: int)
    requires
        c.wf(),
        c.graph.adj_lists.len() % 2 == 0,
        holds_contrapositives(c.graph),
        is_assignment(c, assign),
        0 <= e < c.graph.edges.len(),
    ensures
        literal_value(assign, c.graph.edges[e].0 as int) ==> literal_value(
            assign,
            c.graph.edges[e].1 as int,
        ),
{
    let g = c.graph;
    let a = g.edges[e].0 as int;
    let b = g.edges[e].1 as int;
    assert(has_contrapositive(g, e));
    let f = choose|f: int|
        0 <= f < g.edges.len() && (#[trigger] g.edges[f]).0 == negated(b) && g.edges[f].1 == negated(a);
    assert(c.cc[g.edges[f].0 as int] >= c.cc[g.edges[f].1 as int]);
    assert(c.cc[g.edges[e].0 as int] >= c.cc[g.edges[e].1 as int]);
    lemma_literal(c, assign, a);
    lemma_literal(c, assign, b);
}

/// A literal is true under the assignment read off the components exactly
/// if its component has a smaller id than that of its negation.
proof fn lemma_literal(c: ConnectivityDirectedGraph, assign: Seq<bool>, lit: int)
    requires
        c.cc.len() == c.graph.adj_lists.len(),
        c.graph.adj_lists.len() % 2 == 0,
        is_assignment(c, assign),
        0 <= lit < c.graph.adj_lists.len(),
    ensures
        literal_value(assign, lit) == (c.cc[lit] < c.cc[negated(lit)]),
{
    let i = lit / 2;
    assert(!c.clashes(i));
    assert(assign[i] == (c.cc[2 * i] < c.cc[2 * i + 1]));
}

/// Where a variable clashes, every assignment breaks some implication of the
/// graph.
pub proof fn lemma_clash_refutes(c: ConnectivityDirectedGraph, assign: Seq<bool>, i: int)
    requires
        c.wf(),
        c.graph.adj_lists.len() % 2 == 0,
        assign.len() == c.graph.adj_lists.len() / 2,
        0 <= i < assign.len(),
        c.clashes(i),
    ensures
        exists|e: int|
            0 <= e < c.graph.edges.len() && literal_value(
                assign,
                (#[trigger] c.graph.edges[e]).0 as int,
            ) && !literal_value(assign, c.graph.edges[e].1 as int),
{
    let g = c.graph;
    let n = g.adj_lists.len();
    let mark = Seq::new(n as nat, |lit: int| literal_value(assign, lit));
    if forall|e: int|
        0 <= e < g.edges.len() && mark[(#[trigger] g.edges[e]).0 as int] ==> mark[g.edges[e].1 as int] {
        assert(c.cc[2 * i] == c.cc[2 * i + 1] <==> g.reaches(2 * i, 2 * i + 1) && g.reaches(
            2 * i + 1,
            2 * i,
        ));
        if mark[2 * i] {
            g.lemma_marks_carry(mark, 2 * i, 2 * i + 1);
        } else {
            g.lemma_marks_carry(mark, 2 * i + 1, 2 * i);
        }
    } else {
        let e = choose|e: int|
            0 <= e < g.edges.len() && mark[(#[trigger] g.edges[e]).0 as int] && !mark[g.edges[e].1 as int];
        assert(literal_value(assign, g.edges[e].0 as int) && !literal_value(assign, g.edges[e].1 as int));
    }
}

/// A variable clashes exactly if it and its negation imply each other.
pub proof fn lemma_clash_meaning(c: ConnectivityDirectedGraph, i: int)
    requires
        c.wf(),
        0 <= i < c.graph.adj_lists.len() / 2,
    ensures
        c.clashes(i) <==> c.graph.reaches(2 * i, 2 * i + 1) && c.graph.reaches(2 * i + 1, 2 * i),
{
    assert(c.cc[2 * i] == c.cc[2 * i + 1] <==> c.graph.reaches(2 * i, 2 * i + 1) && c.graph.reaches(
        2 * i + 1,
        2 * i,
    ));
}

} // verus!
