//! Adjacency-list storage for directed and undirected multigraphs.

use vstd::prelude::*;

verus! {

/// The other polarity of a 2-SAT literal: literal `2 * i` is variable `i`,
/// literal `2 * i + 1` its negation.
pub open spec fn negated(lit: int) -> int {
    if lit % 2 == 0 {
        lit + 1
    } else {
        lit - 1
    }
}

/// A directed multigraph. Edge `e` runs from `edges[e].0` to `edges[e].1`, and
/// `adj_lists[u]` holds one `(edge, head)` entry per edge that leaves `u`, in
/// the order in which the edges were added.
pub struct DirectedGraph {
    pub adj_lists: Vec<Vec<(usize, usize)>>,
    pub edges: Vec<(usize, usize)>,
}

impl DirectedGraph {
    /// Both endpoints of every edge are vertices, every adjacency entry names
    /// an edge that leaves its vertex, and every edge is listed exactly once.
    pub open spec fn wf(&self) -> bool {
        let n = self.adj_lists.len();
        &&& forall|e: int|
            0 <= e < self.edges.len() ==> (#[trigger] self.edges[e]).0 < n && self.edges[e].1 < n
        &&& forall|u: int, i: int|
            0 <= u < n && 0 <= i < self.adj_lists[u].len() ==> {
                let entry = #[trigger] self.adj_lists[u][i];
                entry.0 < self.edges.len() && self.edges[entry.0 as int] == (u as usize, entry.1)
            }
        &&& forall|u: int, i: int, j: int|
            0 <= u < n && 0 <= i < j < self.adj_lists[u].len() ==> (#[trigger] self.adj_lists[u][i]).0
                != (#[trigger] self.adj_lists[u][j]).0
        &&& forall|e: int|
            0 <= e < self.edges.len() ==> self.lists(e)
    }

    /// Edge `e` appears in the adjacency list of its tail.
    pub open spec fn lists(&self, e: int) -> bool {
        exists|i: int|
            0 <= i < self.adj_lists[self.edges[e].0 as int].len() && #[trigger] self.adj_lists[self.edges[e].0 as int][i]
                == (e as usize, self.edges[e].1)
    }

    /// There is an edge from `u` to `v`.
    pub open spec fn has_edge(&self, u: int, v: int) -> bool {
        exists|e: int|
            0 <= e < self.edges.len() && (#[trigger] self.edges[e]).0 == u && self.edges[e].1 == v
    }

    /// `p` is a walk: a non-empty sequence of vertices, each joined to the
    /// next by an edge.
    pub open spec fn is_walk(&self, p: Seq<int>) -> bool {
        &&& p.len() > 0
        &&& forall|i: int| 0 <= i < p.len() ==> 0 <= #[trigger] p[i] < self.adj_lists.len()
        &&& forall|i: int| 0 <= i < p.len() - 1 ==> self.has_edge(#[trigger] p[i], p[i + 1])
    }

    /// `v` can be reached from `u` along edges; every vertex reaches itself.
    pub open spec fn reaches(&self, u: int, v: int) -> bool {
        exists|p: Seq<int>| #[trigger] self.is_walk(p) && p[0] == u && p[p.len() - 1] == v
    }

    /// No vertex lies on a cycle, self-loops included.
    pub open spec fn acyclic(&self) -> bool {
        forall|e: int|
            0 <= e < self.edges.len() ==> !self.reaches(
                (#[trigger] self.edges[e]).1 as int,
                self.edges[e].0 as int,
            )
    }

    /// A graph with `vmax` vertices and no edges. The second argument is the
    /// number of edges the caller expects to add; it only sizes the storage.
    pub fn new(vmax: usize, emax_hint: usize) -> (g: DirectedGraph)
        ensures
            g.wf(),
            g.adj_lists.len() == vmax,
            g.edges@ == Seq::<(usize, usize)>::empty(),
            forall|u: int| 0 <= u < vmax ==> (#[trigger] g.adj_lists[u]).len() == 0,
    {
        let mut adj_lists: Vec<Vec<(usize, usize)>> = Vec::new();
        let mut u: usize = 0;
        while u < vmax
            invariant
                u <= vmax,
                adj_lists.len() == u,
                forall|w: int| 0 <= w < u ==> (#[trigger] adj_lists[w]).len() == 0,
            decreases vmax - u,
        {
            adj_lists.push(Vec::new());
            u += 1;
        }
        let mut edges: Vec<(usize, usize)> = Vec::new();
        let _ = edges.try_reserve(emax_hint);
        DirectedGraph { adj_lists, edges }
    }

    /// The number of vertices.
    pub fn num_v(&self) -> (n: usize)
        ensures
            n == self.adj_lists.len(),
    {
        self.adj_lists.len()
    }

    /// The number of edges.
    pub fn num_e(&self) -> (m: usize)
        ensures
            m == self.edges.len(),
    {
        self.edges.len()
    }

    /// Adds an edge from `u` to `v`; its id is the number of edges before.
    pub fn add_edge(&mut self, u: usize, v: usize)
        requires
            old(self).wf(),
            u < old(self).adj_lists.len(),
            v < old(self).adj_lists.len(),
        ensures
            final(self).wf(),
            final(self).adj_lists.len() == old(self).adj_lists.len(),
            final(self).edges@ == old(self).edges@.push((u, v)),
            forall|w: int|
                0 <= w < old(self).adj_lists.len() && w != u ==> final(self).adj_lists[w]
                    == old(self).adj_lists[w],
            final(self).adj_lists[u as int]@ == old(self).adj_lists[u as int]@.push(
                (old(self).edges.len() as usize, v),
            ),
    {
        let e = self.edges.len();
        self.edges.push((u, v));
        self.adj_lists[u].push((e, v));
        proof {
            let old_g = *old(self);
            let new_g = *self;
            assert forall|f: int| 0 <= f < new_g.edges.len() implies new_g.lists(f) by {
                if f < e {
                    assert(old_g.lists(f));
                    let i = choose|i: int|
                        0 <= i < old_g.adj_lists[old_g.edges[f].0 as int].len()
                            && #[trigger] old_g.adj_lists[old_g.edges[f].0 as int][i] == (
                            f as usize,
                            old_g.edges[f].1,
                        );
                    assert(new_g.adj_lists[new_g.edges[f].0 as int][i] == (
                        f as usize,
                        new_g.edges[f].1,
                    ));
                } else {
                    let i = old_g.adj_lists[u as int].len() as int;
                    assert(new_g.adj_lists[new_g.edges[f].0 as int][i] == (
                        f as usize,
                        new_g.edges[f].1,
                    ));
                }
            }
        }
    }

    /// Adds the two implications of the clause `u or v` over literals: from
    /// the negation of `u` to `v`, and from the negation of `v` to `u`.
    pub fn add_two_sat_clause(&mut self, u: usize, v: usize)
        requires
            old(self).wf(),
            old(self).adj_lists.len() % 2 == 0,
            u < old(self).adj_lists.len(),
            v < old(self).adj_lists.len(),
        ensures
            final(self).wf(),
            final(self).adj_lists.len() == old(self).adj_lists.len(),
            final(self).edges@ == old(self).edges@.push((negated(u as int) as usize, v)).push(
                (negated(v as int) as usize, u),
            ),
    {
        let not_u = flip(u);
        let not_v = flip(v);
        self.add_edge(not_u, v);
        self.add_edge(not_v, u);
    }

    /// Every vertex reaches itself.
    pub proof fn lemma_reaches_self(&self, u: int)
        requires
            0 <= u < self.adj_lists.len(),
        ensures
            self.reaches(u, u),
    {
        let p = seq![u];
        assert(self.is_walk(p));
        assert(p[0] == u && p[p.len() - 1] == u);
    }

    /// The tail of an edge reaches its head.
    pub proof fn lemma_reaches_edge(&self, e: int)
        requires
            self.wf(),
            0 <= e < self.edges.len(),
        ensures
            self.reaches(self.edges[e].0 as int, self.edges[e].1 as int),
    {
        let a = self.edges[e].0 as int;
        let b = self.edges[e].1 as int;
        let p = seq![a, b];
        assert(self.has_edge(a, b));
        assert(self.is_walk(p));
        assert(p[0] == a && p[p.len() - 1] == b);
    }

    /// Reachability is transitive.
    pub proof fn lemma_reaches_trans(&self, u: int, v: int, w: int)
        requires
            self.reaches(u, v),
            self.reaches(v, w),
        ensures
            self.reaches(u, w),
    {
        let p = choose|p: Seq<int>| #[trigger] self.is_walk(p) && p[0] == u && p[p.len() - 1] == v;
        let q = choose|q: Seq<int>| #[trigger] self.is_walk(q) && q[0] == v && q[q.len() - 1] == w;
        let r = p + q.subrange(1, q.len() as int);
        assert forall|i: int| 0 <= i < r.len() - 1 implies self.has_edge(#[trigger] r[i], r[i + 1]) by {
            if i < p.len() - 1 {
                assert(self.has_edge(p[i], p[i + 1]));
            } else {
                let k = i - p.len() + 1;
                assert(self.has_edge(q[k], q[k + 1]));
            }
        }
        assert(self.is_walk(r));
        assert(r[0] == u && r[r.len() - 1] == w);
    }

    /// Where no edge leads from a smaller to a larger label, no walk does.
    pub proof fn lemma_labels_descend(&self, label: Seq<usize>, u: int, v: int)
        requires
            label.len() == self.adj_lists.len(),
            forall|e: int|
                0 <= e < self.edges.len() ==> label[(#[trigger] self.edges[e]).0 as int]
                    >= label[self.edges[e].1 as int],
            self.reaches(u, v),
        ensures
            label[u] >= label[v],
    {
        let p = choose|p: Seq<int>| #[trigger] self.is_walk(p) && p[0] == u && p[p.len() - 1] == v;
        self.lemma_labels_descend_on(label, p, p.len() - 1);
    }

    proof fn lemma_labels_descend_on(&self, label: Seq<usize>, p: Seq<int>, k: int)
        requires
            label.len() == self.adj_lists.len(),
            forall|e: int|
                0 <= e < self.edges.len() ==> label[(#[trigger] self.edges[e]).0 as int]
                    >= label[self.edges[e].1 as int],
            self.is_walk(p),
            0 <= k < p.len(),
        ensures
            label[p[0]] >= label[p[k]],
        decreases k,
    {
        if k > 0 {
            self.lemma_labels_descend_on(label, p, k - 1);
            assert(self.has_edge(p[k - 1], p[k - 1 + 1]));
        }
    }

    /// Where every edge leads from a marked vertex to a marked one only, so
    /// does every walk.
    pub proof fn lemma_marks_carry(&self, mark: Seq<bool>, u: int, v: int)
        requires
            mark.len() == self.adj_lists.len(),
            forall|e: int|
                0 <= e < self.edges.len() && mark[(#[trigger] self.edges[e]).0 as int]
                    ==> mark[self.edges[e].1 as int],
            self.reaches(u, v),
            mark[u],
        ensures
            mark[v],
    {
        let p = choose|p: Seq<int>| #[trigger] self.is_walk(p) && p[0] == u && p[p.len() - 1] == v;
        self.lemma_marks_carry_on(mark, p, p.len() - 1);
    }

    proof fn lemma_marks_carry_on(&self, mark: Seq<bool>, p: Seq<int>, k: int)
        requires
            mark.len() == self.adj_lists.len(),
            forall|e: int|
                0 <= e < self.edges.len() && mark[(#[trigger] self.edges[e]).0 as int]
                    ==> mark[self.edges[e].1 as int],
            self.is_walk(p),
            0 <= k < p.len(),
            mark[p[0]],
        ensures
            mark[p[k]],
        decreases k,
    {
        if k > 0 {
            self.lemma_marks_carry_on(mark, p, k - 1);
            assert(self.has_edge(p[k - 1], p[k - 1 + 1]));
        }
    }
}

/// An undirected multigraph. Edge `e` joins `edges[e].0` and `edges[e].1`, and
/// `adj_lists[u]` holds one `(edge, neighbour)` entry per edge at `u`, in the
/// order in which the edges were added; a self-loop is listed once.
pub struct UndirectedGraph {
    pub adj_lists: Vec<Vec<(usize, usize)>>,
    pub edges: Vec<(usize, usize)>,
}

impl UndirectedGraph {
    /// Edge `e` joins `x` and `y`.
    pub open spec fn joins(&self, e: int, x: int, y: int) -> bool {
        &&& 0 <= e < self.edges.len()
        &&& (self.edges[e].0 == x && self.edges[e].1 == y) || (self.edges[e].0 == y
            && self.edges[e].1 == x)
    }

    /// Edge `e` appears in the adjacency list of `x`, with neighbour `y`.
    pub open spec fn lists(&self, e: int, x: int, y: int) -> bool {
        exists|i: int|
            0 <= i < self.adj_lists[x].len() && #[trigger] self.adj_lists[x][i] == (
                e as usize,
                y as usize,
            )
    }

    /// Both endpoints of every edge are vertices, every adjacency entry names
    /// an edge at its vertex, and every edge is listed once at each endpoint.
    pub open spec fn wf(&self) -> bool {
        let n = self.adj_lists.len();
        &&& forall|e: int|
            0 <= e < self.edges.len() ==> (#[trigger] self.edges[e]).0 < n && self.edges[e].1 < n
        &&& forall|u: int, i: int|
            0 <= u < n && 0 <= i < self.adj_lists[u].len() ==> {
                let entry = #[trigger] self.adj_lists[u][i];
                self.joins(entry.0 as int, u, entry.1 as int)
            }
        &&& forall|u: int, i: int, j: int|
            0 <= u < n && 0 <= i < j < self.adj_lists[u].len() ==> (#[trigger] self.adj_lists[u][i]).0
                != (#[trigger] self.adj_lists[u][j]).0
        &&& forall|e: int|
            0 <= e < self.edges.len() ==> #[trigger] self.lists(
                e,
                self.edges[e].0 as int,
                self.edges[e].1 as int,
            )
        &&& forall|e: int|
            0 <= e < self.edges.len() ==> #[trigger] self.lists(
                e,
                self.edges[e].1 as int,
                self.edges[e].0 as int,
            )
    }

    /// Some edge outside `avoid` joins `x` and `y`.
    pub open spec fn links(&self, avoid: Set<int>, x: int, y: int) -> bool {
        exists|e: int| #[trigger] self.joins(e, x, y) && !avoid.contains(e)
    }

    /// `p` is a walk that uses no edge of `avoid`: a non-empty sequence of
    /// vertices, each joined to the next by an edge outside `avoid`.
    pub open spec fn is_walk(&self, avoid: Set<int>, p: Seq<int>) -> bool {
        &&& p.len() > 0
        &&& forall|i: int| 0 <= i < p.len() ==> 0 <= #[trigger] p[i] < self.adj_lists.len()
        &&& forall|i: int| 0 <= i < p.len() - 1 ==> self.links(avoid, #[trigger] p[i], p[i + 1])
    }

    /// A walk that uses no edge of `avoid` leads from `a` to `b`.
    pub open spec fn connects(&self, avoid: Set<int>, a: int, b: int) -> bool {
        exists|p: Seq<int>| #[trigger] self.is_walk(avoid, p) && p[0] == a && p[p.len() - 1] == b
    }

    /// `a` and `b` lie in one connected component.
    pub open spec fn connected(&self, a: int, b: int) -> bool {
        self.connects(Set::empty(), a, b)
    }

    /// `a` and `b` are connected, and stay so when any one edge is removed.
    pub open spec fn two_edge_connected(&self, a: int, b: int) -> bool {
        &&& self.connected(a, b)
        &&& forall|e: int| 0 <= e < self.edges.len() ==> #[trigger] self.connects(set![e], a, b)
    }

    /// Removing edge `e` disconnects its endpoints.
    pub open spec fn is_bridge(&self, e: int) -> bool {
        !self.connects(set![e], self.edges[e].0 as int, self.edges[e].1 as int)
    }

    /// A graph with `vmax` vertices and no edges. The second argument is the
    /// number of adjacency entries the caller expects to add; it only sizes
    /// the storage.
    pub fn new(vmax: usize, emax_hint: usize) -> (g: UndirectedGraph)
        ensures
            g.wf(),
            g.adj_lists.len() == vmax,
            g.edges@ == Seq::<(usize, usize)>::empty(),
            forall|u: int| 0 <= u < vmax ==> (#[trigger] g.adj_lists[u]).len() == 0,
    {
        let mut adj_lists: Vec<Vec<(usize, usize)>> = Vec::new();
        let mut u: usize = 0;
        while u < vmax
            invariant
                u <= vmax,
                adj_lists.len() == u,
                forall|w: int| 0 <= w < u ==> (#[trigger] adj_lists[w]).len() == 0,
            decreases vmax - u,
        {
            adj_lists.push(Vec::new());
            u += 1;
        }
        let mut edges: Vec<(usize, usize)> = Vec::new();
        let _ = edges.try_reserve(emax_hint / 2);
        UndirectedGraph { adj_lists, edges }
    }

    /// The number of vertices.
    pub fn num_v(&self) -> (n: usize)
        ensures
            n == self.adj_lists.len(),
    {
        self.adj_lists.len()
    }

    /// The number of edges.
    pub fn num_e(&self) -> (m: usize)
        ensures
            m == self.edges.len(),
    {
        self.edges.len()
    }

    /// Adds an edge between `u` and `v`; its id is the number of edges before.
    pub fn add_edge(&mut self, u: usize, v: usize)
        requires
            old(self).wf(),
            u < old(self).adj_lists.len(),
            v < old(self).adj_lists.len(),
        ensures
            final(self).wf(),
            final(self).adj_lists.len() == old(self).adj_lists.len(),
            final(self).edges@ == old(self).edges@.push((u, v)),
            forall|w: int|
                0 <= w < old(self).adj_lists.len() && w != u && w != v ==> final(self).adj_lists[w]
                    == old(self).adj_lists[w],
            final(self).adj_lists[u as int]@ == old(self).adj_lists[u as int]@.push(
                (old(self).edges.len() as usize, v),
            ),
            u != v ==> final(self).adj_lists[v as int]@ == old(self).adj_lists[v as int]@.push(
                (old(self).edges.len() as usize, u),
            ),
    {
        let e = self.edges.len();
        self.edges.push((u, v));
        self.adj_lists[u].push((e, v));
        if u != v {
            self.adj_lists[v].push((e, u));
        }
        proof {
            let old_g = *old(self);
            let new_g = *self;
            let n = new_g.adj_lists.len() as int;
            assert forall|w: int, i: int| 0 <= w < n && 0 <= i < new_g.adj_lists[w].len() implies {
                let entry = #[trigger] new_g.adj_lists[w][i];
                new_g.joins(entry.0 as int, w, entry.1 as int)
            } by {
                if i < old_g.adj_lists[w].len() {
                    let entry = old_g.adj_lists[w][i];
                    assert(old_g.joins(entry.0 as int, w, entry.1 as int));
                }
            }
            assert forall|w: int, i: int, j: int|
                0 <= w < n && 0 <= i < j < new_g.adj_lists[w].len() implies (
            #[trigger] new_g.adj_lists[w][i]).0 != (#[trigger] new_g.adj_lists[w][j]).0 by {
                let entry = old_g.adj_lists[w][i];
                assert(old_g.joins(entry.0 as int, w, entry.1 as int));
            }
            assert forall|f: int| 0 <= f < new_g.edges.len() implies #[trigger] new_g.lists(
                f,
                new_g.edges[f].0 as int,
                new_g.edges[f].1 as int,
            ) by {
                let x = new_g.edges[f].0 as int;
                let y = new_g.edges[f].1 as int;
                if f < e {
                    assert(old_g.lists(f, x, y));
                    let i = choose|i: int|
                        0 <= i < old_g.adj_lists[x].len() && #[trigger] old_g.adj_lists[x][i] == (
                            f as usize,
                            y as usize,
                        );
                    assert(new_g.adj_lists[x][i] == (f as usize, y as usize));
                } else {
                    let i = old_g.adj_lists[u as int].len() as int;
                    assert(new_g.adj_lists[x][i] == (f as usize, y as usize));
                }
            }
            assert forall|f: int| 0 <= f < new_g.edges.len() implies #[trigger] new_g.lists(
                f,
                new_g.edges[f].1 as int,
                new_g.edges[f].0 as int,
            ) by {
                let x = new_g.edges[f].1 as int;
                let y = new_g.edges[f].0 as int;
                if f < e {
                    assert(old_g.lists(f, x, y));
                    let i = choose|i: int|
                        0 <= i < old_g.adj_lists[x].len() && #[trigger] old_g.adj_lists[x][i] == (
                            f as usize,
                            y as usize,
                        );
                    assert(new_g.adj_lists[x][i] == (f as usize, y as usize));
                } else {
                    let i = old_g.adj_lists[v as int].len() as int;
                    assert(new_g.adj_lists[x][i] == (f as usize, y as usize));
                }
            }
        }
    }

    /// Every vertex is connected to itself.
    pub proof fn lemma_connects_self(&self, avoid: Set<int>, u: int)
        requires
            0 <= u < self.adj_lists.len(),
        ensures
            self.connects(avoid, u, u),
    {
        let p = seq![u];
        assert(self.is_walk(avoid, p));
        assert(p[0] == u && p[p.len() - 1] == u);
    }

    /// The endpoints of an edge outside `avoid` are connected.
    pub proof fn lemma_connects_edge(&self, avoid: Set<int>, e: int, x: int, y: int)
        requires
            self.wf(),
            self.joins(e, x, y),
            !avoid.contains(e),
        ensures
            self.connects(avoid, x, y),
    {
        let p = seq![x, y];
        assert(self.links(avoid, x, y));
        assert(self.is_walk(avoid, p));
        assert(p[0] == x && p[p.len() - 1] == y);
    }

    /// Walks can be joined end to end.
    pub proof fn lemma_connects_trans(&self, avoid: Set<int>, u: int, v: int, w: int)
        requires
            self.connects(avoid, u, v),
            self.connects(avoid, v, w),
        ensures
            self.connects(avoid, u, w),
    {
        let p = choose|p: Seq<int>| #[trigger]
            self.is_walk(avoid, p) && p[0] == u && p[p.len() - 1] == v;
        let q = choose|q: Seq<int>| #[trigger]
            self.is_walk(avoid, q) && q[0] == v && q[q.len() - 1] == w;
        let r = p + q.subrange(1, q.len() as int);
        assert forall|i: int| 0 <= i < r.len() - 1 implies self.links(avoid, #[trigger] r[i], r[i + 1]) by {
            if i < p.len() - 1 {
                assert(self.links(avoid, p[i], p[i + 1]));
            } else {
                let k = i - p.len() + 1;
                assert(self.links(avoid, q[k], q[k + 1]));
            }
        }
        assert(self.is_walk(avoid, r));
        assert(r[0] == u && r[r.len() - 1] == w);
    }

    /// A walk can be gone backwards.
    pub proof fn lemma_connects_sym(&self, avoid: Set<int>, u: int, v: int)
        requires
            self.connects(avoid, u, v),
        ensures
            self.connects(avoid, v, u),
    {
        let p = choose|p: Seq<int>| #[trigger]
            self.is_walk(avoid, p) && p[0] == u && p[p.len() - 1] == v;
        let r = Seq::new(p.len(), |i: int| p[p.len() - 1 - i]);
        assert forall|i: int| 0 <= i < r.len() - 1 implies self.links(avoid, #[trigger] r[i], r[i + 1]) by {
            let k = p.len() - 2 - i;
            assert(self.links(avoid, p[k], p[k + 1]));
            let e = choose|e: int| #[trigger] self.joins(e, p[k], p[k + 1]) && !avoid.contains(e);
            assert(self.joins(e, p[k + 1], p[k]));
        }
        assert(self.is_walk(avoid, r));
        assert(r[0] == v && r[r.len() - 1] == u);
    }

    /// A walk that avoids more edges also avoids fewer.
    pub proof fn lemma_connects_mono(&self, more: Set<int>, fewer: Set<int>, u: int, v: int)
        requires
            self.connects(more, u, v),
            fewer.subset_of(more),
        ensures
            self.connects(fewer, u, v),
    {
        let p = choose|p: Seq<int>| #[trigger]
            self.is_walk(more, p) && p[0] == u && p[p.len() - 1] == v;
        assert forall|i: int| 0 <= i < p.len() - 1 implies self.links(fewer, #[trigger] p[i], p[i + 1]) by {
            assert(self.links(more, p[i], p[i + 1]));
            let e = choose|e: int| #[trigger] self.joins(e, p[i], p[i + 1]) && !more.contains(e);
            assert(self.joins(e, p[i], p[i + 1]) && !fewer.contains(e));
        }
        assert(self.is_walk(fewer, p));
    }

    /// Where no edge outside `avoid` joins a marked vertex to an unmarked
    /// one, no walk that avoids `avoid` leaves the marked vertices.
    pub proof fn lemma_marks_fence(&self, avoid: Set<int>, mark: Seq<bool>, u: int, v: int)
        requires
            mark.len() == self.adj_lists.len(),
            forall|e: int, x: int, y: int|
                #[trigger] self.joins(e, x, y) && !avoid.contains(e) && 0 <= x < mark.len() && 0 <= y
                    < mark.len() && mark[x] ==> mark[y],
            self.connects(avoid, u, v),
            mark[u],
        ensures
            mark[v],
    {
        let p = choose|p: Seq<int>| #[trigger]
            self.is_walk(avoid, p) && p[0] == u && p[p.len() - 1] == v;
        self.lemma_marks_fence_on(avoid, mark, p, p.len() - 1);
    }

    proof fn lemma_marks_fence_on(&self, avoid: Set<int>, mark: Seq<bool>, p: Seq<int>, k: int)
        requires
            mark.len() == self.adj_lists.len(),
            forall|e: int, x: int, y: int|
                #[trigger] self.joins(e, x, y) && !avoid.contains(e) && 0 <= x < mark.len() && 0 <= y
                    < mark.len() && mark[x] ==> mark[y],
            self.is_walk(avoid, p),
            0 <= k < p.len(),
            mark[p[0]],
        ensures
            mark[p[k]],
        decreases k,
    {
        if k > 0 {
            self.lemma_marks_fence_on(avoid, mark, p, k - 1);
            assert(self.links(avoid, p[k - 1], p[k - 1 + 1]));
        }
    }

    /// Being two-edge-connected is symmetric.
    pub proof fn lemma_two_edge_connected_sym(&self, a: int, b: int)
        requires
            self.two_edge_connected(a, b),
        ensures
            self.two_edge_connected(b, a),
    {
        self.lemma_connects_sym(Set::empty(), a, b);
        assert forall|e: int| 0 <= e < self.edges.len() implies #[trigger] self.connects(
            set![e],
            b,
            a,
        ) by {
            assert(self.connects(set![e], a, b));
            self.lemma_connects_sym(set![e], a, b);
        }
    }

    /// Being two-edge-connected is transitive.
    pub proof fn lemma_two_edge_connected_trans(&self, a: int, b: int, c: int)
        requires
            self.two_edge_connected(a, b),
            self.two_edge_connected(b, c),
        ensures
            self.two_edge_connected(a, c),
    {
        self.lemma_connects_trans(Set::empty(), a, b, c);
        assert forall|e: int| 0 <= e < self.edges.len() implies #[trigger] self.connects(
            set![e],
            a,
            c,
        ) by {
            assert(self.connects(set![e], a, b));
            assert(self.connects(set![e], b, c));
            self.lemma_connects_trans(set![e], a, b, c);
        }
    }

    /// Some edge joins `x` and `y`.
    pub open spec fn adjacent(&self, x: int, y: int) -> bool {
        exists|e: int| #[trigger] self.joins(e, x, y)
    }

    /// `p` is a walk that passes through no vertex of `off`.
    pub open spec fn is_walk_off(&self, off: Set<int>, p: Seq<int>) -> bool {
        &&& p.len() > 0
        &&& forall|i: int|
            0 <= i < p.len() ==> 0 <= #[trigger] p[i] < self.adj_lists.len() && !off.contains(p[i])
        &&& forall|i: int| 0 <= i < p.len() - 1 ==> self.adjacent(#[trigger] p[i], p[i + 1])
    }

    /// A walk that passes through no vertex of `off` leads from `a` to `b`.
    pub open spec fn connects_off(&self, off: Set<int>, a: int, b: int) -> bool {
        exists|p: Seq<int>| #[trigger] self.is_walk_off(off, p) && p[0] == a && p[p.len() - 1] == b
    }

    /// Removing `u` separates two of its neighbours: `u` is an articulation
    /// point.
    pub open spec fn is_articulation(&self, u: int) -> bool {
        exists|a: int, b: int|
            #![trigger self.adjacent(u, a), self.adjacent(u, b)]
            self.adjacent(u, a) && self.adjacent(u, b) && a != u && b != u && !self.connects_off(
                set![u],
                a,
                b,
            )
    }

    /// A vertex outside `off` is connected to itself.
    pub proof fn lemma_connects_off_self(&self, off: Set<int>, u: int)
        requires
            0 <= u < self.adj_lists.len(),
            !off.contains(u),
        ensures
            self.connects_off(off, u, u),
    {
        let p = seq![u];
        assert(self.is_walk_off(off, p));
        assert(p[0] == u && p[p.len() - 1] == u);
    }

    /// The ends of an edge are connected, if they are outside `off`.
    pub proof fn lemma_connects_off_edge(&self, off: Set<int>, e: int, x: int, y: int)
        requires
            self.wf(),
            self.joins(e, x, y),
            !off.contains(x),
            !off.contains(y),
        ensures
            self.connects_off(off, x, y),
    {
        let p = seq![x, y];
        assert(self.adjacent(x, y));
        assert(self.is_walk_off(off, p));
        assert(p[0] == x && p[p.len() - 1] == y);
    }

    /// Walks off a set of vertices can be joined end to end.
    pub proof fn lemma_connects_off_trans(&self, off: Set<int>, u: int, v: int, w: int)
        requires
            self.connects_off(off, u, v),
            self.connects_off(off, v, w),
        ensures
            self.connects_off(off, u, w),
    {
        let p = choose|p: Seq<int>| #[trigger]
            self.is_walk_off(off, p) && p[0] == u && p[p.len() - 1] == v;
        let q = choose|q: Seq<int>| #[trigger]
            self.is_walk_off(off, q) && q[0] == v && q[q.len() - 1] == w;
        let r = p + q.subrange(1, q.len() as int);
        assert forall|i: int| 0 <= i < r.len() - 1 implies self.adjacent(#[trigger] r[i], r[i + 1]) by {
            if i < p.len() - 1 {
                assert(self.adjacent(p[i], p[i + 1]));
            } else {
                let k = i - p.len() + 1;
                assert(self.adjacent(q[k], q[k + 1]));
            }
        }
        assert forall|i: int| 0 <= i < r.len() implies 0 <= #[trigger] r[i] < self.adj_lists.len()
            && !off.contains(r[i]) by {
            if i < p.len() {
                assert(r[i] == p[i]);
            } else {
                assert(r[i] == q[i - p.len() + 1]);
            }
        }
        assert(self.is_walk_off(off, r));
        assert(r[0] == u && r[r.len() - 1] == w);
    }

    /// A walk off a set of vertices can be gone backwards.
    pub proof fn lemma_connects_off_sym(&self, off: Set<int>, u: int, v: int)
        requires
            self.connects_off(off, u, v),
        ensures
            self.connects_off(off, v, u),
    {
        let p = choose|p: Seq<int>| #[trigger]
            self.is_walk_off(off, p) && p[0] == u && p[p.len() - 1] == v;
        let r = Seq::new(p.len(), |i: int| p[p.len() - 1 - i]);
        assert forall|i: int| 0 <= i < r.len() - 1 implies self.adjacent(#[trigger] r[i], r[i + 1]) by {
            let k = p.len() - 2 - i;
            assert(self.adjacent(p[k], p[k + 1]));
            let e = choose|e: int| #[trigger] self.joins(e, p[k], p[k + 1]);
            assert(self.joins(e, p[k + 1], p[k]));
        }
        assert forall|i: int| 0 <= i < r.len() implies 0 <= #[trigger] r[i] < self.adj_lists.len()
            && !off.contains(r[i]) by {
            assert(r[i] == p[p.len() - 1 - i]);
        }
        assert(self.is_walk_off(off, r));
        assert(r[0] == v && r[r.len() - 1] == u);
    }

    /// A walk that passes through none of more vertices passes through none
    /// of fewer.
    pub proof fn lemma_connects_off_mono(&self, more: Set<int>, fewer: Set<int>, u: int, v: int)
        requires
            self.connects_off(more, u, v),
            fewer.subset_of(more),
        ensures
            self.connects_off(fewer, u, v),
    {
        let p = choose|p: Seq<int>| #[trigger]
            self.is_walk_off(more, p) && p[0] == u && p[p.len() - 1] == v;
        assert(self.is_walk_off(fewer, p));
    }

    /// Where no edge joins a marked vertex to an unmarked one outside `off`,
    /// no walk off `off` leaves the marked vertices.
    pub proof fn lemma_marks_fence_off(&self, off: Set<int>, mark: Seq<bool>, u: int, v: int)
        requires
            mark.len() == self.adj_lists.len(),
            forall|e: int, x: int, y: int|
                #[trigger] self.joins(e, x, y) && !off.contains(y) && 0 <= x < mark.len() && 0 <= y
                    < mark.len() && mark[x] ==> mark[y],
            self.connects_off(off, u, v),
            mark[u],
        ensures
            mark[v],
    {
        let p = choose|p: Seq<int>| #[trigger]
            self.is_walk_off(off, p) && p[0] == u && p[p.len() - 1] == v;
        self.lemma_marks_fence_off_on(off, mark, p, p.len() - 1);
    }

    proof fn lemma_marks_fence_off_on(&self, off: Set<int>, mark: Seq<bool>, p: Seq<int>, k: int)
        requires
            mark.len() == self.adj_lists.len(),
            forall|e: int, x: int, y: int|
                #[trigger] self.joins(e, x, y) && !off.contains(y) && 0 <= x < mark.len() && 0 <= y
                    < mark.len() && mark[x] ==> mark[y],
            self.is_walk_off(off, p),
            0 <= k < p.len(),
            mark[p[0]],
        ensures
            mark[p[k]],
        decreases k,
    {
        if k > 0 {
            self.lemma_marks_fence_off_on(off, mark, p, k - 1);
            assert(self.adjacent(p[k - 1], p[k - 1 + 1]));
        }
    }

    /// Every vertex is two-edge-connected to itself.
    pub proof fn lemma_two_edge_connected_self(&self, a: int)
        requires
            0 <= a < self.adj_lists.len(),
        ensures
            self.two_edge_connected(a, a),
    {
        self.lemma_connects_self(Set::empty(), a);
        assert forall|e: int| 0 <= e < self.edges.len() implies #[trigger] self.connects(
            set![e],
            a,
            a,
        ) by {
            self.lemma_connects_self(set![e], a);
        }
    }
}

/// The literal of the other polarity.
fn flip(lit: usize) -> (r: usize)
    requires
        lit < usize::MAX,
    ensures
        r == negated(lit as int),
{
    if lit % 2 == 0 {
        lit + 1
    } else {
        lit - 1
    }
}

} // verus!
