//! The bookkeeping shared by the depth-first searches: discovery times,
//! low-link values and the two stacks of vertices and edges still in play.

use vstd::prelude::*;

verus! {

/// State of one depth-first traversal.
pub struct ConnectivityData {
    /// The last discovery time handed out.
    pub time: usize,
    /// Per vertex, 0 while unvisited, else its discovery time.
    pub visited: Vec<usize>,
    /// Per vertex, the lowest discovery time known to be reachable from it.
    pub low: Vec<usize>,
    /// Vertices discovered and not yet assigned to a component.
    pub v_stack: Vec<usize>,
    /// Edges traversed and not yet assigned to a component.
    pub e_stack: Vec<usize>,
}

/// The number of entries that are 0: in a table of discovery times, the
/// vertices not yet visited.
pub open spec fn zeros(visited: Seq<usize>) -> nat
    decreases visited.len(),
{
    if visited.len() == 0 {
        0
    } else {
        zeros(visited.drop_last()) + if visited.last() == 0 {
            1nat
        } else {
            0nat
        }
    }
}

/// Marking an unvisited vertex leaves one unvisited vertex fewer.
pub proof fn lemma_zeros_update(visited: Seq<usize>, u: int, t: usize)
    requires
        0 <= u < visited.len(),
        visited[u] == 0,
        t != 0,
    ensures
        zeros(visited.update(u, t)) + 1 == zeros(visited),
    decreases visited.len(),
{
    let after = visited.update(u, t);
    if u == visited.len() - 1 {
        assert(after.drop_last() =~= visited.drop_last());
    } else {
        lemma_zeros_update(visited.drop_last(), u, t);
        assert(after.drop_last() =~= visited.drop_last().update(u, t));
    }
}

/// No more vertices are unvisited than there are vertices.
pub proof fn lemma_zeros_bound(visited: Seq<usize>)
    ensures
        zeros(visited) <= visited.len(),
    decreases visited.len(),
{
    if visited.len() > 0 {
        lemma_zeros_bound(visited.drop_last());
    }
}

/// A vertex that is unvisited is counted.
pub proof fn lemma_zeros_some(visited: Seq<usize>, u: int)
    requires
        0 <= u < visited.len(),
        visited[u] == 0,
    ensures
        zeros(visited) > 0,
    decreases visited.len(),
{
    if u < visited.len() - 1 {
        lemma_zeros_some(visited.drop_last(), u);
    }
}

/// A sequence of zeros counts each of its entries.
pub proof fn lemma_zeros_all(visited: Seq<usize>)
    requires
        forall|u: int| 0 <= u < visited.len() ==> visited[u] == 0,
    ensures
        zeros(visited) == visited.len(),
    decreases visited.len(),
{
    if visited.len() > 0 {
        lemma_zeros_all(visited.drop_last());
    }
}

/// Some entry of a table of component ids is `c`.
pub open spec fn used(cc: Seq<usize>, c: int) -> bool {
    exists|v: int| 0 <= v < cc.len() && #[trigger] cc[v] == c
}

impl ConnectivityData {
    /// The tables have one entry per vertex, and the clock shows how many
    /// vertices have been discovered.
    pub open spec fn wf(&self, num_v: nat) -> bool {
        &&& self.visited.len() == num_v
        &&& self.low.len() == num_v
        &&& self.time + zeros(self.visited@) == num_v
        &&& forall|v: int| 0 <= v < num_v ==> #[trigger] self.visited[v] <= self.time
    }

    /// Fresh state for a graph of `num_v` vertices: nothing visited, both
    /// stacks empty.
    pub fn new(num_v: usize) -> (data: ConnectivityData)
        ensures
            data.wf(num_v as nat),
            data.time == 0,
            data.visited@ == Seq::new(num_v as nat, |i: int| 0usize),
            data.low@ == Seq::new(num_v as nat, |i: int| 0usize),
            data.v_stack@ == Seq::<usize>::empty(),
            data.e_stack@ == Seq::<usize>::empty(),
    {
        let data = ConnectivityData {
            time: 0,
            visited: vec![0; num_v],
            low: vec![0; num_v],
            v_stack: Vec::new(),
            e_stack: Vec::new(),
        };
        proof {
            lemma_zeros_all(data.visited@);
            assert(data.visited@ =~= Seq::new(num_v as nat, |i: int| 0usize));
            assert(data.low@ =~= Seq::new(num_v as nat, |i: int| 0usize));
        }
        data
    }

    /// Records the discovery of `u`: it gets the next time stamp as its
    /// discovery time and as its low-link, and goes onto the vertex stack.
    pub fn visit(&mut self, u: usize)
        requires
            old(self).wf(old(self).visited.len() as nat),
            u < old(self).visited.len(),
            old(self).visited[u as int] == 0,
        ensures
            final(self).wf(old(self).visited.len() as nat),
            final(self).time == old(self).time + 1,
            final(self).visited@ == old(self).visited@.update(u as int, final(self).time),
            final(self).low@ == old(self).low@.update(u as int, final(self).time),
            final(self).v_stack@ == old(self).v_stack@.push(u),
            final(self).e_stack@ == old(self).e_stack@,
    {
        proof {
            lemma_zeros_some(self.visited@, u as int);
            lemma_zeros_bound(self.visited@);
            lemma_zeros_update(self.visited@, u as int, (self.time + 1) as usize);
        }
        self.time += 1;
        self.visited[u] = self.time;
        self.low[u] = self.time;
        self.v_stack.push(u);
    }

    /// Lowers the low-link of `u` to `val` if `val` is smaller; never raises it.
    pub fn lower(&mut self, u: usize, val: usize)
        requires
            u < old(self).low.len(),
        ensures
            final(self).low@ == old(self).low@.update(
                u as int,
                if val < old(self).low[u as int] {
                    val
                } else {
                    old(self).low[u as int]
                },
            ),
            final(self).time == old(self).time,
            final(self).visited@ == old(self).visited@,
            final(self).v_stack@ == old(self).v_stack@,
            final(self).e_stack@ == old(self).e_stack@,
    {
        if self.low[u] > val {
            self.low[u] = val
        }
        proof {
            assert(self.low@ =~= old(self).low@.update(
                u as int,
                if val < old(self).low[u as int] {
                    val
                } else {
                    old(self).low[u as int]
                },
            ));
        }
    }
}

} // verus!
