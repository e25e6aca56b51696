use graph_connectivity::directed::ConnectivityDirectedGraph;
use graph_connectivity::graph::{DirectedGraph, UndirectedGraph};
use graph_connectivity::undirected::ConnectivityUndirectedGraph;

/// A small deterministic generator of pseudo-random numbers.
struct Lcg(u64);

impl Lcg {
    fn next(&mut self, bound: usize) -> usize {
        self.0 = self.0.wrapping_mul(6364136223846793005).wrapping_add(1442695040888963407);
        ((self.0 >> 33) as usize) % bound
    }
}

fn reachable(n: usize, edges: &[(usize, usize)], directed: bool, from: usize) -> Vec<bool> {
    let mut seen = vec![false; n];
    let mut work = vec![from];
    seen[from] = true;
    while let Some(x) = work.pop() {
        for &(a, b) in edges {
            if a == x && !seen[b] {
                seen[b] = true;
                work.push(b);
            }
            if !directed && b == x && !seen[a] {
                seen[a] = true;
                work.push(a);
            }
        }
    }
    seen
}

fn connected_without_vertex(
    n: usize,
    edges: &[(usize, usize)],
    removed: usize,
    from: usize,
    to: usize,
) -> bool {
    let kept: Vec<(usize, usize)> = edges
        .iter()
        .copied()
        .filter(|&(a, b)| a != removed && b != removed)
        .collect();
    reachable(n, &kept, false, from)[to]
}

fn is_articulation(n: usize, edges: &[(usize, usize)], u: usize) -> bool {
    let neighbours: Vec<usize> = edges
        .iter()
        .filter_map(|&(a, b)| {
            if a == u && b != u {
                Some(b)
            } else if b == u && a != u {
                Some(a)
            } else {
                None
            }
        })
        .collect();
    neighbours.iter().any(|&a| {
        neighbours
            .iter()
            .any(|&b| !connected_without_vertex(n, edges, u, a, b))
    })
}

fn is_first(n: usize, edges: &[(usize, usize)], u: usize) -> bool {
    let seen = reachable(n, edges, false, u);
    (0..u).all(|w| !seen[w])
}

#[test]
fn strongly_connected_components_match_reachability() {
    let mut rng = Lcg(7);
    for round in 0..40 {
        let n = 1 + rng.next(7);
        let m = rng.next(12);
        let mut graph = DirectedGraph::new(n, m);
        let mut edges = Vec::new();
        for _ in 0..m {
            let (u, v) = (rng.next(n), rng.next(n));
            graph.add_edge(u, v);
            edges.push((u, v));
        }
        let cg = ConnectivityDirectedGraph::new(&graph);
        let reach: Vec<Vec<bool>> = (0..n).map(|u| reachable(n, &edges, true, u)).collect();
        for u in 0..n {
            for v in 0..n {
                assert_eq!(
                    cg.cc[u] == cg.cc[v],
                    reach[u][v] && reach[v][u],
                    "round {} vertices {} {}",
                    round,
                    u,
                    v
                );
            }
        }
        for &(u, v) in edges.iter() {
            assert!(cg.cc[u] >= cg.cc[v]);
        }
        let order = cg.topological_sort();
        let mut sorted = order.clone();
        sorted.sort();
        assert_eq!(sorted, (0..n).collect::<Vec<_>>());
        for i in 1..n {
            let (x, y) = (order[i - 1], order[i]);
            assert!(cg.cc[x] > cg.cc[y] || (cg.cc[x] == cg.cc[y] && x < y));
        }
    }
}

#[test]
fn bridges_and_articulation_points_match_removal() {
    let mut rng = Lcg(11);
    for round in 0..40 {
        let n = 1 + rng.next(7);
        let m = rng.next(10);
        let mut graph = UndirectedGraph::new(n, 2 * m);
        let mut edges = Vec::new();
        for _ in 0..m {
            let (u, v) = (rng.next(n), rng.next(n));
            graph.add_edge(u, v);
            edges.push((u, v));
        }
        let cg = ConnectivityUndirectedGraph::new(&graph);
        assert!(cg.cc.iter().all(|&c| 1 <= c && c <= cg.num_cc));
        assert!(cg.vcc.iter().all(|&c| 1 <= c && c <= cg.num_vcc));
        for e in 0..m {
            let without: Vec<(usize, usize)> = edges
                .iter()
                .enumerate()
                .filter(|&(f, _)| f != e)
                .map(|(_, &pair)| pair)
                .collect();
            let (u, v) = edges[e];
            let bridge = !reachable(n, &without, false, u)[v];
            assert_eq!(cg.is_cut_edge(e), bridge, "round {} edge {}", round, e);
        }
        for u in 0..n {
            let articulation = is_articulation(n, &edges, u);
            assert_eq!(cg.isAP[u], articulation, "round {} vertex {}", round, u);
            let has_loop = edges.iter().any(|&(a, b)| a == u && b == u);
            let expected = if has_loop {
                graph.adj_lists[u].len() >= 2
            } else {
                articulation && !is_first(n, &edges, u)
            };
            assert_eq!(cg.is_cut_vertex(u), expected, "round {} vertex {}", round, u);
        }
    }
}

#[test]
fn edges_at_a_vertex_share_components_as_removal_says() {
    let mut rng = Lcg(23);
    for round in 0..30 {
        let n = 2 + rng.next(6);
        let m = rng.next(10);
        let mut graph = UndirectedGraph::new(n, 2 * m);
        let mut edges = Vec::new();
        for _ in 0..m {
            let (u, v) = (rng.next(n), rng.next(n));
            graph.add_edge(u, v);
            edges.push((u, v));
        }
        let cg = ConnectivityUndirectedGraph::new(&graph);
        for z in 0..n {
            let first = is_first(n, &edges, z);
            for &(e1, a) in graph.adj_lists[z].iter() {
                for &(e2, b) in graph.adj_lists[z].iter() {
                    if a == z || b == z {
                        continue;
                    }
                    let together = first || connected_without_vertex(n, &edges, z, a, b);
                    assert_eq!(
                        cg.vcc[e1] == cg.vcc[e2],
                        together,
                        "round {} vertex {} edges {} {}",
                        round,
                        z,
                        e1,
                        e2
                    );
                }
            }
        }
    }
}

#[test]
fn edges_share_components_as_chains_say() {
    let mut rng = Lcg(47);
    for round in 0..30 {
        let n = 2 + rng.next(6);
        let m = rng.next(10);
        let mut graph = UndirectedGraph::new(n, 2 * m);
        let mut edges = Vec::new();
        for _ in 0..m {
            let (u, v) = (rng.next(n), rng.next(n));
            graph.add_edge(u, v);
            edges.push((u, v));
        }
        let cg = ConnectivityUndirectedGraph::new(&graph);
        // Two edges stick if they meet at a vertex that does not part them.
        let mut class: Vec<usize> = (0..m).collect();
        let mut changed = true;
        let sticks = |e: usize, f: usize| -> bool {
            (0..n).any(|z| {
                let far = |edge: (usize, usize)| -> Option<usize> {
                    if edge.0 == z && edge.1 != z {
                        Some(edge.1)
                    } else if edge.1 == z && edge.0 != z {
                        Some(edge.0)
                    } else {
                        None
                    }
                };
                match (far(edges[e]), far(edges[f])) {
                    (Some(a), Some(b)) => {
                        is_first(n, &edges, z) || connected_without_vertex(n, &edges, z, a, b)
                    }
                    _ => false,
                }
            })
        };
        while changed {
            changed = false;
            for e in 0..m {
                for f in 0..m {
                    if class[e] != class[f] && sticks(e, f) {
                        let (keep, drop) = (class[e].min(class[f]), class[e].max(class[f]));
                        for c in class.iter_mut() {
                            if *c == drop {
                                *c = keep;
                            }
                        }
                        changed = true;
                    }
                }
            }
        }
        for e in 0..m {
            for f in 0..m {
                assert_eq!(
                    cg.vcc[e] == cg.vcc[f],
                    class[e] == class[f],
                    "round {} edges {} {}",
                    round,
                    e,
                    f
                );
            }
        }
        for c in 1..=cg.num_vcc {
            assert!(cg.vcc.contains(&c));
        }
    }
}
