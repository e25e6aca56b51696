use graph_connectivity::graph::UndirectedGraph;
use graph_connectivity::undirected::ConnectivityUndirectedGraph;

fn bridges(graph: &UndirectedGraph, cg: &ConnectivityUndirectedGraph) -> Vec<usize> {
    (0..graph.num_e()).filter(|&e| cg.is_cut_edge(e)).collect()
}

fn cut_vertices(graph: &UndirectedGraph, cg: &ConnectivityUndirectedGraph) -> Vec<usize> {
    (0..graph.num_v()).filter(|&u| cg.is_cut_vertex(u)).collect()
}

#[test]
fn test_biconnected() {
    let mut graph = UndirectedGraph::new(3, 6);
    graph.add_edge(0, 1);
    graph.add_edge(1, 2);
    graph.add_edge(1, 2);

    let cg = ConnectivityUndirectedGraph::new(&graph);
    let bridges = (0..graph.num_e())
        .filter(|&e| cg.is_cut_edge(e))
        .collect::<Vec<_>>();
    let articulation_points = (0..graph.num_v())
        .filter(|&u| cg.is_cut_vertex(u))
        .collect::<Vec<_>>();

    assert_eq!(bridges, vec![0]);
    assert_eq!(articulation_points, vec![1]);
}

#[test]
fn path_with_doubled_edge_ids() {
    let mut graph = UndirectedGraph::new(3, 6);
    graph.add_edge(0, 1);
    graph.add_edge(1, 2);
    graph.add_edge(1, 2);

    let cg = ConnectivityUndirectedGraph::new(&graph);
    assert_eq!(cg.cc, vec![2, 1, 1]);
    assert_eq!(cg.num_cc, 2);
    assert_eq!(cg.vcc, vec![2, 1, 1]);
    assert_eq!(cg.num_vcc, 2);
    assert_eq!(cg.isAP, vec![false, true, false]);
}

#[test]
fn empty_undirected_graph() {
    let graph = UndirectedGraph::new(0, 0);
    let cg = ConnectivityUndirectedGraph::new(&graph);
    assert_eq!(cg.cc, Vec::<usize>::new());
    assert_eq!(cg.vcc, Vec::<usize>::new());
    assert_eq!(cg.isAP, Vec::<bool>::new());
    assert_eq!(cg.num_cc, 0);
    assert_eq!(cg.num_vcc, 0);
}

#[test]
fn isolated_vertices_are_their_own_components() {
    let graph = UndirectedGraph::new(3, 0);
    let cg = ConnectivityUndirectedGraph::new(&graph);
    assert_eq!(cg.cc, vec![1, 2, 3]);
    assert_eq!(cg.num_cc, 3);
    assert_eq!(cg.num_vcc, 0);
    assert_eq!(cg.isAP, vec![false, false, false]);
    assert_eq!(cut_vertices(&graph, &cg), Vec::<usize>::new());
}

#[test]
fn single_edge_is_a_bridge_with_a_component() {
    let mut graph = UndirectedGraph::new(2, 2);
    graph.add_edge(0, 1);
    let cg = ConnectivityUndirectedGraph::new(&graph);
    assert_eq!(cg.vcc, vec![1]);
    assert_eq!(cg.num_vcc, 1);
    assert_eq!(cg.cc, vec![2, 1]);
    assert_eq!(bridges(&graph, &cg), vec![0]);
    assert_eq!(cg.isAP, vec![false, false]);
    assert_eq!(cut_vertices(&graph, &cg), Vec::<usize>::new());
}

#[test]
fn triangle_has_no_bridge_and_no_cut_vertex() {
    let mut graph = UndirectedGraph::new(3, 6);
    graph.add_edge(0, 1);
    graph.add_edge(1, 2);
    graph.add_edge(2, 0);
    let cg = ConnectivityUndirectedGraph::new(&graph);
    assert_eq!(cg.cc, vec![1, 1, 1]);
    assert_eq!(cg.num_cc, 1);
    assert_eq!(cg.vcc, vec![1, 1, 1]);
    assert_eq!(cg.num_vcc, 1);
    assert_eq!(cg.isAP, vec![false, false, false]);
    assert_eq!(bridges(&graph, &cg), Vec::<usize>::new());
    assert_eq!(cut_vertices(&graph, &cg), Vec::<usize>::new());
}

#[test]
fn doubled_edge_is_no_bridge() {
    let mut graph = UndirectedGraph::new(2, 4);
    graph.add_edge(0, 1);
    graph.add_edge(0, 1);
    let cg = ConnectivityUndirectedGraph::new(&graph);
    assert_eq!(cg.cc, vec![1, 1]);
    assert_eq!(bridges(&graph, &cg), Vec::<usize>::new());
    assert_eq!(cg.vcc, vec![1, 1]);
}

#[test]
fn self_loop_is_a_component_of_its_own() {
    let mut graph = UndirectedGraph::new(2, 4);
    graph.add_edge(0, 0);
    graph.add_edge(0, 1);
    let cg = ConnectivityUndirectedGraph::new(&graph);
    assert_eq!(graph.adj_lists[0].len(), 2);
    assert_eq!(cg.vcc, vec![1, 2]);
    assert_eq!(cg.num_vcc, 2);
    assert_eq!(cg.isAP, vec![false, false]);
    assert_eq!(bridges(&graph, &cg), vec![1]);
    // The loop has a component of its own, so the edges at 0 span two.
    assert!(cg.is_cut_vertex(0));
    assert!(!cg.is_cut_vertex(1));
}

#[test]
fn path_from_the_middle_flags_the_root_only() {
    // 1 - 0 - 2, searched from 0: the root has two children.
    let mut graph = UndirectedGraph::new(3, 4);
    graph.add_edge(0, 1);
    graph.add_edge(0, 2);
    let cg = ConnectivityUndirectedGraph::new(&graph);
    assert_eq!(cg.isAP, vec![true, false, false]);
    // All edges at the root share the component that the root drains.
    assert_eq!(cg.vcc, vec![1, 1]);
    assert_eq!(cg.num_vcc, 1);
    assert!(!cg.is_cut_vertex(0));
    assert_eq!(bridges(&graph, &cg), vec![0, 1]);
    assert_eq!(cg.cc, vec![3, 1, 2]);
}

#[test]
fn path_from_the_end_flags_the_middle() {
    // 0 - 1 - 2 - 3
    let mut graph = UndirectedGraph::new(4, 6);
    graph.add_edge(0, 1);
    graph.add_edge(1, 2);
    graph.add_edge(2, 3);
    let cg = ConnectivityUndirectedGraph::new(&graph);
    assert_eq!(cg.isAP, vec![false, true, true, false]);
    assert_eq!(cut_vertices(&graph, &cg), vec![1, 2]);
    assert_eq!(bridges(&graph, &cg), vec![0, 1, 2]);
    assert_eq!(cg.vcc, vec![3, 2, 1]);
    assert_eq!(cg.cc, vec![4, 3, 2, 1]);
}

#[test]
fn two_triangles_joined_at_a_vertex() {
    // 0-1-2-0 and 2-3-4-2
    let mut graph = UndirectedGraph::new(5, 12);
    graph.add_edge(0, 1);
    graph.add_edge(1, 2);
    graph.add_edge(2, 0);
    graph.add_edge(2, 3);
    graph.add_edge(3, 4);
    graph.add_edge(4, 2);
    let cg = ConnectivityUndirectedGraph::new(&graph);
    assert_eq!(cg.isAP, vec![false, false, true, false, false]);
    assert_eq!(cut_vertices(&graph, &cg), vec![2]);
    assert_eq!(bridges(&graph, &cg), Vec::<usize>::new());
    assert_eq!(cg.num_cc, 1);
    assert_eq!(cg.vcc, vec![2, 2, 2, 1, 1, 1]);
}

#[test]
fn two_components_are_searched_apart() {
    let mut graph = UndirectedGraph::new(5, 6);
    graph.add_edge(0, 1);
    graph.add_edge(3, 4);
    graph.add_edge(4, 2);
    let cg = ConnectivityUndirectedGraph::new(&graph);
    // Second tree: root 2, then 4, then 3.
    assert_eq!(cg.cc, vec![2, 1, 5, 3, 4]);
    assert_eq!(cg.vcc, vec![1, 2, 3]);
    assert_eq!(cg.isAP, vec![false, false, false, false, true]);
    assert_eq!(cut_vertices(&graph, &cg), vec![4]);
    assert_eq!(bridges(&graph, &cg), vec![0, 1, 2]);
}

#[test]
fn every_vertex_and_edge_gets_an_id() {
    let mut graph = UndirectedGraph::new(7, 20);
    let edges = [(0, 1), (1, 2), (2, 0), (2, 3), (3, 3), (3, 4), (4, 5), (5, 3), (6, 6), (1, 0)];
    for &(u, v) in edges.iter() {
        graph.add_edge(u, v);
    }
    let cg = ConnectivityUndirectedGraph::new(&graph);
    assert!(cg.cc.iter().all(|&c| 1 <= c && c <= cg.num_cc));
    assert!(cg.vcc.iter().all(|&c| 1 <= c && c <= cg.num_vcc));
    for c in 1..=cg.num_cc {
        assert!(cg.cc.contains(&c));
    }
    assert_eq!(bridges(&graph, &cg), vec![3]);
    assert_eq!(cg.isAP, vec![false, false, true, true, false, false, false]);
}

#[test]
fn decomposing_twice_gives_the_same_arrays() {
    let mut graph = UndirectedGraph::new(6, 14);
    let edges = [(0, 1), (1, 2), (2, 0), (2, 3), (3, 4), (4, 5), (5, 3)];
    for &(u, v) in edges.iter() {
        graph.add_edge(u, v);
    }
    let first = ConnectivityUndirectedGraph::new(&graph);
    let second = ConnectivityUndirectedGraph::new(&graph);
    assert_eq!(first.cc, second.cc);
    assert_eq!(first.vcc, second.vcc);
    assert_eq!(first.isAP, second.isAP);
    assert_eq!(first.num_cc, second.num_cc);
    assert_eq!(first.num_vcc, second.num_vcc);
}

#[test]
fn undirected_graph_lists_an_edge_at_both_ends() {
    let mut graph = UndirectedGraph::new(3, 4);
    graph.add_edge(0, 2);
    graph.add_edge(1, 1);
    assert_eq!(graph.num_v(), 3);
    assert_eq!(graph.num_e(), 2);
    assert_eq!(graph.edges, vec![(0, 2), (1, 1)]);
    assert_eq!(graph.adj_lists[0], vec![(0, 2)]);
    assert_eq!(graph.adj_lists[2], vec![(0, 0)]);
    assert_eq!(graph.adj_lists[1], vec![(1, 1)]);
}

#[test]
fn a_loop_alone_spans_one_component() {
    let mut graph = UndirectedGraph::new(1, 2);
    graph.add_edge(0, 0);
    let cg = ConnectivityUndirectedGraph::new(&graph);
    assert_eq!(cg.vcc, vec![1]);
    assert_eq!(cg.cc, vec![1]);
    assert!(!cg.is_cut_vertex(0));
    assert!(!cg.is_cut_edge(0));
    assert_eq!(cg.isAP, vec![false]);
}

#[test]
fn two_loops_span_two_components() {
    let mut graph = UndirectedGraph::new(1, 4);
    graph.add_edge(0, 0);
    graph.add_edge(0, 0);
    let cg = ConnectivityUndirectedGraph::new(&graph);
    assert_eq!(cg.vcc, vec![1, 2]);
    assert!(cg.is_cut_vertex(0));
    assert_eq!(cg.isAP, vec![false]);
}

#[test]
fn long_path_does_not_exhaust_the_call_stack() {
    let n = 200_000;
    let mut graph = UndirectedGraph::new(n, 2 * n);
    for u in 0..n - 1 {
        graph.add_edge(u, u + 1);
    }
    let cg = ConnectivityUndirectedGraph::new(&graph);
    assert_eq!(cg.num_cc, n);
    assert_eq!(cg.num_vcc, n - 1);
    assert!(!cg.isAP[0]);
    assert!(cg.isAP[1]);
    assert!(cg.isAP[n - 2]);
    assert!(!cg.isAP[n - 1]);
    assert!(cg.is_cut_edge(n / 2));
    assert!(cg.is_cut_vertex(n / 2));
}

#[test]
fn long_cycle_has_no_bridge() {
    let n = 200_000;
    let mut graph = UndirectedGraph::new(n, 2 * n);
    for u in 0..n {
        graph.add_edge(u, (u + 1) % n);
    }
    let cg = ConnectivityUndirectedGraph::new(&graph);
    assert_eq!(cg.num_cc, 1);
    assert_eq!(cg.num_vcc, 1);
    assert!(cg.isAP.iter().all(|&flag| !flag));
    assert!(!cg.is_cut_edge(0));
}
