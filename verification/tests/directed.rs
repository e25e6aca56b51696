use graph_connectivity::directed::ConnectivityDirectedGraph;
use graph_connectivity::graph::DirectedGraph;
use graph_connectivity::traversal::ConnectivityData;

#[test]
fn test_toposort() {
    let mut graph = DirectedGraph::new(4, 5);
    graph.add_edge(0, 0);
    graph.add_edge(0, 2);
    graph.add_edge(3, 2);
    graph.add_edge(3, 1);
    graph.add_edge(1, 0);

    assert_eq!(
        ConnectivityDirectedGraph::new(&graph).topological_sort(),
        vec![3, 1, 0, 2]
    );
}

#[test]
fn test_two_sat() {
    let mut graph = DirectedGraph::new(6, 8);
    let (x, y, z) = (0, 2, 4);

    graph.add_two_sat_clause(x, z);
    graph.add_two_sat_clause(y ^ 1, z ^ 1);
    graph.add_two_sat_clause(y, y);
    assert_eq!(
        ConnectivityDirectedGraph::new(&graph).two_sat_assign(),
        Some(vec![true, true, false])
    );

    graph.add_two_sat_clause(z, z);
    assert_eq!(
        ConnectivityDirectedGraph::new(&graph).two_sat_assign(),
        None
    );
}

#[test]
fn toposort_scenario_component_ids() {
    let mut graph = DirectedGraph::new(4, 5);
    graph.add_edge(0, 0);
    graph.add_edge(0, 2);
    graph.add_edge(3, 2);
    graph.add_edge(3, 1);
    graph.add_edge(1, 0);
    let cg = ConnectivityDirectedGraph::new(&graph);
    assert_eq!(cg.cc, vec![2, 3, 1, 4]);
    assert_eq!(cg.num_cc, 4);
    assert_eq!(cg.vcc, vec![0, 0, 0, 0, 0]);
    assert_eq!(cg.num_vcc, 0);
}

#[test]
fn edges_of_a_dag_go_forward_in_the_order() {
    let mut graph = DirectedGraph::new(6, 8);
    let edges = [(5, 2), (5, 0), (4, 0), (4, 1), (2, 3), (3, 1), (5, 2)];
    for &(u, v) in edges.iter() {
        graph.add_edge(u, v);
    }
    let order = ConnectivityDirectedGraph::new(&graph).topological_sort();
    assert_eq!(order, vec![5, 4, 2, 3, 1, 0]);
    let mut position = vec![0; 6];
    for (i, &v) in order.iter().enumerate() {
        position[v] = i;
    }
    for &(u, v) in edges.iter() {
        assert!(position[u] < position[v]);
    }
}

#[test]
fn cycle_is_one_component_in_vertex_order() {
    let mut graph = DirectedGraph::new(5, 6);
    graph.add_edge(0, 1);
    graph.add_edge(1, 2);
    graph.add_edge(2, 0);
    graph.add_edge(2, 3);
    graph.add_edge(4, 3);
    let cg = ConnectivityDirectedGraph::new(&graph);
    assert_eq!(cg.cc, vec![2, 2, 2, 1, 3]);
    assert_eq!(cg.num_cc, 3);
    // Falling component id, and rising vertex number within a component.
    assert_eq!(cg.topological_sort(), vec![4, 0, 1, 2, 3]);
}

#[test]
fn parallel_edges_and_loops_change_nothing() {
    let mut plain = DirectedGraph::new(3, 2);
    plain.add_edge(0, 1);
    plain.add_edge(1, 2);
    let mut decorated = DirectedGraph::new(3, 6);
    decorated.add_edge(0, 1);
    decorated.add_edge(0, 1);
    decorated.add_edge(1, 1);
    decorated.add_edge(1, 2);
    decorated.add_edge(1, 2);
    let a = ConnectivityDirectedGraph::new(&plain);
    let b = ConnectivityDirectedGraph::new(&decorated);
    assert_eq!(a.cc, vec![3, 2, 1]);
    assert_eq!(a.cc, b.cc);
    assert_eq!(a.num_cc, b.num_cc);
}

#[test]
fn every_vertex_gets_a_component_id() {
    let mut graph = DirectedGraph::new(8, 12);
    let edges = [(0, 1), (1, 2), (2, 0), (3, 4), (4, 5), (5, 3), (2, 3), (6, 6), (6, 7), (7, 6)];
    for &(u, v) in edges.iter() {
        graph.add_edge(u, v);
    }
    let cg = ConnectivityDirectedGraph::new(&graph);
    assert!(cg.cc.iter().all(|&c| 1 <= c && c <= cg.num_cc));
    for c in 1..=cg.num_cc {
        assert!(cg.cc.contains(&c));
    }
    assert_eq!(cg.num_cc, 3);
    // No edge leads from a smaller id to a larger one.
    for &(u, v) in edges.iter() {
        assert!(cg.cc[u] >= cg.cc[v]);
    }
    assert_eq!(cg.cc, vec![2, 2, 2, 1, 1, 1, 3, 3]);
}

#[test]
fn decomposing_twice_gives_the_same_ids() {
    let mut graph = DirectedGraph::new(5, 6);
    let edges = [(0, 1), (1, 2), (2, 0), (2, 3), (4, 3), (3, 4)];
    for &(u, v) in edges.iter() {
        graph.add_edge(u, v);
    }
    let first = ConnectivityDirectedGraph::new(&graph);
    let second = ConnectivityDirectedGraph::new(&graph);
    assert_eq!(first.cc, second.cc);
    assert_eq!(first.num_cc, second.num_cc);
    assert_eq!(first.topological_sort(), second.topological_sort());
}

#[test]
fn empty_directed_graph() {
    let graph = DirectedGraph::new(0, 0);
    let cg = ConnectivityDirectedGraph::new(&graph);
    assert_eq!(cg.num_cc, 0);
    assert_eq!(cg.topological_sort(), Vec::<usize>::new());
    assert_eq!(cg.two_sat_assign(), Some(Vec::<bool>::new()));
}

#[test]
fn two_sat_unit_clauses() {
    // x0 must hold, x1 must not.
    let mut graph = DirectedGraph::new(4, 4);
    graph.add_two_sat_clause(0, 0);
    graph.add_two_sat_clause(3, 3);
    assert_eq!(
        ConnectivityDirectedGraph::new(&graph).two_sat_assign(),
        Some(vec![true, false])
    );
    // x0 and not x0 cannot both be forced.
    graph.add_two_sat_clause(1, 1);
    assert_eq!(ConnectivityDirectedGraph::new(&graph).two_sat_assign(), None);
}

#[test]
fn two_sat_assignment_satisfies_the_clauses() {
    let clauses = [(0, 3), (2, 5), (1, 4), (6, 1), (7, 2), (4, 7)];
    let mut graph = DirectedGraph::new(8, 12);
    for &(a, b) in clauses.iter() {
        graph.add_two_sat_clause(a, b);
    }
    let assign = ConnectivityDirectedGraph::new(&graph)
        .two_sat_assign()
        .unwrap();
    assert_eq!(assign.len(), 4);
    let value = |lit: usize| if lit % 2 == 0 { assign[lit / 2] } else { !assign[lit / 2] };
    for &(a, b) in clauses.iter() {
        assert!(value(a) || value(b));
    }
}

#[test]
fn two_sat_clause_adds_both_implications() {
    let mut graph = DirectedGraph::new(4, 2);
    graph.add_two_sat_clause(0, 3);
    assert_eq!(graph.num_e(), 2);
    assert_eq!(graph.edges, vec![(1, 3), (2, 0)]);
    assert_eq!(graph.adj_lists[1], vec![(0, 3)]);
    assert_eq!(graph.adj_lists[2], vec![(1, 0)]);
}

#[test]
fn directed_graph_lists_an_edge_at_its_tail() {
    let mut graph = DirectedGraph::new(3, 3);
    graph.add_edge(2, 0);
    graph.add_edge(2, 2);
    assert_eq!(graph.num_v(), 3);
    assert_eq!(graph.num_e(), 2);
    assert_eq!(graph.adj_lists[2], vec![(0, 0), (1, 2)]);
    assert!(graph.adj_lists[0].is_empty());
}

#[test]
fn visit_stamps_and_lower_only_lowers() {
    let mut data = ConnectivityData::new(3);
    assert_eq!(data.time, 0);
    assert_eq!(data.visited, vec![0, 0, 0]);
    data.visit(2);
    data.visit(0);
    assert_eq!(data.time, 2);
    assert_eq!(data.visited, vec![2, 0, 1]);
    assert_eq!(data.low, vec![2, 0, 1]);
    assert_eq!(data.v_stack, vec![2, 0]);
    assert!(data.e_stack.is_empty());
    data.lower(0, 1);
    assert_eq!(data.low, vec![1, 0, 1]);
    data.lower(0, 5);
    assert_eq!(data.low, vec![1, 0, 1]);
}

#[test]
fn long_chain_does_not_exhaust_the_call_stack() {
    let n = 200_000;
    let mut graph = DirectedGraph::new(n, n);
    for u in 0..n - 1 {
        graph.add_edge(u, u + 1);
    }
    let cg = ConnectivityDirectedGraph::new(&graph);
    assert_eq!(cg.num_cc, n);
    assert_eq!(cg.cc[0], n);
    assert_eq!(cg.cc[n - 1], 1);
    let order = cg.topological_sort();
    assert_eq!(order[0], 0);
    assert_eq!(order[n - 1], n - 1);
}

#[test]
fn long_cycle_is_one_component() {
    let n = 200_000;
    let mut graph = DirectedGraph::new(n, n);
    for u in 0..n {
        graph.add_edge(u, (u + 1) % n);
    }
    let cg = ConnectivityDirectedGraph::new(&graph);
    assert_eq!(cg.num_cc, 1);
    assert!(cg.cc.iter().all(|&c| c == 1));
}
