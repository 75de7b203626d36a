use digraph::adj_list::Edge;
use digraph::graph::{contains_cycle, DiGraph};

fn edge_pairs(g: &DiGraph) -> Vec<(usize, usize)> {
    let mut out = Vec::new();
    let mut cur = g.edges();
    while let Some(Edge(a, b)) = cur.next() {
        out.push((a, b));
    }
    out
}

#[test]
fn size_equals_distinct_declared_nodes() {
    let g = DiGraph::from(&[5, 5, 6, 7, 7, 7], &[(5, 6)]);
    assert_eq!(3, g.size());
    let g = DiGraph::from(&[], &[]);
    assert_eq!(0, g.size());
    let g = DiGraph::from(&[9], &[]);
    assert_eq!(1, g.size());
}

#[test]
fn edges_round_trip_as_multiset() {
    let declared = [(1, 2), (3, 1), (2, 2), (3, 1)];
    let g = DiGraph::from(&[1, 2, 3], &declared);
    let mut got = edge_pairs(&g);
    got.sort();
    let mut expected = declared;
    expected.sort();
    assert_eq!(got, expected);
}

#[test]
fn no_edges_means_no_cycle() {
    let g = DiGraph::from(&[], &[]);
    assert_eq!(false, contains_cycle(&g));
    let g = DiGraph::from(&[42], &[]);
    assert_eq!(false, contains_cycle(&g));
    let nodes: Vec<usize> = (0..50).collect();
    let g = DiGraph::from(&nodes, &[]);
    assert_eq!(false, contains_cycle(&g));
}

#[test]
fn self_loop_is_a_cycle() {
    let g = DiGraph::from(&[1], &[(1, 1)]);
    assert_eq!(true, contains_cycle(&g));
    let g = DiGraph::from(&[1, 2, 3], &[(1, 2), (3, 3)]);
    assert_eq!(true, contains_cycle(&g));
}

#[test]
fn answer_is_invariant_under_edge_order() {
    let orders: [[(usize, usize); 3]; 3] = [
        [(1, 2), (2, 3), (3, 1)],
        [(3, 1), (1, 2), (2, 3)],
        [(2, 3), (3, 1), (1, 2)],
    ];
    for edges in orders.iter() {
        let g = DiGraph::from(&[1, 2, 3, 4], edges);
        assert_eq!(true, contains_cycle(&g));
    }
    let acyclic_orders: [[(usize, usize); 3]; 3] = [
        [(1, 4), (2, 3), (4, 2)],
        [(4, 2), (1, 4), (2, 3)],
        [(2, 3), (4, 2), (1, 4)],
    ];
    for edges in acyclic_orders.iter() {
        let g = DiGraph::from(&[1, 2, 3, 4], edges);
        assert_eq!(false, contains_cycle(&g));
    }
}

#[test]
fn cycle_in_one_of_two_components_is_found() {
    // component {1,2,3} is an acyclic chain; component {4,5,6} is a 3-cycle
    let g = DiGraph::from(
        &[1, 2, 3, 4, 5, 6],
        &[(1, 2), (2, 3), (4, 5), (5, 6), (6, 4)],
    );
    assert_eq!(true, contains_cycle(&g));
}

#[test]
fn single_edge_is_no_cycle() {
    let g = DiGraph::from(&[1, 2, 3, 4], &[(1, 2)]);
    assert_eq!(false, contains_cycle(&g));
}

#[test]
fn two_cycle_is_found() {
    let g = DiGraph::from(&[1, 2, 3, 4], &[(1, 2), (2, 1)]);
    assert_eq!(true, contains_cycle(&g));
}

#[test]
fn three_cycle_is_found() {
    let g = DiGraph::from(&[1, 2, 3, 4], &[(1, 2), (2, 3), (3, 1)]);
    assert_eq!(true, contains_cycle(&g));
}

#[test]
fn forward_and_cross_edges_are_no_cycle() {
    let g = DiGraph::from(&[1, 2, 3, 4], &[(1, 4), (2, 3), (4, 2)]);
    assert_eq!(false, contains_cycle(&g));
}

#[test]
fn diamond_is_no_cycle() {
    // two paths meet again at the same node: a forward edge, no cycle
    let g = DiGraph::from(&[1, 2, 3, 4], &[(1, 2), (1, 3), (2, 4), (3, 4)]);
    assert_eq!(false, contains_cycle(&g));
}

#[test]
fn large_graph_with_small_cycle() {
    let nodes: Vec<usize> = (1..10_000).collect();
    let mut edges = vec![(1, 2), (2, 300), (300, 401), (401, 502), (502, 1)];
    edges.append(
        &mut (1..10)
            .collect::<Vec<usize>>()
            .iter()
            .map(|&i| (i, 2 * i))
            .collect::<Vec<(usize, usize)>>(),
    );
    let g = DiGraph::from(&nodes, &edges);
    assert_eq!(true, contains_cycle(&g));
}

#[test]
fn large_acyclic_chain() {
    let nodes: Vec<usize> = (0..10_000).collect();
    let edges: Vec<(usize, usize)> = (0..9_999).map(|i| (i, i + 1)).collect();
    let g = DiGraph::from(&nodes, &edges);
    assert_eq!(false, contains_cycle(&g));
}
