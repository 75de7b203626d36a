use digraph::graph::{contains_cycle, DiGraph};

fn count_nodes(g: &DiGraph) -> usize {
    let mut count = 0;
    let mut cur = g.nodes();
    while let Some(_) = cur.next() {
        count += 1;
    }
    count
}

fn count_edges(g: &DiGraph) -> usize {
    let mut count = 0;
    let mut cur = g.edges();
    while let Some(_) = cur.next() {
        count += 1;
    }
    count
}

#[test]
fn nodes_edges_test() {
    let di_graph = DiGraph::from(&[1, 2, 3, 4], &[(1, 2), (2, 3), (3, 1)]);
    assert_eq!(4, count_nodes(&di_graph));
    assert_eq!(3, count_edges(&di_graph));
    let di_graph: DiGraph = DiGraph::new();
    assert_eq!(0, count_nodes(&di_graph));
    assert_eq!(0, count_edges(&di_graph));
}

#[test]
fn size() {
    let di_graph = DiGraph::from(&[1, 2, 3, 4], &[(1, 2), (2, 3), (3, 1)]);
    assert_eq!(4, di_graph.size());
}

#[test]
fn detect_cycle() {
    let di_graph = DiGraph::from(&[1, 2, 3, 4], &[(1, 2)]);
    assert_eq!(false, contains_cycle(&di_graph));
    let di_graph = DiGraph::from(&[1, 2, 3, 4], &[(1, 2), (2, 1)]);
    assert_eq!(true, contains_cycle(&di_graph));
    let di_graph = DiGraph::from(&[1, 2, 3, 4], &[]);
    assert_eq!(false, contains_cycle(&di_graph));
    let di_graph = DiGraph::from(&[1, 2, 3, 4], &[(1, 2), (2, 3), (3, 1)]);
    assert_eq!(true, contains_cycle(&di_graph));
    let di_graph = DiGraph::from(&[1, 2, 3, 4], &[(1, 4), (2, 3), (4, 1)]);
    assert_eq!(true, contains_cycle(&di_graph));
    let di_graph = DiGraph::from(&[1, 2, 3, 4], &[(1, 4), (2, 3), (4, 2)]);
    assert_eq!(false, contains_cycle(&di_graph));
    let nodes: Vec<usize> = (1..1_000).collect();
    let mut edges = vec![(1, 2), (2, 300), (300, 401), (401, 502), (502, 1)];
    edges.append(
        &mut (1..10)
            .collect::<Vec<usize>>()
            .iter()
            .map(|&i| (i, 2 * i))
            .collect::<Vec<(usize, usize)>>(),
    );
    let di_graph: DiGraph = DiGraph::from(&nodes, &edges);
    assert_eq!(true, contains_cycle(&di_graph));
}
