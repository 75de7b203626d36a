use digraph::adj_list::{AdjList, Edge};

fn collect_nodes(list: &AdjList) -> Vec<usize> {
    let mut out = Vec::new();
    let mut cur = list.nodes();
    while let Some(n) = cur.next() {
        out.push(n);
    }
    out
}

fn collect_edges(list: &AdjList) -> Vec<(usize, usize)> {
    let mut out = Vec::new();
    let mut cur = list.edges();
    while let Some(Edge(a, b)) = cur.next() {
        out.push((a, b));
    }
    out
}

#[test]
fn it_works_from_empty() {
    let list: AdjList = AdjList::new();
    assert_eq!(collect_nodes(&list).len(), 0);
    let nodes = collect_nodes(&list);
    assert_eq!(nodes.len(), 0);
    let edges = collect_edges(&list);
    assert_eq!(edges.len(), 0);
}

#[test]
fn nodes_test() {
    let list: AdjList = AdjList::new();
    assert_eq!(collect_nodes(&list).len(), 0);
    let list = AdjList::from(&[1, 2, 3, 4], &[(1, 2), (2, 3), (3, 1), (4, 2)]);
    let mut nodes = collect_nodes(&list);
    nodes.sort();
    assert_eq!(4, nodes.len());
    for n in 0..4 {
        assert_eq!(n + 1, nodes[n]);
    }
}

#[test]
fn edges_test() {
    let mut edges = [(1, 2), (2, 3), (3, 1), (4, 2)];
    let list = AdjList::from(&[1, 2, 3, 4], &edges);
    edges.sort();
    let mut edges_from_list = collect_edges(&list);
    edges_from_list.sort();
    assert_eq!(edges_from_list, edges);
}

#[test]
fn edge_pairs_compare_by_fields() {
    let list = AdjList::from(&[7, 8], &[(7, 8)]);
    let edges = collect_edges(&list);
    assert_eq!(edges, [(7, 8)]);
    let mut cur = list.edges();
    assert_eq!(cur.next(), Some(Edge(7, 8)));
    assert_eq!(cur.next(), None);
}

#[test]
fn edges_skip_empty_successor_lists() {
    // only the middle node has successors; the cursor must skip the others
    let list = AdjList::from(&[10, 20, 30], &[(20, 10), (20, 30)]);
    let edges = collect_edges(&list);
    assert_eq!(edges, [(20, 10), (20, 30)]);
}

#[test]
fn cursors_restart_from_the_beginning() {
    let list = AdjList::from(&[1, 2, 3], &[(1, 2), (2, 3)]);
    let first = collect_nodes(&list);
    let second = collect_nodes(&list);
    assert_eq!(first, second);
    let e1 = collect_edges(&list);
    let e2 = collect_edges(&list);
    assert_eq!(e1, e2);
}

#[test]
fn size_counts_distinct_nodes_only() {
    let list = AdjList::from(&[1, 1, 2, 2, 3], &[(1, 2)]);
    assert_eq!(3, list.size());
    assert_eq!(3, collect_nodes(&list).len());
}

#[test]
fn duplicate_edges_kept_as_multiset() {
    let list = AdjList::from(&[1, 2], &[(1, 2), (1, 2)]);
    let edges = collect_edges(&list);
    assert_eq!(edges, [(1, 2), (1, 2)]);
}
