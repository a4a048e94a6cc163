use dot_delta::{compute_delta, parse_graph};

fn s(a: &str) -> String {
    a.to_string()
}

#[test]
fn scenario_added_node_and_edge() {
    let g1 = parse_graph("digraph { a -> b; }").unwrap();
    let g2 = parse_graph("digraph { a -> b; b -> c; }").unwrap();
    let d = compute_delta(&g1, &g2);
    assert_eq!(d.added_nodes, vec![s("c")]);
    assert!(d.removed_nodes.is_empty());
    assert_eq!(d.added_edges, vec![(s("b"), s("c"))]);
    assert!(d.removed_edges.is_empty());
}

#[test]
fn delta_with_itself_is_empty() {
    let g = parse_graph("digraph { a -> b -> c; d; a -> b }").unwrap();
    let d = compute_delta(&g, &g);
    assert!(d.added_nodes.is_empty());
    assert!(d.removed_nodes.is_empty());
    assert!(d.added_edges.is_empty());
    assert!(d.removed_edges.is_empty());
}

#[test]
fn swapping_graphs_swaps_added_and_removed() {
    let g1 = parse_graph("digraph { a -> b; x -> y }").unwrap();
    let g2 = parse_graph("digraph { b -> c; x -> y; z }").unwrap();
    let d12 = compute_delta(&g1, &g2);
    let d21 = compute_delta(&g2, &g1);
    assert_eq!(d12.added_nodes, d21.removed_nodes);
    assert_eq!(d12.removed_nodes, d21.added_nodes);
    assert_eq!(d12.added_edges, d21.removed_edges);
    assert_eq!(d12.removed_edges, d21.added_edges);
    assert_eq!(d12.added_nodes, vec![s("c"), s("z")]);
    assert_eq!(d12.removed_nodes, vec![s("a")]);
    assert_eq!(d12.added_edges, vec![(s("b"), s("c"))]);
    assert_eq!(d12.removed_edges, vec![(s("a"), s("b"))]);
}

#[test]
fn labels_do_not_make_edges_differ() {
    let g1 = parse_graph("digraph { a -> b [label=one] }").unwrap();
    let g2 = parse_graph("digraph { a -> b [label=two] }").unwrap();
    let d = compute_delta(&g1, &g2);
    assert!(d.added_edges.is_empty());
    assert!(d.removed_edges.is_empty());
}

#[test]
fn parallel_edges_appear_once() {
    let g1 = parse_graph("digraph { }").unwrap();
    let g2 = parse_graph("digraph { a -> b; a -> b; b -> a }").unwrap();
    let d = compute_delta(&g1, &g2);
    assert_eq!(d.added_edges, vec![(s("a"), s("b")), (s("b"), s("a"))]);
    assert_eq!(d.added_nodes, vec![s("a"), s("b")]);
    assert!(d.removed_nodes.is_empty());
}

#[test]
fn everything_removed() {
    let g1 = parse_graph("graph { p -- q }").unwrap();
    let g2 = parse_graph("graph { }").unwrap();
    let d = compute_delta(&g1, &g2);
    assert_eq!(d.removed_nodes, vec![s("p"), s("q")]);
    assert_eq!(d.removed_edges, vec![(s("p"), s("q"))]);
    assert!(d.added_nodes.is_empty());
    assert!(d.added_edges.is_empty());
}
