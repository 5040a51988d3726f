use majin::{connection_ports, draw_ascii, stroke, symbol, trace, Graph, Link, Op, Stroke};

#[test]
fn test_trace_single_node() {
    let mut g = Graph::new();
    let root = g.leaf(0, "root");
    let (nodes, edges) = trace(&g, root);

    assert_eq!(nodes.len(), 1);
    assert_eq!(nodes[0], root);
    assert!(edges.is_empty());
}

#[test]
fn test_trace_single_node_f32() {
    let mut g = Graph::new();
    let root = g.leaf(0, "root");
    let (nodes, edges) = trace(&g, root);

    assert_eq!(nodes.len(), 1);
    // the root comes first
    assert_eq!(nodes[0], root);
    assert!(edges.is_empty());
}

#[test]
fn test_trace_multiple_nodes_f32() {
    let mut g = Graph::new();
    let leaf1 = g.leaf(2, "leaf1");
    let leaf2 = g.leaf(3, "leaf2");
    let root = g.add(leaf1, leaf2);

    let (nodes, edges) = trace(&g, root);

    assert_eq!(nodes.len(), 3);
    assert!(nodes.iter().any(|&node| node == root));
    assert!(nodes.iter().any(|&node| node == leaf1));
    assert!(nodes.iter().any(|&node| node == leaf2));

    assert_eq!(edges.len(), 2);
    assert!(edges.iter().any(|&(n1, n2)| n1 == leaf1 && n2 == root));
    assert!(edges.iter().any(|&(n1, n2)| n1 == leaf2 && n2 == root));
}

#[test]
fn test_trace_multiple_nodes() {
    let mut g = Graph::new();
    let leaf1 = g.leaf(2, "leaf1");
    let leaf2 = g.leaf(3, "leaf2");
    let root = g.add(leaf1, leaf2);

    let (nodes, edges) = trace(&g, root);

    assert_eq!(nodes.len(), 3);
    assert!(nodes.iter().any(|&node| node == root));
    assert!(nodes.iter().any(|&node| node == leaf1));
    assert!(nodes.iter().any(|&node| node == leaf2));

    assert_eq!(edges.len(), 2);
    assert!(edges.iter().any(|&(n1, n2)| n1 == leaf1 && n2 == root));
    assert!(edges.iter().any(|&(n1, n2)| n1 == leaf2 && n2 == root));
}

#[test]
fn test_trace_deep_tree() {
    let mut g = Graph::new();
    let leaf1 = g.leaf(2, "leaf1");
    let leaf2 = g.leaf(3, "leaf2");
    let leaf3 = g.leaf(4, "leaf3");
    let leaf4 = g.leaf(5, "leaf4");
    // 25 = (2 + 3) * 4 + 5
    let sum = g.add(leaf1, leaf2);
    let product = g.mul(sum, leaf3);
    let root = g.add(product, leaf4);

    let (nodes, edges) = trace(&g, root);

    assert_eq!(nodes.len(), 7);

    let prev = |id: usize| g.unit(id).prev.clone();
    assert!(nodes.iter().any(|&node| node == root));
    assert_eq!(g.unit(root).value, 25);

    assert!(nodes.iter().any(|&node| node == prev(root)[0]));
    assert_eq!(g.unit(prev(root)[0]).value, 20);

    assert!(nodes.iter().any(|&node| node == prev(root)[1]));
    assert_eq!(g.unit(prev(root)[1]).value, 5);

    assert!(nodes.iter().any(|&node| node == prev(prev(root)[0])[0]));
    assert_eq!(g.unit(prev(prev(root)[0])[0]).value, 5);

    assert!(nodes.iter().any(|&node| node == prev(prev(root)[0])[1]));
    assert_eq!(g.unit(prev(prev(root)[0])[1]).value, 4);

    assert!(nodes.iter().any(|&node| node == prev(prev(prev(root)[0])[0])[0]));
    assert_eq!(g.unit(prev(prev(prev(root)[0])[0])[0]).value, 2);

    assert!(nodes.iter().any(|&node| node == prev(prev(prev(root)[0])[0])[1]));
    assert_eq!(g.unit(prev(prev(prev(root)[0])[0])[1]).value, 3);

    assert_eq!(edges.len(), 6);
    assert!(edges.iter().any(|&(n1, n2)| n1 == prev(root)[0] && n2 == root));
    assert!(edges.iter().any(|&(n1, n2)| n1 == prev(root)[1] && n2 == root));
    assert!(edges.iter().any(|&(n1, n2)| n1 == prev(prev(root)[0])[0] && n2 == prev(root)[0]));
    assert!(edges.iter().any(|&(n1, n2)| n1 == prev(prev(root)[0])[1] && n2 == prev(root)[0]));
    assert!(edges
        .iter()
        .any(|&(n1, n2)| n1 == prev(prev(prev(root)[0])[0])[0] && n2 == prev(prev(root)[0])[0]));
    assert!(edges
        .iter()
        .any(|&(n1, n2)| n1 == prev(prev(prev(root)[0])[0])[1] && n2 == prev(prev(root)[0])[0]));
}

#[test]
fn trace_keeps_equal_valued_leaves_apart() {
    let mut g = Graph::new();
    let x = g.leaf(2, "x");
    let y = g.leaf(2, "y");
    let r = g.add(x, y);
    let (nodes, edges) = trace(&g, r);
    assert_eq!(nodes, vec![r, y, x]);
    assert_eq!(edges, vec![(x, r), (y, r)]);
}

#[test]
fn trace_of_diamond_has_four_nodes_and_four_edges() {
    let mut g = Graph::new();
    let a = g.leaf(3, "a");
    let b = g.mul(a, a);
    let c = g.add(a, a);
    let d = g.add(b, c);
    let (nodes, edges) = trace(&g, d);
    assert_eq!(nodes, vec![d, c, b, a]);
    assert_eq!(edges.len(), 4);
    assert_eq!(edges, vec![(b, d), (c, d), (a, c), (a, b)]);
}

#[test]
fn trace_skips_nodes_the_root_does_not_reach() {
    let mut g = Graph::new();
    let x = g.leaf(1, "x");
    let y = g.leaf(2, "y");
    let _unused = g.mul(x, y);
    let r = g.add(y, y);
    let (nodes, edges) = trace(&g, r);
    assert_eq!(nodes, vec![r, y]);
    assert_eq!(edges, vec![(y, r)]);
}

#[test]
fn ascii_dump_lists_nodes_then_edges() {
    let mut g = Graph::new();
    let a = g.leaf(12, "a");
    let b = g.leaf(-305, "b");
    let r = g.mul(a, b);
    let text = draw_ascii(&g, r);
    assert_eq!(
        text,
        "Node 2: Value: -3660\nNode 1: Value: -305\nNode 0: Value: 12\n\nEdges:\n0 -> 2\n1 -> 2\n"
    );
}

#[test]
fn ascii_dump_of_extreme_values() {
    let mut g = Graph::new();
    let a = g.leaf(i64::MIN, "a");
    let text = draw_ascii(&g, a);
    assert_eq!(text, "Node 0: Value: -9223372036854775808\n\nEdges:\n");
    let mut h = Graph::new();
    let z = h.leaf(0, "z");
    let m = h.leaf(i64::MAX, "m");
    let s = h.add(z, m);
    assert_eq!(
        draw_ascii(&h, s),
        "Node 2: Value: 9223372036854775807\nNode 1: Value: 9223372036854775807\nNode 0: Value: 0\n\nEdges:\n0 -> 2\n1 -> 2\n"
    );
}

#[test]
fn connection_ports_count_earlier_ends() {
    let mut g = Graph::new();
    let a = g.leaf(3, "a");
    let b = g.mul(a, a);
    let c = g.add(a, a);
    let d = g.add(b, c);
    let (nodes, edges) = trace(&g, d);
    let links = connection_ports(&nodes, &edges).unwrap();
    // nodes: [d, c, b, a]; edges: (b, d), (c, d), (a, c), (a, b)
    assert_eq!(
        links,
        vec![
            Link { from: 2, from_port: 0, to: 0, to_port: 0 },
            Link { from: 1, from_port: 0, to: 0, to_port: 1 },
            Link { from: 3, from_port: 0, to: 1, to_port: 1 },
            Link { from: 3, from_port: 1, to: 2, to_port: 1 },
        ]
    );
}

#[test]
fn connection_ports_reject_missing_ends() {
    assert_eq!(connection_ports(&vec![0, 1], &vec![(0, 1), (2, 1)]), None);
    assert_eq!(connection_ports(&vec![0, 1], &vec![(1, 5)]), None);
    assert_eq!(connection_ports(&vec![], &vec![]), Some(vec![]));
}

#[test]
fn strokes_and_symbols_follow_the_operation() {
    assert_eq!(stroke(Some(Op::Add('+'))), Stroke::Thick);
    assert_eq!(stroke(Some(Op::Mul('*'))), Stroke::Double);
    assert_eq!(stroke(Some(Op::Tanh('t'))), Stroke::Plain);
    assert_eq!(stroke(None), Stroke::Plain);
    assert_eq!(symbol(Some(Op::Add('+'))), "+");
    assert_eq!(symbol(Some(Op::Mul('*'))), "*");
    assert_eq!(symbol(None), "?");
}
