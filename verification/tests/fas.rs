use cargo_crate_split::fas::{min_fas_order, NodeId, WeightedEdge};

fn position(order: &[NodeId], v: NodeId) -> usize {
    order.iter().position(|&x| x == v).unwrap()
}

/// Back-edges under an order: edges u->v where v precedes u.
fn back_edges(order: &[NodeId], edges: &[WeightedEdge]) -> Vec<WeightedEdge> {
    edges
        .iter()
        .copied()
        .filter(|e| e.from != e.to)
        .filter(|e| position(order, e.to) < position(order, e.from))
        .collect()
}

#[test]
fn dag_has_no_back_edges() {
    let nodes = vec![0, 1, 2];
    let edges = vec![
        WeightedEdge { from: 0, to: 1, weight: 5 },
        WeightedEdge { from: 1, to: 2, weight: 5 },
        WeightedEdge { from: 0, to: 2, weight: 5 },
    ];
    let order = min_fas_order(&nodes, &edges);
    let be = back_edges(&order, &edges);
    assert!(be.is_empty(), "DAG must have no back-edges, got {be:?}");
    assert!(position(&order, 0) < position(&order, 1));
    assert!(position(&order, 1) < position(&order, 2));
}

#[test]
fn two_node_cycle_cuts_lighter_edge() {
    let nodes = vec![0, 1];
    let edges = vec![
        WeightedEdge { from: 0, to: 1, weight: 10 },
        WeightedEdge { from: 1, to: 0, weight: 2 },
    ];
    let order = min_fas_order(&nodes, &edges);
    let be = back_edges(&order, &edges);
    assert_eq!(be.len(), 1, "exactly one back-edge in a 2-cycle");
    assert_eq!(be[0].from, 1, "must cut y->x (the lighter, weight 2)");
    assert_eq!(be[0].to, 0);
    assert_eq!(be[0].weight, 2);
}

#[test]
fn two_node_cycle_symmetric_other_direction() {
    let nodes = vec![0, 1];
    let edges = vec![
        WeightedEdge { from: 0, to: 1, weight: 2 },
        WeightedEdge { from: 1, to: 0, weight: 10 },
    ];
    let order = min_fas_order(&nodes, &edges);
    let be = back_edges(&order, &edges);
    assert_eq!(be.len(), 1);
    assert_eq!(be[0].from, 0, "must cut x->y (the lighter, weight 2)");
    assert_eq!(be[0].weight, 2);
}

#[test]
fn three_node_cycle_cuts_one_light_edge() {
    let nodes = vec![0, 1, 2];
    let edges = vec![
        WeightedEdge { from: 0, to: 1, weight: 20 },
        WeightedEdge { from: 1, to: 2, weight: 20 },
        WeightedEdge { from: 2, to: 0, weight: 1 },
    ];
    let order = min_fas_order(&nodes, &edges);
    let be = back_edges(&order, &edges);
    assert_eq!(be.len(), 1, "one back-edge breaks the 3-cycle, got {be:?}");
    assert_eq!(be[0].from, 2);
    assert_eq!(be[0].to, 0);
    assert_eq!(be[0].weight, 1);
}

#[test]
fn three_node_cycle_total_cut_weight_is_minimal() {
    let nodes = vec![0, 1, 2];
    let edges = vec![
        WeightedEdge { from: 0, to: 1, weight: 50 },
        WeightedEdge { from: 1, to: 2, weight: 40 },
        WeightedEdge { from: 2, to: 1, weight: 3 },
        WeightedEdge { from: 1, to: 0, weight: 2 },
    ];
    let order = min_fas_order(&nodes, &edges);
    let be = back_edges(&order, &edges);
    let cut: u64 = be.iter().map(|e| e.weight).sum();
    assert_eq!(cut, 5, "should cut only the light minority edges; got {be:?}");
}

#[test]
fn order_is_permutation_of_nodes() {
    let nodes = vec![7, 3, 9, 1];
    let edges = vec![
        WeightedEdge { from: 7, to: 3, weight: 1 },
        WeightedEdge { from: 3, to: 9, weight: 1 },
        WeightedEdge { from: 9, to: 7, weight: 1 },
    ];
    let mut order = min_fas_order(&nodes, &edges);
    order.sort();
    let mut expected = nodes.clone();
    expected.sort();
    assert_eq!(order, expected);
}

#[test]
fn empty_and_self_loop_inputs() {
    assert!(min_fas_order(&[], &[]).is_empty());
    let order = min_fas_order(&[4], &[WeightedEdge { from: 4, to: 4, weight: 9 }]);
    assert_eq!(order, vec![4]);
}

#[test]
fn heavy_acyclic_chain_keeps_forward_order() {
    // Law: without a cycle of positive-weight edges no such edge points back.
    let nodes = vec![3, 1, 2, 0];
    let edges = vec![
        WeightedEdge { from: 0, to: 1, weight: 1 },
        WeightedEdge { from: 1, to: 2, weight: 1 },
        WeightedEdge { from: 2, to: 3, weight: 1 },
        WeightedEdge { from: 3, to: 0, weight: 0 },
    ];
    let order = min_fas_order(&nodes, &edges);
    assert!(position(&order, 0) < position(&order, 1));
    assert!(position(&order, 1) < position(&order, 2));
    assert!(position(&order, 2) < position(&order, 3));
}

#[test]
fn uncounted_edges_leave_the_order_unchanged() {
    // Law: self-loops and edges leaving the listed vertices are ignored, even
    // when their weights would not fit the counters together.
    let nodes = vec![0, 1, 2];
    let edges = vec![
        WeightedEdge { from: 0, to: 1, weight: 20 },
        WeightedEdge { from: 1, to: 2, weight: 20 },
        WeightedEdge { from: 2, to: 0, weight: 1 },
    ];
    let mut noisy = edges.clone();
    noisy.insert(1, WeightedEdge { from: 1, to: 1, weight: u64::MAX });
    noisy.push(WeightedEdge { from: 7, to: 0, weight: u64::MAX });
    noisy.insert(0, WeightedEdge { from: 2, to: 9, weight: 5 });
    assert_eq!(min_fas_order(&nodes, &edges), vec![0, 1, 2]);
    assert_eq!(min_fas_order(&nodes, &noisy), vec![0, 1, 2]);
}

#[test]
fn greedy_pick_takes_the_first_largest_delta() {
    // No sink or source: every vertex has delta 0, so the first listed one
    // is taken; the rest then peel as a chain.
    let nodes = vec![2, 0, 1];
    let edges = vec![
        WeightedEdge { from: 0, to: 1, weight: 3 },
        WeightedEdge { from: 1, to: 2, weight: 3 },
        WeightedEdge { from: 2, to: 0, weight: 3 },
    ];
    assert_eq!(min_fas_order(&nodes, &edges), vec![2, 0, 1]);
}
