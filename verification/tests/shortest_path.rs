use dispatch_graph::graph::{Edge, Graph, Node};

fn edge(a: i32, b: i32, w: i32) -> Edge {
    Edge { node_a_id: a, node_b_id: b, weight: w }
}

fn node(id: i32, x: i32, y: i32) -> Node {
    Node { id, x, y }
}

#[test]
fn scenario_two_hops() {
    let mut g = Graph::new();
    g.add_node(node(1, 0, 0));
    g.add_node(node(2, 1, 0));
    g.add_node(node(3, 2, 0));
    g.add_edge(edge(1, 2, 5));
    g.add_edge(edge(2, 3, 3));
    assert_eq!(g.shortest_path(1, 3), 8);
    assert_eq!(g.shortest_path(3, 1), 8);
    assert_eq!(g.shortest_path(1, 1), 0);
}

#[test]
fn scenario_prefers_cheaper_detour() {
    let mut g = Graph::new();
    g.add_node(node(1, 0, 0));
    g.add_node(node(2, 5, 0));
    g.add_node(node(3, 2, 2));
    g.add_node(node(4, 9, 9));
    g.add_edge(edge(1, 2, 10));
    g.add_edge(edge(1, 3, 1));
    g.add_edge(edge(3, 2, 1));
    assert_eq!(g.shortest_path(1, 2), 2);
}

#[test]
fn scenario_isolated_node_unreachable() {
    let mut g = Graph::new();
    g.add_node(node(1, 0, 0));
    assert_eq!(g.shortest_path(1, 2), i32::MAX);
}

#[test]
fn self_distance_zero_even_for_uninserted_id() {
    let g = Graph::new();
    assert_eq!(g.shortest_path(42, 42), 0);
}

#[test]
fn symmetry_on_store_built_by_add_edge() {
    let mut g = Graph::new();
    g.add_edge(edge(1, 2, 4));
    g.add_edge(edge(2, 3, 6));
    g.add_edge(edge(3, 4, 1));
    g.add_edge(edge(1, 4, 20));
    for a in 1..=4 {
        for b in 1..=4 {
            assert_eq!(g.shortest_path(a, b), g.shortest_path(b, a));
        }
    }
}

#[test]
fn triangle_inequality_on_finite_legs() {
    let mut g = Graph::new();
    g.add_edge(edge(1, 2, 4));
    g.add_edge(edge(2, 3, 6));
    g.add_edge(edge(1, 3, 100));
    let rab = g.shortest_path(1, 2);
    let rbc = g.shortest_path(2, 3);
    let rac = g.shortest_path(1, 3);
    assert!(rab < i32::MAX && rbc < i32::MAX);
    assert!((rac as i64) <= (rab as i64) + (rbc as i64));
    assert_eq!(rac, 10);
}

#[test]
fn unreachable_across_components() {
    let mut g = Graph::new();
    g.add_edge(edge(1, 2, 1));
    g.add_edge(edge(3, 4, 1));
    assert_eq!(g.shortest_path(1, 3), i32::MAX);
    assert_eq!(g.shortest_path(1, 4), i32::MAX);
    assert_eq!(g.shortest_path(1, 2), 1);
    assert_eq!(g.shortest_path(3, 4), 1);
}

#[test]
fn parallel_edges_behave_as_the_smaller() {
    let mut g = Graph::new();
    g.add_edge(edge(1, 2, 7));
    g.add_edge(edge(1, 2, 3));
    assert_eq!(g.shortest_path(1, 2), 3);

    let mut h = Graph::new();
    h.add_edge(edge(1, 2, 3));
    h.add_edge(edge(1, 2, 7));
    assert_eq!(h.shortest_path(1, 2), 3);

    let mut only_small = Graph::new();
    only_small.add_edge(edge(1, 2, 3));
    assert_eq!(g.shortest_path(1, 2), only_small.shortest_path(1, 2));
}

#[test]
fn duplicate_identical_edges_are_benign() {
    let mut g = Graph::new();
    g.add_edge(edge(1, 2, 5));
    g.add_edge(edge(1, 2, 5));
    assert_eq!(g.shortest_path(1, 2), 5);
    assert_eq!(g.shortest_path(2, 1), 5);
}

#[test]
fn zero_weight_edges() {
    let mut g = Graph::new();
    g.add_edge(edge(1, 2, 0));
    g.add_edge(edge(2, 3, 0));
    g.add_edge(edge(3, 4, 2));
    assert_eq!(g.shortest_path(1, 3), 0);
    assert_eq!(g.shortest_path(1, 4), 2);
}

#[test]
fn self_loop_does_not_change_self_distance() {
    let mut g = Graph::new();
    g.add_edge(edge(1, 1, 5));
    assert_eq!(g.shortest_path(1, 1), 0);
}

#[test]
fn weight_at_sentinel_magnitude_degrades_to_unreachable() {
    let mut g = Graph::new();
    g.add_edge(edge(1, 2, i32::MAX));
    assert_eq!(g.shortest_path(1, 2), i32::MAX);
    g.add_edge(edge(2, 3, 5));
    assert_eq!(g.shortest_path(1, 3), i32::MAX);
    assert_eq!(g.shortest_path(2, 3), 5);
}

#[test]
fn add_node_replaces_by_id() {
    let mut g = Graph::new();
    g.add_node(node(1, 10, 20));
    g.add_node(node(1, 30, 40));
    assert_eq!(g.nodes.len(), 1);
    let n = g.nodes.get(&1).unwrap();
    assert_eq!(n.x, 30);
    assert_eq!(n.y, 40);
}

#[test]
fn add_edge_stores_mirrored_entries() {
    let mut g = Graph::new();
    g.add_edge(edge(1, 2, 9));
    let out1 = g.edges.get(&1).unwrap();
    assert_eq!(out1.len(), 1);
    assert_eq!(out1[0].node_a_id, 1);
    assert_eq!(out1[0].node_b_id, 2);
    assert_eq!(out1[0].weight, 9);
    let out2 = g.edges.get(&2).unwrap();
    assert_eq!(out2.len(), 1);
    assert_eq!(out2[0].node_a_id, 2);
    assert_eq!(out2[0].node_b_id, 1);
    assert_eq!(out2[0].weight, 9);
}

#[test]
fn longer_network_exact_costs() {
    let mut g = Graph::new();
    for (a, b, w) in [
        (1, 2, 7),
        (1, 3, 9),
        (1, 6, 14),
        (2, 3, 10),
        (2, 4, 15),
        (3, 4, 11),
        (3, 6, 2),
        (4, 5, 6),
        (5, 6, 9),
    ] {
        g.add_edge(edge(a, b, w));
    }
    assert_eq!(g.shortest_path(1, 5), 20);
    assert_eq!(g.shortest_path(1, 6), 11);
    assert_eq!(g.shortest_path(1, 4), 20);
    assert_eq!(g.shortest_path(5, 1), 20);
}

#[test]
fn source_never_inserted_reaches_only_itself() {
    let mut g = Graph::new();
    g.add_node(node(1, 0, 0));
    g.add_edge(edge(1, 2, 3));
    assert_eq!(g.shortest_path(99, 99), 0);
    assert_eq!(g.shortest_path(99, 1), i32::MAX);
}
