//! The laws of the shortest-path engine, each proved from the contract
//! `is_shortest_result` that `shortest_path` establishes, so they hold of
//! every result the engine returns.

use vstd::prelude::*;
use crate::graph::{Edge, Graph};
use crate::paths::{
    connects, is_shortest_result, lemma_connects_concat, lemma_connects_empty,
    lemma_connects_wider, lemma_cost_pointwise_le, lemma_rev_path_connects, lemma_rev_path_cost,
    path_cost, rev_path,
};

verus! {

/// Self-distance: the shortest path from any node to itself costs zero,
/// whether or not the node was ever inserted.
pub proof fn lemma_self_distance(g: Graph, n: i32, r: i32)
    requires
        is_shortest_result(g, n, n, r),
    ensures
        r == 0,
{
    lemma_connects_empty(g, n);
    assert(connects(g, Seq::<Edge>::empty(), n, n));
}

/// Symmetry: on a mirrored store (any store built only via `add_edge`),
/// the shortest-path results of a query and of its reverse agree.
pub proof fn lemma_symmetry(g: Graph, a: i32, b: i32, rab: i32, rba: i32)
    requires
        g.mirrored(),
        is_shortest_result(g, a, b, rab),
        is_shortest_result(g, b, a, rba),
    ensures
        rab == rba,
{
    if rab < i32::MAX {
        let p = choose|p: Seq<Edge>| #[trigger] connects(g, p, a, b) && path_cost(p) == rab;
        lemma_rev_path_connects(g, p, a, b);
        lemma_rev_path_cost(p);
        assert(path_cost(rev_path(p)) >= rba);
    }
    if rba < i32::MAX {
        let q = choose|q: Seq<Edge>| #[trigger] connects(g, q, b, a) && path_cost(q) == rba;
        lemma_rev_path_connects(g, q, b, a);
        lemma_rev_path_cost(q);
        assert(path_cost(rev_path(q)) >= rab);
    }
}

/// Triangle inequality: when the legs over an intermediate node are both
/// finite, the direct result never exceeds their sum.
pub proof fn lemma_triangle(
    g: Graph,
    a: i32,
    b: i32,
    c: i32,
    rab: i32,
    rbc: i32,
    rac: i32,
)
    requires
        is_shortest_result(g, a, b, rab),
        is_shortest_result(g, b, c, rbc),
        is_shortest_result(g, a, c, rac),
        rab < i32::MAX,
        rbc < i32::MAX,
    ensures
        rac as int <= rab + rbc,
{
    let p1 = choose|p: Seq<Edge>| #[trigger] connects(g, p, a, b) && path_cost(p) == rab;
    let p2 = choose|p: Seq<Edge>| #[trigger] connects(g, p, b, c) && path_cost(p) == rbc;
    lemma_connects_concat(g, p1, a, b, p2, c);
    assert(path_cost(p1 + p2) >= rac);
}

/// Unreachable returns the sentinel: a target with no connecting path
/// yields `i32::MAX`, which covers a target id that was never inserted.
pub proof fn lemma_unreachable_sentinel(g: Graph, a: i32, b: i32, r: i32)
    requires
        is_shortest_result(g, a, b, r),
        forall|p: Seq<Edge>| !(#[trigger] connects(g, p, a, b)),
    ensures
        r == i32::MAX,
{
    if r < i32::MAX {
        let p = choose|p: Seq<Edge>| #[trigger] connects(g, p, a, b) && path_cost(p) == r as int;
        assert(false);
    }
}

/// The replacement that backs parallel-edge minimality: an entry the
/// smaller store lacks is a heavy parallel between `x` and `y`, and is
/// swapped for the shared light entry in the same direction.
pub open spec fn swap_heavy(g2: Graph, x: i32, y: i32, w: i32, e: Edge) -> Edge {
    if g2.has_edge(e) {
        e
    } else if e.node_a_id == x {
        Edge { node_a_id: x, node_b_id: y, weight: w }
    } else {
        Edge { node_a_id: y, node_b_id: x, weight: w }
    }
}

/// Parallel-edge minimality: a store that carries extra parallel entries
/// between `x` and `y`, each at least as heavy as a light entry both
/// stores share in both directions, behaves exactly as if only the light
/// entry existed: every shortest-path result agrees.
pub proof fn lemma_parallel_edge_minimality(
    g1: Graph,
    g2: Graph,
    x: i32,
    y: i32,
    w: i32,
    a: i32,
    b: i32,
    r1: i32,
    r2: i32,
)
    requires
        forall|e: Edge| #[trigger] g2.has_edge(e) ==> g1.has_edge(e),
        forall|e: Edge| #[trigger] g1.has_edge(e) ==> g2.has_edge(e)
            || (e.node_a_id == x && e.node_b_id == y && e.weight >= w)
            || (e.node_a_id == y && e.node_b_id == x && e.weight >= w),
        g2.has_edge((Edge { node_a_id: x, node_b_id: y, weight: w })),
        g2.has_edge((Edge { node_a_id: y, node_b_id: x, weight: w })),
        is_shortest_result(g1, a, b, r1),
        is_shortest_result(g2, a, b, r2),
    ensures
        r1 == r2,
{
    if r2 < i32::MAX {
        let p = choose|p: Seq<Edge>| #[trigger] connects(g2, p, a, b) && path_cost(p) == r2;
        lemma_connects_wider(g2, g1, p, a, b);
        assert(path_cost(p) >= r1);
    }
    if r1 < i32::MAX {
        let p = choose|p: Seq<Edge>| #[trigger] connects(g1, p, a, b) && path_cost(p) == r1;
        let q = Seq::new(p.len(), |i: int| swap_heavy(g2, x, y, w, p[i]));
        assert forall|i: int| 0 <= i < q.len() implies g2.has_edge(#[trigger] q[i])
            && q[i].node_a_id == p[i].node_a_id && q[i].node_b_id == p[i].node_b_id
            && q[i].weight <= p[i].weight by {
            assert(g1.has_edge(p[i]));
        }
        assert(connects(g2, q, a, b)) by {
            if p.len() > 0 {
                assert(q[0].node_a_id == p[0].node_a_id);
                assert(q[p.len() - 1].node_b_id == p[p.len() - 1].node_b_id);
                assert forall|i: int| 0 <= i < q.len() - 1
                    implies (#[trigger] q[i]).node_b_id == q[i + 1].node_a_id by {
                    assert(p[i].node_b_id == p[i + 1].node_a_id);
                }
            }
        }
        lemma_cost_pointwise_le(p, q);
        assert(path_cost(q) >= r2);
    }
}

} // verus!
