//! Paths through the graph and their costs: the mathematical model that the
//! shortest-path contract is stated over, with the lemmas the proofs need.

use vstd::prelude::*;
use crate::graph::{Edge, Graph, rev_edge};

verus! {

/// `p` is a chain of stored adjacency entries leading from `a` to `b`.
/// The empty sequence connects every node to itself.
pub open spec fn connects(g: Graph, p: Seq<Edge>, a: i32, b: i32) -> bool {
    &&& (p.len() == 0 ==> a == b)
    &&& (p.len() > 0 ==> p[0].node_a_id == a && p[p.len() - 1].node_b_id == b)
    &&& (forall|i: int| 0 <= i < p.len() ==> g.has_edge(#[trigger] p[i]))
    &&& (forall|i: int| 0 <= i < p.len() - 1 ==> (#[trigger] p[i]).node_b_id
        == p[i + 1].node_a_id)
}

/// The total weight of a path, as an unbounded integer.
pub open spec fn path_cost(p: Seq<Edge>) -> int
    decreases p.len(),
{
    if p.len() == 0 {
        0
    } else {
        path_cost(p.drop_last()) + p.last().weight
    }
}

/// Some connecting path from `a` to `v` costs exactly `c`.
pub open spec fn reachable(g: Graph, a: i32, v: i32, c: int) -> bool {
    exists|p: Seq<Edge>| #[trigger] connects(g, p, a, v) && path_cost(p) == c
}

/// Exactly what `shortest_path` promises of its result `r` for the query
/// from `a` to `b` on graph `g`: the result is non-negative, no connecting
/// path costs less than it, and unless it is the unreachable sentinel
/// `i32::MAX`, some connecting path costs exactly it. Together these pin the
/// result down as the minimum path cost, capped at the sentinel.
pub open spec fn is_shortest_result(g: Graph, a: i32, b: i32, r: i32) -> bool {
    &&& 0 <= r
    &&& forall|p: Seq<Edge>| #[trigger] connects(g, p, a, b) ==> path_cost(p) >= r
    &&& r < i32::MAX ==> reachable(g, a, b, r as int)
}

/// The same path walked backwards, each entry replaced by its mirror image.
pub open spec fn rev_path(p: Seq<Edge>) -> Seq<Edge> {
    Seq::new(p.len(), |i: int| rev_edge(p[p.len() - 1 - i]))
}

/// Dropping the last entry of a connecting path leaves a path to that
/// entry's originating node.
pub proof fn lemma_connects_drop_last(g: Graph, p: Seq<Edge>, a: i32, b: i32)
    requires
        connects(g, p, a, b),
        p.len() > 0,
    ensures
        connects(g, p.drop_last(), a, p.last().node_a_id),
        g.has_edge(p.last()),
        p.last().node_b_id == b,
{
    if p.len() > 1 {
        assert(p[p.len() - 2].node_b_id == p[p.len() - 1].node_a_id);
    }
}

/// A connecting path extended by one adjacency entry of its endpoint
/// connects to that entry's target, at the old cost plus the entry's weight.
pub proof fn lemma_connects_extend(g: Graph, p: Seq<Edge>, a: i32, u: i32, e: Edge)
    requires
        connects(g, p, a, u),
        g.has_edge(e),
        e.node_a_id == u,
    ensures
        connects(g, p.push(e), a, e.node_b_id),
        path_cost(p.push(e)) == path_cost(p) + e.weight,
{
    let q = p.push(e);
    assert(q.drop_last() =~= p);
    if p.len() > 0 {
        assert(q[p.len() - 1] == p[p.len() - 1]);
    }
}

/// The empty path connects every node to itself at cost zero.
pub proof fn lemma_connects_empty(g: Graph, a: i32)
    ensures
        connects(g, Seq::<Edge>::empty(), a, a),
        path_cost(Seq::<Edge>::empty()) == 0,
{
}

/// With non-negative weights, no connecting path has a negative cost.
pub proof fn lemma_cost_nonneg(g: Graph, p: Seq<Edge>, a: i32, b: i32)
    requires
        g.nonneg_weights(),
        connects(g, p, a, b),
    ensures
        path_cost(p) >= 0,
    decreases p.len(),
{
    if p.len() > 0 {
        lemma_connects_drop_last(g, p, a, b);
        lemma_cost_nonneg(g, p.drop_last(), a, p.last().node_a_id);
    }
}

/// Two connecting paths that meet at a node concatenate to a connecting
/// path whose cost is the sum of theirs.
pub proof fn lemma_connects_concat(g: Graph, p1: Seq<Edge>, a: i32, b: i32, p2: Seq<Edge>, c: i32)
    requires
        connects(g, p1, a, b),
        connects(g, p2, b, c),
    ensures
        connects(g, p1 + p2, a, c),
        path_cost(p1 + p2) == path_cost(p1) + path_cost(p2),
    decreases p2.len(),
{
    if p2.len() == 0 {
        assert(p1 + p2 =~= p1);
    } else {
        lemma_connects_drop_last(g, p2, b, c);
        lemma_connects_concat(g, p1, a, b, p2.drop_last(), p2.last().node_a_id);
        lemma_connects_extend(g, p1 + p2.drop_last(), a, p2.last().node_a_id, p2.last());
        assert((p1 + p2.drop_last()).push(p2.last()) =~= p1 + p2);
    }
}

/// A path's cost can also be read off from the front.
pub proof fn lemma_cost_drop_first(p: Seq<Edge>)
    requires
        p.len() > 0,
    ensures
        path_cost(p) == p[0].weight + path_cost(p.subrange(1, p.len() as int)),
    decreases p.len(),
{
    let n = p.len() as int;
    if n == 1 {
        assert(p.subrange(1, n) =~= Seq::<Edge>::empty());
        assert(p.drop_last() =~= Seq::<Edge>::empty());
    } else {
        lemma_cost_drop_first(p.drop_last());
        assert(p.subrange(1, n).drop_last() =~= p.drop_last().subrange(1, n - 1));
        assert(p.subrange(1, n).last() == p.last());
        assert(p.drop_last()[0] == p[0]);
    }
}

/// Walking a path backwards costs the same as walking it forwards.
pub proof fn lemma_rev_path_cost(p: Seq<Edge>)
    ensures
        path_cost(rev_path(p)) == path_cost(p),
    decreases p.len(),
{
    let n = p.len() as int;
    if n > 0 {
        let tail = p.subrange(1, n);
        assert(rev_path(p).drop_last() =~= rev_path(tail));
        assert(rev_path(p).last() == rev_edge(p[0]));
        lemma_rev_path_cost(tail);
        lemma_cost_drop_first(p);
    }
}

/// In a mirrored graph, the reverse of a connecting path connects the
/// endpoints the other way round.
pub proof fn lemma_rev_path_connects(g: Graph, p: Seq<Edge>, a: i32, b: i32)
    requires
        g.mirrored(),
        connects(g, p, a, b),
    ensures
        connects(g, rev_path(p), b, a),
{
    let q = rev_path(p);
    let n = p.len() as int;
    assert forall|i: int| 0 <= i < n implies g.has_edge(#[trigger] q[i]) by {
        assert(g.has_edge(p[n - 1 - i]));
        assert(q[i] == rev_edge(p[n - 1 - i]));
    }
    assert forall|i: int| 0 <= i < n - 1 implies (#[trigger] q[i]).node_b_id
        == q[i + 1].node_a_id by {
        assert(p[n - 2 - i].node_b_id == p[n - 1 - i].node_a_id);
    }
    if n > 0 {
        assert(q[0] == rev_edge(p[n - 1]));
        assert(q[n - 1] == rev_edge(p[0]));
    }
}

/// A path connects in every graph that stores all of its entries.
pub proof fn lemma_connects_wider(gsub: Graph, gsup: Graph, p: Seq<Edge>, a: i32, b: i32)
    requires
        forall|e: Edge| #[trigger] gsub.has_edge(e) ==> gsup.has_edge(e),
        connects(gsub, p, a, b),
    ensures
        connects(gsup, p, a, b),
{
}

/// Replacing each entry of a path by one of no greater weight can only
/// lower its total cost.
pub proof fn lemma_cost_pointwise_le(p: Seq<Edge>, q: Seq<Edge>)
    requires
        p.len() == q.len(),
        forall|i: int| 0 <= i < p.len() ==> (#[trigger] q[i]).weight <= p[i].weight,
    ensures
        path_cost(q) <= path_cost(p),
    decreases p.len(),
{
    if p.len() > 0 {
        lemma_cost_pointwise_le(p.drop_last(), q.drop_last());
        assert(q[p.len() - 1].weight <= p[p.len() - 1].weight);
    }
}

/// Every node reaches itself at cost zero.
pub proof fn lemma_reachable_self(g: Graph, a: i32)
    ensures
        reachable(g, a, a, 0),
{
    lemma_connects_empty(g, a);
}

/// Reachability extends along a stored adjacency entry of the reached node.
pub proof fn lemma_reachable_extend(g: Graph, a: i32, u: i32, c: int, e: Edge)
    requires
        reachable(g, a, u, c),
        g.has_edge(e),
        e.node_a_id == u,
    ensures
        reachable(g, a, e.node_b_id, c + e.weight),
{
    let p = choose|p: Seq<Edge>| #[trigger] connects(g, p, a, u) && path_cost(p) == c;
    lemma_connects_extend(g, p, a, u, e);
}

/// With non-negative weights, every reachable cost is non-negative.
pub proof fn lemma_reachable_nonneg(g: Graph, a: i32, v: i32, c: int)
    requires
        g.nonneg_weights(),
        reachable(g, a, v, c),
    ensures
        c >= 0,
{
    let p = choose|p: Seq<Edge>| #[trigger] connects(g, p, a, v) && path_cost(p) == c;
    lemma_cost_nonneg(g, p, a, v);
}

} // verus!
