//! The shortest-path engine: Dijkstra's algorithm with a min-priority
//! frontier over the store's adjacency structure, verified to return the
//! exact minimum path cost, with `i32::MAX` as the sentinel for an
//! unreachable target.

use vstd::prelude::*;
use std::collections::HashMap;
use vstd::set_lib::{lemma_int_range, lemma_len_subset, set_int_range};
use vstd::set::axiom_set_remove_len;
use crate::graph::{Edge, Graph};
use crate::paths::{
    connects, is_shortest_result, lemma_connects_drop_last, lemma_connects_empty,
    lemma_reachable_extend, lemma_reachable_nonneg, lemma_reachable_self, path_cost, reachable,
};

verus! {

broadcast use vstd::std_specs::hash::group_hash_axioms;

/// A frontier entry: a candidate `cost` for reaching `node_id`. The
/// frontier is kept as a plain vector and the minimum-cost entry is
/// selected by scanning, which plays the role of a min-priority queue.
#[derive(Clone, Copy)]
struct State {
    node_id: i32,
    cost: i32,
}

/// The best cost recorded so far for `v`, or the sentinel where none is.
spec fn best_or_sentinel(b: Map<i32, i32>, v: i32) -> int {
    if b.contains_key(v) {
        b[v] as int
    } else {
        i32::MAX as int
    }
}

/// Some frontier entry records cost `c` for node `v`.
spec fn in_frontier(f: Seq<State>, v: i32, c: int) -> bool {
    exists|i: int| 0 <= i < f.len() && (#[trigger] f[i]).node_id == v && f[i].cost == c
}

/// A frontier entry is sound: its node has a recorded cost no larger than
/// the entry's, the entry's cost is achieved by some path, and it is a
/// proper (non-sentinel) value.
spec fn entry_ok(g: Graph, a: i32, b: Map<i32, i32>, st: State) -> bool {
    &&& b.contains_key(st.node_id)
    &&& 0 <= st.cost && st.cost < i32::MAX
    &&& b[st.node_id] <= st.cost
    &&& reachable(g, a, st.node_id, st.cost as int)
}

/// Every adjacency entry leaving a settled node has been relaxed: the
/// recorded cost of its target is no worse than going through the entry.
spec fn relaxed(g: Graph, s: Set<int>, b: Map<i32, i32>) -> bool {
    forall|e: Edge| #[trigger] g.has_edge(e) && s.contains(e.node_a_id as int)
        ==> best_or_sentinel(b, e.node_b_id) <= best_or_sentinel(b, e.node_a_id) + e.weight
}

/// Every settled node's recorded cost is a lower bound on the cost of all
/// of its connecting paths.
spec fn settled_minimal(g: Graph, a: i32, b: Map<i32, i32>, s: Set<int>) -> bool {
    forall|v: i32, p: Seq<Edge>| s.contains(v as int) && #[trigger] connects(g, p, a, v)
        ==> path_cost(p) >= best_or_sentinel(b, v)
}

/// The loop invariant of the search from `a` toward `target`: recorded
/// costs `b`, frontier `f`, and the (ghost) set `s` of settled nodes.
spec fn dij_inv(
    g: Graph,
    a: i32,
    target: i32,
    b: Map<i32, i32>,
    f: Seq<State>,
    s: Set<int>,
) -> bool {
    &&& b.contains_key(a) && b[a] == 0
    &&& (forall|v: i32| #[trigger] b.contains_key(v)
        ==> 0 <= b[v] && b[v] < i32::MAX && reachable(g, a, v, b[v] as int))
    &&& (forall|i: int| 0 <= i < f.len() ==> entry_ok(g, a, b, #[trigger] f[i]))
    &&& (forall|v: i32| #[trigger] b.contains_key(v) && !s.contains(v as int)
        ==> in_frontier(f, v, b[v] as int))
    &&& (forall|v: int| #[trigger] s.contains(v)
        ==> i32::MIN <= v && v <= i32::MAX && b.contains_key(v as i32))
    &&& settled_minimal(g, a, b, s)
    &&& relaxed(g, s, b)
    &&& !s.contains(target as int)
}

/// The heart of the optimality argument. When every edge out of a settled
/// node is relaxed, every recorded-but-unsettled node has a frontier
/// witness at its recorded cost, and every frontier entry costs at least
/// `cmin`, then no connecting path beats both `cmin` and the recorded cost
/// of its endpoint.
proof fn lemma_no_cheaper_path(
    g: Graph,
    a: i32,
    b: Map<i32, i32>,
    f: Seq<State>,
    s: Set<int>,
    cmin: int,
    p: Seq<Edge>,
    z: i32,
)
    requires
        g.nonneg_weights(),
        b.contains_key(a) && b[a] == 0,
        forall|v: i32| #[trigger] b.contains_key(v) ==> 0 <= b[v] && b[v] < i32::MAX,
        relaxed(g, s, b),
        forall|v: int| #[trigger] s.contains(v)
            ==> i32::MIN <= v && v <= i32::MAX && b.contains_key(v as i32),
        forall|v: i32| #[trigger] b.contains_key(v) && !s.contains(v as int)
            ==> in_frontier(f, v, b[v] as int),
        forall|i: int| 0 <= i < f.len() ==> (#[trigger] f[i]).cost >= cmin,
        cmin <= i32::MAX,
        connects(g, p, a, z),
    ensures
        path_cost(p) >= cmin || path_cost(p) >= best_or_sentinel(b, z),
    decreases p.len(),
{
    if p.len() == 0 {
        assert(z == a);
        assert(best_or_sentinel(b, z) == 0);
    } else {
        let e = p.last();
        let y = e.node_a_id;
        lemma_connects_drop_last(g, p, a, z);
        let q = p.drop_last();
        lemma_no_cheaper_path(g, a, b, f, s, cmin, q, y);
        assert(g.has_edge(e));
        assert(e.weight >= 0);
        assert(e.node_b_id == z);
        assert(path_cost(p) == path_cost(q) + e.weight);
        if path_cost(q) >= cmin {
            assert(path_cost(p) >= cmin);
        } else {
            assert(path_cost(q) >= best_or_sentinel(b, y));
            if s.contains(y as int) {
                assert(best_or_sentinel(b, z) <= best_or_sentinel(b, y) + e.weight);
                assert(path_cost(p) >= best_or_sentinel(b, z));
            } else if b.contains_key(y) {
                assert(in_frontier(f, y, b[y] as int));
                let i = choose|i: int| 0 <= i < f.len() && (#[trigger] f[i]).node_id == y
                    && f[i].cost == b[y];
                assert(f[i].cost >= cmin);
                assert(path_cost(p) >= cmin);
            } else {
                assert(best_or_sentinel(b, y) == i32::MAX);
                assert(path_cost(p) >= cmin);
            }
        }
    }
}

/// A frontier witness survives the removal of an entry for another node.
proof fn lemma_witness_after_remove(f: Seq<State>, idx: int, v: i32, cv: int)
    requires
        0 <= idx < f.len(),
        in_frontier(f, v, cv),
        f[idx].node_id != v,
    ensures
        in_frontier(f.remove(idx), v, cv),
{
    f.remove_ensures(idx);
    let i = choose|i: int| 0 <= i < f.len() && (#[trigger] f[i]).node_id == v && f[i].cost == cv;
    if i < idx {
        assert(f.remove(idx)[i] == f[i]);
    } else {
        assert(f.remove(idx)[i - 1] == f[i]);
    }
}

/// A frontier witness survives a push.
proof fn lemma_witness_after_push(f: Seq<State>, st: State, v: i32, cv: int)
    requires
        in_frontier(f, v, cv),
    ensures
        in_frontier(f.push(st), v, cv),
{
    let i = choose|i: int| 0 <= i < f.len() && (#[trigger] f[i]).node_id == v && f[i].cost == cv;
    assert(f.push(st)[i] == f[i]);
}

/// Settling one more node shrinks the pool of unsettled i32 ids.
proof fn lemma_settle_shrinks(s: Set<int>, u: int)
    requires
        i32::MIN <= u && u <= i32::MAX,
        !s.contains(u),
        forall|v: int| #[trigger] s.contains(v) ==> i32::MIN <= v && v <= i32::MAX,
    ensures
        set_int_range(i32::MIN as int, i32::MAX as int + 1).difference(s.insert(u)).len()
            < set_int_range(i32::MIN as int, i32::MAX as int + 1).difference(s).len(),
{
    let r = set_int_range(i32::MIN as int, i32::MAX as int + 1);
    lemma_int_range(i32::MIN as int, i32::MAX as int + 1);
    let d0 = r.difference(s);
    let d1 = r.difference(s.insert(u));
    lemma_len_subset(d0, r);
    assert(d1 =~= d0.remove(u));
    assert(d0.contains(u));
    axiom_set_remove_len(d0, u);
}

/// The index of a minimum-cost frontier entry, found by scanning. This
/// selection is what makes the frontier behave as a min-priority queue.
fn min_cost_index(f: &Vec<State>) -> (idx: usize)
    requires
        f.len() > 0,
    ensures
        idx < f@.len(),
        forall|j: int| 0 <= j < f@.len() ==> f@[idx as int].cost <= (#[trigger] f@[j]).cost,
{
    let mut idx: usize = 0;
    let mut k: usize = 1;
    while k < f.len()
        invariant
            idx < k,
            k <= f@.len(),
            forall|j: int| 0 <= j < k ==> f@[idx as int].cost <= (#[trigger] f@[j]).cost,
        decreases f@.len() - k,
    {
        if f[k].cost < f[idx].cost {
            idx = k;
        }
        k = k + 1;
    }
    idx
}

impl Graph {
    /// The minimum total edge weight of a path from `from_node_id` to
    /// `to_node_id`, or `i32::MAX` when the target is unreachable (which
    /// covers a target id that was never inserted). A node trivially
    /// reaches itself at cost `0`, whether or not it was ever inserted.
    pub fn shortest_path(&self, from_node_id: i32, to_node_id: i32) -> (r: i32)
        requires
            self.wf(),
            self.nonneg_weights(),
        ensures
            is_shortest_result(*self, from_node_id, to_node_id, r),
            from_node_id == to_node_id ==> r == 0,
    {
        let ghost g = *self;
        let ghost a = from_node_id;
        let ghost t = to_node_id;
        let mut distances: HashMap<i32, i32> = HashMap::new();
        let mut frontier: Vec<State> = Vec::new();

        distances.insert(from_node_id, 0);
        frontier.push(State { node_id: from_node_id, cost: 0 });
        let ghost mut settled: Set<int> = Set::empty();

        proof {
            lemma_reachable_self(g, a);
            assert(frontier@[0].node_id == a && frontier@[0].cost == 0);
            assert(in_frontier(frontier@, a, 0));
            assert forall|v: i32| #[trigger] distances@.contains_key(v)
                && !settled.contains(v as int)
                implies in_frontier(frontier@, v, distances@[v] as int) by {
                assert(v == a);
            }
        }

        while frontier.len() > 0
            invariant
                self.wf(),
                self.nonneg_weights(),
                g == *self && a == from_node_id && t == to_node_id,
                dij_inv(g, a, t, distances@, frontier@, settled),
            decreases
                set_int_range(i32::MIN as int, i32::MAX as int + 1).difference(settled).len(),
                frontier@.len(),
        {
            let ghost f_pre = frontier@;
            let ghost b_pre = distances@;
            let ghost s_pre = settled;

            let idx = min_cost_index(&frontier);
            let st = frontier.remove(idx);
            let u = st.node_id;
            let c = st.cost;

            proof {
                f_pre.remove_ensures(idx as int);
                assert(frontier@ == f_pre.remove(idx as int));
                assert(entry_ok(g, a, b_pre, st));
                assert forall|i: int| 0 <= i < frontier@.len()
                    implies entry_ok(g, a, b_pre, #[trigger] frontier@[i]) by {
                    if i < idx {
                        assert(frontier@[i] == f_pre[i]);
                    } else {
                        assert(frontier@[i] == f_pre[i + 1]);
                    }
                }
            }

            if u == to_node_id {
                proof {
                    // The popped minimum for the target carries its
                    // recorded cost exactly, and no path can beat it.
                    assert(b_pre.contains_key(u) && b_pre[u] <= c);
                    assert(in_frontier(f_pre, u, b_pre[u] as int));
                    let i = choose|i: int| 0 <= i < f_pre.len()
                        && (#[trigger] f_pre[i]).node_id == u && f_pre[i].cost == b_pre[u];
                    assert(f_pre[idx as int].cost <= f_pre[i].cost);
                    assert(c == b_pre[u]);
                    assert forall|p: Seq<Edge>| #[trigger] connects(g, p, a, t)
                        implies path_cost(p) >= c by {
                        lemma_no_cheaper_path(g, a, b_pre, f_pre, s_pre, c as int, p, t);
                    }
                    if a == t {
                        lemma_connects_empty(g, a);
                        assert(path_cost(Seq::<Edge>::empty()) >= c);
                    }
                }
                return c;
            }

            let ghost settling = !s_pre.contains(u as int);

            proof {
                if settling {
                    assert(b_pre.contains_key(u) && b_pre[u] <= c);
                    assert(in_frontier(f_pre, u, b_pre[u] as int));
                    let i = choose|i: int| 0 <= i < f_pre.len()
                        && (#[trigger] f_pre[i]).node_id == u && f_pre[i].cost == b_pre[u];
                    assert(f_pre[idx as int].cost <= f_pre[i].cost);
                    assert(c == b_pre[u]);
                    assert forall|p: Seq<Edge>| #[trigger] connects(g, p, a, u)
                        implies path_cost(p) >= c by {
                        lemma_no_cheaper_path(g, a, b_pre, f_pre, s_pre, c as int, p, u);
                    }
                }
                assert forall|v: i32| #[trigger] b_pre.contains_key(v)
                    && !s_pre.contains(v as int) && v != u
                    implies in_frontier(frontier@, v, b_pre[v] as int) by {
                    lemma_witness_after_remove(f_pre, idx as int, v, b_pre[v] as int);
                }
            }

            match self.edges.get(&u) {
                Some(edges_list) => {
                    let ghost l = edges_list@;
                    proof {
                        assert(self.edges@.contains_key(u));
                        assert(l == g.adj(u));
                    }
                    let mut k: usize = 0;
                    while k < edges_list.len()
                        invariant
                            self.wf(),
                            self.nonneg_weights(),
                            g == *self && a == from_node_id && t == to_node_id,
                            k <= l.len(),
                            edges_list@ == l,
                            l == g.adj(u),
                            u != t,
                            settling == !s_pre.contains(u as int),
                            settled == s_pre,
                            0 <= c && c < i32::MAX,
                            reachable(g, a, u, c as int),
                            distances@.contains_key(u) && distances@[u] <= c,
                            distances@.contains_key(a) && distances@[a] == 0,
                            forall|v: i32| #[trigger] distances@.contains_key(v)
                                ==> 0 <= distances@[v] && distances@[v] < i32::MAX
                                    && reachable(g, a, v, distances@[v] as int),
                            forall|i: int| 0 <= i < frontier@.len()
                                ==> entry_ok(g, a, distances@, #[trigger] frontier@[i]),
                            forall|v: i32| #[trigger] distances@.contains_key(v)
                                && !s_pre.contains(v as int) && v != u
                                ==> in_frontier(frontier@, v, distances@[v] as int),
                            forall|v: int| #[trigger] s_pre.contains(v)
                                ==> i32::MIN <= v && v <= i32::MAX
                                    && distances@.contains_key(v as i32),
                            settled_minimal(g, a, distances@, s_pre),
                            relaxed(g, s_pre, distances@),
                            !s_pre.contains(t as int),
                            settling ==> distances@[u] == c
                                && (forall|p: Seq<Edge>| #[trigger] connects(g, p, a, u)
                                    ==> path_cost(p) >= c),
                            settling ==> (forall|j: int| 0 <= j < k
                                ==> best_or_sentinel(distances@, (#[trigger] l[j]).node_b_id)
                                    <= c + l[j].weight),
                            !settling ==> distances@ == b_pre
                                && frontier@ == f_pre.remove(idx as int),
                        decreases l.len() - k,
                    {
                        let e = edges_list[k];
                        proof {
                            assert(e == l[k as int]);
                            assert(g.has_edge(e) && e.node_a_id == u) by {
                                assert(g.adj(u)[k as int] == e);
                                assert(e.node_a_id == u);
                            }
                            assert(e.weight >= 0);
                            if !settling {
                                assert(best_or_sentinel(distances@, e.node_b_id)
                                    <= best_or_sentinel(distances@, u) + e.weight);
                            }
                        }
                        match c.checked_add(e.weight) {
                            Some(cand) => {
                                let improves: bool = match distances.get(&e.node_b_id) {
                                    Some(d) => cand < *d,
                                    None => cand < i32::MAX,
                                };
                                proof {
                                    assert(improves <==> (cand as int)
                                        < best_or_sentinel(distances@, e.node_b_id));
                                }
                                if improves {
                                    let ghost b_mid = distances@;
                                    let ghost f_mid = frontier@;
                                    proof {
                                        lemma_reachable_extend(g, a, u, c as int, e);
                                        assert(reachable(g, a, e.node_b_id, cand as int));
                                        // a settled target would contradict its minimality
                                        if s_pre.contains(e.node_b_id as int) {
                                            let p = choose|p: Seq<Edge>|
                                                #[trigger] connects(g, p, a, e.node_b_id)
                                                && path_cost(p) == cand as int;
                                            assert(path_cost(p)
                                                >= best_or_sentinel(b_mid, e.node_b_id));
                                            assert(false);
                                        }
                                        lemma_reachable_nonneg(g, a, e.node_b_id, cand as int);
                                    }
                                    distances.insert(e.node_b_id, cand);
                                    frontier.push(State { node_id: e.node_b_id, cost: cand });
                                    proof {
                                        let v = e.node_b_id;
                                        assert(distances@ == b_mid.insert(v, cand));
                                        assert(frontier@ == f_mid.push(
                                            State { node_id: v, cost: cand },
                                        ));
                                        assert(frontier@[f_mid.len() as int]
                                            == (State { node_id: v, cost: cand }));
                                        assert(in_frontier(frontier@, v, cand as int));
                                        assert forall|i: int| 0 <= i < frontier@.len()
                                            implies entry_ok(
                                                g, a, distances@, #[trigger] frontier@[i],
                                            ) by {
                                            if i < f_mid.len() {
                                                assert(frontier@[i] == f_mid[i]);
                                                assert(entry_ok(g, a, b_mid, f_mid[i]));
                                            }
                                        }
                                        assert forall|w: i32| #[trigger] distances@.contains_key(w)
                                            && !s_pre.contains(w as int) && w != u
                                            implies in_frontier(
                                                frontier@, w, distances@[w] as int,
                                            ) by {
                                            if w != v {
                                                lemma_witness_after_push(
                                                    f_mid,
                                                    State { node_id: v, cost: cand },
                                                    w,
                                                    b_mid[w] as int,
                                                );
                                            }
                                        }
                                        assert forall|y: i32, p: Seq<Edge>|
                                            s_pre.contains(y as int)
                                            && #[trigger] connects(g, p, a, y)
                                            implies path_cost(p)
                                                >= best_or_sentinel(distances@, y) by {
                                            assert(y != v);
                                            assert(best_or_sentinel(distances@, y)
                                                == best_or_sentinel(b_mid, y));
                                        }
                                        assert forall|e2: Edge| #[trigger] g.has_edge(e2)
                                            && s_pre.contains(e2.node_a_id as int)
                                            implies best_or_sentinel(distances@, e2.node_b_id)
                                                <= best_or_sentinel(distances@, e2.node_a_id)
                                                    + e2.weight by {
                                            assert(e2.node_a_id != v);
                                            assert(best_or_sentinel(distances@, e2.node_b_id)
                                                <= best_or_sentinel(b_mid, e2.node_b_id));
                                        }
                                        if settling {
                                            assert(v != u);
                                            assert forall|j: int| 0 <= j < k + 1
                                                implies best_or_sentinel(
                                                    distances@, (#[trigger] l[j]).node_b_id,
                                                ) <= c + l[j].weight by {
                                                if j < k {
                                                    assert(best_or_sentinel(b_mid, l[j].node_b_id)
                                                        <= c + l[j].weight);
                                                    assert(best_or_sentinel(
                                                        distances@, l[j].node_b_id,
                                                    ) <= best_or_sentinel(b_mid, l[j].node_b_id));
                                                }
                                            }
                                        }
                                    }
                                } else {
                                    proof {
                                        if settling {
                                            assert forall|j: int| 0 <= j < k + 1
                                                implies best_or_sentinel(
                                                    distances@, (#[trigger] l[j]).node_b_id,
                                                ) <= c + l[j].weight by {}
                                        }
                                    }
                                }
                            }
                            None => {
                                proof {
                                    if settling {
                                        assert forall|j: int| 0 <= j < k + 1
                                            implies best_or_sentinel(
                                                distances@, (#[trigger] l[j]).node_b_id,
                                            ) <= c + l[j].weight by {
                                            if j == k {
                                                assert(c + l[j].weight > i32::MAX);
                                                assert(best_or_sentinel(
                                                    distances@, l[j].node_b_id,
                                                ) <= i32::MAX);
                                            }
                                        }
                                    }
                                }
                            }
                        }
                        k = k + 1;
                    }
                    proof {
                        if settling {
                            settled = s_pre.insert(u as int);
                            assert forall|e2: Edge| #[trigger] g.has_edge(e2)
                                && settled.contains(e2.node_a_id as int)
                                implies best_or_sentinel(distances@, e2.node_b_id)
                                    <= best_or_sentinel(distances@, e2.node_a_id)
                                        + e2.weight by {
                                if e2.node_a_id == u {
                                    let j = choose|j: int| 0 <= j < l.len() && l[j] == e2;
                                    assert(best_or_sentinel(distances@, l[j].node_b_id)
                                        <= c + l[j].weight);
                                }
                            }
                            assert forall|v: i32, p: Seq<Edge>| settled.contains(v as int)
                                && #[trigger] connects(g, p, a, v)
                                implies path_cost(p) >= best_or_sentinel(distances@, v) by {
                                if v as int == u as int {
                                    assert(v == u);
                                }
                            }
                            lemma_settle_shrinks(s_pre, u as int);
                        }
                        assert(dij_inv(g, a, t, distances@, frontier@, settled));
                    }
                }
                None => {
                    proof {
                        assert(!self.edges@.contains_key(u));
                        assert(g.adj(u) == Seq::<Edge>::empty());
                        if settling {
                            settled = s_pre.insert(u as int);
                            assert forall|e2: Edge| #[trigger] g.has_edge(e2)
                                && settled.contains(e2.node_a_id as int)
                                implies best_or_sentinel(distances@, e2.node_b_id)
                                    <= best_or_sentinel(distances@, e2.node_a_id)
                                        + e2.weight by {
                                if e2.node_a_id == u {
                                    assert(g.adj(u).contains(e2));
                                    assert(false);
                                }
                            }
                            assert forall|v: i32, p: Seq<Edge>| settled.contains(v as int)
                                && #[trigger] connects(g, p, a, v)
                                implies path_cost(p) >= best_or_sentinel(distances@, v) by {
                                if v as int == u as int {
                                    assert(v == u);
                                }
                            }
                            lemma_settle_shrinks(s_pre, u as int);
                        }
                        assert(dij_inv(g, a, t, distances@, frontier@, settled));
                    }
                }
            }
        }

        proof {
            // An empty frontier leaves the target unrecorded, so every
            // connecting path costs at least the sentinel.
            if distances@.contains_key(to_node_id) {
                assert(in_frontier(frontier@, to_node_id, distances@[to_node_id] as int));
                assert(false);
            }
            assert forall|p: Seq<Edge>| #[trigger] connects(g, p, a, t)
                implies path_cost(p) >= i32::MAX by {
                lemma_no_cheaper_path(
                    g, a, distances@, frontier@, settled, i32::MAX as int, p, t,
                );
            }
            if a == t {
                lemma_connects_empty(g, a);
                assert(path_cost(Seq::<Edge>::empty()) >= i32::MAX);
                assert(false);
            }
        }
        i32::MAX
    }
}

} // verus!
