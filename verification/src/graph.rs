//! The graph store: nodes, an undirected weighted adjacency structure, and
//! the mathematical model (paths and their costs) that the contracts of the
//! shortest-path engine are stated over.

use vstd::prelude::*;
use std::collections::HashMap;

verus! {

broadcast use vstd::std_specs::hash::group_hash_axioms;

/// A location vertex. Identity is `id`; `x` and `y` are coordinates carried
/// for display and are not consumed by the shortest-path algorithm.
#[derive(Clone, Copy, Debug)]
pub struct Node {
    pub id: i32,
    pub x: i32,
    pub y: i32,
}

/// A traversable connection from `node_a_id` to `node_b_id` with cost
/// `weight`, stored in the adjacency list of `node_a_id`. The store mirrors
/// every inserted edge, so the graph as a whole is undirected.
#[derive(Clone, Copy, Debug)]
pub struct Edge {
    pub node_a_id: i32,
    pub node_b_id: i32,
    pub weight: i32,
}

/// The mirror image of an edge: same endpoints, swapped direction, same
/// weight.
pub open spec fn rev_edge(e: Edge) -> Edge {
    Edge { node_a_id: e.node_b_id, node_b_id: e.node_a_id, weight: e.weight }
}

/// An in-memory graph: nodes keyed by id, and an adjacency list keyed by the
/// originating node id of each stored edge.
#[derive(Debug)]
pub struct Graph {
    pub nodes: HashMap<i32, Node>,
    pub edges: HashMap<i32, Vec<Edge>>,
}

impl Graph {
    /// The adjacency list of `u`: an absent key is treated as an empty list,
    /// not an error.
    pub open spec fn adj(self, u: i32) -> Seq<Edge> {
        if self.edges@.contains_key(u) {
            self.edges@[u]@
        } else {
            Seq::empty()
        }
    }

    /// `e` is one of the stored adjacency entries of its originating node.
    pub open spec fn has_edge(self, e: Edge) -> bool {
        self.adj(e.node_a_id).contains(e)
    }

    /// Every stored adjacency entry is keyed by its originating node id:
    /// the list under `u` holds only entries whose `node_a_id` is `u`. The
    /// insertion operations enforce this; it is the structural invariant of
    /// the store.
    pub open spec fn wf(self) -> bool {
        forall|u: i32, k: int| 0 <= k < self.adj(u).len()
            ==> (#[trigger] self.adj(u)[k]).node_a_id == u
    }

    /// Every stored adjacency entry has a non-negative weight. This is the
    /// precondition of the shortest-path algorithm; the store itself does
    /// not validate it.
    pub open spec fn nonneg_weights(self) -> bool {
        forall|e: Edge| self.has_edge(e) ==> e.weight >= 0
    }

    /// Every stored adjacency entry has its mirror image stored as well.
    /// Holds of every store built only via `add_edge`.
    pub open spec fn mirrored(self) -> bool {
        forall|e: Edge| self.has_edge(e) ==> self.has_edge(rev_edge(e))
    }

    /// An empty store: no nodes, no adjacency entries.
    pub fn new() -> (g: Graph)
        ensures
            g.nodes@ == Map::<i32, Node>::empty(),
            g.edges@ == Map::<i32, Vec<Edge>>::empty(),
            forall|u: i32| g.adj(u) == Seq::<Edge>::empty(),
            g.mirrored(),
            g.nonneg_weights(),
            g.wf(),
    {
        let g = Graph { nodes: HashMap::new(), edges: HashMap::new() };
        proof {
            assert forall|u: i32| g.adj(u) == Seq::<Edge>::empty() by {
                assert(!g.edges@.contains_key(u));
            }
        }
        g
    }

    /// Inserts a node, replacing any node with the same id (last write
    /// wins). The adjacency structure is untouched.
    pub fn add_node(&mut self, node: Node)
        ensures
            final(self).nodes@ == old(self).nodes@.insert(node.id, node),
            final(self).edges == old(self).edges,
            forall|u: i32| final(self).adj(u) == old(self).adj(u),
            old(self).wf() ==> final(self).wf(),
            old(self).mirrored() ==> final(self).mirrored(),
            old(self).nonneg_weights() ==> final(self).nonneg_weights(),
    {
        self.nodes.insert(node.id, node);
        proof {
            assert forall|u: i32| self.adj(u) == old(self).adj(u) by {
                assert(self.edges@ == old(self).edges@);
            }
            if old(self).wf() {
                assert forall|u: i32, k: int| 0 <= k < self.adj(u).len()
                    implies (#[trigger] self.adj(u)[k]).node_a_id == u by {
                    assert(old(self).adj(u)[k].node_a_id == u);
                }
            }
            if old(self).nonneg_weights() {
                assert forall|e: Edge| self.has_edge(e) implies e.weight >= 0 by {
                    assert(old(self).has_edge(e));
                }
            }
        }
    }

    /// Inserts an edge under its originating id and the mirrored edge under
    /// the target id, keeping the graph undirected. Insertion is additive:
    /// parallel entries are kept, never deduplicated. Endpoints are not
    /// checked against the node table.
    pub fn add_edge(&mut self, edge: Edge)
        ensures
            final(self).nodes@ == old(self).nodes@,
            edge.node_a_id != edge.node_b_id ==> final(self).adj(edge.node_a_id)
                == old(self).adj(edge.node_a_id).push(edge),
            edge.node_a_id != edge.node_b_id ==> final(self).adj(edge.node_b_id)
                == old(self).adj(edge.node_b_id).push(rev_edge(edge)),
            edge.node_a_id == edge.node_b_id ==> final(self).adj(edge.node_a_id)
                == old(self).adj(edge.node_a_id).push(edge).push(rev_edge(edge)),
            forall|u: i32| u != edge.node_a_id && u != edge.node_b_id
                ==> final(self).adj(u) == old(self).adj(u),
            old(self).mirrored() ==> final(self).mirrored(),
            old(self).nonneg_weights() && edge.weight >= 0 ==> final(self).nonneg_weights(),
            old(self).wf() ==> final(self).wf(),
    {
        let ghost pre = *self;
        let mut list = match self.edges.remove(&edge.node_a_id) {
            Some(l) => l,
            None => Vec::new(),
        };
        list.push(edge);
        self.edges.insert(edge.node_a_id, list);

        let ghost mid = *self;
        proof {
            assert(mid.adj(edge.node_a_id) =~= pre.adj(edge.node_a_id).push(edge));
            assert forall|u: i32| u != edge.node_a_id implies mid.adj(u) == pre.adj(u) by {
                assert(mid.edges@.contains_key(u) == pre.edges@.contains_key(u));
            }
        }

        let reverse_edge = Edge {
            node_a_id: edge.node_b_id,
            node_b_id: edge.node_a_id,
            weight: edge.weight,
        };
        let mut reverse_list = match self.edges.remove(&reverse_edge.node_a_id) {
            Some(l) => l,
            None => Vec::new(),
        };
        reverse_list.push(reverse_edge);
        self.edges.insert(reverse_edge.node_a_id, reverse_list);

        proof {
            assert(final(self).adj(edge.node_b_id)
                =~= mid.adj(edge.node_b_id).push(rev_edge(edge)));
            assert forall|u: i32| u != edge.node_b_id implies final(self).adj(u) == mid.adj(u) by {
                assert(final(self).edges@.contains_key(u) == mid.edges@.contains_key(u));
            }
            lemma_add_edge_preserves(pre, *final(self), edge);
        }
    }
}

/// After the two pushes of `add_edge`, the mirror and non-negativity
/// conditions carry over from the old store to the new one.
proof fn lemma_add_edge_preserves(pre: Graph, post: Graph, edge: Edge)
    requires
        edge.node_a_id != edge.node_b_id ==> post.adj(edge.node_a_id)
            == pre.adj(edge.node_a_id).push(edge),
        edge.node_a_id != edge.node_b_id ==> post.adj(edge.node_b_id)
            == pre.adj(edge.node_b_id).push(rev_edge(edge)),
        edge.node_a_id == edge.node_b_id ==> post.adj(edge.node_a_id)
            == pre.adj(edge.node_a_id).push(edge).push(rev_edge(edge)),
        forall|u: i32| u != edge.node_a_id && u != edge.node_b_id
            ==> post.adj(u) == pre.adj(u),
    ensures
        pre.mirrored() ==> post.mirrored(),
        pre.nonneg_weights() && edge.weight >= 0 ==> post.nonneg_weights(),
        pre.wf() ==> post.wf(),
{
    if pre.wf() {
        assert forall|u: i32, k: int| 0 <= k < post.adj(u).len()
            implies (#[trigger] post.adj(u)[k]).node_a_id == u by {
            if u == edge.node_a_id || u == edge.node_b_id {
                if k < pre.adj(u).len() {
                    assert(post.adj(u)[k] == pre.adj(u)[k]);
                }
            }
        }
    }
    assert forall|e: Edge| post.has_edge(e) implies pre.has_edge(e) || e == edge
        || e == rev_edge(edge) by {
        if e.node_a_id == edge.node_a_id || e.node_a_id == edge.node_b_id {
            let i = choose|i: int| 0 <= i < post.adj(e.node_a_id).len()
                && post.adj(e.node_a_id)[i] == e;
            if i < pre.adj(e.node_a_id).len() {
                assert(pre.adj(e.node_a_id)[i] == e);
                assert(pre.has_edge(e));
            }
        }
    }
    if pre.nonneg_weights() && edge.weight >= 0 {
        assert forall|e: Edge| post.has_edge(e) implies e.weight >= 0 by {
            assert(pre.has_edge(e) || e == edge || e == rev_edge(edge));
        }
    }
    if pre.mirrored() {
        assert forall|e: Edge| post.has_edge(e) implies post.has_edge(rev_edge(e)) by {
            if pre.has_edge(e) {
                assert(pre.has_edge(rev_edge(e)));
                lemma_adj_grows(pre, post, edge, rev_edge(e));
            } else if e == edge {
                lemma_new_edge_present(pre, post, edge);
            } else {
                assert(e == edge || e == rev_edge(edge));
                lemma_new_edge_present(pre, post, edge);
                assert(rev_edge(rev_edge(edge)) == edge);
            }
        }
    }
}

/// Every adjacency entry of the old store is still present after the two
/// pushes of `add_edge`.
proof fn lemma_adj_grows(pre: Graph, post: Graph, edge: Edge, e: Edge)
    requires
        edge.node_a_id != edge.node_b_id ==> post.adj(edge.node_a_id)
            == pre.adj(edge.node_a_id).push(edge),
        edge.node_a_id != edge.node_b_id ==> post.adj(edge.node_b_id)
            == pre.adj(edge.node_b_id).push(rev_edge(edge)),
        edge.node_a_id == edge.node_b_id ==> post.adj(edge.node_a_id)
            == pre.adj(edge.node_a_id).push(edge).push(rev_edge(edge)),
        forall|u: i32| u != edge.node_a_id && u != edge.node_b_id
            ==> post.adj(u) == pre.adj(u),
        pre.has_edge(e),
    ensures
        post.has_edge(e),
{
    let i = choose|i: int| 0 <= i < pre.adj(e.node_a_id).len() && pre.adj(e.node_a_id)[i] == e;
    assert(post.adj(e.node_a_id)[i] == e);
}

/// The inserted edge and its mirror are both present after `add_edge`.
proof fn lemma_new_edge_present(pre: Graph, post: Graph, edge: Edge)
    requires
        edge.node_a_id != edge.node_b_id ==> post.adj(edge.node_a_id)
            == pre.adj(edge.node_a_id).push(edge),
        edge.node_a_id != edge.node_b_id ==> post.adj(edge.node_b_id)
            == pre.adj(edge.node_b_id).push(rev_edge(edge)),
        edge.node_a_id == edge.node_b_id ==> post.adj(edge.node_a_id)
            == pre.adj(edge.node_a_id).push(edge).push(rev_edge(edge)),
    ensures
        post.has_edge(edge),
        post.has_edge(rev_edge(edge)),
{
    if edge.node_a_id != edge.node_b_id {
        let n1 = pre.adj(edge.node_a_id).len() as int;
        assert(post.adj(edge.node_a_id)[n1] == edge);
        let n2 = pre.adj(edge.node_b_id).len() as int;
        assert(post.adj(rev_edge(edge).node_a_id)[n2] == rev_edge(edge));
    } else {
        let n = pre.adj(edge.node_a_id).len() as int;
        assert(post.adj(edge.node_a_id)[n] == edge);
        assert(post.adj(edge.node_a_id)[n + 1] == rev_edge(edge));
    }
}

} // verus!
