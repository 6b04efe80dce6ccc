use vstd::prelude::*;

verus! {

/// Entry `i` lists, in increasing order, the vertices that become the parents of vertex `i`.
pub type AdjacencyList = Vec<Vec<usize>>;

/// The mathematical value of an adjacency list: one sequence per vertex.
pub open spec fn rows_view(adj: &AdjacencyList) -> Seq<Seq<usize>> {
    adj@.map_values(|row: Vec<usize>| row@)
}

/// Vertex `w` is listed in the entry of vertex `i`.
pub open spec fn has_edge(adj: Seq<Seq<usize>>, i: int, w: int) -> bool {
    0 <= i < adj.len() && exists|k: int| 0 <= k < adj[i].len() && adj[i][k] == w
}

/// Every listed vertex lies strictly above its owner and inside the graph.
pub open spec fn edges_ascend(adj: Seq<Seq<usize>>) -> bool {
    forall|i: int, k: int|
        0 <= i < adj.len() && 0 <= k < adj[i].len() ==> i < #[trigger] adj[i][k] < adj.len()
}

/// Each entry is strictly increasing, so no parent is listed twice.
pub open spec fn rows_increasing(adj: Seq<Seq<usize>>) -> bool {
    forall|i: int, k1: int, k2: int|
        0 <= i < adj.len() && 0 <= k1 < k2 < adj[i].len() ==> #[trigger] adj[i][k1]
            < #[trigger] adj[i][k2]
}

/// The head vertex `0` starts with the backbone edge to vertex `1`.
pub open spec fn head_linked(adj: Seq<Seq<usize>>) -> bool {
    adj.len() >= 2 ==> adj[0].len() >= 1 && adj[0][0] == 1
}

/// Vertex `w` is listed by some lower vertex.
pub open spec fn is_reached(adj: Seq<Seq<usize>>, w: int) -> bool {
    exists|i: int| 0 <= i < w && #[trigger] has_edge(adj, i, w)
}

/// Every vertex from `2` on is listed by some lower vertex.
pub open spec fn interior_reached(adj: Seq<Seq<usize>>) -> bool {
    forall|w: int| 2 <= w < adj.len() ==> #[trigger] is_reached(adj, w)
}

/// A complete generated graph: acyclic by index order, no repeated parents,
/// the head linked to vertex `1`, and no interior vertex left unreached.
pub open spec fn is_one_head_dag(adj: Seq<Seq<usize>>) -> bool {
    &&& edges_ascend(adj)
    &&& rows_increasing(adj)
    &&& head_linked(adj)
    &&& interior_reached(adj)
}

/// The order in which vertices become commits: from the root `n - 1` down to the head `0`.
pub fn commit_order(n: usize) -> (r: Vec<usize>)
    ensures
        r@.len() == n,
        forall|k: int| 0 <= k < n ==> #[trigger] r@[k] == n - 1 - k,
{
    let mut r: Vec<usize> = Vec::new();
    let mut left: usize = n;
    while left > 0
        invariant
            left <= n,
            r@.len() == n - left,
            forall|k: int| 0 <= k < r@.len() ==> #[trigger] r@[k] == n - 1 - k,
        decreases left,
    {
        left = left - 1;
        r.push(left);
    }
    r
}

/// In `commit_order`, vertex `w` stands at position `n - 1 - w`. Every parent
/// listed in an entry stands before its owner, so it is a commit already when
/// its owner becomes one.
pub proof fn lemma_parents_committed_first(adj: Seq<Seq<usize>>, i: int, k: int)
    requires
        edges_ascend(adj),
        0 <= i < adj.len(),
        0 <= k < adj[i].len(),
    ensures
        0 <= adj.len() - 1 - adj[i][k] < adj.len() - 1 - i,
{
    assert(i < adj[i][k] < adj.len());
}

} // verus!
