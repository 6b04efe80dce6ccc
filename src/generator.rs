use vstd::prelude::*;

use crate::dag::{
    AdjacencyList, edges_ascend, has_edge, head_linked, interior_reached, is_one_head_dag,
    is_reached, rows_increasing, rows_view,
};

verus! {

/// A generation in progress: the edges so far, the vertex whose in-edges are
/// being drawn, the next lower candidate, and whether the current trial has
/// added an edge yet.
pub struct BuildState {
    pub adj: Seq<Seq<usize>>,
    pub vertex: nat,
    pub candidate: nat,
    pub added: bool,
}

/// The structure before any draw: `n` empty entries, and the backbone edge
/// from the head to vertex `1` when there are two vertices or more.
pub open spec fn initial_rows(n: nat) -> Seq<Seq<usize>> {
    Seq::new(n, |i: int| if i == 0 && n > 1 { seq![1usize] } else { Seq::<usize>::empty() })
}

/// The start of a generation: the first draw is for vertex `2`, candidate `0`.
pub open spec fn initial(n: nat) -> BuildState {
    BuildState { adj: initial_rows(n), vertex: 2, candidate: 0, added: false }
}

/// All vertices have their in-edges.
pub open spec fn is_done(s: BuildState) -> bool {
    s.vertex >= s.adj.len()
}

/// One draw for the current candidate: on a hit the vertex is appended to the
/// candidate's entry. After the last candidate the trial either moves on to the
/// next vertex (some edge was added) or starts over from candidate `0`.
pub open spec fn step(s: BuildState, hit: bool) -> BuildState {
    if is_done(s) {
        s
    } else {
        let c = s.candidate as int;
        let adj = if hit {
            s.adj.update(c, s.adj[c].push(s.vertex as usize))
        } else {
            s.adj
        };
        let added = s.added || hit;
        if s.candidate + 1 < s.vertex {
            BuildState { adj, vertex: s.vertex, candidate: s.candidate + 1, added }
        } else if added {
            BuildState { adj, vertex: s.vertex + 1, candidate: 0, added: false }
        } else {
            BuildState { adj, vertex: s.vertex, candidate: 0, added: false }
        }
    }
}

/// The state reached from the start for `n` vertices by feeding `draws` in
/// order; draws after completion change nothing.
pub open spec fn run(n: nat, draws: Seq<bool>) -> BuildState
    decreases draws.len(),
{
    if draws.len() == 0 {
        initial(n)
    } else {
        step(run(n, draws.drop_last()), draws.last())
    }
}

/// What holds of every state reached by `step` from `initial`.
pub open spec fn state_inv(s: BuildState) -> bool {
    let adj = s.adj;
    let n = adj.len();
    let v = s.vertex;
    &&& n <= usize::MAX
    &&& 2 <= v
    &&& v <= n || v == 2
    &&& s.candidate < v
    &&& forall|i: int, k: int|
        0 <= i < n && 0 <= k < adj[i].len() ==> i < #[trigger] adj[i][k] < n && adj[i][k] <= v
            && (i >= s.candidate ==> adj[i][k] < v)
    &&& rows_increasing(adj)
    &&& head_linked(adj)
    &&& forall|w: int| 2 <= w < v && w < n ==> #[trigger] is_reached(adj, w)
    &&& s.added <==> exists|i: int| 0 <= i < s.candidate && #[trigger] has_edge(adj, i, v as int)
}

proof fn lemma_initial_inv(n: nat)
    requires
        n <= usize::MAX,
    ensures
        state_inv(initial(n)),
{
    let s = initial(n);
    assert forall|i: int, k: int| 0 <= i < n && 0 <= k < s.adj[i].len() implies i < #[trigger] s.adj[i][k] < n
        && s.adj[i][k] <= 2 && (i >= 0 ==> s.adj[i][k] < 2) by {
        assert(i == 0 && n > 1 && k == 0);
    }
    assert(!exists|i: int| 0 <= i < 0 && #[trigger] has_edge(s.adj, i, 2));
}

proof fn lemma_step_inv(s: BuildState, hit: bool)
    requires
        state_inv(s),
    ensures
        state_inv(step(s, hit)),
        step(s, hit).adj.len() == s.adj.len(),
{
    if is_done(s) {
        return;
    }
    let t = step(s, hit);
    let n = s.adj.len();
    let c = s.candidate as int;
    let v = s.vertex as int;
    let adj = t.adj;
    assert(adj.len() == n);
    // Entries other than the candidate's are untouched; the candidate's gains `v` at its end.
    assert forall|i: int, k: int| 0 <= i < n && 0 <= k < adj[i].len() implies (i != c || k < s.adj[c].len()
        ==> adj[i][k] == s.adj[i][k]) && (i == c && k >= s.adj[c].len() ==> hit && adj[i][k] == v)
        by {
        if hit && i == c {
            assert(adj[i] == s.adj[c].push(s.vertex as usize));
        }
    }
    assert forall|i: int, k: int| 0 <= i < n && 0 <= k < adj[i].len() implies i < #[trigger] adj[i][k] < n
        && adj[i][k] <= t.vertex && (i >= t.candidate ==> adj[i][k] < t.vertex) by {
        if i != c || k < s.adj[c].len() {
            assert(adj[i][k] == s.adj[i][k]);
            if t.candidate == 0 && t.vertex == v && i < c {
                // a retry: no lower entry holds `v`
                if adj[i][k] == v {
                    assert(has_edge(s.adj, i, v));
                }
            }
        }
    }
    assert(rows_increasing(adj)) by {
        assert forall|i: int, k1: int, k2: int| 0 <= i < n && 0 <= k1 < k2 < adj[i].len() implies #[trigger] adj[i][k1]
            < #[trigger] adj[i][k2] by {
            if i == c && k2 >= s.adj[c].len() {
                assert(s.adj[c][k1] < v);
            }
        }
    }
    assert(head_linked(adj)) by {
        if n >= 2 && hit && c == 0 {
            assert(adj[0][0] == s.adj[0][0]);
        }
    }
    // Edges present before are present after.
    assert forall|i: int, w: int| #[trigger] has_edge(s.adj, i, w) implies has_edge(adj, i, w) by {
        let k = choose|k: int| 0 <= k < s.adj[i].len() && s.adj[i][k] == w;
        assert(adj[i][k] == s.adj[i][k]);
    }
    if hit {
        let k = s.adj[c].len() as int;
        assert(adj[c][k] == v);
        assert(has_edge(adj, c, v));
    }
    assert forall|w: int| 2 <= w < t.vertex && w < n implies #[trigger] is_reached(adj, w) by {
        if w < v {
            assert(is_reached(s.adj, w));
            let i = choose|i: int| 0 <= i < w && #[trigger] has_edge(s.adj, i, w);
            assert(has_edge(adj, i, w));
        } else {
            assert(w == v && (s.added || hit));
            if !hit {
                let i = choose|i: int| 0 <= i < c && #[trigger] has_edge(s.adj, i, v);
                assert(has_edge(adj, i, v));
            } else {
                assert(has_edge(adj, c, v));
            }
        }
    }
    let tv = t.vertex as int;
    if t.vertex == v + 1 {
        assert(!exists|i: int| 0 <= i < 0 && #[trigger] has_edge(adj, i, tv));
    } else if t.candidate == 0 {
        assert(!exists|i: int| 0 <= i < 0 && #[trigger] has_edge(adj, i, tv));
    } else {
        if t.added {
            if hit {
                assert(has_edge(adj, c, v));
            } else {
                let i = choose|i: int| 0 <= i < c && #[trigger] has_edge(s.adj, i, v);
                assert(has_edge(adj, i, v));
            }
        } else {
            assert forall|i: int| 0 <= i < t.candidate implies !#[trigger] has_edge(adj, i, v) by {
                if has_edge(adj, i, v) {
                    let k = choose|k: int| 0 <= k < adj[i].len() && adj[i][k] == v;
                    assert(adj[i][k] == s.adj[i][k]);
                    if i < c {
                        assert(has_edge(s.adj, i, v));
                    }
                }
            }
        }
    }
}

proof fn lemma_done_dag(s: BuildState)
    requires
        state_inv(s),
        is_done(s),
    ensures
        is_one_head_dag(s.adj),
{
    assert(edges_ascend(s.adj));
    assert(interior_reached(s.adj));
}

/// Every state reached from the start keeps the invariant and the vertex count.
pub proof fn lemma_run_inv(n: nat, draws: Seq<bool>)
    requires
        n <= usize::MAX,
    ensures
        state_inv(run(n, draws)),
        run(n, draws).adj.len() == n,
    decreases draws.len(),
{
    if draws.len() == 0 {
        lemma_initial_inv(n);
    } else {
        lemma_run_inv(n, draws.drop_last());
        lemma_step_inv(run(n, draws.drop_last()), draws.last());
    }
}

/// Once a prefix of the draws completes the structure, the rest are not consulted.
pub proof fn lemma_done_stable(n: nat, draws: Seq<bool>, i: int)
    requires
        0 <= i <= draws.len(),
        is_done(run(n, draws.take(i))),
    ensures
        run(n, draws) == run(n, draws.take(i)),
    decreases draws.len(),
{
    if draws.len() == i {
        assert(draws.take(i) =~= draws);
    } else {
        assert(draws.drop_last().take(i) =~= draws.take(i));
        lemma_done_stable(n, draws.drop_last(), i);
    }
}

/// A generation in progress, one draw at a time. The caller makes each draw:
/// for the candidate and vertex that `next_draw` names, it reports whether a
/// uniform value fell below the edge probability for their `edge_gap`.
pub struct DagBuilder {
    adj: AdjacencyList,
    vertex: usize,
    candidate: usize,
    added: bool,
}

impl View for DagBuilder {
    type V = BuildState;

    closed spec fn view(&self) -> BuildState {
        BuildState {
            adj: rows_view(&self.adj),
            vertex: self.vertex as nat,
            candidate: self.candidate as nat,
            added: self.added,
        }
    }
}

/// Number of index steps between a candidate and the vertex it may link to;
/// the edge probability decays with it.
pub fn edge_gap(candidate: usize, vertex: usize) -> (r: usize)
    requires
        candidate < vertex,
    ensures
        r == vertex - candidate - 1,
{
    vertex - candidate - 1
}

impl DagBuilder {
    /// The builder is in a state reachable from `new`.
    pub open spec fn wf(&self) -> bool {
        state_inv(self@)
    }

    /// Starts a generation of `n` vertices.
    pub fn new(n: usize) -> (r: Self)
        ensures
            r@ == initial(n as nat),
            r.wf(),
    {
        let mut adj: AdjacencyList = Vec::new();
        let mut i: usize = 0;
        while i < n
            invariant
                i <= n,
                adj@.len() == i,
                forall|j: int| 0 <= j < i ==> (#[trigger] adj@[j])@.len() == 0,
            decreases n - i,
        {
            adj.push(Vec::new());
            i = i + 1;
        }
        let ghost empty_rows = adj@;
        if n > 1 {
            adj[0].push(1);
        }
        assert forall|j: int| 0 <= j < n implies #[trigger] rows_view(&adj)[j] == initial_rows(n as nat)[j] by {
            if j == 0 && n > 1 {
                assert(adj@[0]@ =~= seq![1usize]);
            } else {
                assert(adj@[j] == empty_rows[j]);
                assert(adj@[j]@ =~= Seq::<usize>::empty());
            }
        }
        let r = DagBuilder { adj, vertex: 2, candidate: 0, added: false };
        assert(rows_view(&r.adj) =~= initial_rows(n as nat));
        proof {
            lemma_initial_inv(n as nat);
        }
        r
    }

    /// The candidate and the vertex of the next draw, or `None` once every
    /// vertex has its in-edges.
    pub fn next_draw(&self) -> (r: Option<(usize, usize)>)
        requires
            self.wf(),
        ensures
            r == (if is_done(self@) {
                None
            } else {
                Some((self@.candidate as usize, self@.vertex as usize))
            }),
    {
        if self.vertex >= self.adj.len() {
            None
        } else {
            Some((self.candidate, self.vertex))
        }
    }

    /// Every vertex has its in-edges.
    pub fn is_complete(&self) -> (r: bool)
        ensures
            r == is_done(self@),
    {
        self.vertex >= self.adj.len()
    }

    /// Takes the outcome of the draw that `next_draw` named: `hit` when the
    /// value fell below the edge probability. Does nothing once complete.
    pub fn record_draw(&mut self, hit: bool)
        requires
            old(self).wf(),
        ensures
            final(self).wf(),
            final(self)@ == step(old(self)@, hit),
    {
        proof {
            lemma_step_inv(self@, hit);
        }
        if self.vertex >= self.adj.len() {
            return;
        }
        let ghost before = self@;
        let c = self.candidate;
        let v = self.vertex;
        if hit {
            self.adj[c].push(v);
            assert(rows_view(&self.adj) =~= before.adj.update(c as int, before.adj[c as int].push(v)));
            self.added = true;
        }
        if c + 1 < v {
            self.candidate = c + 1;
        } else {
            if self.added {
                self.vertex = v + 1;
            }
            self.candidate = 0;
            self.added = false;
        }
    }

    /// Hands out the structure built so far.
    pub fn into_adjacency(self) -> (r: AdjacencyList)
        requires
            self.wf(),
        ensures
            rows_view(&r) == self@.adj,
            r@.len() == self@.adj.len(),
            is_done(self@) ==> is_one_head_dag(rows_view(&r)),
    {
        proof {
            if is_done(self@) {
                lemma_done_dag(self@);
            }
        }
        self.adj
    }
}

/// Generates a structure of `n` vertices from a fixed sequence of draw
/// outcomes, consumed in order. `None` when the draws run out first.
pub fn generate_from_draws(n: usize, draws: &Vec<bool>) -> (r: Option<AdjacencyList>)
    ensures
        r is Some <==> is_done(run(n as nat, draws@)),
        r matches Some(a) ==> rows_view(&a) == run(n as nat, draws@).adj && a@.len() == n
            && is_one_head_dag(rows_view(&a)),
{
    let mut b = DagBuilder::new(n);
    let mut i: usize = 0;
    proof {
        assert(draws@.take(0) =~= Seq::<bool>::empty());
    }
    while i < draws.len() && !b.is_complete()
        invariant
            i <= draws@.len(),
            b.wf(),
            b@ == run(n as nat, draws@.take(i as int)),
        decreases draws@.len() - i,
    {
        b.record_draw(draws[i]);
        proof {
            assert(draws@.take(i + 1).drop_last() =~= draws@.take(i as int));
        }
        i = i + 1;
    }
    proof {
        lemma_run_inv(n as nat, draws@);
        if i == draws.len() {
            assert(draws@.take(i as int) =~= draws@);
        } else {
            lemma_done_stable(n as nat, draws@, i as int);
        }
    }
    if b.is_complete() {
        Some(b.into_adjacency())
    } else {
        None
    }
}

} // verus!
