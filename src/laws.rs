use vstd::prelude::*;

use crate::dag::{edges_ascend, head_linked, interior_reached, is_one_head_dag, rows_increasing};
use crate::generator::{initial, initial_rows, is_done, lemma_done_stable, lemma_run_inv, run, state_inv};

verus! {

proof fn lemma_small_runs_stay_initial(n: nat, draws: Seq<bool>)
    requires
        n < 2,
    ensures
        run(n, draws) == initial(n),
    decreases draws.len(),
{
    if draws.len() > 0 {
        lemma_small_runs_stay_initial(n, draws.drop_last());
    }
}

/// With no vertices the result is complete at once and empty, whatever the draws.
pub proof fn lemma_no_vertices(draws: Seq<bool>)
    ensures
        is_done(run(0, draws)),
        run(0, draws).adj.len() == 0,
{
    lemma_small_runs_stay_initial(0, draws);
}

/// With one vertex the result is complete at once: a single empty entry.
pub proof fn lemma_single_vertex(draws: Seq<bool>)
    ensures
        is_done(run(1, draws)),
        run(1, draws).adj == seq![Seq::<usize>::empty()],
{
    lemma_small_runs_stay_initial(1, draws);
    assert(initial_rows(1) =~= seq![Seq::<usize>::empty()]);
}

/// With two vertices or more, the head's first parent is vertex `1`, at every point of a generation.
pub proof fn lemma_head_first_parent(n: usize, draws: Seq<bool>)
    requires
        n >= 2,
    ensures
        run(n as nat, draws).adj[0].len() >= 1,
        run(n as nat, draws).adj[0][0] == 1,
{
    lemma_run_inv(n as nat, draws);
}

/// The root, vertex `n - 1`, never lists a parent.
pub proof fn lemma_root_has_no_parents(n: usize, draws: Seq<bool>)
    requires
        n >= 1,
    ensures
        run(n as nat, draws).adj[n - 1].len() == 0,
{
    lemma_run_inv(n as nat, draws);
    let adj = run(n as nat, draws).adj;
    if adj[n - 1].len() > 0 {
        assert(n - 1 < adj[n - 1][0] < n);
    }
}

/// Every edge goes from a lower index to a strictly higher one inside the
/// graph, so the structure is acyclic; no entry lists a parent twice.
pub proof fn lemma_edges_ascend(n: usize, draws: Seq<bool>)
    ensures
        edges_ascend(run(n as nat, draws).adj),
        rows_increasing(run(n as nat, draws).adj),
{
    lemma_run_inv(n as nat, draws);
}

/// Once complete, every vertex from `2` to `n - 1` is listed by a lower vertex.
pub proof fn lemma_interior_reached(n: usize, draws: Seq<bool>)
    requires
        is_done(run(n as nat, draws)),
    ensures
        interior_reached(run(n as nat, draws).adj),
        is_one_head_dag(run(n as nat, draws).adj),
        run(n as nat, draws).adj.len() == n,
{
    lemma_run_inv(n as nat, draws);
    let s = run(n as nat, draws);
    assert(state_inv(s));
    assert(edges_ascend(s.adj));
    assert(head_linked(s.adj));
}

/// The result is fixed by the draws that produced it: draws that come after
/// completion change nothing.
pub proof fn lemma_extra_draws_ignored(n: usize, draws: Seq<bool>, extra: Seq<bool>)
    requires
        is_done(run(n as nat, draws)),
    ensures
        run(n as nat, draws + extra) == run(n as nat, draws),
{
    assert((draws + extra).take(draws.len() as int) =~= draws);
    lemma_done_stable(n as nat, draws + extra, draws.len() as int);
}

/// With three vertices or more, draws that all miss never complete the
/// structure: the trial for vertex `2` starts over without end.
pub proof fn lemma_misses_never_complete(n: usize, draws: Seq<bool>)
    requires
        n >= 3,
        forall|i: int| 0 <= i < draws.len() ==> !#[trigger] draws[i],
    ensures
        !is_done(run(n as nat, draws)),
        run(n as nat, draws).vertex == 2,
        run(n as nat, draws).adj == initial_rows(n as nat),
    decreases draws.len(),
{
    lemma_run_inv(n as nat, draws);
    if draws.len() > 0 {
        let d = draws.drop_last();
        assert forall|i: int| 0 <= i < d.len() implies !#[trigger] d[i] by {
            assert(d[i] == draws[i]);
        }
        lemma_misses_never_complete(n, d);
        lemma_run_inv(n as nat, d);
    }
}

} // verus!
