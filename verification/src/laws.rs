//! Path-level statements about the engine's results.

use vstd::prelude::*;

use crate::engine::{pred_ok, sound_field};
use crate::maze::{Costs, Grid, State};
use crate::search::{edge, is_path, lemma_edge_weight, no_cheaper_path, path_cost, step_cost, CostField};
use crate::solve::{solution_ok, Solution};

verus! {

/// Every cost the engine records is achieved by an actual route from the
/// start state: the recorded predecessors witness one, edge by edge.
pub proof fn lemma_cost_achievable(g: Grid, costs: Costs, f: CostField, s: State)
    requires
        g.wf(),
        costs.positive(),
        sound_field(g, costs, f),
        f.cost_of(s) is Some,
    ensures
        exists|p: Seq<State>|
            #[trigger] is_path(g, costs, p) && p.first() == g.spec_start_state() && p.last() == s
                && path_cost(costs, p) == f.cost_of(s)->Some_0,
    decreases f.cost_of(s)->Some_0,
{
    let c = f.cost_of(s)->Some_0;
    if s == g.spec_start_state() {
        let p = seq![s];
        assert(is_path(g, costs, p) && p.first() == g.spec_start_state() && p.last() == s
            && path_cost(costs, p) == c);
    } else {
        assert(f.preds_of(s).len() > 0);
        let q = f.preds_of(s)[0];
        assert(pred_ok(g, costs, f, s, q));
        let cq = f.cost_of(q)->Some_0;
        lemma_cost_achievable(g, costs, f, q);
        let p = choose|p: Seq<State>|
            #[trigger] is_path(g, costs, p) && p.first() == g.spec_start_state() && p.last() == q
                && path_cost(costs, p) == cq;
        let p2 = p.push(s);
        lemma_edge_weight(g, costs, q, s, (c - cq) as u64);
        assert(is_path(g, costs, p2)) by {
            assert forall|i: int| 0 <= i < p2.len() - 1 implies edge(
                g,
                costs,
                #[trigger] p2[i],
                p2[i + 1],
                step_cost(costs, p2[i], p2[i + 1]),
            ) by {
                if i < p.len() - 1 {
                    assert(p2[i] == p[i] && p2[i + 1] == p[i + 1]);
                } else {
                    assert(p2[i] == q && p2[i + 1] == s);
                }
            }
        }
        assert(p2.drop_last() =~= p);
        assert(path_cost(costs, p2) == cq + step_cost(costs, q, s));
        assert(is_path(g, costs, p2) && p2.first() == g.spec_start_state() && p2.last() == s
            && path_cost(costs, p2) == c);
    }
}

/// The minimum cost a successful solve reports is the cost of an actual
/// route: a path of valid transitions from the start state to a
/// goal-cell state whose summed edge costs equal `min_cost`.
pub proof fn lemma_min_cost_achieved(g: Grid, costs: Costs, sol: Solution)
    requires
        g.wf(),
        costs.positive(),
        solution_ok(g, costs, sol),
    ensures
        exists|p: Seq<State>|
            #[trigger] is_path(g, costs, p) && p.first() == g.spec_start_state() && p.last().cell
                == g.goal && path_cost(costs, p) == sol.min_cost,
{
    let gs = choose|gs: State|
        #[trigger] sol.evidence@.cost_of(gs) == Some(sol.min_cost) && gs.cell == g.goal;
    lemma_cost_achievable(g, costs, sol.evidence@, gs);
    let p = choose|p: Seq<State>|
        #[trigger] is_path(g, costs, p) && p.first() == g.spec_start_state() && p.last() == gs
            && path_cost(costs, p) == sol.evidence@.cost_of(gs)->Some_0;
    assert(is_path(g, costs, p) && p.first() == g.spec_start_state() && p.last().cell == g.goal
        && path_cost(costs, p) == sol.min_cost);
}

/// Two conforming solutions for the same grid and weights report the
/// same minimum cost: each is achieved by a route, and neither admits a
/// cheaper one.
pub proof fn lemma_min_cost_unique(g: Grid, costs: Costs, s1: Solution, s2: Solution)
    requires
        g.wf(),
        costs.positive(),
        solution_ok(g, costs, s1),
        solution_ok(g, costs, s2),
    ensures
        s1.min_cost == s2.min_cost,
{
    lemma_min_cost_achieved(g, costs, s1);
    let p1 = choose|p: Seq<State>|
        #[trigger] is_path(g, costs, p) && p.first() == g.spec_start_state() && p.last().cell
            == g.goal && path_cost(costs, p) == s1.min_cost;
    assert(path_cost(costs, p1) >= s2.min_cost);
    lemma_min_cost_achieved(g, costs, s2);
    let p2 = choose|p: Seq<State>|
        #[trigger] is_path(g, costs, p) && p.first() == g.spec_start_state() && p.last().cell
            == g.goal && path_cost(costs, p) == s2.min_cost;
    assert(path_cost(costs, p2) >= s1.min_cost);
}

} // verus!
