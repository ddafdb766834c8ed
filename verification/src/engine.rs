//! The priority-ordered search that fills a [`CostField`].

use vstd::prelude::*;

use crate::maze::{Costs, Grid, State};
use crate::search::{
    edge, index_of, is_path, lemma_path_cost_nonneg, lemma_path_prefix, lemma_state_index_injective,
    lemma_state_index_range, lemma_successors_facts, path_cost, spec_successors, state_index,
    step_cost, successors, valid_state, CostField, Frontier,
};
use crate::tally::{lemma_sum_pot_bounds, lemma_sum_pot_update, sum_pot};
use vstd::pervasive::VecAdditionalExecFns;

verus! {

/// One recorded predecessor is consistent: it is known, strictly cheaper,
/// and joined to `s` by an edge of exactly the cost difference.
pub open spec fn pred_ok(g: Grid, costs: Costs, f: CostField, s: State, p: State) -> bool {
    &&& f.cost_of(p) is Some
    &&& f.cost_of(p)->Some_0 < f.cost_of(s)->Some_0
    &&& edge(g, costs, p, s, (f.cost_of(s)->Some_0 - f.cost_of(p)->Some_0) as u64)
}

/// What the engine guarantees of the field it hands out: the start state
/// costs zero and has no predecessors; every recorded state is a valid
/// state; every other recorded state has at least one predecessor; and
/// every recorded predecessor explains its successor's cost.
pub open spec fn sound_field(g: Grid, costs: Costs, f: CostField) -> bool {
    &&& f.wf(g)
    &&& f.cost_of(g.spec_start_state()) == Some(0u64)
    &&& f.preds_of(g.spec_start_state()).len() == 0
    &&& forall|s: State| (#[trigger] f.cost_of(s)) is Some ==> valid_state(g, s)
    &&& forall|s: State|
        (#[trigger] f.cost_of(s)) is Some && s != g.spec_start_state() ==> f.preds_of(s).len() > 0
    &&& forall|s: State, i: int|
        #![trigger f.preds_of(s)[i]]
        f.cost_of(s) is Some && 0 <= i < f.preds_of(s).len() ==> pred_ok(
            g,
            costs,
            f,
            s,
            f.preds_of(s)[i],
        )
}

/// Whether the dense `expanded` table marks `s`.
pub open spec fn expanded_at(ex: Seq<bool>, w: int, h: int, s: State) -> bool {
    &&& s.cell.row < h
    &&& s.cell.col < w
    &&& ex[state_index(w, s)]
}

/// One successor of `q` is fully relaxed in `f`: unless its candidate
/// cost overflows `u64`, the successor is recorded at no more than that
/// candidate, and when the candidate is met exactly, `q` stands among
/// its predecessors.
pub open spec fn succ_clause(g: Grid, costs: Costs, f: CostField, q: State, i: int) -> bool {
    let t = spec_successors(g, costs, q)[i].0;
    let w = spec_successors(g, costs, q)[i].1;
    f.cost_of(q)->Some_0 + w <= u64::MAX ==> {
        &&& f.cost_of(t) is Some
        &&& f.cost_of(t)->Some_0 <= f.cost_of(q)->Some_0 + w
        &&& (f.cost_of(t)->Some_0 == f.cost_of(q)->Some_0 + w ==> f.preds_of(t).contains(q))
    }
}

/// Every successor of every expanded state is fully relaxed.
pub open spec fn relaxed(g: Grid, costs: Costs, f: CostField, ex: Seq<bool>) -> bool {
    forall|q: State, i: int|
        expanded_at(ex, g.width as int, g.height as int, q) && 0 <= i < spec_successors(
            g,
            costs,
            q,
        ).len() ==> #[trigger] succ_clause(g, costs, f, q, i)
}

/// Every discovered state is either expanded or waiting in the frontier
/// under its currently recorded cost.
pub open spec fn queued(g: Grid, f: CostField, ex: Seq<bool>, entries: Seq<(u64, State)>) -> bool {
    forall|s: State|
        (#[trigger] f.cost_of(s)) is Some ==> expanded_at(ex, g.width as int, g.height as int, s)
            || entries.contains((f.cost_of(s)->Some_0, s))
}

/// Among states recorded strictly below `bound`, every successor
/// relation is fully relaxed: costs never exceed the candidate, and every
/// exactly-met candidate has its source recorded as a predecessor. This
/// is what makes tied optimal routes reconstructible.
pub open spec fn ties_recorded(g: Grid, costs: Costs, f: CostField, bound: u64) -> bool {
    forall|q: State, i: int|
        f.cost_of(q) is Some && f.cost_of(q)->Some_0 < bound && 0 <= i < spec_successors(
            g,
            costs,
            q,
        ).len() ==> #[trigger] succ_clause(g, costs, f, q, i)
}

/// An element other than the removed one stays present.
proof fn lemma_contains_after_remove(
    s0: Seq<(u64, State)>,
    s1: Seq<(u64, State)>,
    e: (u64, State),
    x: (u64, State),
)
    requires
        s1.to_multiset() == s0.to_multiset().remove(e),
        s0.contains(x),
        x != e,
    ensures
        s1.contains(x),
{
    s0.to_multiset_ensures();
    s1.to_multiset_ensures();
    assert(s0.to_multiset().count(x) > 0);
    assert(s1.to_multiset().count(x) == s0.to_multiset().count(x));
}

/// Pushing keeps every present element present.
proof fn lemma_contains_after_push(s0: Seq<(u64, State)>, y: (u64, State), x: (u64, State))
    requires
        s0.contains(x),
    ensures
        s0.push(y).contains(x),
{
    let j = choose|j: int| 0 <= j < s0.len() && s0[j] == x;
    assert(s0.push(y)[j] == x);
}

/// The cut argument: any route from the start state either costs more
/// than a `u64` holds, or crosses the frontier at some queued entry's
/// cost, or ends in an expanded state whose recorded cost it covers.
proof fn lemma_frontier_cut(
    g: Grid,
    costs: Costs,
    f: CostField,
    ex: Seq<bool>,
    entries: Seq<(u64, State)>,
    p: Seq<State>,
)
    requires
        f.cost_of(g.spec_start_state()) == Some(0u64),
        relaxed(g, costs, f, ex),
        queued(g, f, ex, entries),
        forall|s: State|
            expanded_at(ex, g.width as int, g.height as int, s) ==> (#[trigger] f.cost_of(
                s,
            )) is Some,
        is_path(g, costs, p),
        p.first() == g.spec_start_state(),
    ensures
        path_cost(costs, p) > u64::MAX || (exists|i: int|
            0 <= i < entries.len() && (#[trigger] entries[i]).0 <= path_cost(costs, p)) || (
        expanded_at(ex, g.width as int, g.height as int, p.last()) && f.cost_of(
            p.last(),
        ) is Some && f.cost_of(p.last())->Some_0 <= path_cost(costs, p)),
    decreases p.len(),
{
    let w_ = g.width as int;
    let h_ = g.height as int;
    lemma_path_cost_nonneg(costs, p);
    if p.len() == 1 {
        assert(p.last() == g.spec_start_state());
        if !expanded_at(ex, w_, h_, p.last()) {
            assert(entries.contains((0u64, g.spec_start_state())));
            let i = choose|i: int|
                0 <= i < entries.len() && entries[i] == (0u64, g.spec_start_state());
            assert(entries[i].0 <= path_cost(costs, p));
        }
    } else {
        let q = p.drop_last();
        lemma_path_prefix(g, costs, p);
        lemma_path_cost_nonneg(costs, q);
        lemma_frontier_cut(g, costs, f, ex, entries, q);
        let a = q.last();
        let t = p.last();
        let w = step_cost(costs, a, t);
        assert(a == p[p.len() - 2]);
        assert(edge(g, costs, a, t, w));
        if path_cost(costs, q) > u64::MAX {
        } else if exists|i: int|
            0 <= i < entries.len() && (#[trigger] entries[i]).0 <= path_cost(costs, q) {
            let i = choose|i: int|
                0 <= i < entries.len() && (#[trigger] entries[i]).0 <= path_cost(costs, q);
            assert(entries[i].0 <= path_cost(costs, p));
        } else {
            let va = f.cost_of(a)->Some_0;
            let i = choose|i: int|
                0 <= i < spec_successors(g, costs, a).len() && spec_successors(g, costs, a)[i] == (
                t,
                w,
                );
            assert(succ_clause(g, costs, f, a, i));
            if va + w > u64::MAX {
                assert(path_cost(costs, p) > u64::MAX);
            } else {
                assert(f.cost_of(t) is Some && f.cost_of(t)->Some_0 <= va + w);
                if !expanded_at(ex, w_, h_, t) {
                    assert(entries.contains((f.cost_of(t)->Some_0, t)));
                    let j = choose|j: int|
                        0 <= j < entries.len() && entries[j] == (f.cost_of(t)->Some_0, t);
                    assert(entries[j].0 <= path_cost(costs, p));
                }
            }
        }
    }
}

/// Relaxation clauses survive lowering one unexpanded state's cost.
proof fn lemma_clauses_after_set(
    g: Grid,
    costs: Costs,
    f0: CostField,
    f1: CostField,
    ex: Seq<bool>,
    q0: State,
    upto: int,
    t: State,
    cand: u64,
)
    requires
        relaxed(g, costs, f0, ex),
        forall|i: int| 0 <= i < upto ==> #[trigger] succ_clause(g, costs, f0, q0, i),
        upto <= spec_successors(g, costs, q0).len(),
        !expanded_at(ex, g.width as int, g.height as int, t),
        t != q0,
        forall|x: State| x != t ==> f1.cost_of(x) == f0.cost_of(x),
        forall|x: State| x != t ==> f1.preds_of(x) == f0.preds_of(x),
        f1.cost_of(t) == Some(cand),
        f1.preds_of(t).contains(q0),
        match f0.cost_of(t) {
            Some(v) => cand < v,
            None => true,
        },
        f0.cost_of(q0) is Some,
        forall|s: State|
            expanded_at(ex, g.width as int, g.height as int, s) ==> (#[trigger] f0.cost_of(
                s,
            )) is Some,
    ensures
        relaxed(g, costs, f1, ex),
        forall|i: int| 0 <= i < upto ==> #[trigger] succ_clause(g, costs, f1, q0, i),
{
    assert forall|q: State, i: int|
        expanded_at(ex, g.width as int, g.height as int, q) && 0 <= i < spec_successors(
            g,
            costs,
            q,
        ).len() implies #[trigger] succ_clause(g, costs, f1, q, i) by {
        assert(succ_clause(g, costs, f0, q, i));
        lemma_one_clause_after_set(g, costs, f0, f1, q, i, t, cand);
    }
    assert forall|i: int| 0 <= i < upto implies #[trigger] succ_clause(g, costs, f1, q0, i) by {
        assert(succ_clause(g, costs, f0, q0, i));
        lemma_one_clause_after_set(g, costs, f0, f1, q0, i, t, cand);
    }
}

/// One relaxation clause survives lowering an unrelated state's cost.
proof fn lemma_one_clause_after_set(
    g: Grid,
    costs: Costs,
    f0: CostField,
    f1: CostField,
    q: State,
    i: int,
    t: State,
    cand: u64,
)
    requires
        succ_clause(g, costs, f0, q, i),
        0 <= i < spec_successors(g, costs, q).len(),
        q != t,
        forall|x: State| x != t ==> f1.cost_of(x) == f0.cost_of(x),
        forall|x: State| x != t ==> f1.preds_of(x) == f0.preds_of(x),
        f1.cost_of(t) == Some(cand),
        match f0.cost_of(t) {
            Some(v) => cand < v,
            None => true,
        },
    ensures
        succ_clause(g, costs, f1, q, i),
{
    let t2 = spec_successors(g, costs, q)[i].0;
    let w2 = spec_successors(g, costs, q)[i].1;
    if t2 == t {
        if f1.cost_of(q)->Some_0 + w2 <= u64::MAX {
            match f0.cost_of(t) {
                Some(v) => {
                    assert(v <= f0.cost_of(q)->Some_0 + w2);
                    assert(cand < f0.cost_of(q)->Some_0 + w2);
                },
                None => {
                    assert(f0.cost_of(t) is Some);
                },
            }
        }
    }
}

/// Relaxation clauses survive appending a predecessor to one state.
proof fn lemma_clauses_after_tie(
    g: Grid,
    costs: Costs,
    f0: CostField,
    f1: CostField,
    ex: Seq<bool>,
    q0: State,
    upto: int,
    t: State,
    added: State,
)
    requires
        relaxed(g, costs, f0, ex),
        forall|i: int| 0 <= i < upto ==> #[trigger] succ_clause(g, costs, f0, q0, i),
        upto <= spec_successors(g, costs, q0).len(),
        forall|x: State| f1.cost_of(x) == f0.cost_of(x),
        forall|x: State| x != t ==> f1.preds_of(x) == f0.preds_of(x),
        f1.preds_of(t) =~= f0.preds_of(t).push(added),
    ensures
        relaxed(g, costs, f1, ex),
        forall|i: int| 0 <= i < upto ==> #[trigger] succ_clause(g, costs, f1, q0, i),
{
    assert forall|q: State, i: int|
        expanded_at(ex, g.width as int, g.height as int, q) && 0 <= i < spec_successors(
            g,
            costs,
            q,
        ).len() implies #[trigger] succ_clause(g, costs, f1, q, i) by {
        assert(succ_clause(g, costs, f0, q, i));
        lemma_one_clause_after_tie(g, costs, f0, f1, q, i, t, added);
    }
    assert forall|i: int| 0 <= i < upto implies #[trigger] succ_clause(g, costs, f1, q0, i) by {
        assert(succ_clause(g, costs, f0, q0, i));
        lemma_one_clause_after_tie(g, costs, f0, f1, q0, i, t, added);
    }
}

/// One relaxation clause survives appending a predecessor.
proof fn lemma_one_clause_after_tie(
    g: Grid,
    costs: Costs,
    f0: CostField,
    f1: CostField,
    q: State,
    i: int,
    t: State,
    added: State,
)
    requires
        succ_clause(g, costs, f0, q, i),
        0 <= i < spec_successors(g, costs, q).len(),
        forall|x: State| f1.cost_of(x) == f0.cost_of(x),
        forall|x: State| x != t ==> f1.preds_of(x) == f0.preds_of(x),
        f1.preds_of(t) =~= f0.preds_of(t).push(added),
    ensures
        succ_clause(g, costs, f1, q, i),
{
    let t2 = spec_successors(g, costs, q)[i].0;
    if t2 == t && f0.preds_of(t).contains(q) {
        let j = choose|j: int| 0 <= j < f0.preds_of(t).len() && f0.preds_of(t)[j] == q;
        assert(f1.preds_of(t)[j] == q);
    }
}

/// Runs the priority-ordered search from the start state.
///
/// Returns the cost field, the first goal-cell state finalized together
/// with its cost (`None` when the frontier ran dry first), and the ghost
/// finalization trace: each state paired with its cost, in the order the
/// states were finalized. The trace's costs are non-decreasing — states
/// are finalized in order of ascending cost.
///
/// A goal hit at cost `c` is minimal: no route from the start state to
/// the goal cell costs less, and every successor relation among states
/// recorded below `c` is fully relaxed with all tied predecessors
/// recorded. When the frontier runs dry instead, no route to the goal
/// cell whose cost fits a `u64` exists at all.
#[verifier::loop_isolation(false)]
#[verifier::rlimit(100)]
pub fn dijkstra(g: &Grid, costs: Costs) -> (r: (CostField, Option<(State, u64)>, Ghost<
    Seq<(State, u64)>,
>))
    requires
        g.wf(),
        costs.positive(),
    ensures
        ({
            let (field, goal_hit, trace) = r;
            &&& sound_field(*g, costs, field)
            &&& forall|i: int, j: int|
                0 <= i < j < trace@.len() ==> (#[trigger] trace@[i]).1 <= (#[trigger] trace@[j]).1
            &&& forall|i: int|
                0 <= i < trace@.len() ==> field.cost_of((#[trigger] trace@[i]).0) == Some(
                    trace@[i].1,
                )
            &&& match goal_hit {
                Some(e) => {
                    &&& e.0.cell == g.goal
                    &&& field.cost_of(e.0) == Some(e.1)
                    &&& trace@.len() > 0
                    &&& trace@.last() == e
                    &&& forall|p: Seq<State>|
                        #[trigger] is_path(*g, costs, p) && p.first() == g.spec_start_state()
                            && p.last().cell == g.goal ==> path_cost(costs, p) >= e.1
                    &&& ties_recorded(*g, costs, field, e.1)
                },
                None => forall|p: Seq<State>|
                    #[trigger] is_path(*g, costs, p) && p.first() == g.spec_start_state()
                        && p.last().cell == g.goal ==> path_cost(costs, p) > u64::MAX,
            }
        }),
{
    let start = g.start_state();
    let mut field = CostField::new(g);
    field.set_start(g, start, 0);
    let mut frontier = Frontier::new();
    frontier.push(0, start);
    assert((g.width as int) * (g.height as int) * 4 == 4 * (g.width as int) * (g.height as int))
        by (nonlinear_arith);
    let n = (g.width * g.height) * 4;
    let mut expanded: Vec<bool> = vec![false; n];
    let ghost mut trace: Seq<(State, u64)> = Seq::empty();
    let mut goal_hit: Option<(State, u64)> = None;
    proof {
        assert forall|s: State| !expanded_at(expanded@, g.width as int, g.height as int, s) by {
            if s.cell.row < g.height && s.cell.col < g.width {
                lemma_state_index_range(g.width as int, g.height as int, s);
            }
        }
        lemma_sum_pot_bounds(field.cost@, u64::MAX as int);
        assert(frontier.entries@[0] == (0u64, start));
    }
    #[verifier::loop_isolation(true)]
    loop
        invariant_except_break
            goal_hit is None,
            forall|s: State|
                expanded_at(expanded@, g.width as int, g.height as int, s) ==> s.cell != g.goal,
            relaxed(*g, costs, field, expanded@),
        invariant
            g.wf(),
            costs.positive(),
            start == g.spec_start_state(),
            n == 4 * g.width * g.height,
            field.wf(*g),
            expanded@.len() == n,
            sound_field(*g, costs, field),
            queued(*g, field, expanded@, frontier.entries@),
            0 <= sum_pot(field.cost@, u64::MAX as int),
            forall|i: int, j: int|
                0 <= i < j < trace.len() ==> (#[trigger] trace[i]).1 <= (#[trigger] trace[j]).1,
            forall|i: int|
                0 <= i < trace.len() ==> field.cost_of((#[trigger] trace[i]).0) == Some(
                    trace[i].1,
                ),
            forall|i: int|
                0 <= i < trace.len() ==> expanded_at(
                    expanded@,
                    g.width as int,
                    g.height as int,
                    (#[trigger] trace[i]).0,
                ),
            forall|i: int|
                0 <= i < frontier.entries@.len() ==> {
                    let e = #[trigger] frontier.entries@[i];
                    &&& trace.len() > 0 ==> e.0 >= trace.last().1
                    &&& field.cost_of(e.1) is Some
                    &&& field.cost_of(e.1)->Some_0 <= e.0
                },
            forall|s: State|
                expanded_at(expanded@, g.width as int, g.height as int, s) ==> {
                    &&& (#[trigger] field.cost_of(s)) is Some
                    &&& trace.len() > 0 && field.cost_of(s)->Some_0 <= trace.last().1
                },
            forall|s: State, i: int|
                #![trigger field.preds_of(s)[i]]
                field.cost_of(s) is Some && 0 <= i < field.preds_of(s).len() ==> expanded_at(
                    expanded@,
                    g.width as int,
                    g.height as int,
                    field.preds_of(s)[i],
                ),
        ensures
            sound_field(*g, costs, field),
            forall|i: int, j: int|
                0 <= i < j < trace.len() ==> (#[trigger] trace[i]).1 <= (#[trigger] trace[j]).1,
            forall|i: int|
                0 <= i < trace.len() ==> field.cost_of((#[trigger] trace[i]).0) == Some(
                    trace[i].1,
                ),
            match goal_hit {
                Some(e) => {
                    &&& e.0.cell == g.goal
                    &&& field.cost_of(e.0) == Some(e.1)
                    &&& trace.len() > 0
                    &&& trace.last() == e
                    &&& forall|p: Seq<State>|
                        #[trigger] is_path(*g, costs, p) && p.first() == g.spec_start_state()
                            && p.last().cell == g.goal ==> path_cost(costs, p) >= e.1
                    &&& ties_recorded(*g, costs, field, e.1)
                },
                None => forall|p: Seq<State>|
                    #[trigger] is_path(*g, costs, p) && p.first() == g.spec_start_state()
                        && p.last().cell == g.goal ==> path_cost(costs, p) > u64::MAX,
            },
        decreases sum_pot(field.cost@, u64::MAX as int), frontier.entries@.len(),
    {
        let ghost en_pre = frontier.entries@;
        let popped = frontier.pop_min();
        let (c, s) = match popped {
            None => {
                proof {
                    assert forall|p: Seq<State>|
                        #[trigger] is_path(*g, costs, p) && p.first() == g.spec_start_state()
                            && p.last().cell == g.goal implies path_cost(costs, p)
                        > u64::MAX by {
                        lemma_frontier_cut(*g, costs, field, expanded@, frontier.entries@, p);
                    }
                }
                break ;
            },
            Some(e) => e,
        };
        let stored = field.get_cost(g, s);
        let stale = match stored {
            Some(v) => v != c,
            None => true,
        };
        if stale {
            // a better cost for `s` was recorded after this entry was pushed
            proof {
                assert forall|s2: State| (#[trigger] field.cost_of(s2)) is Some implies
                    expanded_at(expanded@, g.width as int, g.height as int, s2)
                        || frontier.entries@.contains((field.cost_of(s2)->Some_0, s2)) by {
                    if !expanded_at(expanded@, g.width as int, g.height as int, s2) {
                        assert(en_pre.contains((field.cost_of(s2)->Some_0, s2)));
                        assert((field.cost_of(s2)->Some_0, s2) != (c, s));
                        lemma_contains_after_remove(
                            en_pre,
                            frontier.entries@,
                            (c, s),
                            (field.cost_of(s2)->Some_0, s2),
                        );
                    }
                }
            }
            continue ;
        }
        let idx = index_of(g.width, g.height, s);
        if expanded[idx] {
            proof {
                assert forall|s2: State| (#[trigger] field.cost_of(s2)) is Some implies
                    expanded_at(expanded@, g.width as int, g.height as int, s2)
                        || frontier.entries@.contains((field.cost_of(s2)->Some_0, s2)) by {
                    if !expanded_at(expanded@, g.width as int, g.height as int, s2) {
                        assert(en_pre.contains((field.cost_of(s2)->Some_0, s2)));
                        assert(s2 != s);
                        lemma_contains_after_remove(
                            en_pre,
                            frontier.entries@,
                            (c, s),
                            (field.cost_of(s2)->Some_0, s2),
                        );
                    }
                }
            }
            continue ;
        }
        // `s` is finalized at cost `c`
        let ghost old_ex = expanded@;
        expanded.set(idx, true);
        proof {
            trace = trace.push((s, c));
            assert(expanded_at(expanded@, g.width as int, g.height as int, s));
            assert forall|t: State|
                expanded_at(old_ex, g.width as int, g.height as int, t) implies expanded_at(
                expanded@,
                g.width as int,
                g.height as int,
                t,
            ) by {
                lemma_state_index_range(g.width as int, g.height as int, t);
            }
            assert forall|t: State|
                expanded_at(expanded@, g.width as int, g.height as int, t) && t != s implies
            expanded_at(old_ex, g.width as int, g.height as int, t) by {
                lemma_state_index_range(g.width as int, g.height as int, t);
                if state_index(g.width as int, t) == state_index(g.width as int, s) {
                    lemma_state_index_injective(g.width as int, g.height as int, s, t);
                }
            }
            assert forall|t: State|
                expanded_at(expanded@, g.width as int, g.height as int, t) implies {
                &&& field.cost_of(t) is Some
                &&& field.cost_of(t)->Some_0 <= c
            } by {
                if t != s {
                    assert(expanded_at(old_ex, g.width as int, g.height as int, t));
                }
            }
            assert forall|t: State, i: int|
                field.cost_of(t) is Some && 0 <= i < field.preds_of(t).len() implies expanded_at(
                expanded@,
                g.width as int,
                g.height as int,
                #[trigger] field.preds_of(t)[i],
            ) by {
                let p = field.preds_of(t)[i];
                assert(expanded_at(old_ex, g.width as int, g.height as int, p));
                lemma_state_index_range(g.width as int, g.height as int, p);
            }
            assert forall|i: int| 0 <= i < trace.len() implies expanded_at(
                expanded@,
                g.width as int,
                g.height as int,
                (#[trigger] trace[i]).0,
            ) by {
                if i < trace.len() - 1 {
                    assert(expanded_at(old_ex, g.width as int, g.height as int, trace[i].0));
                    lemma_state_index_range(g.width as int, g.height as int, trace[i].0);
                }
            }
            // the popped entry was the one holding `s` in the queue
            assert forall|s2: State| (#[trigger] field.cost_of(s2)) is Some implies expanded_at(
                expanded@,
                g.width as int,
                g.height as int,
                s2,
            ) || frontier.entries@.contains((field.cost_of(s2)->Some_0, s2)) by {
                if s2 != s && !expanded_at(expanded@, g.width as int, g.height as int, s2) {
                    assert(!expanded_at(old_ex, g.width as int, g.height as int, s2));
                    assert(en_pre.contains((field.cost_of(s2)->Some_0, s2)));
                    lemma_contains_after_remove(
                        en_pre,
                        frontier.entries@,
                        (c, s),
                        (field.cost_of(s2)->Some_0, s2),
                    );
                }
            }
        }
        if s.cell.row == g.goal.row && s.cell.col == g.goal.col {
            assert(s.cell == g.goal);
            goal_hit = Some((s, c));
            proof {
                // minimality: before this pop, every route to the goal
                // cell either crossed the frontier (all entries cost at
                // least `c`) or would have ended in an expanded goal
                // state, of which there were none
                assert forall|p: Seq<State>|
                    #[trigger] is_path(*g, costs, p) && p.first() == g.spec_start_state()
                        && p.last().cell == g.goal implies path_cost(costs, p) >= c by {
                    lemma_frontier_cut(*g, costs, field, old_ex, en_pre, p);
                    if exists|i: int|
                        0 <= i < en_pre.len() && (#[trigger] en_pre[i]).0 <= path_cost(costs, p) {
                        let i = choose|i: int|
                            0 <= i < en_pre.len() && (#[trigger] en_pre[i]).0 <= path_cost(
                                costs,
                                p,
                            );
                        assert(en_pre[i].0 >= c);
                    } else if path_cost(costs, p) > u64::MAX {
                    } else {
                        assert(expanded_at(old_ex, g.width as int, g.height as int, p.last()));
                        assert(p.last().cell != g.goal);
                    }
                }
                // every state recorded below `c` is expanded, hence
                // fully relaxed with its ties recorded
                assert(ties_recorded(*g, costs, field, c)) by {
                    assert forall|q: State, i: int|
                        field.cost_of(q) is Some && field.cost_of(q)->Some_0 < c && 0 <= i
                            < spec_successors(*g, costs, q).len() implies #[trigger] succ_clause(
                        *g,
                        costs,
                        field,
                        q,
                        i,
                    ) by {
                        if !expanded_at(old_ex, g.width as int, g.height as int, q) {
                            assert(en_pre.contains((field.cost_of(q)->Some_0, q)));
                            let j = choose|j: int|
                                0 <= j < en_pre.len() && en_pre[j] == (
                                field.cost_of(q)->Some_0,
                                q,
                                );
                            assert(en_pre[j].0 >= c);
                        }
                    }
                }
            }
            break ;
        }
        let succs = successors(g, costs, s);
        proof {
            lemma_successors_facts(*g, costs, s);
            // expanding `s` keeps every relaxation clause: the ones for
            // `s` itself are established by the loop below
            assert forall|q: State, i: int|
                expanded_at(old_ex, g.width as int, g.height as int, q) && 0 <= i
                    < spec_successors(*g, costs, q).len() implies #[trigger] succ_clause(
                *g,
                costs,
                field,
                q,
                i,
            ) by {}
        }
        let ghost pot0 = sum_pot(field.cost@, u64::MAX as int);
        let ghost len0 = frontier.entries@.len();
        let mut k: usize = 0;
        while k < succs.len()
            invariant
                k <= succs.len(),
                field.wf(*g),
                sound_field(*g, costs, field),
                field.cost_of(s) == Some(c),
                sum_pot(field.cost@, u64::MAX as int) <= pot0,
                sum_pot(field.cost@, u64::MAX as int) == pot0 ==> frontier.entries@.len() == len0,
                0 <= sum_pot(field.cost@, u64::MAX as int),
                relaxed(*g, costs, field, old_ex),
                forall|i: int| 0 <= i < k ==> #[trigger] succ_clause(*g, costs, field, s, i),
                queued(*g, field, expanded@, frontier.entries@),
                forall|i: int|
                    0 <= i < trace.len() ==> field.cost_of((#[trigger] trace[i]).0) == Some(
                        trace[i].1,
                    ),
                forall|i: int|
                    0 <= i < frontier.entries@.len() ==> {
                        let e = #[trigger] frontier.entries@[i];
                        &&& e.0 >= c
                        &&& field.cost_of(e.1) is Some
                        &&& field.cost_of(e.1)->Some_0 <= e.0
                    },
                forall|t: State|
                    expanded_at(expanded@, g.width as int, g.height as int, t) ==> {
                        &&& (#[trigger] field.cost_of(t)) is Some
                        &&& field.cost_of(t)->Some_0 <= c
                    },
                forall|t: State, i: int|
                    #![trigger field.preds_of(t)[i]]
                    field.cost_of(t) is Some && 0 <= i < field.preds_of(t).len() ==> expanded_at(
                        expanded@,
                        g.width as int,
                        g.height as int,
                        field.preds_of(t)[i],
                    ),
            decreases succs.len() - k,
        {
            let (t, w) = succs[k];
            assert(edge(*g, costs, s, t, w) && valid_state(*g, t) && t != s && w >= 1);
            let ghost f_pre = field;
            let cand = match c.checked_add(w) {
                Some(v) => v,
                None => {
                    proof {
                        assert(succ_clause(*g, costs, field, s, k as int));
                    }
                    k += 1;
                    continue ;
                },
            };
            let stored_t = field.get_cost(g, t);
            match stored_t {
                None => {
                    assert(t != g.spec_start_state());
                    assert(!expanded_at(expanded@, g.width as int, g.height as int, t));
                    assert(!expanded_at(old_ex, g.width as int, g.height as int, t));
                    proof {
                        lemma_state_index_range(g.width as int, g.height as int, t);
                        lemma_sum_pot_update(
                            field.cost@,
                            state_index(g.width as int, t),
                            Some(cand),
                            u64::MAX as int,
                        );
                    }
                    field.relax(g, t, cand, s);
                    proof {
                        lemma_clauses_after_set(
                            *g,
                            costs,
                            f_pre,
                            field,
                            old_ex,
                            s,
                            k as int,
                            t,
                            cand,
                        );
                        assert(succ_clause(*g, costs, field, s, k as int));
                    }
                    let ghost en0 = frontier.entries@;
                    frontier.push(cand, t);
                    proof {
                        assert forall|s2: State| (#[trigger] field.cost_of(s2)) is Some implies
                            expanded_at(expanded@, g.width as int, g.height as int, s2)
                                || frontier.entries@.contains(
                                (field.cost_of(s2)->Some_0, s2),
                            ) by {
                            if s2 == t {
                                assert(frontier.entries@.last() == (cand, t));
                            } else if !expanded_at(
                                expanded@,
                                g.width as int,
                                g.height as int,
                                s2,
                            ) {
                                assert(en0.contains((field.cost_of(s2)->Some_0, s2)));
                                lemma_contains_after_push(
                                    en0,
                                    (cand, t),
                                    (field.cost_of(s2)->Some_0, s2),
                                );
                            }
                        }
                    }
                },
                Some(ct) => {
                    if cand < ct {
                        assert(t != g.spec_start_state());
                        assert(!expanded_at(expanded@, g.width as int, g.height as int, t)) by {
                            if expanded_at(expanded@, g.width as int, g.height as int, t) {
                                assert(ct <= c);
                            }
                        }
                        assert(!expanded_at(old_ex, g.width as int, g.height as int, t));
                        proof {
                            lemma_state_index_range(g.width as int, g.height as int, t);
                            lemma_sum_pot_update(
                                field.cost@,
                                state_index(g.width as int, t),
                                Some(cand),
                                u64::MAX as int,
                            );
                        }
                        field.relax(g, t, cand, s);
                        proof {
                            lemma_clauses_after_set(
                                *g,
                                costs,
                                f_pre,
                                field,
                                old_ex,
                                s,
                                k as int,
                                t,
                                cand,
                            );
                            assert(succ_clause(*g, costs, field, s, k as int));
                        }
                        let ghost en0 = frontier.entries@;
                        frontier.push(cand, t);
                        proof {
                            assert forall|s2: State| (#[trigger] field.cost_of(s2)) is Some implies
                                expanded_at(expanded@, g.width as int, g.height as int, s2)
                                    || frontier.entries@.contains(
                                    (field.cost_of(s2)->Some_0, s2),
                                ) by {
                                if s2 == t {
                                    assert(frontier.entries@.last() == (cand, t));
                                } else if !expanded_at(
                                    expanded@,
                                    g.width as int,
                                    g.height as int,
                                    s2,
                                ) {
                                    assert(en0.contains((field.cost_of(s2)->Some_0, s2)));
                                    lemma_contains_after_push(
                                        en0,
                                        (cand, t),
                                        (field.cost_of(s2)->Some_0, s2),
                                    );
                                }
                            }
                        }
                    } else if cand == ct {
                        assert(t != g.spec_start_state());
                        field.add_pred(g, t, s);
                        proof {
                            assert(pred_ok(*g, costs, field, t, s));
                            lemma_clauses_after_tie(
                                *g,
                                costs,
                                f_pre,
                                field,
                                old_ex,
                                s,
                                k as int,
                                t,
                                s,
                            );
                            assert(field.preds_of(t).last() == s);
                            assert(succ_clause(*g, costs, field, s, k as int));
                        }
                    } else {
                        proof {
                            assert(succ_clause(*g, costs, field, s, k as int));
                        }
                    }
                },
            }
            proof {
                lemma_sum_pot_bounds(field.cost@, u64::MAX as int);
            }
            k += 1;
        }
        proof {
            // all of `s`'s successors are relaxed now
            assert forall|q: State, i: int|
                expanded_at(expanded@, g.width as int, g.height as int, q) && 0 <= i
                    < spec_successors(*g, costs, q).len() implies #[trigger] succ_clause(
                *g,
                costs,
                field,
                q,
                i,
            ) by {
                if q == s {
                    assert(spec_successors(*g, costs, s) == succs@);
                } else {
                    assert(expanded_at(old_ex, g.width as int, g.height as int, q));
                }
            }
        }
    }
    (field, goal_hit, Ghost(trace))
}

} // verus!
