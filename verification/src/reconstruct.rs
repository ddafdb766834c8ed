//! Backward traversal of a cost field: the cells on optimal paths.

use vstd::prelude::*;

use crate::engine::{expanded_at, sound_field};
use crate::maze::{Cell, Costs, Facing, Grid, State};
use crate::search::{
    cell_index, cell_index_of, index_of, lemma_cell_index_injective, lemma_cell_index_range,
    lemma_state_index_injective, lemma_state_index_range, state_index, CostField,
};
use crate::tally::{count_true, lemma_count_true_bounds, lemma_count_true_update};
use vstd::pervasive::VecAdditionalExecFns;

verus! {

/// A backward chain of recorded predecessors: it begins at a goal-cell
/// state recorded at the minimum cost, and each later state is a recorded
/// predecessor of the one before it.
pub open spec fn back_chain(g: Grid, f: CostField, min: u64, chain: Seq<State>) -> bool {
    &&& chain.len() >= 1
    &&& chain[0].cell == g.goal
    &&& f.cost_of(chain[0]) == Some(min)
    &&& forall|i: int|
        0 <= i < chain.len() - 1 ==> f.preds_of(#[trigger] chain[i]).contains(chain[i + 1])
}

/// `s` lies on an optimal route: some backward predecessor chain from a
/// minimal goal-cell state ends at `s`.
pub open spec fn on_best(g: Grid, f: CostField, min: u64, s: State) -> bool {
    exists|chain: Seq<State>| #[trigger] back_chain(g, f, min, chain) && chain.last() == s
}

/// Some state on an optimal route stands on `cl`.
pub open spec fn cell_on_best(g: Grid, f: CostField, min: u64, cl: Cell) -> bool {
    exists|s: State| #[trigger] on_best(g, f, min, s) && s.cell == cl
}

/// A visited state the traversal is finished with: its cell is recorded,
/// and (unless it is the start state) so are all its predecessors.
pub open spec fn done_state(
    g: Grid,
    f: CostField,
    cells: Seq<Cell>,
    vs: Seq<bool>,
    s: State,
) -> bool {
    &&& cells.contains(s.cell)
    &&& (s == g.spec_start_state() || forall|i: int|
        0 <= i < f.preds_of(s).len() ==> expanded_at(
            vs,
            g.width as int,
            g.height as int,
            #[trigger] f.preds_of(s)[i],
        ))
}

/// A minimal goal-cell state starts a one-state chain.
pub proof fn lemma_on_best_seed(g: Grid, f: CostField, min: u64, s: State)
    requires
        s.cell == g.goal,
        f.cost_of(s) == Some(min),
    ensures
        on_best(g, f, min, s),
{
    let chain = seq![s];
    assert(back_chain(g, f, min, chain) && chain.last() == s);
}

/// A recorded predecessor of a state on an optimal route is itself on an
/// optimal route.
pub proof fn lemma_on_best_step(g: Grid, f: CostField, min: u64, s: State, p: State)
    requires
        on_best(g, f, min, s),
        f.preds_of(s).contains(p),
    ensures
        on_best(g, f, min, p),
{
    let chain = choose|chain: Seq<State>|
        #[trigger] back_chain(g, f, min, chain) && chain.last() == s;
    let chain2 = chain.push(p);
    assert(back_chain(g, f, min, chain2)) by {
        assert forall|i: int| 0 <= i < chain2.len() - 1 implies f.preds_of(
            #[trigger] chain2[i],
        ).contains(chain2[i + 1]) by {
            if i < chain.len() - 1 {
                assert(chain2[i] == chain[i] && chain2[i + 1] == chain[i + 1]);
            } else {
                assert(chain2[i] == s && chain2[i + 1] == p);
            }
        }
    }
    assert(chain2.last() == p);
}

/// Every state on an optimal route was visited by the traversal, provided
/// the visited table is seeded with the minimal goal states and closed
/// under recorded predecessors.
proof fn lemma_chain_visited(
    g: Grid,
    costs: Costs,
    f: CostField,
    min: u64,
    vs: Seq<bool>,
    chain: Seq<State>,
)
    requires
        g.wf(),
        sound_field(g, costs, f),
        forall|t: State|
            t.cell == g.goal && #[trigger] f.cost_of(t) == Some(min) ==> expanded_at(
                vs,
                g.width as int,
                g.height as int,
                t,
            ),
        forall|t: State, i: int|
            #![trigger f.preds_of(t)[i]]
            expanded_at(vs, g.width as int, g.height as int, t) && 0 <= i < f.preds_of(t).len()
                ==> expanded_at(vs, g.width as int, g.height as int, f.preds_of(t)[i]),
        forall|t: State|
            expanded_at(vs, g.width as int, g.height as int, t) ==> (#[trigger] f.cost_of(
                t,
            )) is Some,
        back_chain(g, f, min, chain),
    ensures
        expanded_at(vs, g.width as int, g.height as int, chain.last()),
    decreases chain.len(),
{
    if chain.len() == 1 {
    } else {
        let prefix = chain.drop_last();
        assert(back_chain(g, f, min, prefix)) by {
            assert forall|i: int| 0 <= i < prefix.len() - 1 implies f.preds_of(
                #[trigger] prefix[i],
            ).contains(prefix[i + 1]) by {
                assert(chain[i] == prefix[i] && chain[i + 1] == prefix[i + 1]);
            }
        }
        lemma_chain_visited(g, costs, f, min, vs, prefix);
        let n = chain.len() - 2;
        assert(f.preds_of(chain[n]).contains(chain[n + 1]));
        let j = choose|j: int|
            0 <= j < f.preds_of(chain[n]).len() && f.preds_of(chain[n])[j] == chain[n + 1];
        assert(f.preds_of(chain[n])[j] == chain.last());
    }
}

/// Walking recorded predecessors backward from any visited state reaches
/// the start state, because predecessor costs strictly decrease.
proof fn lemma_start_visited(g: Grid, costs: Costs, f: CostField, vs: Seq<bool>, s: State)
    requires
        g.wf(),
        sound_field(g, costs, f),
        forall|t: State|
            expanded_at(vs, g.width as int, g.height as int, t) ==> (#[trigger] f.cost_of(
                t,
            )) is Some,
        forall|t: State, i: int|
            #![trigger f.preds_of(t)[i]]
            expanded_at(vs, g.width as int, g.height as int, t) && 0 <= i < f.preds_of(t).len()
                ==> expanded_at(vs, g.width as int, g.height as int, f.preds_of(t)[i]),
        expanded_at(vs, g.width as int, g.height as int, s),
    ensures
        expanded_at(vs, g.width as int, g.height as int, g.spec_start_state()),
    decreases f.cost_of(s)->Some_0,
{
    if s == g.spec_start_state() {
    } else {
        assert(f.preds_of(s).len() > 0);
        let p = f.preds_of(s)[0];
        lemma_start_visited(g, costs, f, vs, p);
    }
}

/// What the traversal's worklist phase leaves behind, before the final
/// conclusions are drawn.
pub open spec fn traversal_done(
    g: Grid,
    f: CostField,
    min: u64,
    vs: Seq<bool>,
    cells: Seq<Cell>,
) -> bool {
    &&& forall|s: State|
        expanded_at(vs, g.width as int, g.height as int, s) ==> on_best(g, f, min, s) && (
        #[trigger] f.cost_of(s)) is Some
    &&& forall|s: State|
        s.cell == g.goal && #[trigger] f.cost_of(s) == Some(min) ==> expanded_at(
            vs,
            g.width as int,
            g.height as int,
            s,
        )
    &&& forall|s: State|
        expanded_at(vs, g.width as int, g.height as int, s) ==> done_state(g, f, cells, vs, s)
    &&& forall|i: int|
        0 <= i < cells.len() ==> exists|s: State|
            expanded_at(vs, g.width as int, g.height as int, s) && s.cell == #[trigger] cells[i]
}

/// A fully processed visited table is closed under recorded predecessors.
proof fn lemma_visited_closed(g: Grid, costs: Costs, f: CostField, min: u64, vs: Seq<bool>, cells: Seq<Cell>)
    requires
        g.wf(),
        sound_field(g, costs, f),
        forall|s: State|
            expanded_at(vs, g.width as int, g.height as int, s) ==> done_state(g, f, cells, vs, s),
    ensures
        forall|t: State, i: int|
            #![trigger f.preds_of(t)[i]]
            expanded_at(vs, g.width as int, g.height as int, t) && 0 <= i < f.preds_of(t).len()
                ==> expanded_at(vs, g.width as int, g.height as int, f.preds_of(t)[i]),
{
    let w = g.width as int;
    let h = g.height as int;
    assert forall|t: State, i: int|
        #![trigger f.preds_of(t)[i]]
        expanded_at(vs, w, h, t) && 0 <= i < f.preds_of(t).len() implies expanded_at(
        vs,
        w,
        h,
        f.preds_of(t)[i],
    ) by {
        assert(done_state(g, f, cells, vs, t));
        if t == g.spec_start_state() {
            assert(f.preds_of(t).len() == 0);
        }
    }
}

/// Everything on an optimal route ends up in the collected cells.
proof fn lemma_cells_complete(
    g: Grid,
    costs: Costs,
    f: CostField,
    min: u64,
    vs: Seq<bool>,
    cells: Seq<Cell>,
)
    requires
        g.wf(),
        costs.positive(),
        sound_field(g, costs, f),
        traversal_done(g, f, min, vs, cells),
        forall|t: State, i: int|
            #![trigger f.preds_of(t)[i]]
            expanded_at(vs, g.width as int, g.height as int, t) && 0 <= i < f.preds_of(t).len()
                ==> expanded_at(vs, g.width as int, g.height as int, f.preds_of(t)[i]),
    ensures
        forall|s: State| #[trigger] on_best(g, f, min, s) ==> cells.contains(s.cell),
{
    assert forall|s: State| #[trigger] on_best(g, f, min, s) implies cells.contains(s.cell) by {
        let chain = choose|chain: Seq<State>|
            #[trigger] back_chain(g, f, min, chain) && chain.last() == s;
        lemma_chain_visited(g, costs, f, min, vs, chain);
        assert(done_state(g, f, cells, vs, s));
    }
}

/// The goal cell and the start cell are always among the collected cells.
proof fn lemma_endpoints(
    g: Grid,
    costs: Costs,
    f: CostField,
    min: u64,
    vs: Seq<bool>,
    cells: Seq<Cell>,
)
    requires
        g.wf(),
        costs.positive(),
        sound_field(g, costs, f),
        exists|gs: State| (#[trigger] f.cost_of(gs)) == Some(min) && gs.cell == g.goal,
        traversal_done(g, f, min, vs, cells),
        forall|t: State, i: int|
            #![trigger f.preds_of(t)[i]]
            expanded_at(vs, g.width as int, g.height as int, t) && 0 <= i < f.preds_of(t).len()
                ==> expanded_at(vs, g.width as int, g.height as int, f.preds_of(t)[i]),
    ensures
        cells.contains(g.goal),
        cells.contains(g.start),
{
    let w = g.width as int;
    let h = g.height as int;
    let gs = choose|gs: State| (#[trigger] f.cost_of(gs)) == Some(min) && gs.cell == g.goal;
    assert(expanded_at(vs, w, h, gs));
    assert(done_state(g, f, cells, vs, gs));
    assert(cells.contains(g.goal));
    lemma_start_visited(g, costs, f, vs, gs);
    assert(done_state(g, f, cells, vs, g.spec_start_state()));
    assert(cells.contains(g.start));
}

/// Every collected cell belongs to some state on an optimal route.
proof fn lemma_cells_sound(
    g: Grid,
    costs: Costs,
    f: CostField,
    min: u64,
    vs: Seq<bool>,
    cells: Seq<Cell>,
)
    requires
        traversal_done(g, f, min, vs, cells),
    ensures
        forall|i: int| 0 <= i < cells.len() ==> cell_on_best(g, f, min, #[trigger] cells[i]),
{
    let w = g.width as int;
    let h = g.height as int;
    assert forall|i: int| 0 <= i < cells.len() implies cell_on_best(
        g,
        f,
        min,
        #[trigger] cells[i],
    ) by {
        let s = choose|s: State| expanded_at(vs, w, h, s) && s.cell == cells[i];
        let c0 = f.cost_of(s);
        assert(on_best(g, f, min, s) && s.cell == cells[i]);
    }
}

/// The final conclusions: a finished traversal has collected exactly the
/// cells of the states on optimal routes, the goal cell and the start
/// cell among them.
proof fn lemma_traversal_conclusions(
    g: Grid,
    costs: Costs,
    f: CostField,
    min: u64,
    vs: Seq<bool>,
    cells: Seq<Cell>,
)
    requires
        g.wf(),
        costs.positive(),
        sound_field(g, costs, f),
        exists|gs: State| (#[trigger] f.cost_of(gs)) == Some(min) && gs.cell == g.goal,
        traversal_done(g, f, min, vs, cells),
    ensures
        forall|i: int| 0 <= i < cells.len() ==> cell_on_best(g, f, min, #[trigger] cells[i]),
        forall|s: State| #[trigger] on_best(g, f, min, s) ==> cells.contains(s.cell),
        cells.contains(g.goal),
        cells.contains(g.start),
{
    lemma_visited_closed(g, costs, f, min, vs, cells);
    lemma_endpoints(g, costs, f, min, vs, cells);
    lemma_cells_complete(g, costs, f, min, vs, cells);
    lemma_cells_sound(g, costs, f, min, vs, cells);
}

/// Marks and queues every goal-cell state whose recorded cost is `min`.
#[verifier::loop_isolation(false)]
#[verifier::rlimit(100)]
fn seed_goals(g: &Grid, field: &CostField, min: u64, n: usize) -> (r: (Vec<bool>, Vec<State>))
    requires
        g.wf(),
        field.wf(*g),
        n == 4 * g.width * g.height,
    ensures
        r.0@.len() == n,
        count_true(r.0@) <= n,
        forall|s: State|
            expanded_at(r.0@, g.width as int, g.height as int, s) ==> s.cell == g.goal
                && field.cost_of(s) == Some(min) && on_best(*g, *field, min, s),
        forall|i: int|
            0 <= i < r.1@.len() ==> expanded_at(
                r.0@,
                g.width as int,
                g.height as int,
                #[trigger] r.1@[i],
            ),
        forall|s: State|
            s.cell == g.goal && #[trigger] field.cost_of(s) == Some(min) ==> expanded_at(
                r.0@,
                g.width as int,
                g.height as int,
                s,
            ),
        forall|s: State|
            expanded_at(r.0@, g.width as int, g.height as int, s) ==> r.1@.contains(s),
{
    let mut visited: Vec<bool> = vec![false; n];
    let mut work: Vec<State> = Vec::new();
    proof {
        assert forall|s: State| !expanded_at(visited@, g.width as int, g.height as int, s) by {
            if s.cell.row < g.height && s.cell.col < g.width {
                lemma_state_index_range(g.width as int, g.height as int, s);
            }
        }
        lemma_count_true_bounds(visited@);
    }
    let seeds: [Facing; 4] = [Facing::North, Facing::East, Facing::South, Facing::West];
    let mut fi: usize = 0;
    while fi < 4
        invariant
            fi <= 4,
            visited@.len() == n,
            count_true(visited@) <= n,
            forall|s: State|
                expanded_at(visited@, g.width as int, g.height as int, s) ==> s.cell == g.goal
                    && field.cost_of(s) == Some(min) && on_best(*g, *field, min, s),
            forall|i: int|
                0 <= i < work@.len() ==> expanded_at(
                    visited@,
                    g.width as int,
                    g.height as int,
                    #[trigger] work@[i],
                ),
            forall|s: State|
                s.cell == g.goal && #[trigger] field.cost_of(s) == Some(min)
                    && s.facing.spec_index() < fi ==> expanded_at(
                    visited@,
                    g.width as int,
                    g.height as int,
                    s,
                ),
            forall|s: State|
                expanded_at(visited@, g.width as int, g.height as int, s) ==> work@.contains(s),
        decreases 4 - fi,
    {
        let s = State { cell: g.goal_cell(), facing: seeds[fi] };
        assert(s.facing.spec_index() == fi);
        if let Some(c) = field.get_cost(g, s) {
            if c == min {
                let ghost old_vs = visited@;
                let ghost old_work = work@;
                let idx = index_of(g.width, g.height, s);
                if !visited[idx] {
                    visited.set(idx, true);
                    work.push(s);
                    proof {
                        lemma_count_true_update(old_vs, idx as int, true);
                        lemma_count_true_bounds(visited@);
                        lemma_on_best_seed(*g, *field, min, s);
                        assert forall|t: State|
                            expanded_at(visited@, g.width as int, g.height as int, t) && t
                                != s implies expanded_at(
                            old_vs,
                            g.width as int,
                            g.height as int,
                            t,
                        ) by {
                            lemma_state_index_range(g.width as int, g.height as int, t);
                            if state_index(g.width as int, t) == state_index(g.width as int, s) {
                                lemma_state_index_injective(g.width as int, g.height as int, s, t);
                            }
                        }
                        assert forall|t: State|
                            expanded_at(visited@, g.width as int, g.height as int, t) implies
                        work@.contains(t) by {
                            if t == s {
                                assert(work@.last() == s);
                            } else {
                                assert(expanded_at(old_vs, g.width as int, g.height as int, t));
                                assert(old_work.contains(t));
                                let k = choose|k: int| 0 <= k < old_work.len() && old_work[k] == t;
                                assert(work@[k] == t);
                            }
                        }
                        assert forall|i: int| 0 <= i < work@.len() implies expanded_at(
                            visited@,
                            g.width as int,
                            g.height as int,
                            #[trigger] work@[i],
                        ) by {
                            if i < work@.len() - 1 {
                                assert(work@[i] == old_work[i]);
                                assert(expanded_at(old_vs, g.width as int, g.height as int, old_work[i]));
                                lemma_state_index_range(g.width as int, g.height as int, old_work[i]);
                            } else {
                                assert(work@[i] == s);
                                assert(expanded_at(visited@, g.width as int, g.height as int, s));
                            }
                        }
                    }
                }
            }
        }
        proof {
            assert forall|s2: State|
                s2.cell == g.goal && #[trigger] field.cost_of(s2) == Some(min)
                    && s2.facing.spec_index() < fi + 1 implies expanded_at(
                visited@,
                g.width as int,
                g.height as int,
                s2,
            ) by {
                if s2.facing.spec_index() == fi {
                    assert(s2 == State { cell: g.goal, facing: s2.facing });
                    assert(s2.facing == seeds@[fi as int]);
                }
                lemma_state_index_range(g.width as int, g.height as int, s2);
            }
        }
        fi += 1;
    }
    (visited, work)
}

/// Collects the cells that lie on at least one optimal route.
///
/// The result is duplicate-free and holds exactly the cells of the states
/// reachable backward, through recorded predecessors, from the goal-cell
/// states whose recorded cost is `min`. It always holds both the goal
/// cell and the start cell.
#[verifier::loop_isolation(false)]
#[verifier::rlimit(100)]
pub fn reconstruct(g: &Grid, costs: Costs, field: &CostField, min: u64) -> (cells: Vec<Cell>)
    requires
        g.wf(),
        costs.positive(),
        sound_field(*g, costs, *field),
        exists|gs: State| (#[trigger] field.cost_of(gs)) == Some(min) && gs.cell == g.goal,
    ensures
        cells@.no_duplicates(),
        forall|i: int|
            0 <= i < cells@.len() ==> cell_on_best(*g, *field, min, #[trigger] cells@[i]),
        forall|s: State| #[trigger] on_best(*g, *field, min, s) ==> cells@.contains(s.cell),
        cells@.contains(g.goal),
        cells@.contains(g.start),
{
    let n = {
        assert((g.width as int) * (g.height as int) * 4 == 4 * (g.width as int) * (
        g.height as int)) by (nonlinear_arith);
        (g.width * g.height) * 4
    };
    let n2 = g.width * g.height;
    let (mut visited, mut work) = seed_goals(g, field, min, n);
    let mut cellseen: Vec<bool> = vec![false; n2];
    let mut cells: Vec<Cell> = Vec::new();
    proof {
        assert forall|cl: Cell| cl.row < g.height && cl.col < g.width implies !cellseen@[cell_index(
            g.width as int,
            cl,
        )] && !cells@.contains(cl) by {
            lemma_cell_index_range(g.width as int, g.height as int, cl);
        }
    }
    // walk backward, visiting each state once
    while work.len() > 0
        invariant
            visited@.len() == n,
            cellseen@.len() == n2,
            count_true(visited@) <= n,
            forall|s: State|
                expanded_at(visited@, g.width as int, g.height as int, s) ==> on_best(
                    *g,
                    *field,
                    min,
                    s,
                ) && (#[trigger] field.cost_of(s)) is Some,
            forall|i: int|
                0 <= i < work@.len() ==> expanded_at(
                    visited@,
                    g.width as int,
                    g.height as int,
                    #[trigger] work@[i],
                ),
            forall|s: State|
                s.cell == g.goal && #[trigger] field.cost_of(s) == Some(min) ==> expanded_at(
                    visited@,
                    g.width as int,
                    g.height as int,
                    s,
                ),
            forall|s: State|
                expanded_at(visited@, g.width as int, g.height as int, s) ==> (work@.contains(s)
                    || done_state(*g, *field, cells@, visited@, s)),
            forall|cl: Cell|
                cl.row < g.height && cl.col < g.width ==> (cellseen@[cell_index(
                    g.width as int,
                    cl,
                )] <==> cells@.contains(cl)),
            cells@.no_duplicates(),
            forall|i: int|
                0 <= i < cells@.len() ==> (#[trigger] cells@[i]).row < g.height && cells@[i].col
                    < g.width,
            forall|i: int|
                0 <= i < cells@.len() ==> exists|s: State|
                    expanded_at(visited@, g.width as int, g.height as int, s) && s.cell
                        == #[trigger] cells@[i],
        decreases n - count_true(visited@), work@.len(),
    {
        let ghost vs_in = visited@;
        let ghost cells_in = cells@;
        let ghost work_in = work@;
        let s = work.pop().unwrap();
        assert(expanded_at(visited@, g.width as int, g.height as int, s));
        proof {
            assert forall|i: int| 0 <= i < work@.len() implies expanded_at(
                visited@,
                g.width as int,
                g.height as int,
                #[trigger] work@[i],
            ) by {
                assert(work@[i] == work_in[i]);
            }
            assert forall|s2: State|
                expanded_at(visited@, g.width as int, g.height as int, s2) implies (
            work@.contains(s2) || done_state(*g, *field, cells@, visited@, s2) || s2 == s) by {
                if work_in.contains(s2) {
                    let k = choose|k: int| 0 <= k < work_in.len() && work_in[k] == s2;
                    if k < work_in.len() - 1 {
                        assert(work@[k] == s2);
                    } else {
                        assert(s2 == s);
                    }
                }
            }
        }
        // record the cell
        let ci = cell_index_of(g.width, g.height, s.cell);
        if !cellseen[ci] {
            cellseen.set(ci, true);
            cells.push(s.cell);
            proof {
                assert forall|cl: Cell|
                    cl.row < g.height && cl.col < g.width implies (cellseen@[cell_index(
                    g.width as int,
                    cl,
                )] <==> cells@.contains(cl)) by {
                    lemma_cell_index_range(g.width as int, g.height as int, cl);
                    if cl != s.cell {
                        if cell_index(g.width as int, cl) == cell_index(g.width as int, s.cell) {
                            lemma_cell_index_injective(g.width as int, g.height as int, s.cell, cl);
                        }
                        assert(cells@.contains(cl) <==> cells_in.contains(cl)) by {
                            if cells_in.contains(cl) {
                                let k = choose|k: int| 0 <= k < cells_in.len() && cells_in[k] == cl;
                                assert(cells@[k] == cl);
                            } else if cells@.contains(cl) {
                                let k = choose|k: int| 0 <= k < cells@.len() && cells@[k] == cl;
                                if k < cells_in.len() {
                                    assert(cells_in[k] == cl);
                                } else {
                                    assert(cells@[k] == s.cell);
                                }
                            }
                        }
                    } else {
                        assert(cells@[cells@.len() - 1] == s.cell);
                    }
                }
                assert(cells@.no_duplicates()) by {
                    assert(!cells_in.contains(s.cell));
                }
                assert forall|s2: State|
                    expanded_at(visited@, g.width as int, g.height as int, s2) implies (
                work@.contains(s2) || done_state(*g, *field, cells@, visited@, s2) || s2 == s) by {
                    if !work@.contains(s2) && s2 != s && done_state(
                        *g,
                        *field,
                        cells_in,
                        visited@,
                        s2,
                    ) {
                        let k = choose|k: int| 0 <= k < cells_in.len() && cells_in[k] == s2.cell;
                        assert(cells@[k] == s2.cell);
                    }
                }
            }
        }
        assert(cells@.contains(s.cell)) by {
            if cells_in.contains(s.cell) {
                let k = choose|k: int| 0 <= k < cells_in.len() && cells_in[k] == s.cell;
                assert(cells@[k] == s.cell);
            }
        }
        // push unvisited predecessors, unless this is the start state
        let is_start = {
            let st = g.start_state();
            s == st
        };
        let ghost wl0 = work@.len();
        if !is_start {
            let np = field.num_preds(g, s);
            let mut pi: usize = 0;
            while pi < np
                invariant
                    pi <= np,
                    np == field.preds_of(s).len(),
                    visited@.len() == n,
                    field.cost_of(s) is Some,
                    on_best(*g, *field, min, s),
                    expanded_at(visited@, g.width as int, g.height as int, s),
                    wl0 <= work@.len(),
                    work@.len() - wl0 == count_true(visited@) - count_true(vs_in),
                    count_true(visited@) <= n,
                    forall|s2: State|
                        expanded_at(vs_in, g.width as int, g.height as int, s2) ==> expanded_at(
                            visited@,
                            g.width as int,
                            g.height as int,
                            s2,
                        ),
                    forall|s2: State|
                        expanded_at(visited@, g.width as int, g.height as int, s2) ==> on_best(
                            *g,
                            *field,
                            min,
                            s2,
                        ) && (#[trigger] field.cost_of(s2)) is Some,
                    forall|i: int|
                        0 <= i < work@.len() ==> expanded_at(
                            visited@,
                            g.width as int,
                            g.height as int,
                            #[trigger] work@[i],
                        ),
                    forall|s2: State|
                        expanded_at(visited@, g.width as int, g.height as int, s2) ==> (
                        work@.contains(s2) || done_state(*g, *field, cells@, visited@, s2) || s2
                            == s),
                    forall|j: int|
                        0 <= j < pi ==> expanded_at(
                            visited@,
                            g.width as int,
                            g.height as int,
                            #[trigger] field.preds_of(s)[j],
                        ),
                decreases np - pi,
            {
                let p = field.get_pred(g, s, pi);
                assert(field.preds_of(s).contains(p));
                assert(field.cost_of(p) is Some);
                let pidx = index_of(g.width, g.height, p);
                if !visited[pidx] {
                    let ghost old_vs = visited@;
                    let ghost old_work = work@;
                    visited.set(pidx, true);
                    work.push(p);
                    proof {
                        lemma_count_true_update(old_vs, pidx as int, true);
                        lemma_count_true_bounds(visited@);
                        lemma_on_best_step(*g, *field, min, s, p);
                        assert forall|s2: State|
                            expanded_at(visited@, g.width as int, g.height as int, s2) && s2
                                != p implies expanded_at(
                            old_vs,
                            g.width as int,
                            g.height as int,
                            s2,
                        ) by {
                            lemma_state_index_range(g.width as int, g.height as int, s2);
                            if state_index(g.width as int, s2) == state_index(g.width as int, p) {
                                lemma_state_index_injective(g.width as int, g.height as int, p, s2);
                            }
                        }
                        assert forall|s2: State|
                            expanded_at(old_vs, g.width as int, g.height as int, s2) implies
                        expanded_at(visited@, g.width as int, g.height as int, s2) by {
                            lemma_state_index_range(g.width as int, g.height as int, s2);
                        }
                        assert forall|i: int| 0 <= i < work@.len() implies expanded_at(
                            visited@,
                            g.width as int,
                            g.height as int,
                            #[trigger] work@[i],
                        ) by {
                            if i < work@.len() - 1 {
                                assert(work@[i] == old_work[i]);
                            }
                        }
                        assert forall|s2: State|
                            expanded_at(visited@, g.width as int, g.height as int, s2) implies (
                        work@.contains(s2) || done_state(*g, *field, cells@, visited@, s2) || s2
                            == s) by {
                            if s2 == p {
                                assert(work@.last() == p);
                            } else {
                                assert(expanded_at(old_vs, g.width as int, g.height as int, s2));
                                if old_work.contains(s2) {
                                    let k = choose|k: int|
                                        0 <= k < old_work.len() && old_work[k] == s2;
                                    assert(work@[k] == s2);
                                }
                            }
                        }
                    }
                }
                pi += 1;
            }
        }
        proof {
            // `s` is fully processed now
            assert(done_state(*g, *field, cells@, visited@, s));
            // cells facts survive the growth of `visited`
            assert forall|i: int| 0 <= i < cells@.len() implies exists|s2: State|
                expanded_at(visited@, g.width as int, g.height as int, s2) && s2.cell
                    == #[trigger] cells@[i] by {
                if i < cells_in.len() {
                    let w = choose|s2: State|
                        expanded_at(vs_in, g.width as int, g.height as int, s2) && s2.cell
                            == cells_in[i];
                    assert(expanded_at(visited@, g.width as int, g.height as int, w) && w.cell
                        == cells@[i]);
                } else {
                    assert(cells@[i] == s.cell);
                    assert(expanded_at(visited@, g.width as int, g.height as int, s));
                }
            }
            assert forall|s2: State|
                s2.cell == g.goal && #[trigger] field.cost_of(s2) == Some(min) implies expanded_at(
                visited@,
                g.width as int,
                g.height as int,
                s2,
            ) by {
                assert(expanded_at(vs_in, g.width as int, g.height as int, s2));
            }
        }
    }
    // the worklist is empty: every visited state is fully processed
    proof {
        assert forall|s: State|
            expanded_at(visited@, g.width as int, g.height as int, s) implies done_state(
            *g,
            *field,
            cells@,
            visited@,
            s,
        ) by {
            assert(!work@.contains(s));
        }
        assert(traversal_done(*g, *field, min, visited@, cells@));
        lemma_traversal_conclusions(*g, costs, *field, min, visited@, cells@);
    }
    cells
}

} // verus!
