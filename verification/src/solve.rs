//! The top-level entry: search a grid and report the minimum cost and the
//! cells on optimal routes.

use vstd::prelude::*;

use crate::engine::{dijkstra, sound_field, ties_recorded};
use crate::maze::{Cell, Costs, Grid, SolveError, State};
use crate::reconstruct::{cell_on_best, on_best, reconstruct};
use crate::search::{no_cheaper_path, no_representable_path, CostField};

verus! {

/// What `solve` reports for a solvable grid.
pub struct Solution {
    /// The least total cost from the start state to any goal-cell state.
    pub min_cost: u64,
    /// The distinct cells lying on at least one route of cost `min_cost`,
    /// as recorded by the search's predecessor structure.
    pub optimal_cells: Vec<Cell>,
    /// The cost field the search produced; the contracts of `solve` speak
    /// of the result through it.
    pub evidence: Ghost<CostField>,
}

/// The contract a successful solve meets: the cost field is sound, the
/// reported cost is recorded at a goal-cell state and no route costs
/// less, every tied optimal predecessor below it is recorded, and the
/// reported cells are exactly the cells on optimal routes of that field.
pub open spec fn solution_ok(g: Grid, costs: Costs, sol: Solution) -> bool {
    &&& sound_field(g, costs, sol.evidence@)
    &&& exists|gs: State|
        #[trigger] sol.evidence@.cost_of(gs) == Some(sol.min_cost) && gs.cell == g.goal
    &&& no_cheaper_path(g, costs, sol.min_cost)
    &&& ties_recorded(g, costs, sol.evidence@, sol.min_cost)
    &&& sol.optimal_cells@.no_duplicates()
    &&& forall|i: int|
        0 <= i < sol.optimal_cells@.len() ==> cell_on_best(
            g,
            sol.evidence@,
            sol.min_cost,
            #[trigger] sol.optimal_cells@[i],
        )
    &&& forall|s: State|
        #[trigger] on_best(g, sol.evidence@, sol.min_cost, s) ==> sol.optimal_cells@.contains(
            s.cell,
        )
    &&& sol.optimal_cells@.contains(g.start)
    &&& sol.optimal_cells@.contains(g.goal)
}

/// Searches `grid` under the given edge weights.
///
/// `Ok` carries the least cost of any route from the start state to the
/// goal cell — no route costs less, and one of exactly that cost exists —
/// and the duplicate-free set of cells on optimal routes; the start and
/// goal cells are always among them. `Err(Unreachable)` comes exactly
/// when no route whose cost fits a `u64` reaches the goal cell.
///
/// Both weights must be strictly positive: the predecessor structure the
/// reconstruction walks relies on costs strictly decreasing toward the
/// start, which zero-cost edges would break.
pub fn solve_with_costs(grid: &Grid, costs: Costs) -> (r: Result<Solution, SolveError>)
    requires
        grid.wf(),
        costs.positive(),
    ensures
        match r {
            Ok(sol) => solution_ok(*grid, costs, sol),
            Err(SolveError::Unreachable) => no_representable_path(*grid, costs),
            Err(SolveError::InvalidGrid(_)) => false,
        },
{
    let (field, goal_hit, _trace) = dijkstra(grid, costs);
    match goal_hit {
        None => Err(SolveError::Unreachable),
        Some((gs, min)) => {
            proof {
                assert(field.cost_of(gs) == Some(min) && gs.cell == grid.goal);
            }
            let cells = reconstruct(grid, costs, &field, min);
            Ok(Solution { min_cost: min, optimal_cells: cells, evidence: Ghost(field) })
        },
    }
}

/// Searches `grid` with the usual weights: a step costs 1, a turn 1000.
pub fn solve(grid: &Grid) -> (r: Result<Solution, SolveError>)
    requires
        grid.wf(),
    ensures
        match r {
            Ok(sol) => solution_ok(*grid, Costs { step: 1u64, turn: 1000u64 }, sol),
            Err(SolveError::Unreachable) => no_representable_path(
                *grid,
                Costs { step: 1u64, turn: 1000u64 },
            ),
            Err(SolveError::InvalidGrid(_)) => false,
        },
{
    solve_with_costs(grid, Costs::standard())
}

} // verus!
