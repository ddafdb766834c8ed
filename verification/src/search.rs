//! The state space, the cost field and the priority frontier of the
//! shortest-path engine.

use vstd::prelude::*;

use crate::maze::{Cell, CellKind, Costs, Facing, Grid, State};
use vstd::pervasive::VecAdditionalExecFns;

verus! {

/// A state the search may stand on: its cell is inside the grid and open.
pub open spec fn valid_state(g: Grid, s: State) -> bool {
    g.open_at(s.cell)
}

/// Position of a state in the dense per-state tables.
pub open spec fn state_index(width: int, s: State) -> int {
    (s.cell.row * width + s.cell.col) * 4 + s.facing.spec_index()
}

/// Distinct in-bounds states occupy distinct table slots.
pub proof fn lemma_state_index_injective(width: int, height: int, a: State, b: State)
    requires
        0 < width,
        0 < height,
        a.cell.row < height,
        a.cell.col < width,
        b.cell.row < height,
        b.cell.col < width,
        state_index(width, a) == state_index(width, b),
    ensures
        a == b,
{
    let ra = a.cell.row as int;
    let ca = a.cell.col as int;
    let fa = a.facing.spec_index();
    let rb = b.cell.row as int;
    let cb = b.cell.col as int;
    let fb = b.facing.spec_index();
    assert(ra == rb && ca == cb && fa == fb) by (nonlinear_arith)
        requires
            0 < width,
            0 <= ra,
            0 <= ca < width,
            0 <= rb,
            0 <= cb < width,
            0 <= fa < 4,
            0 <= fb < 4,
            (ra * width + ca) * 4 + fa == (rb * width + cb) * 4 + fb,
    ;
    assert(a.facing == b.facing) by {
        if a.facing != b.facing {
            assert(a.facing.spec_index() != b.facing.spec_index());
        }
    }
}

/// A table slot of an in-bounds state lies inside the table.
pub proof fn lemma_state_index_range(width: int, height: int, s: State)
    requires
        0 < width,
        0 < height,
        s.cell.row < height,
        s.cell.col < width,
    ensures
        0 <= state_index(width, s) < 4 * width * height,
{
    let r = s.cell.row as int;
    let c = s.cell.col as int;
    let f = s.facing.spec_index();
    assert(0 <= (r * width + c) * 4 + f < 4 * width * height) by (nonlinear_arith)
        requires
            0 < width,
            0 <= r < height,
            0 <= c < width,
            0 <= f < 4,
    ;
}

/// Computes a state's table slot.
pub fn index_of(width: usize, height: usize, s: State) -> (r: usize)
    requires
        0 < width,
        0 < height,
        s.cell.row < height,
        s.cell.col < width,
        4 * width * height <= usize::MAX,
    ensures
        r == state_index(width as int, s),
        r < 4 * width * height,
{
    proof {
        lemma_state_index_range(width as int, height as int, s);
    }
    assert((s.cell.row as int) * (width as int) + (s.cell.col as int) < (width as int) * (
    height as int) && 4 * ((width as int) * (height as int)) == 4 * (width as int) * (height as int))
        by (nonlinear_arith)
        requires
            0 < width,
            s.cell.row < height,
            s.cell.col < width,
    ;
    (s.cell.row * width + s.cell.col) * 4 + s.facing.index()
}

/// The cell one step ahead of `s`, if it lies inside the grid.
pub open spec fn spec_forward_cell(g: Grid, s: State) -> Option<Cell> {
    match s.facing {
        Facing::North => if s.cell.row >= 1 {
            Some(Cell { row: (s.cell.row - 1) as usize, col: s.cell.col })
        } else {
            None
        },
        Facing::South => if s.cell.row + 1 < g.height {
            Some(Cell { row: (s.cell.row + 1) as usize, col: s.cell.col })
        } else {
            None
        },
        Facing::East => if s.cell.col + 1 < g.width {
            Some(Cell { row: s.cell.row, col: (s.cell.col + 1) as usize })
        } else {
            None
        },
        Facing::West => if s.cell.col >= 1 {
            Some(Cell { row: s.cell.row, col: (s.cell.col - 1) as usize })
        } else {
            None
        },
    }
}

/// The outgoing transitions of `s`: forward when the cell ahead is open,
/// and the two turns, which are always possible.
pub open spec fn spec_successors(g: Grid, costs: Costs, s: State) -> Seq<(State, u64)> {
    let turns = seq![
        (State { cell: s.cell, facing: s.facing.spec_turn_left() }, costs.turn),
        (State { cell: s.cell, facing: s.facing.spec_turn_right() }, costs.turn),
    ];
    match spec_forward_cell(g, s) {
        Some(c2) => if g.open_at(c2) {
            seq![(State { cell: c2, facing: s.facing }, costs.step)].add(turns)
        } else {
            turns
        },
        None => turns,
    }
}

/// There is an edge from `a` to `b` of weight `w`.
pub open spec fn edge(g: Grid, costs: Costs, a: State, b: State, w: u64) -> bool {
    spec_successors(g, costs, a).contains((b, w))
}

/// The (at most three) valid transitions out of `s`, each with its cost.
pub fn successors(g: &Grid, costs: Costs, s: State) -> (r: Vec<(State, u64)>)
    requires
        g.wf(),
        valid_state(*g, s),
    ensures
        r@ == spec_successors(*g, costs, s),
        forall|i: int|
            0 <= i < r@.len() ==> valid_state(*g, (#[trigger] r@[i]).0) && edge(
                *g,
                costs,
                s,
                r@[i].0,
                r@[i].1,
            ),
    {
    let mut r: Vec<(State, u64)> = Vec::new();
    let forward: Option<Cell> = match s.facing {
        Facing::North => if s.cell.row >= 1 {
            Some(Cell { row: s.cell.row - 1, col: s.cell.col })
        } else {
            None
        },
        Facing::South => if s.cell.row + 1 < g.height {
            Some(Cell { row: s.cell.row + 1, col: s.cell.col })
        } else {
            None
        },
        Facing::East => if s.cell.col + 1 < g.width {
            Some(Cell { row: s.cell.row, col: s.cell.col + 1 })
        } else {
            None
        },
        Facing::West => if s.cell.col >= 1 {
            Some(Cell { row: s.cell.row, col: s.cell.col - 1 })
        } else {
            None
        },
    };
    assert(forward == spec_forward_cell(*g, s));
    match forward {
        Some(c2) => {
            if g.cells[c2.row][c2.col] != CellKind::Blocked {
                r.push((State { cell: c2, facing: s.facing }, costs.step));
            }
        },
        None => {},
    }
    r.push((State { cell: s.cell, facing: s.facing.turn_left() }, costs.turn));
    r.push((State { cell: s.cell, facing: s.facing.turn_right() }, costs.turn));
    assert(r@ =~= spec_successors(*g, costs, s));
    assert forall|i: int| 0 <= i < r@.len() implies valid_state(*g, (#[trigger] r@[i]).0) && edge(
        *g,
        costs,
        s,
        r@[i].0,
        r@[i].1,
    ) by {
        assert(spec_successors(*g, costs, s)[i] == (r@[i].0, r@[i].1));
    }
    r
}

/// Every transition leaves its state, and each weighs either a step or a
/// turn.
pub proof fn lemma_successors_facts(g: Grid, costs: Costs, s: State)
    ensures
        forall|i: int|
            0 <= i < spec_successors(g, costs, s).len() ==> {
                let e = #[trigger] spec_successors(g, costs, s)[i];
                &&& e.0 != s
                &&& (e.1 == costs.step || e.1 == costs.turn)
            },
{
    assert forall|i: int| 0 <= i < spec_successors(g, costs, s).len() implies {
        let e = #[trigger] spec_successors(g, costs, s)[i];
        &&& e.0 != s
        &&& (e.1 == costs.step || e.1 == costs.turn)
    } by {
        let e = spec_successors(g, costs, s)[i];
        assert(s.facing.spec_turn_left() != s.facing);
        assert(s.facing.spec_turn_right() != s.facing);
        match spec_forward_cell(g, s) {
            Some(c2) => {
                assert(c2 != s.cell);
            },
            None => {},
        }
    }
}

/// What one transition costs: staying on the cell is a turn, leaving it
/// is a step.
pub open spec fn step_cost(costs: Costs, a: State, b: State) -> u64 {
    if a.cell == b.cell {
        costs.turn
    } else {
        costs.step
    }
}

/// A route through the state graph: consecutive states are joined by
/// transitions.
pub open spec fn is_path(g: Grid, costs: Costs, p: Seq<State>) -> bool {
    &&& p.len() >= 1
    &&& forall|i: int|
        0 <= i < p.len() - 1 ==> edge(g, costs, #[trigger] p[i], p[i + 1], step_cost(
            costs,
            p[i],
            p[i + 1],
        ))
}

/// The summed edge costs of a route.
pub open spec fn path_cost(costs: Costs, p: Seq<State>) -> int
    decreases p.len(),
{
    if p.len() <= 1 {
        0
    } else {
        path_cost(costs, p.drop_last()) + step_cost(costs, p[p.len() - 2], p.last())
    }
}

/// An edge's weight is determined by its endpoints: a turn when the cell
/// stays, a step when it changes.
pub proof fn lemma_edge_weight(g: Grid, costs: Costs, a: State, b: State, w: u64)
    requires
        edge(g, costs, a, b, w),
    ensures
        w == step_cost(costs, a, b),
{
    let succs = spec_successors(g, costs, a);
    let i = choose|i: int| 0 <= i < succs.len() && succs[i] == (b, w);
    match spec_forward_cell(g, a) {
        Some(c2) => {
            if g.open_at(c2) {
                assert(c2 != a.cell);
            }
        },
        None => {},
    }
}

/// A route and its cost never shrink when a step is appended, and a
/// route's prefix is a route.
pub proof fn lemma_path_prefix(g: Grid, costs: Costs, p: Seq<State>)
    requires
        is_path(g, costs, p),
        p.len() >= 2,
    ensures
        is_path(g, costs, p.drop_last()),
        path_cost(costs, p) == path_cost(costs, p.drop_last()) + step_cost(
            costs,
            p[p.len() - 2],
            p.last(),
        ),
        path_cost(costs, p) >= path_cost(costs, p.drop_last()),
{
    let q = p.drop_last();
    assert forall|i: int| 0 <= i < q.len() - 1 implies edge(g, costs, #[trigger] q[i], q[i + 1],
        step_cost(costs, q[i], q[i + 1])) by {
        assert(q[i] == p[i] && q[i + 1] == p[i + 1]);
    }
}

/// Route costs are sums of unsigned weights, so they are never negative.
pub proof fn lemma_path_cost_nonneg(costs: Costs, p: Seq<State>)
    ensures
        path_cost(costs, p) >= 0,
    decreases p.len(),
{
    if p.len() > 1 {
        lemma_path_cost_nonneg(costs, p.drop_last());
    }
}

/// No route from the start state to the goal cell costs less than
/// `bound`.
pub open spec fn no_cheaper_path(g: Grid, costs: Costs, bound: u64) -> bool {
    forall|p: Seq<State>|
        #[trigger] is_path(g, costs, p) && p.first() == g.spec_start_state() && p.last().cell
            == g.goal ==> path_cost(costs, p) >= bound
}

/// Every route from the start state to the goal cell costs more than a
/// `u64` can hold, so no reportable route exists.
pub open spec fn no_representable_path(g: Grid, costs: Costs) -> bool {
    forall|p: Seq<State>|
        #[trigger] is_path(g, costs, p) && p.first() == g.spec_start_state() && p.last().cell
            == g.goal ==> path_cost(costs, p) > u64::MAX
}

/// Per-state best known cost and the predecessors achieving it.
pub struct CostField {
    pub width: usize,
    pub height: usize,
    pub cost: Vec<Option<u64>>,
    pub preds: Vec<Vec<State>>,
}

impl CostField {
    pub open spec fn wf(self, g: Grid) -> bool {
        &&& self.width == g.width
        &&& self.height == g.height
        &&& self.cost@.len() == 4 * g.width * g.height
        &&& self.preds@.len() == 4 * g.width * g.height
    }

    /// The best cost recorded for `s`, `None` while undiscovered or out of
    /// bounds.
    pub open spec fn cost_of(self, s: State) -> Option<u64> {
        if s.cell.row < self.height && s.cell.col < self.width {
            self.cost@[state_index(self.width as int, s)]
        } else {
            None
        }
    }

    /// The predecessors recorded for `s`.
    pub open spec fn preds_of(self, s: State) -> Seq<State> {
        if s.cell.row < self.height && s.cell.col < self.width {
            self.preds@[state_index(self.width as int, s)]@
        } else {
            Seq::empty()
        }
    }

    /// A fresh field with nothing discovered.
    pub fn new(g: &Grid) -> (r: CostField)
        requires
            g.wf(),
        ensures
            r.wf(*g),
            forall|s: State| r.cost_of(s) is None,
            forall|s: State| r.preds_of(s) =~= Seq::<State>::empty(),
    {
        assert((g.width as int) * (g.height as int) * 4 == 4 * (g.width as int) * (
        g.height as int)) by (nonlinear_arith);
        let n = (g.width * g.height) * 4;
        let cost: Vec<Option<u64>> = vec![None; n];
        let mut preds: Vec<Vec<State>> = Vec::new();
        for i in 0..n
            invariant
                preds@.len() == i,
                forall|j: int| 0 <= j < i ==> (#[trigger] preds@[j])@.len() == 0,
        {
            preds.push(Vec::new());
        }
        let r = CostField { width: g.width, height: g.height, cost, preds };
        assert forall|s: State| r.cost_of(s) is None by {
            if s.cell.row < r.height && s.cell.col < r.width {
                lemma_state_index_range(r.width as int, r.height as int, s);
            }
        }
        assert forall|s: State| r.preds_of(s) =~= Seq::<State>::empty() by {
            if s.cell.row < r.height && s.cell.col < r.width {
                lemma_state_index_range(r.width as int, r.height as int, s);
            }
        }
        r
    }

    /// How many predecessors are recorded for `s`.
    pub fn num_preds(&self, g: &Grid, s: State) -> (r: usize)
        requires
            g.wf(),
            self.wf(*g),
            s.cell.row < g.height,
            s.cell.col < g.width,
        ensures
            r == self.preds_of(s).len(),
    {
        let i = index_of(self.width, self.height, s);
        self.preds[i].len()
    }

    /// The `i`-th recorded predecessor of `s`.
    pub fn get_pred(&self, g: &Grid, s: State, i: usize) -> (r: State)
        requires
            g.wf(),
            self.wf(*g),
            s.cell.row < g.height,
            s.cell.col < g.width,
            i < self.preds_of(s).len(),
        ensures
            r == self.preds_of(s)[i as int],
    {
        let j = index_of(self.width, self.height, s);
        self.preds[j][i]
    }

    /// Records the start state's cost without touching any predecessor list.
    pub fn set_start(&mut self, g: &Grid, s: State, c: u64)
        requires
            g.wf(),
            old(self).wf(*g),
            s.cell.row < g.height,
            s.cell.col < g.width,
        ensures
            final(self).wf(*g),
            final(self).cost_of(s) == Some(c),
            forall|t: State| t != s ==> final(self).cost_of(t) == old(self).cost_of(t),
            forall|t: State| final(self).preds_of(t) == old(self).preds_of(t),
            final(self).cost@ == old(self).cost@.update(
                state_index(old(self).width as int, s),
                Some(c),
            ),
    {
        let i = index_of(self.width, self.height, s);
        self.cost.set(i, Some(c));
        proof {
            assert forall|t: State| t != s implies self.cost_of(t) == old(self).cost_of(t) by {
                if t.cell.row < self.height && t.cell.col < self.width {
                    lemma_state_index_range(self.width as int, self.height as int, t);
                    if state_index(self.width as int, t) == state_index(self.width as int, s) {
                        lemma_state_index_injective(self.width as int, self.height as int, s, t);
                    }
                }
            }
        }
    }

    pub fn get_cost(&self, g: &Grid, s: State) -> (r: Option<u64>)
        requires
            g.wf(),
            self.wf(*g),
        ensures
            r == self.cost_of(s),
    {
        if s.cell.row < self.height && s.cell.col < self.width {
            let i = index_of(self.width, self.height, s);
            self.cost[i]
        } else {
            None
        }
    }

    /// Records cost `c` for `s` and restarts its predecessor list with `p`.
    pub fn relax(&mut self, g: &Grid, s: State, c: u64, p: State) -> (r: ())
        requires
            g.wf(),
            old(self).wf(*g),
            s.cell.row < g.height,
            s.cell.col < g.width,
        ensures
            final(self).wf(*g),
            final(self).cost_of(s) == Some(c),
            final(self).preds_of(s) =~= seq![p],
            forall|t: State| t != s ==> final(self).cost_of(t) == old(self).cost_of(t),
            forall|t: State| t != s ==> final(self).preds_of(t) == old(self).preds_of(t),
            final(self).cost@ == old(self).cost@.update(
                state_index(old(self).width as int, s),
                Some(c),
            ),
    {
        let i = index_of(self.width, self.height, s);
        self.cost.set(i, Some(c));
        let mut single: Vec<State> = Vec::new();
        single.push(p);
        self.preds.set(i, single);
        proof {
            assert forall|t: State| t != s implies self.cost_of(t) == old(self).cost_of(t)
                && self.preds_of(t) == old(self).preds_of(t) by {
                if t.cell.row < self.height && t.cell.col < self.width {
                    lemma_state_index_range(self.width as int, self.height as int, t);
                    if state_index(self.width as int, t) == state_index(self.width as int, s) {
                        lemma_state_index_injective(self.width as int, self.height as int, s, t);
                    }
                }
            }
        }
    }

    /// Adds `p` to the predecessors of `s` without touching its cost.
    pub fn add_pred(&mut self, g: &Grid, s: State, p: State) -> (r: ())
        requires
            g.wf(),
            old(self).wf(*g),
            s.cell.row < g.height,
            s.cell.col < g.width,
        ensures
            final(self).wf(*g),
            final(self).cost_of(s) == old(self).cost_of(s),
            final(self).preds_of(s) =~= old(self).preds_of(s).push(p),
            forall|t: State| t != s ==> final(self).cost_of(t) == old(self).cost_of(t),
            forall|t: State| t != s ==> final(self).preds_of(t) == old(self).preds_of(t),
            final(self).cost@ == old(self).cost@,
    {
        let i = index_of(self.width, self.height, s);
        let mut lst: Vec<State> = Vec::new();
        self.preds.set_and_swap(i, &mut lst);
        lst.push(p);
        self.preds.set_and_swap(i, &mut lst);
        proof {
            assert(self.preds@ =~= old(self).preds@.update(
                i as int,
                self.preds@[i as int],
            ));
            assert forall|t: State| t != s implies self.cost_of(t) == old(self).cost_of(t)
                && self.preds_of(t) == old(self).preds_of(t) by {
                if t.cell.row < self.height && t.cell.col < self.width {
                    lemma_state_index_range(self.width as int, self.height as int, t);
                    if state_index(self.width as int, t) == state_index(self.width as int, s) {
                        lemma_state_index_injective(self.width as int, self.height as int, s, t);
                    }
                }
            }
        }
    }
}

/// Position of a cell in a dense per-cell table.
pub open spec fn cell_index(width: int, cell: Cell) -> int {
    cell.row * width + cell.col
}

/// Distinct in-bounds cells occupy distinct per-cell slots.
pub proof fn lemma_cell_index_injective(width: int, height: int, a: Cell, b: Cell)
    requires
        0 < width,
        0 < height,
        a.row < height,
        a.col < width,
        b.row < height,
        b.col < width,
        cell_index(width, a) == cell_index(width, b),
    ensures
        a == b,
{
    assert((a.row as int) == (b.row as int) && (a.col as int) == (b.col as int)) by (nonlinear_arith)
        requires
            0 < width,
            0 <= (a.row as int),
            0 <= (a.col as int) < width,
            0 <= (b.row as int),
            0 <= (b.col as int) < width,
            (a.row as int) * width + (a.col as int) == (b.row as int) * width + (b.col as int),
    ;
}

/// A per-cell slot of an in-bounds cell lies inside the table.
pub proof fn lemma_cell_index_range(width: int, height: int, cell: Cell)
    requires
        0 < width,
        0 < height,
        cell.row < height,
        cell.col < width,
    ensures
        0 <= cell_index(width, cell) < width * height,
{
    assert(0 <= (cell.row as int) * width + (cell.col as int) < width * height) by (nonlinear_arith)
        requires
            0 < width,
            0 <= (cell.row as int) < height,
            0 <= (cell.col as int) < width,
    ;
}

/// Computes a cell's per-cell table slot.
pub fn cell_index_of(width: usize, height: usize, cell: Cell) -> (r: usize)
    requires
        0 < width,
        0 < height,
        cell.row < height,
        cell.col < width,
        4 * width * height <= usize::MAX,
    ensures
        r == cell_index(width as int, cell),
        r < width * height,
{
    proof {
        lemma_cell_index_range(width as int, height as int, cell);
        assert((width as int) * (height as int) <= 4 * (width as int) * (height as int))
            by (nonlinear_arith)
            requires
                0 < width,
                0 < height,
        ;
    }
    cell.row * width + cell.col
}

/// The engine's priority frontier: pending `(cost, state)` entries.
///
/// A plain vector with scan-for-minimum extraction: what the engine needs
/// is exactly that every extraction returns a minimal entry.
pub struct Frontier {
    pub entries: Vec<(u64, State)>,
}

impl Frontier {
    pub fn new() -> (r: Frontier)
        ensures
            r.entries@.len() == 0,
    {
        Frontier { entries: Vec::new() }
    }

    pub fn len(&self) -> (r: usize)
        ensures
            r == self.entries@.len(),
    {
        self.entries.len()
    }

    pub fn push(&mut self, c: u64, s: State)
        ensures
            final(self).entries@ == old(self).entries@.push((c, s)),
    {
        self.entries.push((c, s));
    }

    /// Removes and returns an entry of minimal cost.
    pub fn pop_min(&mut self) -> (r: Option<(u64, State)>)
        ensures
            match r {
                None => old(self).entries@.len() == 0 && final(self).entries@
                    == old(self).entries@,
                Some(e) => {
                    &&& old(self).entries@.len() > 0
                    &&& final(self).entries@.len() == old(self).entries@.len() - 1
                    &&& old(self).entries@.contains(e)
                    &&& forall|i: int|
                        0 <= i < old(self).entries@.len() ==> e.0 <= (#[trigger] old(
                            self,
                        ).entries@[i]).0
                    &&& forall|i: int|
                        0 <= i < final(self).entries@.len() ==> old(self).entries@.contains(
                            #[trigger] final(self).entries@[i],
                        )
                    &&& final(self).entries@.to_multiset() == old(
                        self,
                    ).entries@.to_multiset().remove(e)
                },
            },
    {
        if self.entries.len() == 0 {
            return None;
        }
        let mut best: usize = 0;
        let n = self.entries.len();
        for i in 1..n
            invariant
                best < i <= n,
                n == self.entries@.len(),
                forall|j: int|
                    0 <= j < i ==> self.entries@[best as int].0 <= (#[trigger] self.entries@[j]).0,
        {
            if self.entries[i].0 < self.entries[best].0 {
                best = i;
            }
        }
        let e = self.entries.remove(best);
        proof {
            let s0 = old(self).entries@;
            let s1 = self.entries@;
            assert forall|i: int| 0 <= i < s1.len() implies s0.contains(#[trigger] s1[i]) by {
                if i < best {
                    assert(s1[i] == s0[i]);
                } else {
                    assert(s1[i] == s0[i + 1]);
                }
            }
            s0.to_multiset_ensures();
            assert(s1.to_multiset() =~= s0.to_multiset().remove(e));
        }
        Some(e)
    }
}

} // verus!
