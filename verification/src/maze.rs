//! A weighted state-space shortest-path engine over rectangular grids.
//!
//! The unit of search is a [`State`]: a grid cell together with a facing.
//! Moving forward, turning left and turning right are the three possible
//! transitions, each with its own cost.

use vstd::prelude::*;

verus! {

/// What a grid cell holds.
#[derive(Clone, Copy, PartialEq, Eq, Structural, Debug)]
pub enum CellKind {
    Open,
    Blocked,
    Start,
    Goal,
}

/// A grid coordinate: row then column, both zero-based.
#[derive(Clone, Copy, PartialEq, Eq, Structural, Debug)]
pub struct Cell {
    pub row: usize,
    pub col: usize,
}

/// One of the four cardinal directions a searcher can face.
#[derive(Clone, Copy, PartialEq, Eq, Structural, Debug)]
pub enum Facing {
    North,
    East,
    South,
    West,
}

impl Facing {
    /// The facing after a 90-degree left (counter-clockwise) rotation.
    pub open spec fn spec_turn_left(self) -> Facing {
        match self {
            Facing::North => Facing::West,
            Facing::West => Facing::South,
            Facing::South => Facing::East,
            Facing::East => Facing::North,
        }
    }

    /// The facing after a 90-degree right (clockwise) rotation.
    pub open spec fn spec_turn_right(self) -> Facing {
        match self {
            Facing::North => Facing::East,
            Facing::East => Facing::South,
            Facing::South => Facing::West,
            Facing::West => Facing::North,
        }
    }

    pub fn turn_left(self) -> (r: Facing)
        ensures
            r == self.spec_turn_left(),
    {
        match self {
            Facing::North => Facing::West,
            Facing::West => Facing::South,
            Facing::South => Facing::East,
            Facing::East => Facing::North,
        }
    }

    pub fn turn_right(self) -> (r: Facing)
        ensures
            r == self.spec_turn_right(),
    {
        match self {
            Facing::North => Facing::East,
            Facing::East => Facing::South,
            Facing::South => Facing::West,
            Facing::West => Facing::North,
        }
    }

    /// A distinct small index for each facing, used to key dense tables.
    pub open spec fn spec_index(self) -> int {
        match self {
            Facing::North => 0,
            Facing::East => 1,
            Facing::South => 2,
            Facing::West => 3,
        }
    }

    pub fn index(self) -> (r: usize)
        ensures
            r == self.spec_index(),
            r < 4,
    {
        match self {
            Facing::North => 0,
            Facing::East => 1,
            Facing::South => 2,
            Facing::West => 3,
        }
    }
}

/// The unit of search: a cell together with a facing.
#[derive(Clone, Copy, PartialEq, Eq, Structural, Debug)]
pub struct State {
    pub cell: Cell,
    pub facing: Facing,
}

/// Why a grid could not be built.
#[derive(Clone, Copy, PartialEq, Eq, Structural, Debug)]
pub enum GridIssue {
    /// No rows, or an empty first row.
    Empty,
    /// Some row has a different length than the first.
    Ragged,
    /// The dense per-state tables would not fit in `usize`.
    TooLarge,
    /// Zero or several start cells.
    BadStartCount,
    /// Zero or several goal cells.
    BadGoalCount,
}

/// Everything that can go wrong when building a grid or solving it.
#[derive(Clone, Copy, PartialEq, Eq, Structural, Debug)]
pub enum SolveError {
    /// No goal-cell state can be reached from the start state.
    Unreachable,
    /// The input rows do not describe a well-formed grid.
    InvalidGrid(GridIssue),
}

/// The two edge weights of the state graph.
#[derive(Clone, Copy, PartialEq, Eq, Structural, Debug)]
pub struct Costs {
    /// Cost of moving one cell forward.
    pub step: u64,
    /// Cost of a 90-degree turn, either way.
    pub turn: u64,
}

impl Costs {
    /// Both weights are strictly positive; the engine and the reconstructor
    /// rely on every edge having nonzero cost.
    pub open spec fn positive(self) -> bool {
        self.step >= 1 && self.turn >= 1
    }

    /// The usual weights: a step costs 1, a turn costs 1000.
    pub fn standard() -> (r: Costs)
        ensures
            r == (Costs { step: 1u64, turn: 1000u64 }),
    {
        Costs { step: 1, turn: 1000 }
    }
}

/// The rows of a nested vector as a sequence of sequences.
pub open spec fn rows_view(rows: Vec<Vec<CellKind>>) -> Seq<Seq<CellKind>> {
    rows@.map_values(|v: Vec<CellKind>| v@)
}

/// Whether every row of `rows` has the same length as the first.
pub open spec fn rows_rect(rows: Seq<Seq<CellKind>>) -> bool {
    forall|r: int| 0 <= r < rows.len() ==> (#[trigger] rows[r]).len() == rows[0].len()
}

/// Whether `rows` holds kind `k` at row `r`, column `c`.
pub open spec fn has_kind_at(rows: Seq<Seq<CellKind>>, k: CellKind, r: int, c: int) -> bool {
    &&& 0 <= r < rows.len()
    &&& 0 <= c < rows[r].len()
    &&& rows[r][c] == k
}

/// Whether `rows` holds kind `k` in exactly one cell.
pub open spec fn unique_kind(rows: Seq<Seq<CellKind>>, k: CellKind) -> bool {
    &&& exists|r: int, c: int| has_kind_at(rows, k, r, c)
    &&& forall|r1: int, c1: int, r2: int, c2: int|
        has_kind_at(rows, k, r1, c1) && has_kind_at(rows, k, r2, c2) ==> r1 == r2 && c1 == c2
}

/// Loop bookkeeping for the start/goal scan: what `found` and `dup` mean once
/// every cell before row `r`, column `c` has been examined.
pub open spec fn scan_ok(
    rows: Seq<Seq<CellKind>>,
    k: CellKind,
    found: Option<Cell>,
    dup: Option<Cell>,
    r: int,
    c: int,
) -> bool {
    match found {
        None => dup is None && forall|i: int, j: int|
            i < r || (i == r && j < c) ==> !has_kind_at(rows, k, i, j),
        Some(cl) => {
            &&& has_kind_at(rows, k, cl.row as int, cl.col as int)
            &&& (cl.row < r || (cl.row == r && cl.col < c))
            &&& match dup {
                None => forall|i: int, j: int|
                    (i < r || (i == r && j < c)) && has_kind_at(rows, k, i, j) ==> i == cl.row && j
                        == cl.col,
                Some(d) => {
                    &&& has_kind_at(rows, k, d.row as int, d.col as int)
                    &&& !(d.row == cl.row && d.col == cl.col)
                },
            }
        },
    }
}

/// An immutable rectangular field of cells with one start and one goal.
pub struct Grid {
    pub width: usize,
    pub height: usize,
    pub cells: Vec<Vec<CellKind>>,
    pub start: Cell,
    pub goal: Cell,
}

impl Grid {
    /// The kind stored at row `r`, column `c`.
    pub open spec fn kind_at(self, r: int, c: int) -> CellKind {
        self.cells@[r]@[c]
    }

    pub open spec fn in_bounds(self, cell: Cell) -> bool {
        cell.row < self.height && cell.col < self.width
    }

    /// A cell a state may stand on: in bounds and not blocked.
    pub open spec fn open_at(self, cell: Cell) -> bool {
        self.in_bounds(cell) && self.kind_at(cell.row as int, cell.col as int) != CellKind::Blocked
    }

    /// Well-formedness: rectangular, nonempty, dense tables fit in `usize`,
    /// and the recorded start and goal are the unique cells of their kinds.
    pub open spec fn wf(self) -> bool {
        &&& self.height == self.cells@.len()
        &&& self.height > 0
        &&& self.width > 0
        &&& forall|r: int|
            0 <= r < self.height ==> (#[trigger] self.cells@[r])@.len() == self.width
        &&& 4 * self.width * self.height <= usize::MAX
        &&& self.in_bounds(self.start)
        &&& self.in_bounds(self.goal)
        &&& self.kind_at(self.start.row as int, self.start.col as int) == CellKind::Start
        &&& self.kind_at(self.goal.row as int, self.goal.col as int) == CellKind::Goal
        &&& forall|r: int, c: int|
            0 <= r < self.height && 0 <= c < self.width && #[trigger] self.kind_at(r, c)
                == CellKind::Start ==> r == self.start.row && c == self.start.col
        &&& forall|r: int, c: int|
            0 <= r < self.height && 0 <= c < self.width && #[trigger] self.kind_at(r, c)
                == CellKind::Goal ==> r == self.goal.row && c == self.goal.col
    }

    /// Validates `rows` and builds the grid.
    ///
    /// The exact cause is reported: empty input, ragged rows, a grid too
    /// large for dense indexing, or a start or goal count other than one.
    #[verifier::loop_isolation(false)]
    #[verifier::rlimit(60)]
    pub fn new(rows: Vec<Vec<CellKind>>) -> (r: Result<Grid, SolveError>)
        ensures
            match r {
                Ok(g) => {
                    &&& g.wf()
                    &&& g.cells@ == rows@
                    &&& g.height == rows@.len()
                    &&& g.width == rows@[0]@.len()
                },
                Err(SolveError::InvalidGrid(GridIssue::Empty)) => rows@.len() == 0 || rows@[0]@.len()
                    == 0,
                Err(SolveError::InvalidGrid(GridIssue::Ragged)) => {
                    &&& rows@.len() > 0 && rows@[0]@.len() > 0
                    &&& !rows_rect(rows_view(rows))
                },
                Err(SolveError::InvalidGrid(GridIssue::TooLarge)) => {
                    &&& rows@.len() > 0 && rows@[0]@.len() > 0
                    &&& rows_rect(rows_view(rows))
                    &&& 4 * rows@[0]@.len() * rows@.len() > usize::MAX
                },
                Err(SolveError::InvalidGrid(GridIssue::BadStartCount)) => {
                    &&& rows@.len() > 0 && rows@[0]@.len() > 0
                    &&& rows_rect(rows_view(rows))
                    &&& 4 * rows@[0]@.len() * rows@.len() <= usize::MAX
                    &&& !unique_kind(rows_view(rows), CellKind::Start)
                },
                Err(SolveError::InvalidGrid(GridIssue::BadGoalCount)) => {
                    &&& rows@.len() > 0 && rows@[0]@.len() > 0
                    &&& rows_rect(rows_view(rows))
                    &&& 4 * rows@[0]@.len() * rows@.len() <= usize::MAX
                    &&& unique_kind(rows_view(rows), CellKind::Start)
                    &&& !unique_kind(rows_view(rows), CellKind::Goal)
                },
                Err(SolveError::Unreachable) => false,
            },
    {
        let ghost rv = rows_view(rows);
        let height = rows.len();
        if height == 0 {
            return Err(SolveError::InvalidGrid(GridIssue::Empty));
        }
        let width = rows[0].len();
        if width == 0 {
            return Err(SolveError::InvalidGrid(GridIssue::Empty));
        }
        for r in 1..height
            invariant
                forall|i: int| 0 <= i < r ==> (#[trigger] rows@[i])@.len() == width,
        {
            if rows[r].len() != width {
                assert(rv[r as int].len() != rv[0].len());
                return Err(SolveError::InvalidGrid(GridIssue::Ragged));
            }
        }
        assert(rows_rect(rv));
        let states = match width.checked_mul(height) {
            Some(n) => match n.checked_mul(4) {
                Some(m) => {
                    assert(4 * (width as int) * (height as int) == 4 * (n as int))
                        by (nonlinear_arith)
                        requires n == width * height;
                    m
                },
                None => {
                    assert(4 * (width as int) * (height as int) == 4 * (n as int))
                        by (nonlinear_arith)
                        requires n == width * height;
                    return Err(SolveError::InvalidGrid(GridIssue::TooLarge));
                },
            },
            None => {
                assert(4 * (width as int) * (height as int) > usize::MAX as int)
                    by (nonlinear_arith)
                    requires (width as int) * (height as int) > usize::MAX as int;
                return Err(SolveError::InvalidGrid(GridIssue::TooLarge));
            },
        };
        assert(4 * (width as int) * (height as int) == states as int);
        let mut start: Option<Cell> = None;
        let mut goal: Option<Cell> = None;
        let mut start2: Option<Cell> = None;
        let mut goal2: Option<Cell> = None;
        for r in 0..height
            invariant
                width == rv[0].len(),
                scan_ok(rv, CellKind::Start, start, start2, r as int, 0),
                scan_ok(rv, CellKind::Goal, goal, goal2, r as int, 0),
        {
            for c in 0..width
                invariant
                    width == rv[0].len(),
                    r < height,
                    scan_ok(rv, CellKind::Start, start, start2, r as int, c as int),
                    scan_ok(rv, CellKind::Goal, goal, goal2, r as int, c as int),
            {
                let kind = rows[r][c];
                if kind == CellKind::Start {
                    match start {
                        None => {
                            start = Some(Cell { row: r, col: c });
                        },
                        Some(prev) => {
                            if start2.is_none() && !(prev.row == r && prev.col == c) {
                                start2 = Some(Cell { row: r, col: c });
                            }
                        },
                    }
                } else if kind == CellKind::Goal {
                    match goal {
                        None => {
                            goal = Some(Cell { row: r, col: c });
                        },
                        Some(prev) => {
                            if goal2.is_none() && !(prev.row == r && prev.col == c) {
                                goal2 = Some(Cell { row: r, col: c });
                            }
                        },
                    }
                }
            }
        }
        let start = match (start, start2) {
            (Some(cl), None) => cl,
            _ => {
                return Err(SolveError::InvalidGrid(GridIssue::BadStartCount));
            },
        };
        let goal = match (goal, goal2) {
            (Some(cl), None) => cl,
            _ => {
                return Err(SolveError::InvalidGrid(GridIssue::BadGoalCount));
            },
        };
        let g = Grid { width, height, cells: rows, start, goal };
        assert(g.wf()) by {
            assert(forall|r: int, c: int|
                0 <= r < height && 0 <= c < width && #[trigger] g.kind_at(r, c) == CellKind::Start
                    ==> has_kind_at(rv, CellKind::Start, r, c));
            assert(forall|r: int, c: int|
                0 <= r < height && 0 <= c < width && #[trigger] g.kind_at(r, c) == CellKind::Goal
                    ==> has_kind_at(rv, CellKind::Goal, r, c));
        }
        Ok(g)
    }

    /// The kind of `cell`, or `None` when `cell` lies outside the grid.
    pub fn cell_kind(&self, cell: Cell) -> (r: Option<CellKind>)
        requires
            self.wf(),
        ensures
            r == if self.in_bounds(cell) {
                Some(self.kind_at(cell.row as int, cell.col as int))
            } else {
                None::<CellKind>
            },
    {
        if cell.row < self.height && cell.col < self.width {
            Some(self.cells[cell.row][cell.col])
        } else {
            None
        }
    }

    /// The unique start cell.
    pub fn start_cell(&self) -> (r: Cell)
        ensures
            r == self.start,
    {
        self.start
    }

    /// The unique goal cell.
    pub fn goal_cell(&self) -> (r: Cell)
        ensures
            r == self.goal,
    {
        self.goal
    }

    /// The state the search begins in: the start cell, facing east.
    pub open spec fn spec_start_state(self) -> State {
        State { cell: self.start, facing: Facing::East }
    }

    pub fn start_state(&self) -> (r: State)
        ensures
            r == self.spec_start_state(),
    {
        State { cell: self.start, facing: Facing::East }
    }
}

} // verus!
