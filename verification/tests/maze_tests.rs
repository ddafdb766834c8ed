use puzzles::maze::{Cell, CellKind, Costs, Grid, GridIssue, SolveError};
use puzzles::solve::{solve, solve_with_costs};

fn grid_of(text: &[&str]) -> Result<Grid, SolveError> {
    let mut rows: Vec<Vec<CellKind>> = Vec::new();
    for line in text {
        let mut row = Vec::new();
        for c in line.chars() {
            row.push(match c {
                '.' => CellKind::Open,
                '#' => CellKind::Blocked,
                'S' => CellKind::Start,
                'E' => CellKind::Goal,
                _ => panic!("unexpected cell"),
            });
        }
        rows.push(row);
    }
    Grid::new(rows)
}

/// Every simple path from the start state to any goal-cell state, by
/// exhaustive search; used to cross-check the engine on small grids.
fn brute_min(g: &Grid, step: u64, turn: u64) -> Option<u64> {
    fn open_at(g: &Grid, row: usize, col: usize) -> bool {
        row < g.height && col < g.width && g.cells[row][col] != CellKind::Blocked
    }
    fn dfs(
        g: &Grid,
        step: u64,
        turn: u64,
        row: usize,
        col: usize,
        facing: usize,
        cost: u64,
        seen: &mut Vec<bool>,
        best: &mut Option<u64>,
    ) {
        if row == g.goal.row && col == g.goal.col {
            if best.is_none() || cost < best.unwrap() {
                *best = Some(cost);
            }
            return;
        }
        let idx = (row * g.width + col) * 4 + facing;
        if seen[idx] {
            return;
        }
        seen[idx] = true;
        // turns
        dfs(g, step, turn, row, col, (facing + 3) % 4, cost + turn, seen, best);
        dfs(g, step, turn, row, col, (facing + 1) % 4, cost + turn, seen, best);
        // forward: facing 0 north, 1 east, 2 south, 3 west
        let target = match facing {
            0 => {
                if row > 0 {
                    Some((row - 1, col))
                } else {
                    None
                }
            }
            1 => {
                if col + 1 < g.width {
                    Some((row, col + 1))
                } else {
                    None
                }
            }
            2 => {
                if row + 1 < g.height {
                    Some((row + 1, col))
                } else {
                    None
                }
            }
            _ => {
                if col > 0 {
                    Some((row, col - 1))
                } else {
                    None
                }
            }
        };
        if let Some((r2, c2)) = target {
            if open_at(g, r2, c2) {
                dfs(g, step, turn, r2, c2, facing, cost + step, seen, best);
            }
        }
        seen[idx] = false;
    }
    let mut best = None;
    let mut seen = vec![false; g.width * g.height * 4];
    dfs(
        g,
        step,
        turn,
        g.start.row,
        g.start.col,
        1,
        0,
        &mut seen,
        &mut best,
    );
    best
}

#[test]
fn straight_corridor() {
    let g = grid_of(&["S..E"]).unwrap();
    let sol = solve(&g).unwrap();
    assert_eq!(sol.min_cost, 3);
    assert_eq!(sol.optimal_cells.len(), 4);
}

#[test]
fn turn_cost_corner() {
    // a five-by-five corridor with a single corner: four steps east,
    // four steps north, one turn
    let g = grid_of(&[
        "####E", //
        "####.", //
        "####.", //
        "####.", //
        "S....",
    ])
    .unwrap();
    let sol = solve(&g).unwrap();
    assert_eq!(sol.min_cost, (4 + 4) + 1000);
    assert_eq!(sol.optimal_cells.len(), 9);
}

#[test]
fn tie_paths_keep_both_routes() {
    // two mirror-image routes around a wall, equal in cost: the cell set
    // holds the union of both
    let g = grid_of(&[
        "....", //
        "S##E", //
        "....",
    ])
    .unwrap();
    let sol = solve(&g).unwrap();
    assert_eq!(sol.min_cost, 3000 + 5);
    assert_eq!(sol.optimal_cells.len(), 10);
    let cells: Vec<(usize, usize)> = sol.optimal_cells.iter().map(|c| (c.row, c.col)).collect();
    for col in 0..4 {
        assert!(cells.contains(&(0, col)));
        assert!(cells.contains(&(2, col)));
    }
    assert!(cells.contains(&(1, 0)));
    assert!(cells.contains(&(1, 3)));
}

#[test]
fn unreachable_goal() {
    let g = grid_of(&["S#E"]).unwrap();
    assert!(matches!(solve(&g), Err(SolveError::Unreachable)));
}

#[test]
fn solve_is_repeatable() {
    let g = grid_of(&[
        ".....", //
        ".###.", //
        "S...E",
    ])
    .unwrap();
    let a = solve(&g).unwrap();
    let b = solve(&g).unwrap();
    assert_eq!(a.min_cost, b.min_cost);
    let mut ca: Vec<(usize, usize)> = a.optimal_cells.iter().map(|c| (c.row, c.col)).collect();
    let mut cb: Vec<(usize, usize)> = b.optimal_cells.iter().map(|c| (c.row, c.col)).collect();
    ca.sort();
    cb.sort();
    assert_eq!(ca, cb);
}

#[test]
fn matches_exhaustive_search() {
    let texts: Vec<Vec<&str>> = vec![
        vec!["S..E"],
        vec!["....", "S##E", "...."],
        vec!["..E", ".#.", "S.."],
        vec!["S#.E", "...."],
        vec!["E...", ".##.", ".#..", "S..."],
    ];
    for text in texts {
        let g = grid_of(&text).unwrap();
        let brute = brute_min(&g, 1, 1000);
        let engine = solve(&g).map(|s| s.min_cost).ok();
        assert_eq!(engine, brute);
    }
}

#[test]
fn start_and_goal_always_reported() {
    let g = grid_of(&[
        "E..", //
        "...", //
        "..S",
    ])
    .unwrap();
    let sol = solve(&g).unwrap();
    let cells: Vec<(usize, usize)> = sol.optimal_cells.iter().map(|c| (c.row, c.col)).collect();
    assert!(cells.contains(&(2, 2)));
    assert!(cells.contains(&(0, 0)));
}

#[test]
fn custom_costs() {
    // with cheap turns the dog-leg route costs little more than its steps
    let g = grid_of(&[
        ".E", //
        "S.",
    ])
    .unwrap();
    let sol = solve_with_costs(&g, Costs { step: 2, turn: 5 }).unwrap();
    // east then turn north then north: 2 + 5 + 2
    assert_eq!(sol.min_cost, 9);
}

#[test]
fn grid_rejects_empty() {
    assert!(matches!(
        Grid::new(vec![]),
        Err(SolveError::InvalidGrid(GridIssue::Empty))
    ));
    assert!(matches!(
        Grid::new(vec![vec![]]),
        Err(SolveError::InvalidGrid(GridIssue::Empty))
    ));
}

#[test]
fn grid_rejects_ragged_rows() {
    let rows = vec![
        vec![CellKind::Start, CellKind::Open],
        vec![CellKind::Goal],
    ];
    assert!(matches!(
        Grid::new(rows),
        Err(SolveError::InvalidGrid(GridIssue::Ragged))
    ));
}

#[test]
fn grid_rejects_bad_start_count() {
    let rows = vec![vec![CellKind::Start, CellKind::Start, CellKind::Goal]];
    assert!(matches!(
        Grid::new(rows),
        Err(SolveError::InvalidGrid(GridIssue::BadStartCount))
    ));
    let rows = vec![vec![CellKind::Open, CellKind::Goal]];
    assert!(matches!(
        Grid::new(rows),
        Err(SolveError::InvalidGrid(GridIssue::BadStartCount))
    ));
}

#[test]
fn grid_rejects_bad_goal_count() {
    let rows = vec![vec![CellKind::Start, CellKind::Goal, CellKind::Goal]];
    assert!(matches!(
        Grid::new(rows),
        Err(SolveError::InvalidGrid(GridIssue::BadGoalCount))
    ));
    let rows = vec![vec![CellKind::Start, CellKind::Open]];
    assert!(matches!(
        Grid::new(rows),
        Err(SolveError::InvalidGrid(GridIssue::BadGoalCount))
    ));
}

#[test]
fn grid_lookup() {
    let g = grid_of(&["S.#E"]).unwrap();
    assert_eq!(g.start_cell(), Cell { row: 0, col: 0 });
    assert_eq!(g.goal_cell(), Cell { row: 0, col: 3 });
    assert_eq!(g.cell_kind(Cell { row: 0, col: 2 }), Some(CellKind::Blocked));
    assert_eq!(g.cell_kind(Cell { row: 0, col: 1 }), Some(CellKind::Open));
    assert_eq!(g.cell_kind(Cell { row: 1, col: 0 }), None);
}
