use sudoku_solver::solver::{SolveStep, SudokuSolver};
use sudoku_solver::sudoku::{FieldPosition, GridError, SudokuGrid};

fn empty_givens() -> Vec<Vec<Option<usize>>> {
    let mut rows: Vec<Vec<Option<usize>>> = Vec::new();
    for _ in 0..9 {
        rows.push(vec![None; 9]);
    }
    rows
}

/// A fully and validly filled board: row `r` holds the digits shifted by
/// `3*r + r/3`, which keeps every row, column and box complete.
fn completed_givens() -> Vec<Vec<Option<usize>>> {
    let mut rows: Vec<Vec<Option<usize>>> = Vec::new();
    for r in 0..9usize {
        let mut row: Vec<Option<usize>> = Vec::new();
        for c in 0..9usize {
            row.push(Some((3 * r + r / 3 + c) % 9 + 1));
        }
        rows.push(row);
    }
    rows
}

fn strike_all_but(solver: &mut SudokuSolver, row: usize, column: usize, keep: &[usize]) {
    let position = FieldPosition::new(row, column);
    let field = solver
        .grid_mut()
        .get_field_mut(&position)
        .expect("position is on the board");
    for d in 1..=9usize {
        if !keep.contains(&d) {
            field.remove_possibility(d);
        }
    }
}

#[test]
fn empty_grid_stalls_immediately() {
    let grid = SudokuGrid::from_givens(&empty_givens()).unwrap();
    let mut solver = SudokuSolver::new(grid);

    let changed = solver.solve();

    assert!(!changed);
    assert!(solver.solve_steps().is_empty());
    for field in solver.grid().fields() {
        assert_eq!(field.value(), None);
        assert_eq!(field.possibilities().len(), 9);
    }
}

#[test]
fn naked_single_fills_the_last_gap_of_a_row() {
    let mut givens = empty_givens();
    for c in 0..8usize {
        givens[0][c] = Some(c + 1);
    }
    let grid = SudokuGrid::from_givens(&givens).unwrap();
    let mut solver = SudokuSolver::new(grid);
    // The round works on the mid-solve state in which earlier rounds
    // have already reduced the open cell to its one remaining candidate.
    strike_all_but(&mut solver, 0, 8, &[9]);

    let changed = solver.solve();

    assert!(changed);
    let field = solver.grid().get_field(FieldPosition::new(0, 8)).unwrap();
    assert_eq!(field.value(), Some(9));
}

#[test]
fn hidden_single_claims_the_only_possible_cell() {
    let grid = SudokuGrid::from_givens(&empty_givens()).unwrap();
    let mut solver = SudokuSolver::new(grid);
    // Digit 5 stays possible only in cell (0, 0) of row 0.
    for c in 1..9usize {
        strike_all_but(&mut solver, 0, c, &[1, 2, 3, 4, 6, 7, 8, 9]);
    }

    let changed = solver.solve();

    assert!(changed);
    let field = solver.grid().get_field(FieldPosition::new(0, 0)).unwrap();
    assert_eq!(field.value(), Some(5));
}

#[test]
fn naked_pair_clears_the_rest_of_the_box() {
    let grid = SudokuGrid::from_givens(&empty_givens()).unwrap();
    let mut solver = SudokuSolver::new(grid);
    strike_all_but(&mut solver, 0, 0, &[2, 7]);
    strike_all_but(&mut solver, 1, 1, &[2, 7]);

    let changed = solver.solve();

    assert!(changed);
    for (r, c) in [(0, 1), (0, 2), (1, 0), (1, 2), (2, 0), (2, 1), (2, 2)] {
        let field = solver.grid().get_field(FieldPosition::new(r, c)).unwrap();
        assert_eq!(field.value(), None);
        assert!(!field.possibilities().contains(&2));
        assert!(!field.possibilities().contains(&7));
    }
    for (r, c) in [(0, 0), (1, 1)] {
        let field = solver.grid().get_field(FieldPosition::new(r, c)).unwrap();
        assert_eq!(field.value(), None);
        assert_eq!(field.possibilities(), &vec![2, 7]);
    }
}

#[test]
fn completed_grid_is_a_fixed_point() {
    let grid = SudokuGrid::from_givens(&completed_givens()).unwrap();
    assert!(grid.is_completed());

    let mut solver = SudokuSolver::new(grid);
    let changed = solver.solve();

    assert!(!changed);
    assert!(solver.solve_steps().is_empty());
    assert!(solver.grid().is_completed());
}

#[test]
fn a_stalled_round_changes_nothing_twice() {
    let grid = SudokuGrid::from_givens(&empty_givens()).unwrap();
    let mut solver = SudokuSolver::new(grid);

    assert!(!solver.solve());
    assert!(!solver.solve());
    assert!(solver.solve_steps().is_empty());
}

#[test]
fn rounds_eliminate_given_values_from_candidates() {
    let mut givens = empty_givens();
    givens[0][0] = Some(1);
    givens[4][4] = Some(2);
    let grid = SudokuGrid::from_givens(&givens).unwrap();
    let mut solver = SudokuSolver::new(grid);

    assert!(solver.solve());

    // Row, column and box of the given 1 no longer allow it.
    for c in 1..9usize {
        let field = solver.grid().get_field(FieldPosition::new(0, c)).unwrap();
        assert!(!field.possibilities().contains(&1));
    }
    for r in 1..9usize {
        let field = solver.grid().get_field(FieldPosition::new(r, 0)).unwrap();
        assert!(!field.possibilities().contains(&1));
    }
    for (r, c) in [(1, 1), (1, 2), (2, 1), (2, 2)] {
        let field = solver.grid().get_field(FieldPosition::new(r, c)).unwrap();
        assert!(!field.possibilities().contains(&1));
    }
    // A cell sharing no unit with either given keeps all nine digits.
    let field = solver.grid().get_field(FieldPosition::new(8, 1)).unwrap();
    assert_eq!(field.possibilities().len(), 9);
    // The cell next to the given lost exactly that one digit.
    let field = solver.grid().get_field(FieldPosition::new(0, 1)).unwrap();
    assert_eq!(field.possibilities().len(), 8);
}

#[test]
fn repeated_rounds_solve_an_easy_puzzle() {
    // A completed board with six cells blanked out again, one per unit:
    // the hidden singles put every one of them back.
    let mut givens = completed_givens();
    for (r, c) in [(0, 0), (1, 6), (2, 3), (4, 5), (6, 7), (8, 1)] {
        givens[r][c] = None;
    }
    let grid = SudokuGrid::from_givens(&givens).unwrap();
    let mut solver = SudokuSolver::new(grid);

    let mut rounds = 0;
    while !solver.grid().is_completed() {
        let changed = solver.solve();
        rounds += 1;
        assert!(changed, "the solver stalled before completing the grid");
        assert!(rounds <= 811, "more rounds than the measure allows");
    }
    assert!(solver.grid().is_completed());
    for r in 0..9usize {
        for c in 0..9usize {
            let field = solver.grid().get_field(FieldPosition::new(r, c)).unwrap();
            assert_eq!(field.value(), Some((3 * r + r / 3 + c) % 9 + 1));
        }
    }
    assert!(!solver.solve_steps().is_empty());
}

#[test]
fn import_replaces_the_grid_and_rejects_bad_input() {
    let grid = SudokuGrid::from_givens(&empty_givens()).unwrap();
    let mut solver = SudokuSolver::new(grid);

    let mut givens = completed_givens();
    assert_eq!(solver.import_from(&givens), Ok(()));
    assert!(solver.grid().is_completed());

    givens[1][1] = Some(11);
    assert_eq!(solver.import_from(&givens), Err(GridError::InvalidDigit));
    // The failed import leaves the previous grid in place.
    assert!(solver.grid().is_completed());
}

#[test]
fn applied_steps_are_recorded_in_the_log() {
    let mut givens = empty_givens();
    for c in 0..8usize {
        givens[0][c] = Some(c + 1);
    }
    let grid = SudokuGrid::from_givens(&givens).unwrap();
    let mut solver = SudokuSolver::new(grid);
    strike_all_but(&mut solver, 0, 8, &[9]);

    assert!(solver.solve());

    let log = solver.solve_steps();
    assert!(!log.is_empty());
    let expected = (FieldPosition::new(0, 8), SolveStep::SetValue(9));
    assert!(log.contains(&expected));
}

#[test]
fn an_exhausted_cell_signals_a_contradiction() {
    let grid = SudokuGrid::from_givens(&empty_givens()).unwrap();
    let mut solver = SudokuSolver::new(grid);
    assert!(!solver.grid().has_contradiction());

    strike_all_but(&mut solver, 3, 3, &[]);
    assert!(solver.grid().has_contradiction());
}
