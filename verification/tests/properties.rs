use sudoku::board::SudokuBoard;
use sudoku::brute::brute_force_all;
use sudoku::search::resolve;

/// A fully solved, valid grid.
fn full_grid() -> [[u32; 9]; 9] {
    [
        [7, 4, 8, 6, 1, 3, 9, 2, 5],
        [3, 5, 1, 9, 2, 8, 7, 4, 6],
        [9, 2, 6, 7, 4, 5, 8, 1, 3],
        [2, 8, 4, 3, 5, 9, 6, 7, 1],
        [5, 9, 7, 1, 8, 6, 4, 3, 2],
        [6, 1, 3, 4, 7, 2, 5, 9, 8],
        [4, 3, 5, 2, 6, 7, 1, 8, 9],
        [1, 6, 2, 8, 9, 4, 3, 5, 7],
        [8, 7, 9, 5, 3, 1, 2, 6, 4],
    ]
}

/// The full grid with cells (0,5), (0,8), (2,5), (2,8) blanked: exactly two
/// completions exist, the original one and the one with 3 and 5 swapped in
/// those four cells.
fn two_solution_grid() -> [[u32; 9]; 9] {
    let mut g = full_grid();
    g[0][5] = 0;
    g[0][8] = 0;
    g[2][5] = 0;
    g[2][8] = 0;
    g
}

fn swapped_solution() -> [[u32; 9]; 9] {
    let mut g = full_grid();
    g[0][5] = 5;
    g[0][8] = 3;
    g[2][5] = 3;
    g[2][8] = 5;
    g
}

fn boards_identical(a: &SudokuBoard, b: &SudokuBoard) -> bool {
    for row in 0..9 {
        for col in 0..9 {
            if a.get(row, col).val != b.get(row, col).val {
                return false;
            }
            if a.get(row, col).candidates() != b.get(row, col).candidates() {
                return false;
            }
        }
    }
    true
}

/// A fully specified consistent board solves at once and stays unchanged.
#[test]
fn solve_full_board_unchanged() {
    let full = full_grid();
    let mut board = SudokuBoard::new_with(&full);
    let solved = board.solve();
    assert!(solved);
    assert!(board == full);
}

/// A board whose empty row is fully determined by columns is completed by
/// propagation alone to the unique known grid.
#[test]
fn solve_reconstructs_missing_row() {
    let mut grid = full_grid();
    for col in 0..9 {
        grid[4][col] = 0;
    }
    let mut board = SudokuBoard::new_with(&grid);
    let solved = board.solve();
    assert!(solved);
    assert!(board == full_grid());
}

/// A board that needs a guess: propagation reports stuck-but-not-exhausted,
/// and the search run to completion yields a valid grid.
#[test]
fn search_completes_stuck_board() {
    let puzzle = [
        [0, 4, 6, 9, 0, 3, 0, 0, 0],
        [0, 0, 3, 0, 5, 0, 0, 6, 0],
        [9, 0, 0, 0, 0, 2, 0, 0, 3],
        [0, 0, 5, 0, 0, 6, 0, 0, 0],
        [8, 0, 0, 0, 0, 0, 0, 1, 0],
        [0, 1, 0, 7, 8, 0, 2, 0, 0],
        [0, 0, 0, 0, 0, 0, 0, 5, 0],
        [0, 8, 1, 3, 0, 0, 0, 0, 7],
        [0, 0, 0, 8, 0, 0, 1, 0, 4],
    ];
    let board = SudokuBoard::new_with(&puzzle);
    let mut probe = board.clone();
    assert!(!probe.solve());
    assert!(!probe.exhausted());

    let mut solutions: Vec<SudokuBoard> = Vec::new();
    resolve(&board, 0, false, &mut solutions);
    assert_eq!(solutions.len(), 1);
    let result = [
        [1, 4, 6, 9, 7, 3, 5, 8, 2],
        [7, 2, 3, 4, 5, 8, 9, 6, 1],
        [9, 5, 8, 6, 1, 2, 4, 7, 3],
        [3, 7, 5, 1, 2, 6, 8, 4, 9],
        [8, 9, 2, 5, 3, 4, 7, 1, 6],
        [6, 1, 4, 7, 8, 9, 2, 3, 5],
        [4, 6, 7, 2, 9, 1, 3, 5, 8],
        [2, 8, 1, 3, 4, 5, 6, 9, 7],
        [5, 3, 9, 8, 6, 7, 1, 2, 4],
    ];
    assert!(solutions[0] == result);
}

/// Assigning the same value twice at the same cell leaves the board exactly
/// as assigning it once does.
#[test]
fn assign_is_idempotent() {
    let puzzle = two_solution_grid();
    let mut once = SudokuBoard::new_with(&puzzle);
    let mut twice = once.clone();
    once.set(3, 0, 5);
    twice.set(3, 0, 5);
    twice.set(3, 0, 5);
    assert!(boards_identical(&once, &twice));
}

/// A board where propagation forces some cell's candidate set empty reports
/// exhausted and fails to solve.
#[test]
fn exhausted_cell_fails_solve() {
    let grid = [
        [0, 1, 2, 3, 4, 5, 6, 7, 8],
        [9, 0, 0, 0, 0, 0, 0, 0, 0],
        [0, 0, 0, 0, 0, 0, 0, 0, 0],
        [0, 0, 0, 0, 0, 0, 0, 0, 0],
        [0, 0, 0, 0, 0, 0, 0, 0, 0],
        [0, 0, 0, 0, 0, 0, 0, 0, 0],
        [0, 0, 0, 0, 0, 0, 0, 0, 0],
        [0, 0, 0, 0, 0, 0, 0, 0, 0],
        [0, 0, 0, 0, 0, 0, 0, 0, 0],
    ];
    let mut board = SudokuBoard::new_with(&grid);
    assert!(board.get(0, 0).candidates().is_empty());
    assert!(board.exhausted());
    assert_eq!(board.solve(), false);
}

/// An under-constrained puzzle yields exactly its two distinct completions
/// when all solutions are requested.
#[test]
fn all_mode_finds_both_solutions() {
    let puzzle = two_solution_grid();
    let board = SudokuBoard::new_with(&puzzle);
    let mut solutions: Vec<SudokuBoard> = Vec::new();
    resolve(&board, 0, true, &mut solutions);
    assert_eq!(solutions.len(), 2);
    assert!(solutions[0] == full_grid());
    assert!(solutions[1] == swapped_solution());
}

/// Repeated brute-force invocation enumerates each solution of a
/// multi-solution puzzle exactly once before failing, and the final failing
/// call leaves every blank cell cleared again.
#[test]
fn brute_force_enumerates_all_solutions() {
    let mut grid = two_solution_grid();
    let solutions = brute_force_all(&mut grid);
    assert_eq!(solutions.len(), 2);
    assert_eq!(solutions[0], full_grid());
    assert_eq!(solutions[1], swapped_solution());
    assert_eq!(grid, two_solution_grid());
}

/// On a uniquely solvable puzzle the brute-force enumerator finds the same
/// (single) solution as propagation does.
#[test]
fn brute_force_agrees_with_propagation() {
    let puzzle = [
        [0, 4, 0, 6, 1, 0, 9, 2, 5],
        [0, 5, 1, 0, 0, 0, 7, 4, 6],
        [9, 2, 6, 0, 0, 0, 8, 1, 3],
        [0, 8, 0, 0, 5, 0, 0, 7, 1],
        [0, 9, 0, 1, 0, 0, 0, 3, 2],
        [0, 1, 3, 4, 7, 0, 5, 9, 8],
        [0, 0, 0, 0, 0, 0, 1, 8, 9],
        [1, 6, 2, 8, 0, 0, 3, 5, 7],
        [8, 0, 9, 0, 0, 1, 2, 6, 4],
    ];
    let mut by_propagation = SudokuBoard::new_with(&puzzle);
    assert!(by_propagation.solve());

    let mut grid = puzzle;
    let solutions = brute_force_all(&mut grid);
    assert_eq!(solutions.len(), 1);
    assert!(by_propagation == solutions[0]);
}

/// The rendering of a board is its 81 digits in nine newline-separated rows.
#[test]
fn render_layout() {
    let puzzle = two_solution_grid();
    let board = SudokuBoard::new_with(&puzzle);
    assert_eq!(
        board.render(),
        "748610920\n351928746\n926740810\n284359671\n597186432\n613472598\n435267189\n162894357\n879531264"
    );
}

/// Without a resume point on the stack there is nothing to enumerate.
#[test]
fn brute_force_needs_a_starting_point() {
    let mut grid = full_grid();
    let empty = [[false; 9]; 9];
    let mut stack: Vec<(usize, usize)> = Vec::new();
    let before = grid;
    let resolved = sudoku::brute::brute_force(&mut grid, &empty, &mut stack);
    assert!(!resolved);
    assert_eq!(grid, before);
}
