use sudoku::game::Game;

const ZEROS: [[u8; 9]; 9] = [[0; 9]; 9];

const EASY: [[u8; 9]; 9] = [
    [2, 0, 5, 0, 0, 9, 0, 0, 4],
    [0, 0, 0, 0, 0, 0, 3, 0, 7],
    [7, 0, 0, 8, 5, 6, 0, 1, 0],
    [4, 5, 0, 7, 0, 0, 0, 0, 0],
    [0, 0, 9, 0, 0, 0, 1, 0, 0],
    [0, 0, 0, 0, 0, 2, 0, 8, 5],
    [0, 2, 0, 4, 1, 8, 0, 0, 6],
    [6, 0, 8, 0, 0, 0, 0, 0, 0],
    [1, 0, 0, 2, 0, 0, 7, 0, 8],
];

const EASY_SOLUTION: [[u8; 9]; 9] = [
    [2, 1, 5, 3, 7, 9, 8, 6, 4],
    [9, 8, 6, 1, 2, 4, 3, 5, 7],
    [7, 3, 4, 8, 5, 6, 2, 1, 9],
    [4, 5, 2, 7, 8, 1, 6, 9, 3],
    [8, 6, 9, 5, 4, 3, 1, 7, 2],
    [3, 7, 1, 6, 9, 2, 4, 8, 5],
    [5, 2, 7, 4, 1, 8, 9, 3, 6],
    [6, 4, 8, 9, 3, 7, 5, 2, 1],
    [1, 9, 3, 2, 6, 5, 7, 4, 8],
];

/// What the search reaches from an empty board: the first cell in row-major
/// order takes the smallest digit that still leads to a solution.
const ZEROS_SOLUTION: [[u8; 9]; 9] = [
    [1, 2, 3, 4, 5, 6, 7, 8, 9],
    [4, 5, 6, 7, 8, 9, 1, 2, 3],
    [7, 8, 9, 1, 2, 3, 4, 5, 6],
    [2, 1, 4, 3, 6, 5, 8, 9, 7],
    [3, 6, 5, 8, 9, 7, 2, 1, 4],
    [8, 9, 7, 2, 1, 4, 3, 6, 5],
    [5, 3, 1, 6, 4, 2, 9, 7, 8],
    [6, 4, 2, 9, 7, 8, 5, 3, 1],
    [9, 7, 8, 5, 3, 1, 6, 4, 2],
];

fn is_permutation(values: impl Iterator<Item = u8>) -> bool {
    let mut v: Vec<u8> = values.collect();
    v.sort();
    v == (1..=9).collect::<Vec<u8>>()
}

fn assert_solved_grid(g: &[[u8; 9]; 9]) {
    for i in 0..9 {
        assert!(is_permutation(g[i].iter().copied()), "row {}", i);
        assert!(is_permutation((0..9).map(|r| g[r][i])), "column {}", i);
        let (rs, cs) = (3 * (i / 3), 3 * (i % 3));
        assert!(is_permutation((0..9).map(|k| g[rs + k / 3][cs + k % 3])), "region {}", i);
    }
}

fn assert_extends(solution: &[[u8; 9]; 9], puzzle: &[[u8; 9]; 9]) {
    for r in 0..9 {
        for c in 0..9 {
            if puzzle[r][c] != 0 {
                assert_eq!(solution[r][c], puzzle[r][c], "given at ({}, {})", r, c);
            }
        }
    }
}

#[test]
fn easy_puzzle_solves_to_its_unique_solution() {
    let mut game = Game::new(EASY).unwrap();
    assert!(!game.solved());
    assert!(game.solve());
    assert!(game.solved());
    assert_eq!(game.to_grid(), EASY_SOLUTION);
    assert_solved_grid(&game.to_grid());
    assert_extends(&game.to_grid(), &EASY);
}

#[test]
fn solving_a_solved_board_is_a_no_op() {
    let mut game = Game::new(EASY).unwrap();
    assert!(game.solve());
    let first = game.to_grid();
    assert!(game.solve());
    assert_eq!(game.to_grid(), first);
    assert_eq!(game.empty_count(), 0);
}

#[test]
fn filled_valid_grid_is_returned_unchanged() {
    let mut game = Game::new(EASY_SOLUTION).unwrap();
    assert!(game.solved());
    assert!(game.solve());
    assert_eq!(game.to_grid(), EASY_SOLUTION);
    assert!(!game.propagate_poss_to_board());
    assert_eq!(game.to_grid(), EASY_SOLUTION);
}

#[test]
fn empty_grid_solves_to_a_consistent_grid() {
    let mut game = Game::new(ZEROS).unwrap();
    assert!(game.is_valid());
    assert!(!game.solved());
    assert!(game.solve());
    assert!(game.solved());
    assert_solved_grid(&game.to_grid());
    assert_eq!(game.to_grid(), ZEROS_SOLUTION);
}

#[test]
fn propagate_reaches_a_fixpoint_and_stays_there() {
    let mut game = Game::new(EASY).unwrap();
    assert!(game.propagate_poss_to_board());
    let mut passes = 1;
    while game.propagate_poss_to_board() {
        passes += 1;
        assert!(passes <= 81);
    }
    let fixpoint = game.to_grid();
    assert!(!game.propagate_poss_to_board());
    assert_eq!(game.to_grid(), fixpoint);
    assert_extends(&EASY_SOLUTION, &fixpoint);
}

#[test]
fn propagate_fills_naked_single() {
    let mut grid = ZEROS;
    grid[0] = [1, 2, 3, 4, 5, 6, 7, 8, 0];
    let mut game = Game::new(grid).unwrap();
    assert!(game.propagate_poss_to_board());
    assert_eq!(game.to_grid()[0][8], 9);
    assert!(!game.propagate_poss_to_board());
}

#[test]
fn propagate_on_empty_grid_changes_nothing() {
    let mut game = Game::new(ZEROS).unwrap();
    assert!(!game.propagate_poss_to_board());
    assert_eq!(game.to_grid(), ZEROS);
}

#[test]
fn unsolvable_puzzle_is_reported_and_left_as_is() {
    // Cells (0, 7) and (0, 8) both have only 9 left.
    let mut grid = ZEROS;
    grid[0] = [1, 2, 3, 4, 5, 6, 7, 0, 0];
    grid[1][7] = 8;
    grid[4][8] = 8;
    let mut game = Game::new(grid).unwrap();
    assert!(!game.solve());
    assert_eq!(game.to_grid(), grid);
    assert!(game.is_valid());
}

#[test]
fn invalid_state_after_set_cell_is_not_solvable() {
    let mut game = Game::new(EASY).unwrap();
    game.set_cell(0, 1, sudoku::cell::CellValue::new(2).unwrap());
    assert!(!game.is_valid());
    let before = game.to_grid();
    assert!(!game.solve());
    assert_eq!(game.to_grid(), before);
}
