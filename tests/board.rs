use sudoku::cell::CellValue;
use sudoku::game::{Game, GridError};

const ZEROS: [[u8; 9]; 9] = [[0; 9]; 9];

fn digit(n: u8) -> CellValue {
    CellValue::new(n).unwrap()
}

/// Digits not held by any peer of `(row, col)` in `grid`.
fn open_digits(grid: &[[u8; 9]; 9], row: usize, col: usize) -> Vec<u8> {
    (1..=9u8)
        .filter(|&d| {
            (0..9).all(|r| {
                (0..9).all(|c| {
                    let peer = (r, c) != (row, col)
                        && (r == row || c == col || (r / 3 == row / 3 && c / 3 == col / 3));
                    !peer || grid[r][c] != d
                })
            })
        })
        .collect()
}

/// Every empty cell's candidates are exactly the digits its peers lack; every
/// filled cell's candidates are exactly its digit.
fn assert_candidates_exact(game: &Game) {
    let grid = game.to_grid();
    for row in 0..9 {
        for col in 0..9 {
            let expected: Vec<u8> = if grid[row][col] == 0 {
                open_digits(&grid, row, col)
            } else {
                vec![grid[row][col]]
            };
            let actual: Vec<u8> = (1..=9u8)
                .filter(|&d| game.is_possible(row, col, digit(d)))
                .collect();
            assert_eq!(actual, expected, "cell ({}, {})", row, col);
        }
    }
}

#[test]
fn cell_value_new_accepts_digits_only() {
    assert!(CellValue::new(0).is_none());
    assert!(CellValue::new(10).is_none());
    assert!(CellValue::new(255).is_none());
    for n in 1..=9u8 {
        let v = CellValue::new(n).unwrap();
        assert_eq!(v.get(), n);
        assert_eq!(v.index(), (n - 1) as usize);
        assert_eq!(CellValue::from_index((n - 1) as usize), v);
    }
    assert_eq!(CellValue::new(1), Some(CellValue::One));
    assert_eq!(CellValue::new(9), Some(CellValue::Nine));
    assert_eq!(CellValue::Seven.to_char(), '7');
}

#[test]
fn new_rejects_digit_out_of_range() {
    let mut grid = ZEROS;
    grid[4][7] = 10;
    assert_eq!(Game::new(grid).err(), Some(GridError::DigitOutOfRange));
}

#[test]
fn new_rejects_repeated_digit_in_row() {
    let mut grid = ZEROS;
    grid[0][1] = 5;
    grid[0][6] = 5;
    assert_eq!(Game::new(grid).err(), Some(GridError::Conflict));
}

#[test]
fn new_rejects_repeated_digit_in_column_and_region() {
    let mut col = ZEROS;
    col[1][3] = 8;
    col[7][3] = 8;
    assert_eq!(Game::new(col).err(), Some(GridError::Conflict));
    let mut region = ZEROS;
    region[3][3] = 2;
    region[5][4] = 2;
    assert_eq!(Game::new(region).err(), Some(GridError::Conflict));
}

#[test]
fn new_rejects_dead_cell() {
    let mut grid = ZEROS;
    grid[0] = [0, 1, 2, 3, 4, 5, 6, 7, 8];
    grid[1][0] = 9;
    assert_eq!(Game::new(grid).err(), Some(GridError::DeadCell));
}

#[test]
fn empty_grid_is_valid_but_not_solved() {
    let game = Game::new(ZEROS).unwrap();
    assert!(game.is_valid());
    assert!(!game.solved());
    assert_eq!(game.empty_count(), 81);
    assert_eq!(game.to_grid(), ZEROS);
    for d in 1..=9u8 {
        assert!(game.is_possible(4, 4, digit(d)));
    }
}

#[test]
fn new_computes_candidates_from_givens() {
    let mut grid = ZEROS;
    grid[0][0] = 1;
    grid[0][8] = 2;
    grid[8][1] = 3;
    grid[2][2] = 4;
    let game = Game::new(grid).unwrap();
    assert_candidates_exact(&game);
    assert!(!game.is_possible(0, 1, digit(1)));
    assert!(!game.is_possible(0, 1, digit(3)));
    assert!(!game.is_possible(1, 1, digit(4)));
    assert!(game.is_possible(1, 1, digit(2)));
    assert!(game.is_possible(0, 0, digit(1)));
    assert!(!game.is_possible(0, 0, digit(2)));
    assert_eq!(game.empty_count(), 77);
}

#[test]
fn set_cell_removes_digit_from_peers() {
    let mut game = Game::new(ZEROS).unwrap();
    game.set_cell(4, 4, digit(5));
    assert_eq!(game.cell(4, 4), Some(CellValue::Five));
    assert!(!game.is_possible(4, 0, digit(5)));
    assert!(!game.is_possible(0, 4, digit(5)));
    assert!(!game.is_possible(3, 3, digit(5)));
    assert!(game.is_possible(0, 0, digit(5)));
    assert!(game.is_possible(4, 0, digit(6)));
    for d in 1..=9u8 {
        assert_eq!(game.is_possible(4, 4, digit(d)), d == 5);
    }
    assert_candidates_exact(&game);
}

#[test]
fn unset_cell_restores_candidates() {
    let mut game = Game::new(ZEROS).unwrap();
    game.set_cell(4, 4, digit(5));
    game.set_cell(4, 0, digit(6));
    game.unset_cell(4, 4);
    assert_eq!(game.cell(4, 4), None);
    assert!(game.is_possible(0, 4, digit(5)));
    assert!(game.is_possible(4, 4, digit(5)));
    assert!(!game.is_possible(4, 4, digit(6)));
    assert!(!game.is_possible(4, 8, digit(6)));
    assert_candidates_exact(&game);
    game.unset_cell(4, 0);
    assert_eq!(game.to_grid(), ZEROS);
    assert_candidates_exact(&game);
}

#[test]
fn set_cell_over_another_digit_frees_the_old_one() {
    let mut game = Game::new(ZEROS).unwrap();
    game.set_cell(0, 0, digit(5));
    game.set_cell(0, 0, digit(6));
    assert_eq!(game.cell(0, 0), Some(CellValue::Six));
    assert!(game.is_possible(0, 5, digit(5)));
    assert!(!game.is_possible(0, 5, digit(6)));
    assert_candidates_exact(&game);
}

#[test]
fn set_and_unset_sequence_keeps_candidates_exact() {
    let mut game = Game::new(ZEROS).unwrap();
    // Two 7s in one row: unsetting one keeps the row's 7 flagged.
    game.set_cell(2, 1, digit(7));
    game.set_cell(2, 7, digit(7));
    assert!(!game.is_valid());
    game.unset_cell(2, 1);
    assert!(!game.is_possible(2, 1, digit(7)));
    assert!(game.is_valid());
    assert_candidates_exact(&game);
    for (k, d) in [3u8, 9, 1, 4, 4, 2].iter().enumerate() {
        game.set_cell(k, (2 * k) % 9, digit(*d));
        assert_candidates_exact(&game);
    }
    game.unset_cell(3, 6);
    game.unset_cell(0, 0);
    assert_candidates_exact(&game);
}

#[test]
fn set_cell_with_same_digit_changes_nothing() {
    let mut game = Game::new(ZEROS).unwrap();
    game.set_cell(8, 8, digit(3));
    let before = game.to_grid();
    game.set_cell(8, 8, digit(3));
    assert_eq!(game.to_grid(), before);
    assert_candidates_exact(&game);
    game.unset_cell(0, 0);
    assert_eq!(game.to_grid(), before);
}

#[test]
fn cell_char_shows_digit_or_blank() {
    let mut grid = ZEROS;
    grid[3][5] = 8;
    let game = Game::new(grid).unwrap();
    assert_eq!(game.cell_char(3, 5), '8');
    assert_eq!(game.cell_char(0, 0), ' ');
    assert_eq!(game.cell(3, 5), Some(CellValue::Eight));
    assert_eq!(game.first_empty(), (0, 0));
}

#[test]
fn first_empty_scans_row_major() {
    let mut grid = ZEROS;
    for c in 0..9 {
        grid[0][c] = (c + 1) as u8;
    }
    grid[1][0] = 4;
    let game = Game::new(grid).unwrap();
    assert_eq!(game.first_empty(), (1, 1));
    assert_eq!(game.empty_count(), 71);
}

#[test]
fn validate_names_the_broken_rule() {
    let mut game = Game::new(ZEROS).unwrap();
    assert_eq!(game.validate(), Ok(()));
    game.set_cell(0, 0, digit(4));
    game.set_cell(8, 0, digit(4));
    assert_eq!(game.validate(), Err(GridError::Conflict));
    let mut dead = Game::new(ZEROS).unwrap();
    for c in 1..9 {
        dead.set_cell(0, c, digit(c as u8));
    }
    dead.set_cell(5, 0, digit(9));
    assert_eq!(dead.validate(), Err(GridError::DeadCell));
    assert!(!dead.is_valid());
}
