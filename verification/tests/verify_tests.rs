// Checks of the cell and board consistency checks.

use sudoku::sudoku::Sudoku;

#[test]
// Test verify_cell() to make sure it generally works as expected
fn test_verify_cell_basic() {
    // Populate first row 1-9, remaining 2-9, 1 so verify should work
    let mut board: [[u8; 9]; 9] = [[0; 9]; 9];
    board[0] = [1, 2, 3, 4, 5, 6, 7, 8, 9];
    for i in 1..9 {
        board[i] = [2, 3, 4, 5, 6, 7, 8, 9, 1];
    }
    let cur = Sudoku::new(board);

    // Should pass since no 1 in column, row, box
    assert_eq!(true, cur.verify_cell(0, 0));

    // Second row first col should fail
    assert_eq!(false, cur.verify_cell(1, 0));
}

#[test]
// Check the full verify function with a couple examples from online
fn test_verify_full() {
    let mut cur = Sudoku::default();

    cur.set_full([
        [5, 3, 0, 0, 7, 0, 0, 0, 0],
        [6, 0, 0, 1, 9, 5, 0, 0, 0],
        [0, 9, 8, 0, 0, 0, 0, 6, 0],
        [8, 0, 0, 0, 6, 0, 0, 0, 3],
        [4, 0, 0, 8, 0, 3, 0, 0, 1],
        [7, 0, 0, 0, 2, 0, 0, 0, 6],
        [0, 6, 0, 0, 0, 0, 2, 8, 0],
        [0, 0, 0, 4, 1, 9, 0, 0, 5],
        [0, 0, 0, 0, 8, 0, 0, 7, 9],
    ]);
    assert_eq!(true, cur.verify());

    cur.set_full([
        [8, 3, 0, 0, 7, 0, 0, 0, 0],
        [6, 0, 0, 1, 9, 5, 0, 0, 0],
        [0, 9, 8, 0, 0, 0, 0, 6, 0],
        [8, 0, 0, 0, 6, 0, 0, 0, 3],
        [4, 0, 0, 8, 0, 3, 0, 0, 1],
        [7, 0, 0, 0, 2, 0, 0, 0, 6],
        [0, 6, 0, 0, 0, 0, 2, 8, 0],
        [0, 0, 0, 4, 1, 9, 0, 0, 5],
        [0, 0, 0, 0, 8, 0, 0, 7, 9],
    ]);
    assert_eq!(false, cur.verify());

    cur.set_full([
        [5, 3, 0, 0, 7, 0, 0, 0, 0],
        [6, 0, 0, 1, 9, 5, 0, 0, 0],
        [0, 9, 8, 0, 0, 0, 0, 6, 0],
        [8, 0, 0, 0, 6, 0, 0, 0, 3],
        [4, 0, 0, 8, 0, 3, 0, 0, 1],
        [7, 0, 0, 0, 2, 0, 0, 0, 6],
        [0, 6, 0, 0, 0, 0, 2, 8, 0],
        [0, 0, 0, 4, 1, 9, 0, 0, 5],
        [0, 0, 0, 0, 8, 0, 0, 7, 9],
    ]);
    assert_eq!(true, cur.verify());
}

// A completed board that satisfies every row, column, and box constraint.
fn completed_valid_board() -> [[u8; 9]; 9] {
    let mut board: [[u8; 9]; 9] = [[0; 9]; 9];
    for r in 0..9 {
        for c in 0..9 {
            board[r][c] = ((r * 3 + r / 3 + c) % 9) as u8 + 1;
        }
    }
    board
}

#[test]
// A completed valid grid passes; duplicating a row neighbour in any cell fails.
fn test_verify_completed_grid_and_single_cell_corruption() {
    let board = completed_valid_board();
    let cur = Sudoku::new(board);
    assert_eq!(true, cur.verify());

    // Overwrite each cell in turn with the value of a row neighbour.
    for r in 0..9 {
        for c in 0..9 {
            let other = (c + 1) % 9;
            let mut corrupt = board;
            corrupt[r][c] = board[r][other];
            let bad = Sudoku::new(corrupt);
            assert_eq!(false, bad.verify());
        }
    }
}

#[test]
// An empty board imposes no constraint.
fn test_verify_empty_board() {
    let cur = Sudoku::default();
    assert_eq!(true, cur.verify());
    for r in 0..9 {
        for c in 0..9 {
            assert_eq!(0, cur.get(r, c));
            assert_eq!(true, cur.verify_cell(r, c));
        }
    }
}

#[test]
// check_cell ignores the current content of the cell under test.
fn test_check_cell_ignores_own_cell() {
    let mut board: [[u8; 9]; 9] = [[0; 9]; 9];
    board[4][4] = 7;
    let cur = Sudoku::new(board);
    // A 7 already stands at (4, 4), but only other cells count.
    assert_eq!(true, cur.check_cell(4, 4, 7));
    // A 7 elsewhere in the row, column, or box does count.
    board[4][7] = 7;
    let row_clash = Sudoku::new(board);
    assert_eq!(false, row_clash.check_cell(4, 4, 7));
    board[4][7] = 0;
    board[0][4] = 7;
    let col_clash = Sudoku::new(board);
    assert_eq!(false, col_clash.check_cell(4, 4, 7));
    board[0][4] = 0;
    board[3][5] = 7;
    let box_clash = Sudoku::new(board);
    assert_eq!(false, box_clash.check_cell(4, 4, 7));
}

#[test]
// get_first_empty scans in row-major order and signals a full board.
fn test_get_first_empty() {
    let empty = Sudoku::default();
    assert_eq!((0, 0), empty.get_first_empty());

    let mut board: [[u8; 9]; 9] = [[0; 9]; 9];
    board[0] = [5, 3, 0, 0, 7, 0, 0, 0, 0];
    let partial = Sudoku::new(board);
    assert_eq!((0, 2), partial.get_first_empty());

    let full = Sudoku::new(completed_valid_board());
    assert_eq!((usize::MAX, usize::MAX), full.get_first_empty());
}

#[test]
// new stores the given values verbatim and get reads them back.
fn test_new_and_get_roundtrip() {
    let board = completed_valid_board();
    let cur = Sudoku::new(board);
    for r in 0..9 {
        for c in 0..9 {
            assert_eq!(board[r][c], cur.get(r, c));
        }
    }
}

#[test]
// set_full overwrites every cell by position.
fn test_set_full_overwrites() {
    let mut cur = Sudoku::new(completed_valid_board());
    let mut board: [[u8; 9]; 9] = [[0; 9]; 9];
    board[8][8] = 4;
    cur.set_full(board);
    for r in 0..9 {
        for c in 0..9 {
            assert_eq!(board[r][c], cur.get(r, c));
        }
    }
}
