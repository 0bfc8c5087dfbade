// Checks of the backtracking solver.

use sudoku::sudoku::Sudoku;

#[test]
// The classic example puzzle has a solution, found in place.
fn test_solve_classic_example() {
    let mut cur = Sudoku::new([
        [5, 3, 0, 0, 7, 0, 0, 0, 0],
        [6, 0, 0, 1, 9, 5, 0, 0, 0],
        [0, 9, 8, 0, 0, 0, 0, 6, 0],
        [8, 0, 0, 0, 6, 0, 0, 0, 3],
        [4, 0, 0, 8, 0, 3, 0, 0, 1],
        [7, 0, 0, 0, 2, 0, 0, 0, 6],
        [0, 6, 0, 0, 0, 0, 2, 8, 0],
        [0, 0, 0, 4, 1, 9, 0, 0, 5],
        [0, 0, 0, 0, 8, 0, 0, 7, 9],
    ]);
    assert_eq!(true, cur.solve());
    let expected_row0: [u8; 9] = [5, 3, 4, 6, 7, 8, 9, 1, 2];
    for c in 0..9 {
        assert_eq!(expected_row0[c], cur.get(0, c));
    }
    // A solved board passes verification.
    assert_eq!(true, cur.verify());
}

#[test]
// A solved board keeps every given of the puzzle.
fn test_solve_keeps_givens() {
    let board: [[u8; 9]; 9] = [
        [5, 3, 0, 0, 7, 0, 0, 0, 0],
        [6, 0, 0, 1, 9, 5, 0, 0, 0],
        [0, 9, 8, 0, 0, 0, 0, 6, 0],
        [8, 0, 0, 0, 6, 0, 0, 0, 3],
        [4, 0, 0, 8, 0, 3, 0, 0, 1],
        [7, 0, 0, 0, 2, 0, 0, 0, 6],
        [0, 6, 0, 0, 0, 0, 2, 8, 0],
        [0, 0, 0, 4, 1, 9, 0, 0, 5],
        [0, 0, 0, 0, 8, 0, 0, 7, 9],
    ];
    let mut cur = Sudoku::new(board);
    assert_eq!(true, cur.solve());
    for r in 0..9 {
        for c in 0..9 {
            if board[r][c] != 0 {
                assert_eq!(board[r][c], cur.get(r, c));
            }
            assert!(cur.get(r, c) >= 1 && cur.get(r, c) <= 9);
        }
    }
}

#[test]
// An unsolvable grid: row 0 needs a 9 at its last cell, but the column
// already holds one.  solve fails and restores the board exactly.
fn test_solve_unsolvable_restores_board() {
    let mut board: [[u8; 9]; 9] = [[0; 9]; 9];
    board[0] = [1, 2, 3, 4, 5, 6, 7, 8, 0];
    board[1][8] = 9;
    let mut cur = Sudoku::new(board);
    assert_eq!(false, cur.solve());
    for r in 0..9 {
        for c in 0..9 {
            assert_eq!(board[r][c], cur.get(r, c));
        }
    }
}

#[test]
// The empty grid solves to some complete board with every unit a
// permutation of 1..=9.
fn test_solve_empty_grid() {
    let mut cur = Sudoku::default();
    assert_eq!(true, cur.solve());
    assert_eq!(true, cur.verify());

    // Every cell holds a digit.
    for r in 0..9 {
        for c in 0..9 {
            assert!(cur.get(r, c) >= 1 && cur.get(r, c) <= 9);
        }
    }
    // Rows cover 1..=9.
    for r in 0..9 {
        let mut seen = [false; 10];
        for c in 0..9 {
            seen[cur.get(r, c) as usize] = true;
        }
        for v in 1..10 {
            assert!(seen[v]);
        }
    }
    // Columns cover 1..=9.
    for c in 0..9 {
        let mut seen = [false; 10];
        for r in 0..9 {
            seen[cur.get(r, c) as usize] = true;
        }
        for v in 1..10 {
            assert!(seen[v]);
        }
    }
    // Boxes cover 1..=9.
    for b in 0..9 {
        let mut seen = [false; 10];
        for t in 0..9 {
            let r = (b / 3) * 3 + t / 3;
            let c = (b % 3) * 3 + t % 3;
            seen[cur.get(r, c) as usize] = true;
        }
        for v in 1..10 {
            assert!(seen[v]);
        }
    }
}

#[test]
// A board with no empty cell is reported solved as it stands, without
// re-checking consistency; that audit is verify's job.
fn test_solve_full_board_returns_true_without_checking() {
    let mut cur = Sudoku::new([[1; 9]; 9]);
    assert_eq!(true, cur.solve());
    assert_eq!(false, cur.verify());
    for r in 0..9 {
        for c in 0..9 {
            assert_eq!(1, cur.get(r, c));
        }
    }
}

#[test]
// Solving an already-solved board changes nothing and still verifies.
fn test_solve_idempotent_on_solved_board() {
    let mut cur = Sudoku::default();
    assert_eq!(true, cur.solve());
    let mut first: [[u8; 9]; 9] = [[0; 9]; 9];
    for r in 0..9 {
        for c in 0..9 {
            first[r][c] = cur.get(r, c);
        }
    }
    assert_eq!(true, cur.solve());
    assert_eq!(true, cur.verify());
    for r in 0..9 {
        for c in 0..9 {
            assert_eq!(first[r][c], cur.get(r, c));
        }
    }
}
