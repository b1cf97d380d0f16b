use sudoku::grid::{Board, SolveError};

#[test]
fn it_works() {
    let board = [
        1, 2, 3, 4, 5, 6, 7, 8, 9, 4, 5, 6, 7, 8, 9, 1, 2, 3, 7, 8, 9, 1, 2, 3, 4, 5, 6, 2, 3,
        4, 5, 6, 7, 8, 9, 1, 5, 6, 7, 8, 9, 1, 2, 3, 4, 8, 9, 1, 2, 3, 4, 5, 6, 7, 3, 4, 5, 6,
        7, 8, 9, 1, 2, 6, 7, 8, 9, 1, 2, 3, 4, 5, 9, 1, 2, 3, 4, 5, 6, 7, 8,
    ];
    let board2 = board.clone();
    assert_eq!(Board(board).solve(), Ok(Board(board2)));
}

#[test]
fn it_solves() {
    let board = [
        0, 2, 3, 4, 5, 6, 7, 8, 9, 4, 5, 6, 7, 8, 9, 1, 2, 3, 7, 8, 9, 1, 0, 3, 4, 5, 6, 2, 3,
        4, 5, 6, 7, 8, 9, 1, 5, 6, 7, 8, 9, 1, 2, 3, 4, 8, 9, 1, 2, 3, 4, 5, 6, 7, 3, 4, 5, 6,
        7, 8, 9, 1, 2, 6, 7, 8, 9, 1, 2, 3, 4, 5, 0, 1, 2, 3, 4, 5, 6, 7, 0,
    ];
    let exp = [
        1, 2, 3, 4, 5, 6, 7, 8, 9, 4, 5, 6, 7, 8, 9, 1, 2, 3, 7, 8, 9, 1, 2, 3, 4, 5, 6, 2, 3,
        4, 5, 6, 7, 8, 9, 1, 5, 6, 7, 8, 9, 1, 2, 3, 4, 8, 9, 1, 2, 3, 4, 5, 6, 7, 3, 4, 5, 6,
        7, 8, 9, 1, 2, 6, 7, 8, 9, 1, 2, 3, 4, 5, 9, 1, 2, 3, 4, 5, 6, 7, 8,
    ];
    assert_eq!(Board(board).solve(), Ok(Board(exp)));
}

#[test]
fn it_solves_hard() {
    let board = [
        1, 0, 0, 8, 7, 5, 6, 0, 0, 0, 0, 0, 0, 0, 1, 9, 5, 8, 0, 0, 0, 0, 0, 0, 0, 1, 0, 0, 2,
        0, 7, 0, 0, 0, 0, 6, 0, 0, 0, 2, 4, 6, 0, 0, 0, 4, 0, 0, 0, 0, 3, 0, 7, 0, 0, 9, 0, 0,
        0, 0, 0, 0, 0, 3, 6, 7, 5, 0, 0, 0, 0, 0, 0, 0, 1, 6, 8, 7, 0, 0, 4,
    ];
    let exp = [
        1, 4, 9, 8, 7, 5, 6, 2, 3, 7, 3, 2, 4, 6, 1, 9, 5, 8, 6, 8, 5, 3, 2, 9, 4, 1, 7, 9, 2,
        3, 7, 1, 8, 5, 4, 6, 5, 7, 8, 2, 4, 6, 1, 3, 9, 4, 1, 6, 9, 5, 3, 8, 7, 2, 8, 9, 4, 1,
        3, 2, 7, 6, 5, 3, 6, 7, 5, 9, 4, 2, 8, 1, 2, 5, 1, 6, 8, 7, 3, 9, 4,
    ];
    assert_eq!(Board(board).solve(), Ok(Board(exp)));
}

#[test]
fn it_solves_evil() {
    let board = [
        0, 0, 0, 0, 0, 6, 0, 0, 0, 0, 5, 9, 0, 0, 0, 0, 0, 8, 2, 0, 0, 0, 0, 8, 0, 0, 0, 0, 4,
        5, 0, 0, 0, 0, 0, 0, 0, 0, 3, 0, 0, 0, 0, 0, 0, 0, 0, 6, 0, 0, 3, 0, 5, 4, 0, 0, 0, 3,
        2, 5, 0, 0, 6, 0, 0, 0, 0, 0, 0, 0, 0, 0, 0, 0, 0, 0, 0, 0, 0, 0, 0,
    ];

    let exp = [
        1, 3, 8, 2, 4, 6, 5, 7, 9, 6, 5, 9, 1, 3, 7, 2, 4, 8, 2, 7, 4, 5, 9, 8, 1, 6, 3, 7, 4,
        5, 6, 8, 2, 3, 9, 1, 8, 1, 3, 4, 5, 9, 6, 2, 7, 9, 2, 6, 7, 1, 3, 8, 5, 4, 4, 8, 7, 3,
        2, 5, 9, 1, 6, 3, 6, 2, 9, 7, 1, 4, 8, 5, 5, 9, 1, 8, 6, 4, 7, 3, 2,
    ];
    assert_eq!(Board(board).solve(), Ok(Board(exp)));
}

#[test]
fn conflicting_clues_are_unsolvable() {
    // Two 5s in the first row: no completion can exist.
    let mut board = [0u8; 81];
    board[0] = 5;
    board[3] = 5;
    assert_eq!(Board(board).solve(), Err(SolveError::Unsolvable));
}

#[test]
fn conflicting_column_is_unsolvable() {
    // Two 7s in the first column.
    let mut board = [0u8; 81];
    board[0] = 7;
    board[27] = 7;
    assert_eq!(Board(board).solve(), Err(SolveError::Unsolvable));
}

#[test]
fn conflicting_box_is_unsolvable() {
    // Two 3s in the top-left box, on different rows and columns.
    let mut board = [0u8; 81];
    board[1] = 3;
    board[9] = 3;
    assert_eq!(Board(board).solve(), Err(SolveError::Unsolvable));
}

#[test]
fn out_of_range_cell_is_rejected() {
    let mut board = [0u8; 81];
    board[40] = 10;
    assert_eq!(Board(board).solve(), Err(SolveError::InvalidInput));
}

#[test]
fn solving_twice_is_deterministic() {
    let board = [
        1, 0, 0, 8, 7, 5, 6, 0, 0, 0, 0, 0, 0, 0, 1, 9, 5, 8, 0, 0, 0, 0, 0, 0, 0, 1, 0, 0, 2,
        0, 7, 0, 0, 0, 0, 6, 0, 0, 0, 2, 4, 6, 0, 0, 0, 4, 0, 0, 0, 0, 3, 0, 7, 0, 0, 9, 0, 0,
        0, 0, 0, 0, 0, 3, 6, 7, 5, 0, 0, 0, 0, 0, 0, 0, 1, 6, 8, 7, 0, 0, 4,
    ];
    let first = Board(board).solve();
    let second = Board(board).solve();
    assert!(first.is_ok());
    assert_eq!(first, second);
}

#[test]
fn empty_board_gets_lexicographically_first_solution() {
    // With no clues at all, the solver must return the least completion in
    // row-major order, whose first row is 1 through 9.
    let board = [0u8; 81];
    let solved = Board(board).solve().unwrap();
    assert_eq!(
        &solved.0[0..9],
        &[1, 2, 3, 4, 5, 6, 7, 8, 9]
    );
}

#[test]
fn preserves_given_clues() {
    let board = [
        0, 0, 0, 0, 0, 6, 0, 0, 0, 0, 5, 9, 0, 0, 0, 0, 0, 8, 2, 0, 0, 0, 0, 8, 0, 0, 0, 0, 4,
        5, 0, 0, 0, 0, 0, 0, 0, 0, 3, 0, 0, 0, 0, 0, 0, 0, 0, 6, 0, 0, 3, 0, 5, 4, 0, 0, 0, 3,
        2, 5, 0, 0, 6, 0, 0, 0, 0, 0, 0, 0, 0, 0, 0, 0, 0, 0, 0, 0, 0, 0, 0,
    ];
    let solved = Board(board).solve().unwrap();
    for p in 0..81 {
        if board[p] != 0 {
            assert_eq!(solved.0[p], board[p]);
        }
        assert!(1 <= solved.0[p] && solved.0[p] <= 9);
    }
}

#[test]
fn solved_units_are_permutations() {
    let board = [
        0, 0, 0, 0, 0, 6, 0, 0, 0, 0, 5, 9, 0, 0, 0, 0, 0, 8, 2, 0, 0, 0, 0, 8, 0, 0, 0, 0, 4,
        5, 0, 0, 0, 0, 0, 0, 0, 0, 3, 0, 0, 0, 0, 0, 0, 0, 0, 6, 0, 0, 3, 0, 5, 4, 0, 0, 0, 3,
        2, 5, 0, 0, 6, 0, 0, 0, 0, 0, 0, 0, 0, 0, 0, 0, 0, 0, 0, 0, 0, 0, 0,
    ];
    let solved = Board(board).solve().unwrap();
    for unit in 0..27 {
        let mut seen = [false; 10];
        for k in 0..9 {
            let pos = match unit {
                u if u < 9 => 9 * u + k,
                u if u < 18 => 9 * k + (u - 9),
                u => {
                    let b = u - 18;
                    27 * (b / 3) + 3 * (b % 3) + 9 * (k / 3) + k % 3
                }
            };
            seen[solved.0[pos] as usize] = true;
        }
        for d in 1..10 {
            assert!(seen[d], "digit {} missing from unit {}", d, unit);
        }
    }
}

#[test]
fn board_equality_is_cell_wise() {
    let a = [1u8; 81];
    let mut b = [1u8; 81];
    assert!(Board(a) == Board(b));
    b[80] = 2;
    assert!(Board(a) != Board(b));
}

#[test]
fn renders_nine_lines_of_nine_digits() {
    let board = [
        1, 2, 3, 4, 5, 6, 7, 8, 9, 4, 5, 6, 7, 8, 9, 1, 2, 3, 7, 8, 9, 1, 2, 3, 4, 5, 6, 2, 3,
        4, 5, 6, 7, 8, 9, 1, 5, 6, 7, 8, 9, 1, 2, 3, 4, 8, 9, 1, 2, 3, 4, 5, 6, 7, 3, 4, 5, 6,
        7, 8, 9, 1, 2, 6, 7, 8, 9, 1, 2, 3, 4, 5, 9, 1, 2, 3, 4, 5, 6, 7, 8,
    ];
    let text = Board(board).render();
    assert_eq!(
        text,
        "123456789\n456789123\n789123456\n234567891\n567891234\n891234567\n345678912\n678912345\n912345678\n"
    );
}
