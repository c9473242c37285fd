use sudoku_rust::{
    check_board, fill_block, generate_board, is_num_valid, remove_numbers, resolv_backtrack,
};

fn known_board() -> Vec<Vec<usize>> {
    vec![
        vec![5, 3, 0, 0, 7, 0, 0, 0, 0],
        vec![6, 0, 0, 1, 9, 5, 0, 0, 0],
        vec![0, 9, 8, 0, 0, 0, 0, 6, 0],
        vec![8, 0, 0, 0, 6, 0, 0, 0, 3],
        vec![4, 0, 0, 8, 0, 3, 0, 0, 1],
        vec![7, 0, 0, 0, 2, 0, 0, 0, 6],
        vec![0, 6, 0, 0, 0, 0, 2, 8, 0],
        vec![0, 0, 0, 4, 1, 9, 0, 0, 5],
        vec![0, 0, 0, 0, 8, 0, 0, 7, 9],
    ]
}

fn count_zeros(board: &Vec<Vec<usize>>) -> usize {
    board.iter().flatten().filter(|&&x| x == 0).count()
}

#[test]
fn test_generate_board() {
    let board = generate_board(9, 1);
    assert_eq!(board.len(), 9);
    assert_eq!(board[0].len(), 9);
}

#[test]
fn test_fill_block() {
    let mut board = vec![vec![0; 9]; 9];
    fill_block(&mut board, 0, 0);

    let mut numbers = Vec::new();
    for i in 0..3 {
        for j in 0..3 {
            numbers.push(board[i][j]);
        }
    }
    numbers.sort();
    assert_eq!(numbers, vec![1, 2, 3, 4, 5, 6, 7, 8, 9]);
}

#[test]
fn test_remove_numbers() {
    let mut board = vec![vec![1; 9]; 9];
    remove_numbers(&mut board, 1);

    let zeros = board.iter().flatten().filter(|&&x| x == 0).count();
    assert!(zeros > 0);
}

#[test]
fn test_is_num_valid() {
    let board = known_board();

    assert!(is_num_valid(&board, 0, 2, 4));
    assert!(!is_num_valid(&board, 0, 2, 3));
}

#[test]
fn test_resolv_backtrack() {
    let mut board = known_board();

    assert!(resolv_backtrack(&mut board, 0, 0));

    for row in &board {
        assert!(row.iter().all(|&x| x != 0));
    }
}

#[test]
fn test_generate_board_different_difficulties() {
    let easy_board = generate_board(9, 1);
    let medium_board = generate_board(9, 2);
    let hard_board = generate_board(9, 3);

    let easy_zeros = count_zeros(&easy_board);
    let medium_zeros = count_zeros(&medium_board);
    let hard_zeros = count_zeros(&hard_board);

    assert!(easy_zeros < medium_zeros);
    assert!(medium_zeros < hard_zeros);
}

#[test]
fn test_zero_counts_exact() {
    assert_eq!(count_zeros(&generate_board(9, 1)), 27);
    assert_eq!(count_zeros(&generate_board(9, 2)), 36);
    assert_eq!(count_zeros(&generate_board(9, 3)), 54);
    // any other selector falls back to the easy count
    assert_eq!(count_zeros(&generate_board(9, 7)), 27);
}

#[test]
fn test_generated_puzzles_are_solvable() {
    for difficulty in 1..=3 {
        let puzzle = generate_board(9, difficulty);
        assert!(check_board(&puzzle));
        let mut copy = puzzle.clone();
        assert!(resolv_backtrack(&mut copy, 0, 0));
        assert_eq!(count_zeros(&copy), 0);
        // the solution extends the puzzle's given cells
        for r in 0..9 {
            for c in 0..9 {
                assert!(puzzle[r][c] == 0 || puzzle[r][c] == copy[r][c]);
            }
        }
    }
}

#[test]
fn test_solved_board_units_complete() {
    let mut board = known_board();
    assert!(resolv_backtrack(&mut board, 0, 0));

    for unit in 0..9 {
        let mut row: Vec<usize> = board[unit].clone();
        let mut col: Vec<usize> = (0..9).map(|r| board[r][unit]).collect();
        let mut boxv: Vec<usize> = (0..9)
            .map(|t| board[3 * (unit / 3) + t / 3][3 * (unit % 3) + t % 3])
            .collect();
        row.sort();
        col.sort();
        boxv.sort();
        let digits: Vec<usize> = (1..=9).collect();
        assert_eq!(row, digits);
        assert_eq!(col, digits);
        assert_eq!(boxv, digits);
    }
}

#[test]
fn test_is_num_valid_repeated() {
    let board = known_board();
    let first = is_num_valid(&board, 0, 2, 4);
    let second = is_num_valid(&board, 0, 2, 4);
    let third = is_num_valid(&board, 0, 2, 4);
    assert_eq!(first, second);
    assert_eq!(second, third);
    assert!(first);
}

#[test]
fn test_unsolvable_board_unchanged() {
    // Row 0 already holds 1..8, so only 9 could fill its last cell, but
    // column 8 holds a 9: no candidate fits and the search fails.
    let mut board = vec![vec![0; 9]; 9];
    for c in 0..8 {
        board[0][c] = c + 1;
    }
    board[1][8] = 9;
    assert!(check_board(&board));

    let snapshot = board.clone();
    assert!(!resolv_backtrack(&mut board, 0, 0));
    assert_eq!(board, snapshot);
}

#[test]
fn test_check_board_rejects_bad_boards() {
    assert!(check_board(&known_board()));
    assert!(check_board(&vec![vec![0; 9]; 9]));

    // wrong dimensions
    assert!(!check_board(&vec![vec![0; 9]; 8]));
    assert!(!check_board(&vec![vec![0; 8]; 9]));

    // a value out of range
    let mut big = vec![vec![0; 9]; 9];
    big[4][4] = 10;
    assert!(!check_board(&big));

    // the same digit twice in a row, a column, and a box
    let mut row_dup = vec![vec![0; 9]; 9];
    row_dup[2][0] = 5;
    row_dup[2][7] = 5;
    assert!(!check_board(&row_dup));

    let mut col_dup = vec![vec![0; 9]; 9];
    col_dup[0][3] = 7;
    col_dup[8][3] = 7;
    assert!(!check_board(&col_dup));

    let mut box_dup = vec![vec![0; 9]; 9];
    box_dup[0][0] = 2;
    box_dup[2][2] = 2;
    assert!(!check_board(&box_dup));
}

#[test]
fn test_solve_partial_start_position() {
    // starting past a conflict never revisits earlier cells
    let mut board = known_board();
    assert!(resolv_backtrack(&mut board, 0, 0));
    let snapshot = board.clone();
    // a solved board is left untouched by another solve
    assert!(resolv_backtrack(&mut board, 0, 0));
    assert_eq!(board, snapshot);
}
