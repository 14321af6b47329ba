use sudoku::board::SudokuBoard;
use sudoku::brute::brute_force;

#[test]
fn test_sudoku_1() {
    let board = [
        [0, 4, 0, 6, 1, 0, 9, 2, 5],
        [0, 5, 1, 0, 0, 0, 7, 4, 6],
        [9, 2, 6, 0, 0, 0, 8, 1, 3],
        [0, 8, 0, 0, 5, 0, 0, 7, 1],
        [0, 9, 0, 1, 0, 0, 0, 3, 2],
        [0, 1, 3, 4, 7, 0, 5, 9, 8],
        [0, 0, 0, 0, 0, 0, 1, 8, 9],
        [1, 6, 2, 8, 0, 0, 3, 5, 7],
        [8, 0, 9, 0, 0, 1, 2, 6, 4],
    ];
    let mut board = SudokuBoard::new_with(&board);
    println!("{}", board.render());

    let solved = board.solve();
    println!("\n{}", board.render());
    assert_eq!(solved, true);

    let board2 = [
        [7_u32, 4, 8, 6, 1, 3, 9, 2, 5],
        [3, 5, 1, 9, 2, 8, 7, 4, 6],
        [9, 2, 6, 7, 4, 5, 8, 1, 3],
        [2, 8, 4, 3, 5, 9, 6, 7, 1],
        [5, 9, 7, 1, 8, 6, 4, 3, 2],
        [6, 1, 3, 4, 7, 2, 5, 9, 8],
        [4, 3, 5, 2, 6, 7, 1, 8, 9],
        [1, 6, 2, 8, 9, 4, 3, 5, 7],
        [8, 7, 9, 5, 3, 1, 2, 6, 4],
    ];
    assert!(board == board2);
}

#[test]
fn test_sudoku_2() {
    let board = [
        [0, 4, 6, 9, 0, 3, 0, 0, 0],
        [0, 0, 3, 0, 5, 0, 0, 6, 0],
        [9, 0, 0, 0, 0, 2, 0, 0, 3],
        [0, 0, 5, 0, 0, 6, 0, 0, 0],
        [8, 0, 0, 0, 0, 0, 0, 1, 0],
        [0, 1, 0, 7, 8, 0, 2, 0, 0],
        [0, 0, 0, 0, 0, 0, 0, 5, 0],
        [0, 8, 1, 3, 0, 0, 0, 0, 7],
        [0, 0, 0, 8, 0, 0, 1, 0, 4],
    ];
    let mut board = SudokuBoard::new_with(&board);
    println!("{}", board.render());

    let mut solved = board.solve();
    assert_eq!(solved, false);

    // try a guess at each free position until one solves
    let mut board2 = board.clone();
    'outer: for row in 0..9 {
        for col in 0..9 {
            let pos = board.get(row, col);
            if pos.val == 0 {
                for n in pos.candidates() {
                    board2 = board.clone();
                    board2.set(n, row, col);
                    solved = board2.solve();
                    if solved {
                        break 'outer;
                    }
                }
            }
        }
    }

    assert_eq!(solved, true);
    let result = [
        [1, 4, 6, 9, 7, 3, 5, 8, 2],
        [7, 2, 3, 4, 5, 8, 9, 6, 1],
        [9, 5, 8, 6, 1, 2, 4, 7, 3],
        [3, 7, 5, 1, 2, 6, 8, 4, 9],
        [8, 9, 2, 5, 3, 4, 7, 1, 6],
        [6, 1, 4, 7, 8, 9, 2, 3, 5],
        [4, 6, 7, 2, 9, 1, 3, 5, 8],
        [2, 8, 1, 3, 4, 5, 6, 9, 7],
        [5, 3, 9, 8, 6, 7, 1, 2, 4],
    ];
    assert!(board2 == result);
    println!("{}", board2.render());
}

#[test]
fn test_sudoku_3() {
    let mut board = [
        [0, 4, 0, 6, 1, 0, 9, 2, 5],
        [0, 5, 1, 0, 0, 0, 7, 4, 6],
        [9, 2, 6, 0, 0, 0, 8, 1, 3],
        [0, 8, 0, 0, 5, 0, 0, 7, 1],
        [0, 9, 0, 1, 0, 0, 0, 3, 2],
        [0, 1, 3, 4, 7, 0, 5, 9, 8],
        [0, 0, 0, 0, 0, 0, 1, 8, 9],
        [1, 6, 2, 8, 0, 0, 3, 5, 7],
        [8, 0, 9, 0, 0, 1, 2, 6, 4],
    ];
    let mut empty = [[false; 9]; 9];
    for i in 0..9 {
        for j in 0..9 {
            empty[i][j] = board[i][j] == 0;
        }
    }
    let mut stack = Vec::with_capacity(81);
    stack.push((0, 0));
    let resolved = brute_force(&mut board, &empty, &mut stack);
    assert!(resolved);

    let board2 = [
        [7_u32, 4, 8, 6, 1, 3, 9, 2, 5],
        [3, 5, 1, 9, 2, 8, 7, 4, 6],
        [9, 2, 6, 7, 4, 5, 8, 1, 3],
        [2, 8, 4, 3, 5, 9, 6, 7, 1],
        [5, 9, 7, 1, 8, 6, 4, 3, 2],
        [6, 1, 3, 4, 7, 2, 5, 9, 8],
        [4, 3, 5, 2, 6, 7, 1, 8, 9],
        [1, 6, 2, 8, 9, 4, 3, 5, 7],
        [8, 7, 9, 5, 3, 1, 2, 6, 4],
    ];
    assert_eq!(board, board2);

    let resolved = brute_force(&mut board, &empty, &mut stack);
    assert!(!resolved);
}
