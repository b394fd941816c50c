use learn_game::board::{Board, GameState, IsGameOver};
use learn_game::players::Marks;

#[test]
fn is_board_working() {
    let mut board: Board = Board::new();
    board.current_state.set_cell(0, 0, 'X');
    let moves = board.current_state.available_moves();
    println!("Moves: {:?}", moves);
    let b_c = board.current_state.to_state_key();
    println!("Board.current_state.to_state_key: {b_c:?}");
    for r in 0..3usize {
        for c in 0..3usize {
            println!(
                "Cell of board.current_state: (({r}, {c}), {:?})",
                board.current_state.cell(r, c)
            );
        }
    }
    assert_eq!(b_c, "X--------");
    assert_eq!(moves.len(), 8);
}

#[test]
fn is_game_over_working() {
    let mark: Marks = Marks::CROSS;
    let mut test_board = Board::new();
    test_board.next_state.set_cell(1, 1, 'X');
    test_board.next_state.set_cell(0, 0, 'X');
    test_board.next_state.set_cell(2, 2, 'X');
    let t: IsGameOver = test_board.is_game_over(&mark);
    assert_eq!(IsGameOver::Win, t);
}

#[test]
fn available_moves_match_empty_cells() {
    let mut state = GameState::new();
    assert_eq!(state.available_moves().len(), 9);
    state.set_cell(0, 1, 'X');
    state.set_cell(2, 0, '0');
    let moves = state.available_moves();
    // exactly the cells still holding the empty character, in row-major order
    assert_eq!(
        moves,
        vec![(0, 0), (0, 2), (1, 0), (1, 1), (1, 2), (2, 1), (2, 2)]
    );
    // the counts of open and occupied cells partition the nine cells
    let filled = 2;
    assert_eq!(moves.len() + filled, 9);
    assert!(!state.is_full());
}

#[test]
fn outcome_cases() {
    // a full row of one mark is a win for that mark
    let mut won = GameState::new();
    won.set_cell(1, 0, '0');
    won.set_cell(1, 1, '0');
    won.set_cell(1, 2, '0');
    assert_eq!(won.is_game_over(&Marks::NOUGHT), IsGameOver::Win);
    // the same grid judged for the other mark is still open
    assert_eq!(won.is_game_over(&Marks::CROSS), IsGameOver::InPlay);
    // a full grid with no line for the judged mark is drawn
    let mut full = GameState::new();
    let layout = [
        ('X', '0', 'X'),
        ('X', '0', '0'),
        ('0', 'X', 'X'),
    ];
    for r in 0..3usize {
        let (a, b, c) = layout[r];
        full.set_cell(r, 0, a);
        full.set_cell(r, 1, b);
        full.set_cell(r, 2, c);
    }
    assert!(full.is_full());
    assert_eq!(full.is_game_over(&Marks::CROSS), IsGameOver::Drawn);
    assert_eq!(full.is_game_over(&Marks::NOUGHT), IsGameOver::Drawn);
    // an empty grid is open
    assert_eq!(GameState::new().is_game_over(&Marks::CROSS), IsGameOver::InPlay);
}

#[test]
fn cross_diagonal_is_not_a_nought_win() {
    let mut board = Board::new();
    board.next_state.set_cell(0, 0, 'X');
    board.next_state.set_cell(1, 1, 'X');
    board.next_state.set_cell(2, 2, 'X');
    // the diagonal belongs to the cross, so judging for the nought's mark
    // must not report a win; the grid is not full, so the game is open
    assert_eq!(board.is_game_over(&Marks::NOUGHT), IsGameOver::InPlay);
}

#[test]
fn line_match_reads_all_eight_lines() {
    for line in [
        [(0, 0), (0, 1), (0, 2)],
        [(1, 0), (1, 1), (1, 2)],
        [(2, 0), (2, 1), (2, 2)],
        [(0, 0), (1, 0), (2, 0)],
        [(0, 1), (1, 1), (2, 1)],
        [(0, 2), (1, 2), (2, 2)],
        [(0, 0), (1, 1), (2, 2)],
        [(0, 2), (1, 1), (2, 0)],
    ] {
        let mut state = GameState::new();
        for (r, c) in line {
            state.set_cell(r, c, 'X');
        }
        assert!(state.line_match('X'));
        assert!(!state.line_match('0'));
    }
}
