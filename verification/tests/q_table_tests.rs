use learn_game::board::Board;
use learn_game::config::Config;
use learn_game::q_table::{Moves, QTable};

#[test]
fn is_q_table_working() {
    let cfg = Config::new();
    let mut q = QTable::new();
    let mut test_board = Board::new();
    test_board.current_state.set_cell(1, 1, 'X');
    test_board.current_state.set_cell(2, 2, '0');
    let q_key = test_board.current_state.to_state_key();
    println!("q_key is {}", q_key);
    q.ensure_entry(q_key.clone(), test_board.current_state.available_moves());
    let t = q.get(&q_key);
    println!("{t:?}");
    println!("{:?}", q.qtable);
    let q_key = test_board.current_state.to_state_key();
    test_board.current_state.set_cell(0, 0, 'X');
    let q_next_key = test_board.next_state.to_state_key();
    q.ensure_entry(
        q_next_key.clone(),
        test_board.current_state.available_moves(),
    );
    let q_next_key = test_board.next_state.to_state_key();
    println!("Before update, next state: {:?}", q.get(&q_next_key));
    println!("Before update: {:?}", q.get(&q_key));
    q.update_q_table(&q_key, &q_next_key, &(0, 0), "RLmax", 0, false, &cfg);
    println!("After update: {:?}", q.get(&q_key));
    let m = QTable::max_move(&q, q_key);
    println!("{m:?}");
}

#[test]
fn is_moves_working() {
    let moves: Vec<(usize, usize)> = vec![(0, 2), (1, 1), (3, 3)];
    let moves_values: Moves = Moves::with_sentinel(moves);
    println!("{:?}", moves_values);
    for i in 0..moves_values.moves.len() {
        assert_eq!(moves_values.moves[i].1, -100_000_000);
    }
}

#[test]
fn empty_board_key_seeds_nine_moves() {
    // the state key of the empty board for a maximizing participant named
    // "P" is the nine-character all-empty marker followed by "P"
    let board = Board::new();
    let key = board.current_state.to_state_key() + "P";
    assert_eq!(key, "---------P");
    let mut q = QTable::new();
    q.ensure_entry(key.clone(), board.current_state.available_moves());
    let seeded = q.get(&key).expect("entry was just seeded");
    assert_eq!(seeded.len(), 9);
}

#[test]
fn ensure_entry_is_idempotent() {
    let board = Board::new();
    let key = board.current_state.to_state_key() + "P";
    let mut q = QTable::new();
    q.ensure_entry(key.clone(), board.current_state.available_moves());
    let before: Vec<((usize, usize), i64)> = q.get(&key).unwrap().moves.clone();
    // a second seeding of a present key must leave the entry untouched
    q.ensure_entry(key.clone(), board.current_state.available_moves());
    assert_eq!(q.len(), 1);
    let after: Vec<((usize, usize), i64)> = q.get(&key).unwrap().moves.clone();
    assert_eq!(before, after);
}

#[test]
fn update_converges_monotonically_toward_target() {
    // with reward 0 and a stable successor table, repeated non-terminal
    // updates move the stored value monotonically toward the discounted
    // extremum and never past it
    let cfg = Config::new();
    let mut q = QTable::new();
    let cur_key = "---------RLmax".to_string();
    let next_key = "X--------RLmax".to_string();
    let board = Board::new();
    q.ensure_entry(cur_key.clone(), board.current_state.available_moves());
    let mut next_board = Board::new();
    next_board.current_state.set_cell(0, 0, 'X');
    q.ensure_entry(next_key.clone(), next_board.current_state.available_moves());
    // fix the successor table: every value exactly 0.5, so its extremum is
    // 0.5 and the non-terminal target is 0.9 * 0.5 = 0.45
    for mv in next_board.current_state.available_moves() {
        q.qtable[1].1.set_value(mv, 500_000);
    }
    let target = 450_000i64;
    let mv = (0usize, 0usize);
    let mut prev_gap = (q.get(&cur_key).unwrap().get(mv).unwrap() - target).abs();
    for _ in 0..250 {
        q.update_q_table(&cur_key, &next_key, &mv, "RLmax", 0, false, &cfg);
        let v = q.get(&cur_key).unwrap().get(mv).unwrap();
        let gap = (v - target).abs();
        assert!(gap <= prev_gap);
        prev_gap = gap;
    }
    // the gap shrinks by the learning rate each step until only the
    // fixed-point granularity is left
    assert!(prev_gap <= 9);
}

#[test]
fn negative_shift_adds_worst_magnitude_plus_margin() {
    // given moves {(0,0): -0.2, (0,1): 0.4}, the shift adds 0.3 to both,
    // yielding {(0,0): 0.1, (0,1): 0.7}
    let mut m = Moves::with_sentinel(vec![(0, 0), (0, 1)]);
    m.set_value((0, 0), -200_000);
    m.set_value((0, 1), 400_000);
    let shifted = m.shifted_non_negative();
    assert_eq!(shifted.get((0, 0)), Some(100_000));
    assert_eq!(shifted.get((0, 1)), Some(700_000));
}

#[test]
fn selection_extremes_and_random_ties() {
    let mut m = Moves::with_sentinel(vec![(0, 0), (1, 1), (2, 2)]);
    m.set_value((0, 0), -300_000);
    m.set_value((1, 1), 900_000);
    m.set_value((2, 2), 100_000);
    assert_eq!(m.select_max_move(), (1, 1));
    assert_eq!(m.select_min_move(), (0, 0));
    assert_eq!(m.max_value(), 900_000);
    assert_eq!(m.min_value(), -300_000);
    // with a tie, either tied move may come out, never the loser
    let mut t = Moves::with_sentinel(vec![(0, 0), (1, 1), (2, 2)]);
    t.set_value((0, 0), 700_000);
    t.set_value((1, 1), 700_000);
    t.set_value((2, 2), 0);
    for _ in 0..50 {
        let pick = t.select_max_move();
        assert!(pick == (0, 0) || pick == (1, 1));
    }
}

#[test]
fn max_and_min_move_read_one_key() {
    let mut q = QTable::new();
    let key = "---------P".to_string();
    q.ensure_entry(key.clone(), vec![(0, 0), (1, 1), (2, 2)]);
    q.qtable[0].1.set_value((0, 0), -500_000);
    q.qtable[0].1.set_value((1, 1), 200_000);
    q.qtable[0].1.set_value((2, 2), 800_000);
    assert_eq!(q.max_move(key.clone()), (2, 2));
    assert_eq!(q.min_move(key), (0, 0));
}

#[test]
fn validate_accepts_seeded_stores_and_refuses_others() {
    // a store seeded through ensure_entry passes
    let mut board = Board::new();
    board.current_state.set_cell(0, 0, 'X');
    let mut q = QTable::new();
    let key = board.current_state.to_state_key() + "RLmax";
    q.ensure_entry(key, board.current_state.available_moves());
    assert!(q.validate());
    // a key too short to spell a position is refused
    let mut short = QTable::new();
    short.insert("ab".to_string(), Moves::with_sentinel(vec![(0, 0)]));
    assert!(!short.validate());
    // a move outside the board is refused
    let mut wild = QTable::new();
    wild.insert("---------X".to_string(), Moves::with_sentinel(vec![(5, 5)]));
    assert!(!wild.validate());
    // a table that misses an empty cell of its position is refused
    let mut sparse = QTable::new();
    sparse.insert("---------X".to_string(), Moves::with_sentinel(vec![(0, 0)]));
    assert!(!sparse.validate());
}
