use learn_game::board::IsGameOver;
use learn_game::config::Config;
use learn_game::players::{ComputerPlayerRLmax, ComputerPlayerRLmin, Marks, MinimaxPlayer};
use learn_game::q_table::QTable;
use learn_game::{Game, Participant};

#[test]
fn is_minimax_player_working() {
    let minimax1 = MinimaxPlayer {
        name: "Minimax1".to_string(),
        mark: Marks::Blank,
        q_max: QTable::new(),
    };
    let minimax2 = MinimaxPlayer {
        name: "Minimax2".to_string(),
        mark: Marks::Blank,
        q_max: QTable::new(),
    };
    let mut game = Game::new(
        Participant::Minimax(minimax1),
        Participant::Minimax(minimax2),
    );
    game.current_player.set_mark(Marks::NOUGHT);
    println!(
        "Game initiation minimax1 name {:?}, mark {:?}, minimax2 name {:?}, mark {:?}",
        game.current_player.get_name(),
        game.current_player.get_mark(),
        game.other_player.get_name(),
        game.other_player.get_mark()
    );
    let q = QTable::new();
    let cfg = Config::new();
    let mv = game.current_player.choose_move(&game.board, &q, &cfg);
    println!("After choosing the first move: move {:?}", mv);
    assert!(mv.0 < 3 && mv.1 < 3);
}

#[test]
fn is_game_working() {
    let rl_max = ComputerPlayerRLmax {
        name: "RLmax".to_string(),
        mark: Marks::Blank,
    };
    let rl_min = ComputerPlayerRLmin {
        name: "RLmin".to_string(),
        mark: Marks::Blank,
    };
    let mut game = Game::new(Participant::RLmax(rl_max), Participant::RLmin(rl_min));
    let mut q = QTable::new();
    let mut cfg = Config::new();
    // a short training session; the episode budget is configuration
    cfg.num_episodes = 120;
    game.learn_q_table(&mut q, &mut cfg);
    assert_eq!(game.episode, 120);
    // the budget never crossed the warmup threshold, so the schedules did not move
    assert_eq!(cfg.exploration_rate, 900_000);
    assert_eq!(cfg.k, 50_000);
    // the store was populated, and the empty board was visited by both
    assert!(q.len() > 0);
    assert!(
        q.contains_key("---------RLmax") || q.contains_key("---------RLmin")
    );
}

#[test]
fn assign_players_deals_opposing_marks() {
    let rl_max = ComputerPlayerRLmax {
        name: "RLmax".to_string(),
        mark: Marks::Blank,
    };
    let rl_min = ComputerPlayerRLmin {
        name: "RLmin".to_string(),
        mark: Marks::Blank,
    };
    let mut game = Game::new(Participant::RLmax(rl_max), Participant::RLmin(rl_min));
    for _ in 0..20 {
        game.assign_players();
        assert_eq!(*game.current_player.get_mark(), Marks::CROSS);
        assert_eq!(*game.other_player.get_mark(), Marks::NOUGHT);
    }
}

#[test]
fn one_episode_runs_one_game() {
    let rl_max = ComputerPlayerRLmax {
        name: "RLmax".to_string(),
        mark: Marks::Blank,
    };
    let rl_min = ComputerPlayerRLmin {
        name: "RLmin".to_string(),
        mark: Marks::Blank,
    };
    let mut game = Game::new(Participant::RLmax(rl_max), Participant::RLmin(rl_min));
    let mut q = QTable::new();
    let cfg = Config::new();
    game.learn_episode(&mut q, &cfg);
    assert_eq!(game.episode, 1);
    // the finished game left a terminal judgement on the post-move position
    let over = game
        .board
        .is_game_over(game.current_player.get_mark());
    assert!(over == IsGameOver::Win || over == IsGameOver::Drawn);
    game.learn_episode_with_minimax(&mut q, &cfg);
    assert_eq!(game.episode, 2);
}

#[test]
fn swap_players_and_states_rotate() {
    let rl_max = ComputerPlayerRLmax {
        name: "RLmax".to_string(),
        mark: Marks::Blank,
    };
    let rl_min = ComputerPlayerRLmin {
        name: "RLmin".to_string(),
        mark: Marks::Blank,
    };
    let mut game = Game::new(Participant::RLmax(rl_max), Participant::RLmin(rl_min));
    let first = game.current_player.get_name().to_string();
    let second = game.other_player.get_name().to_string();
    game.swap_players();
    assert_eq!(game.current_player.get_name(), second);
    assert_eq!(game.other_player.get_name(), first);
    // mark a cell in the post-move position, then rotate the buffer
    game.board.next_state.set_cell(1, 2, 'X');
    let next_before = game.board.next_state.to_state_key();
    let current_before = game.board.current_state.to_state_key();
    game.swap_states();
    assert_eq!(game.board.previous_state.to_state_key(), current_before);
    assert_eq!(game.board.current_state.to_state_key(), next_before);
    assert_eq!(game.board.next_state.to_state_key(), next_before);
}
