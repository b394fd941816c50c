pub mod board;
pub mod codec;
pub mod config;
pub mod q_table;
pub mod players;
pub mod util;

use vstd::prelude::*;
use crate::board::{
    Board, IsGameOver, empty_cells, lemma_available_moves_exact, spec_is_full, spec_outcome,
};
use crate::config::{
    Config, PLAIN_POLICY_SWITCH, SCALE, SEARCH_POLICY_SWITCH, VAL_BOUND, schedule_points,
    spec_decayed_exploration, spec_raised_k,
};
use crate::players::{
    ComputerPlayerRLmax, ComputerPlayerRLmin, HumanPlayer, Marks, MinimaxPlayer,
    lemma_available_moves_set, lemma_seeded_entry_nonempty,
};
use crate::q_table::{QTable, move_on_empty_cell, seeded, spec_blend};
use crate::util::{rand_below, str_eq};

verus! {

// ---------------------------------------------------------------------------
// Participants as one closed set of kinds.
//
// The participant kinds are a closed tagged union: a human whose moves arrive
// from outside, the two learning participants, and the exact solver. Each
// exposes the same surface, so a game can hold any two of them.
// ---------------------------------------------------------------------------

#[derive(Debug)]
pub enum Participant {
    Human(HumanPlayer),
    RLmax(ComputerPlayerRLmax),
    RLmin(ComputerPlayerRLmin),
    Minimax(MinimaxPlayer),
}

impl Participant {
    pub open spec fn name_of(&self) -> Seq<char> {
        match self {
            Participant::Human(p) => p.name@,
            Participant::RLmax(p) => p.name@,
            Participant::RLmin(p) => p.name@,
            Participant::Minimax(p) => p.name@,
        }
    }

    pub open spec fn mark_of(&self) -> Marks {
        match self {
            Participant::Human(p) => p.mark,
            Participant::RLmax(p) => p.mark,
            Participant::RLmin(p) => p.mark,
            Participant::Minimax(p) => p.mark,
        }
    }

    pub open spec fn is_human(&self) -> bool {
        match self {
            Participant::Human(_) => true,
            _ => false,
        }
    }

    pub open spec fn is_rl(&self) -> bool {
        match self {
            Participant::RLmax(_) => true,
            Participant::RLmin(_) => true,
            _ => false,
        }
    }

    /// The solver's cache, where there is one, is well formed and seeded.
    pub open spec fn cache_wf(&self) -> bool {
        match self {
            Participant::Minimax(p) => p.q_max.wf() && seeded(p.q_max@),
            _ => true,
        }
    }

    /// The same participant carrying another mark.
    pub open spec fn spec_with_mark(self, mark: Marks) -> Participant {
        match self {
            Participant::Human(p) => Participant::Human(HumanPlayer { name: p.name, mark }),
            Participant::RLmax(p) => Participant::RLmax(
                ComputerPlayerRLmax { name: p.name, mark },
            ),
            Participant::RLmin(p) => Participant::RLmin(
                ComputerPlayerRLmin { name: p.name, mark },
            ),
            Participant::Minimax(p) => Participant::Minimax(
                MinimaxPlayer { name: p.name, mark, q_max: p.q_max },
            ),
        }
    }

    pub fn get_name(&self) -> (r: &str)
        ensures
            r@ == self.name_of(),
    {
        match self {
            Participant::Human(p) => p.get_name(),
            Participant::RLmax(p) => p.get_name(),
            Participant::RLmin(p) => p.get_name(),
            Participant::Minimax(p) => p.get_name(),
        }
    }

    pub fn get_mark(&self) -> (r: &Marks)
        ensures
            *r == self.mark_of(),
    {
        match self {
            Participant::Human(p) => p.get_mark(),
            Participant::RLmax(p) => p.get_mark(),
            Participant::RLmin(p) => p.get_mark(),
            Participant::Minimax(p) => p.get_mark(),
        }
    }

    pub fn set_mark(&mut self, mark: Marks)
        ensures
            *final(self) == old(self).spec_with_mark(mark),
    {
        match self {
            Participant::Human(p) => p.set_mark(mark),
            Participant::RLmax(p) => p.set_mark(mark),
            Participant::RLmin(p) => p.set_mark(mark),
            Participant::Minimax(p) => p.set_mark(mark),
        }
    }

    /// Write this participant's mark into the chosen cell of the post-move
    /// position.
    pub fn make_move(&self, board: &mut Board, mv: &(usize, usize))
        requires
            old(board).wf(),
            mv.0 < 3,
            mv.1 < 3,
        ensures
            final(board).wf(),
            final(board).next_state@ == old(board).next_state@.update(
                3 * mv.0 + mv.1,
                self.mark_of().spec_char(),
            ),
            final(board).previous_state@ == old(board).previous_state@,
            final(board).current_state@ == old(board).current_state@,
    {
        match self {
            Participant::Human(p) => p.make_move(board, mv),
            Participant::RLmax(p) => p.make_move(board, mv),
            Participant::RLmin(p) => p.make_move(board, mv),
            Participant::Minimax(p) => p.make_move(board, mv),
        }
    }

    /// The participant's early-training policy. A human's move arrives from
    /// outside the library, so this is for the computing participants only.
    pub fn choose_move(&mut self, board: &Board, q: &QTable, cfg: &Config) -> (r: (usize, usize))
        requires
            !old(self).is_human(),
            old(self).cache_wf(),
            board.wf(),
            q.wf(),
            cfg.wf(),
            seeded(q@),
            !spec_is_full(board.current_state@),
        ensures
            move_on_empty_cell(board.current_state@, r),
            final(self).name_of() == old(self).name_of(),
            final(self).mark_of() == old(self).mark_of(),
            final(self).is_human() == old(self).is_human(),
            final(self).is_rl() == old(self).is_rl(),
            final(self).cache_wf(),
            old(self).is_rl() ==> *final(self) == *old(self),
    {
        match self {
            Participant::Human(_) => {
                proof {
                    assert(false);
                }
                (0, 0)
            },
            Participant::RLmax(p) => p.choose_move(board, q, cfg),
            Participant::RLmin(p) => p.choose_move(board, q, cfg),
            Participant::Minimax(p) => p.choose_move(board),
        }
    }

    /// The participant's late-training policy: the sharpened greedy pass for
    /// the learning participants, the same full search for the solver.
    pub fn choose_move_k(&mut self, board: &Board, q: &QTable, cfg: &Config) -> (r: (
        usize,
        usize,
    ))
        requires
            !old(self).is_human(),
            old(self).cache_wf(),
            board.wf(),
            q.wf(),
            cfg.wf(),
            cfg.k > 0,
            seeded(q@),
            !spec_is_full(board.current_state@),
            old(self).is_rl() ==> q@.dom().contains(
                board.current_state@ + old(self).name_of(),
            ),
        ensures
            move_on_empty_cell(board.current_state@, r),
            final(self).name_of() == old(self).name_of(),
            final(self).mark_of() == old(self).mark_of(),
            final(self).is_human() == old(self).is_human(),
            final(self).is_rl() == old(self).is_rl(),
            final(self).cache_wf(),
            old(self).is_rl() ==> *final(self) == *old(self),
    {
        match self {
            Participant::Human(_) => {
                proof {
                    assert(false);
                }
                (0, 0)
            },
            Participant::RLmax(p) => p.choose_move_k(board, q, cfg),
            Participant::RLmin(p) => p.choose_move_k(board, q, cfg),
            Participant::Minimax(p) => p.choose_move_k(board),
        }
    }
}


/// The terminal reward of an episode: one unit when the winner is the
/// participant named "RLmax" (the designated maximizing role), minus one unit
/// when anyone else wins, and nothing on a draw.
pub open spec fn spec_episode_reward(outcome: IsGameOver, winner: Seq<char>) -> int {
    if outcome == IsGameOver::Win {
        if winner == "RLmax"@ {
            SCALE as int
        } else {
            -(SCALE as int)
        }
    } else {
        0
    }
}

/// What a finished episode leaves behind. The buffer still holds the last
/// ply: the pre-move position is current, the post-move position is next, and
/// the mover sits in the current seat. The judgement on the post-move
/// position is terminal, and the store's entry for the pre-move key maps the
/// played move to its previous value blended toward the terminal reward — one
/// unit for a win by "RLmax", minus one for a win by anyone else, zero for a
/// draw.
pub open spec fn episode_concluded(
    g: Game,
    t: Map<Seq<char>, Map<(usize, usize), i64>>,
    alpha: int,
) -> bool {
    let cells = g.board.current_state@;
    let k = cells + g.current_player.name_of();
    let outcome = spec_outcome(g.board.next_state@, g.current_player.mark_of());
    let reward = spec_episode_reward(outcome, g.current_player.name_of());
    &&& outcome != IsGameOver::InPlay
    &&& t.dom().contains(k)
    &&& exists|mv: (usize, usize)|
        {
            &&& move_on_empty_cell(cells, mv)
            &&& g.board.next_state@ == cells.update(
                3 * mv.0 + mv.1,
                g.current_player.mark_of().spec_char(),
            )
            &&& #[trigger] t[k].dom().contains(mv)
            &&& exists|v0: int|
                -VAL_BOUND <= v0 <= VAL_BOUND && t[k][mv] == spec_blend(v0, reward, alpha) as i64
        }
}

/// The two seats still hold the same two participants, by name, possibly
/// exchanged.
pub open spec fn same_pair(g1: Game, g2: Game) -> bool {
    ||| (g1.current_player.name_of() == g2.current_player.name_of()
        && g1.other_player.name_of() == g2.other_player.name_of())
    ||| (g1.current_player.name_of() == g2.other_player.name_of()
        && g1.other_player.name_of() == g2.current_player.name_of())
}

// ---------------------------------------------------------------------------
// The episode orchestrator.
// ---------------------------------------------------------------------------

/// One running game: the rotating board, the two participants with the mover
/// first, and the count of episodes played so far.
#[derive(Debug)]
pub struct Game {
    pub board: Board,
    pub current_player: Participant,
    pub other_player: Participant,
    pub episode: usize,
}

impl Game {
    /// A fresh game over the two participants. A participant named "RLmax"
    /// in the first seat draws its mark at random; the second seat always
    /// receives the opposing mark; whoever holds the cross moves first.
    pub fn new(player1: Participant, player2: Participant) -> (r: Game)
        ensures
            r.board.wf(),
            r.board.previous_state@ == empty_cells(),
            r.board.current_state@ == empty_cells(),
            r.board.next_state@ == empty_cells(),
            r.episode == 0,
            player1.cache_wf() && player2.cache_wf() ==> r.current_player.cache_wf()
                && r.other_player.cache_wf(),
            player1.name_of() == "RLmax"@ ==> {
                &&& r.current_player.mark_of() == Marks::CROSS
                &&& r.other_player.mark_of() == Marks::NOUGHT
                &&& (r.current_player == player1.spec_with_mark(Marks::CROSS)
                    && r.other_player == player2.spec_with_mark(Marks::NOUGHT))
                    || (r.current_player == player2.spec_with_mark(Marks::CROSS)
                    && r.other_player == player1.spec_with_mark(Marks::NOUGHT))
            },
            player1.name_of() != "RLmax"@ && player1.mark_of() == Marks::CROSS ==> {
                &&& r.current_player == player1
                &&& r.other_player == player2.spec_with_mark(player1.mark_of().spec_other())
            },
            player1.name_of() != "RLmax"@ && player1.mark_of() != Marks::CROSS ==> {
                &&& r.current_player == player2.spec_with_mark(player1.mark_of().spec_other())
                &&& r.other_player == player1
            },
    {
        let mut p1 = player1;
        let mut p2 = player2;
        if str_eq(p1.get_name(), "RLmax") {
            let coin = rand_below(2);
            let mark = if coin == 0 {
                Marks::CROSS
            } else {
                Marks::NOUGHT
            };
            p1.set_mark(mark);
        }
        let m2 = p1.get_mark().other();
        p2.set_mark(m2);
        if *p1.get_mark() == Marks::CROSS {
            Game { board: Board::new(), current_player: p1, other_player: p2, episode: 0 }
        } else {
            Game { board: Board::new(), current_player: p2, other_player: p1, episode: 0 }
        }
    }

    /// Deal the marks anew for one episode: the current seat draws at random,
    /// the other seat opposes, and the seats are exchanged if the cross, who
    /// moves first, ended up in the other seat.
    pub fn assign_players(&mut self)
        ensures
            final(self).board == old(self).board,
            final(self).episode == old(self).episode,
            final(self).current_player.mark_of() == Marks::CROSS,
            final(self).other_player.mark_of() == Marks::NOUGHT,
            (final(self).current_player == old(self).current_player.spec_with_mark(Marks::CROSS)
                && final(self).other_player == old(self).other_player.spec_with_mark(
                Marks::NOUGHT,
            )) || (final(self).current_player == old(self).other_player.spec_with_mark(
                Marks::CROSS,
            ) && final(self).other_player == old(self).current_player.spec_with_mark(
                Marks::NOUGHT,
            )),
    {
        let coin = rand_below(2);
        let mark = if coin == 0 {
            Marks::CROSS
        } else {
            Marks::NOUGHT
        };
        self.current_player.set_mark(mark);
        let m2 = self.current_player.get_mark().other();
        self.other_player.set_mark(m2);
        if *self.current_player.get_mark() == Marks::NOUGHT {
            self.swap_players();
        }
    }

    /// Exchange the two seats.
    pub fn swap_players(&mut self)
        ensures
            final(self).current_player == old(self).other_player,
            final(self).other_player == old(self).current_player,
            final(self).board == old(self).board,
            final(self).episode == old(self).episode,
    {
        core::mem::swap(&mut self.current_player, &mut self.other_player);
    }

    /// Rotate the triple buffer after a ply: the old current position becomes
    /// the previous one, and the post-move position becomes current, staying
    /// in place as the base for the next ply's move.
    pub fn swap_states(&mut self)
        requires
            old(self).board.wf(),
        ensures
            final(self).board.wf(),
            final(self).board.previous_state@ == old(self).board.current_state@,
            final(self).board.current_state@ == old(self).board.next_state@,
            final(self).board.next_state@ == old(self).board.next_state@,
            final(self).current_player == old(self).current_player,
            final(self).other_player == old(self).other_player,
            final(self).episode == old(self).episode,
    {
        core::mem::swap(&mut self.board.previous_state, &mut self.board.current_state);
        self.board.current_state = self.board.next_state.duplicate();
    }

    /// One training episode with the early/late policy switch at the given
    /// episode threshold: fresh board, marks dealt at random, then plies until
    /// the game ends, with one temporal-difference update per ply.
    fn run_episode(&mut self, q: &mut QTable, cfg: &Config, k_switch: usize)
        requires
            old(self).episode < usize::MAX,
            !old(self).current_player.is_human(),
            !old(self).other_player.is_human(),
            old(self).current_player.cache_wf(),
            old(self).other_player.cache_wf(),
            old(q).wf(),
            seeded(old(q)@),
            cfg.wf(),
            cfg.k > 0,
        ensures
            final(q).wf(),
            seeded(final(q)@),
            old(q)@.dom().subset_of(final(q)@.dom()),
            final(self).episode == old(self).episode + 1,
            final(self).board.wf(),
            !final(self).current_player.is_human(),
            !final(self).other_player.is_human(),
            final(self).current_player.cache_wf(),
            final(self).other_player.cache_wf(),
            final(self).current_player.mark_of() != Marks::Blank,
            final(self).current_player.mark_of()
                == final(self).other_player.mark_of().spec_other(),
            same_pair(*final(self), *old(self)),
            episode_concluded(*final(self), final(q)@, cfg.learning_rate as int),
            final(q)@.dom().contains(empty_cells() + old(self).current_player.name_of())
                || final(q)@.dom().contains(empty_cells() + old(self).other_player.name_of()),
    {
        self.board = Board::new();
        self.assign_players();
        proof {
            assert(!spec_is_full(self.board.current_state@)) by {
                assert(self.board.current_state@[0] == crate::board::empty_char());
            }
        }
        loop
            invariant
                self.board.wf(),
                self.board.current_state@.len() == 9,
                self.board.current_state@ == self.board.next_state@,
                q.wf(),
                seeded(q@),
                cfg.wf(),
                cfg.k > 0,
                !self.current_player.is_human(),
                !self.other_player.is_human(),
                self.current_player.cache_wf(),
                self.other_player.cache_wf(),
                self.episode == old(self).episode,
                self.episode < usize::MAX,
                !spec_is_full(self.board.current_state@),
                old(q)@.dom().subset_of(q@.dom()),
                self.current_player.mark_of() != Marks::Blank,
                self.current_player.mark_of() == self.other_player.mark_of().spec_other(),
                same_pair(*self, *old(self)),
                q@.dom().contains(empty_cells() + old(self).current_player.name_of())
                    || q@.dom().contains(empty_cells() + old(self).other_player.name_of())
                    || self.board.current_state@ == empty_cells(),
            decreases crate::board::spec_available_moves(self.board.current_state@).len(),
        {
            let current_key = self.board.current_state.to_state_key().concat(
                self.current_player.get_name(),
            );
            let candidates = self.board.current_state.available_moves();
            proof {
                lemma_available_moves_exact(self.board.current_state@, 9);
                assert(current_key@.subrange(0, 9) =~= self.board.current_state@);
                assert forall|mv: (usize, usize)| candidates@.contains(mv)
                    <==> move_on_empty_cell(current_key@.subrange(0, 9), mv) by {}
            }
            q.ensure_entry(current_key.clone(), candidates);
            let mv = if self.episode > k_switch {
                self.current_player.choose_move_k(&self.board, q, cfg)
            } else {
                self.current_player.choose_move(&self.board, q, cfg)
            };
            self.current_player.make_move(&mut self.board, &mv);
            proof {
                lemma_available_moves_set(
                    self.board.current_state@,
                    mv,
                    self.current_player.mark_of().spec_char(),
                );
            }
            let next_key = self.board.next_state.to_state_key().concat(
                self.other_player.get_name(),
            );
            let next_candidates = self.board.next_state.available_moves();
            proof {
                lemma_available_moves_exact(self.board.next_state@, 9);
                assert(next_key@.subrange(0, 9) =~= self.board.next_state@);
                assert forall|mv2: (usize, usize)| next_candidates@.contains(mv2)
                    <==> move_on_empty_cell(next_key@.subrange(0, 9), mv2) by {}
            }
            q.ensure_entry(next_key.clone(), next_candidates);
            let is_over = self.board.is_game_over(self.current_player.get_mark());
            match is_over {
                IsGameOver::InPlay => {
                    proof {
                        lemma_seeded_entry_nonempty(q@, next_key@, self.board.next_state@);
                    }
                    q.update_q_table(
                        current_key.as_str(),
                        next_key.as_str(),
                        &mv,
                        self.current_player.get_name(),
                        0,
                        false,
                        cfg,
                    );
                    self.swap_players();
                    self.swap_states();
                },
                IsGameOver::Drawn => {
                    let ghost pre_q = *q;
                    q.update_q_table(
                        current_key.as_str(),
                        next_key.as_str(),
                        &mv,
                        self.current_player.get_name(),
                        0,
                        true,
                        cfg,
                    );
                    self.episode = self.episode + 1;
                    proof {
                        let cells = self.board.current_state@;
                        let mover = self.current_player;
                        let k = cells + mover.name_of();
                        assert(k == current_key@);
                        let outcome = spec_outcome(self.board.next_state@, mover.mark_of());
                        let reward = spec_episode_reward(outcome, mover.name_of());
                        assert(seeded(pre_q@));
                        assert(pre_q.wf());
                        assert(pre_q@.dom().contains(k));
                        assert(k.subrange(0, 9) =~= cells);
                        assert(move_on_empty_cell(cells, mv));
                        assert(pre_q@[k].dom().contains(mv) <==> move_on_empty_cell(
                            k.subrange(0, 9),
                            mv,
                        ));
                        pre_q.lemma_view();
                        let i = choose|i: int|
                            0 <= i < pre_q.qtable@.len() && pre_q.qtable@[i].0@ == k;
                        QTable::lemma_values_bounded(&pre_q.qtable@[i].1);
                        let v0 = pre_q@[k][mv] as int;
                        assert(-VAL_BOUND <= v0 <= VAL_BOUND);
                        assert(q@[k][mv] == spec_blend(
                            v0,
                            reward,
                            cfg.learning_rate as int,
                        ) as i64);
                        assert(exists|w: int|
                            -VAL_BOUND <= w <= VAL_BOUND && q@[k][mv] == spec_blend(
                                w,
                                reward,
                                cfg.learning_rate as int,
                            ) as i64);
                        assert(q@[k].dom().contains(mv));
                        assert(episode_concluded(*self, q@, cfg.learning_rate as int));
                    }
                    return ;
                },
                IsGameOver::Win => {
                    let reward: i64 = if str_eq(self.current_player.get_name(), "RLmax") {
                        SCALE
                    } else {
                        -SCALE
                    };
                    let ghost pre_q = *q;
                    q.update_q_table(
                        current_key.as_str(),
                        next_key.as_str(),
                        &mv,
                        self.current_player.get_name(),
                        reward,
                        true,
                        cfg,
                    );
                    self.episode = self.episode + 1;
                    proof {
                        let cells = self.board.current_state@;
                        let mover = self.current_player;
                        let k = cells + mover.name_of();
                        assert(k == current_key@);
                        let outcome = spec_outcome(self.board.next_state@, mover.mark_of());
                        let reward = spec_episode_reward(outcome, mover.name_of());
                        assert(seeded(pre_q@));
                        assert(pre_q.wf());
                        assert(pre_q@.dom().contains(k));
                        assert(k.subrange(0, 9) =~= cells);
                        assert(move_on_empty_cell(cells, mv));
                        assert(pre_q@[k].dom().contains(mv) <==> move_on_empty_cell(
                            k.subrange(0, 9),
                            mv,
                        ));
                        pre_q.lemma_view();
                        let i = choose|i: int|
                            0 <= i < pre_q.qtable@.len() && pre_q.qtable@[i].0@ == k;
                        QTable::lemma_values_bounded(&pre_q.qtable@[i].1);
                        let v0 = pre_q@[k][mv] as int;
                        assert(-VAL_BOUND <= v0 <= VAL_BOUND);
                        assert(q@[k][mv] == spec_blend(
                            v0,
                            reward,
                            cfg.learning_rate as int,
                        ) as i64);
                        assert(exists|w: int|
                            -VAL_BOUND <= w <= VAL_BOUND && q@[k][mv] == spec_blend(
                                w,
                                reward,
                                cfg.learning_rate as int,
                            ) as i64);
                        assert(q@[k].dom().contains(mv));
                        assert(episode_concluded(*self, q@, cfg.learning_rate as int));
                    }
                    return ;
                },
            }
        }
    }


    /// One training episode of the plain schedule: the sharpened policy takes
    /// over once the episode count passes the plain switch threshold.
    pub fn learn_episode(&mut self, q: &mut QTable, cfg: &Config)
        requires
            old(self).episode < usize::MAX,
            !old(self).current_player.is_human(),
            !old(self).other_player.is_human(),
            old(self).current_player.cache_wf(),
            old(self).other_player.cache_wf(),
            old(q).wf(),
            seeded(old(q)@),
            cfg.wf(),
            cfg.k > 0,
        ensures
            final(q).wf(),
            seeded(final(q)@),
            old(q)@.dom().subset_of(final(q)@.dom()),
            final(self).episode == old(self).episode + 1,
            final(self).board.wf(),
            !final(self).current_player.is_human(),
            !final(self).other_player.is_human(),
            final(self).current_player.cache_wf(),
            final(self).other_player.cache_wf(),
            final(self).current_player.mark_of() != Marks::Blank,
            final(self).current_player.mark_of()
                == final(self).other_player.mark_of().spec_other(),
            same_pair(*final(self), *old(self)),
            episode_concluded(*final(self), final(q)@, cfg.learning_rate as int),
            final(q)@.dom().contains(empty_cells() + old(self).current_player.name_of())
                || final(q)@.dom().contains(empty_cells() + old(self).other_player.name_of()),
    {
        self.run_episode(q, cfg, PLAIN_POLICY_SWITCH)
    }

    /// One training episode of the search-opponent schedule: the sharpened
    /// policy takes over already at the earlier search switch threshold.
    pub fn learn_episode_with_minimax(&mut self, q: &mut QTable, cfg: &Config)
        requires
            old(self).episode < usize::MAX,
            !old(self).current_player.is_human(),
            !old(self).other_player.is_human(),
            old(self).current_player.cache_wf(),
            old(self).other_player.cache_wf(),
            old(q).wf(),
            seeded(old(q)@),
            cfg.wf(),
            cfg.k > 0,
        ensures
            final(q).wf(),
            seeded(final(q)@),
            old(q)@.dom().subset_of(final(q)@.dom()),
            final(self).episode == old(self).episode + 1,
            final(self).board.wf(),
            !final(self).current_player.is_human(),
            !final(self).other_player.is_human(),
            final(self).current_player.cache_wf(),
            final(self).other_player.cache_wf(),
            final(self).current_player.mark_of() != Marks::Blank,
            final(self).current_player.mark_of()
                == final(self).other_player.mark_of().spec_other(),
            same_pair(*final(self), *old(self)),
            episode_concluded(*final(self), final(q)@, cfg.learning_rate as int),
            final(q)@.dom().contains(empty_cells() + old(self).current_player.name_of())
                || final(q)@.dom().contains(empty_cells() + old(self).other_player.name_of()),
    {
        self.run_episode(q, cfg, SEARCH_POLICY_SWITCH)
    }

    /// The plain training loop: run episodes up to the configured budget,
    /// decaying the exploration rate once per ten thousand episodes and
    /// raising the weighting exponent once per five thousand, both only past
    /// the hundred-thousand-episode warmup, on their floors and ceilings.
    pub fn learn_q_table(&mut self, q: &mut QTable, cfg: &mut Config)
        requires
            old(self).episode <= old(cfg).num_episodes,
            !old(self).current_player.is_human(),
            !old(self).other_player.is_human(),
            old(self).current_player.cache_wf(),
            old(self).other_player.cache_wf(),
            old(q).wf(),
            seeded(old(q)@),
            old(cfg).wf(),
            old(cfg).k > 0,
        ensures
            final(q).wf(),
            seeded(final(q)@),
            old(q)@.dom().subset_of(final(q)@.dom()),
            final(cfg).wf(),
            final(cfg).num_episodes == old(cfg).num_episodes,
            final(cfg).learning_rate == old(cfg).learning_rate,
            final(cfg).discount_rate == old(cfg).discount_rate,
            final(cfg).exploration_rate == spec_decayed_exploration(
                old(cfg).exploration_rate as int,
                schedule_points(
                    old(self).episode as int,
                    old(cfg).num_episodes as int,
                    100_000,
                    10_000,
                ),
            ),
            final(cfg).k == spec_raised_k(
                old(cfg).k as int,
                schedule_points(
                    old(self).episode as int,
                    old(cfg).num_episodes as int,
                    100_000,
                    5_000,
                ),
            ),
            final(self).episode == old(cfg).num_episodes,
            !final(self).current_player.is_human(),
            !final(self).other_player.is_human(),
            final(self).current_player.cache_wf(),
            final(self).other_player.cache_wf(),
            same_pair(*final(self), *old(self)),
            old(self).episode < old(cfg).num_episodes ==> final(q)@.dom().contains(
                empty_cells() + old(self).current_player.name_of(),
            ) || final(q)@.dom().contains(empty_cells() + old(self).other_player.name_of()),
    {
        loop
            invariant_except_break
                cfg.exploration_rate == spec_decayed_exploration(
                    old(cfg).exploration_rate as int,
                    schedule_points(
                        old(self).episode as int,
                        self.episode - 1,
                        100_000,
                        10_000,
                    ),
                ),
                cfg.k == spec_raised_k(
                    old(cfg).k as int,
                    schedule_points(old(self).episode as int, self.episode - 1, 100_000, 5_000),
                ),
            invariant
                old(self).episode <= self.episode <= cfg.num_episodes,
                !self.current_player.is_human(),
                !self.other_player.is_human(),
                self.current_player.cache_wf(),
                self.other_player.cache_wf(),
                same_pair(*self, *old(self)),
                q.wf(),
                seeded(q@),
                old(q)@.dom().subset_of(q@.dom()),
                old(self).episode < self.episode ==> q@.dom().contains(
                    empty_cells() + old(self).current_player.name_of(),
                ) || q@.dom().contains(empty_cells() + old(self).other_player.name_of()),
                cfg.wf(),
                cfg.k > 0,
                cfg.num_episodes == old(cfg).num_episodes,
                cfg.learning_rate == old(cfg).learning_rate,
                cfg.discount_rate == old(cfg).discount_rate,
            ensures
                self.episode == cfg.num_episodes,
                !self.current_player.is_human(),
                !self.other_player.is_human(),
                self.current_player.cache_wf(),
                self.other_player.cache_wf(),
                same_pair(*self, *old(self)),
                q.wf(),
                seeded(q@),
                old(q)@.dom().subset_of(q@.dom()),
                old(self).episode < self.episode ==> q@.dom().contains(
                    empty_cells() + old(self).current_player.name_of(),
                ) || q@.dom().contains(empty_cells() + old(self).other_player.name_of()),
                cfg.wf(),
                cfg.num_episodes == old(cfg).num_episodes,
                cfg.learning_rate == old(cfg).learning_rate,
                cfg.discount_rate == old(cfg).discount_rate,
                cfg.exploration_rate == spec_decayed_exploration(
                    old(cfg).exploration_rate as int,
                    schedule_points(
                        old(self).episode as int,
                        cfg.num_episodes as int,
                        100_000,
                        10_000,
                    ),
                ),
                cfg.k == spec_raised_k(
                    old(cfg).k as int,
                    schedule_points(
                        old(self).episode as int,
                        cfg.num_episodes as int,
                        100_000,
                        5_000,
                    ),
                ),
            decreases cfg.num_episodes - self.episode,
        {
            if self.episode > 100_000 && self.episode % 10_000 == 0 {
                cfg.decay_exploration();
            }
            if self.episode > 100_000 && self.episode % 5_000 == 0 {
                cfg.raise_k();
            }
            proof {
                crate::config::lemma_schedule_points_step(
                    old(self).episode as int,
                    self.episode as int,
                    100_000,
                    10_000,
                );
                crate::config::lemma_schedule_points_step(
                    old(self).episode as int,
                    self.episode as int,
                    100_000,
                    5_000,
                );
            }
            if self.episode >= cfg.num_episodes {
                break ;
            }
            self.learn_episode(q, cfg);
        }
    }

    /// The search-opponent training loop: as the plain one, with earlier and
    /// denser schedules — the exploration rate decays once per thousand
    /// episodes past five thousand, the exponent rises once per five thousand
    /// episodes past ten thousand.
    pub fn learn_q_table_with_minimax(&mut self, q: &mut QTable, cfg: &mut Config)
        requires
            old(self).episode <= old(cfg).num_episodes,
            !old(self).current_player.is_human(),
            !old(self).other_player.is_human(),
            old(self).current_player.cache_wf(),
            old(self).other_player.cache_wf(),
            old(q).wf(),
            seeded(old(q)@),
            old(cfg).wf(),
            old(cfg).k > 0,
        ensures
            final(q).wf(),
            seeded(final(q)@),
            old(q)@.dom().subset_of(final(q)@.dom()),
            final(cfg).wf(),
            final(cfg).num_episodes == old(cfg).num_episodes,
            final(cfg).learning_rate == old(cfg).learning_rate,
            final(cfg).discount_rate == old(cfg).discount_rate,
            final(cfg).exploration_rate == spec_decayed_exploration(
                old(cfg).exploration_rate as int,
                schedule_points(
                    old(self).episode as int,
                    old(cfg).num_episodes as int,
                    5_000,
                    1_000,
                ),
            ),
            final(cfg).k == spec_raised_k(
                old(cfg).k as int,
                schedule_points(
                    old(self).episode as int,
                    old(cfg).num_episodes as int,
                    10_000,
                    5_000,
                ),
            ),
            final(self).episode == old(cfg).num_episodes,
            !final(self).current_player.is_human(),
            !final(self).other_player.is_human(),
            final(self).current_player.cache_wf(),
            final(self).other_player.cache_wf(),
            same_pair(*final(self), *old(self)),
            old(self).episode < old(cfg).num_episodes ==> final(q)@.dom().contains(
                empty_cells() + old(self).current_player.name_of(),
            ) || final(q)@.dom().contains(empty_cells() + old(self).other_player.name_of()),
    {
        loop
            invariant_except_break
                cfg.exploration_rate == spec_decayed_exploration(
                    old(cfg).exploration_rate as int,
                    schedule_points(old(self).episode as int, self.episode - 1, 5_000, 1_000),
                ),
                cfg.k == spec_raised_k(
                    old(cfg).k as int,
                    schedule_points(old(self).episode as int, self.episode - 1, 10_000, 5_000),
                ),
            invariant
                old(self).episode <= self.episode <= cfg.num_episodes,
                !self.current_player.is_human(),
                !self.other_player.is_human(),
                self.current_player.cache_wf(),
                self.other_player.cache_wf(),
                same_pair(*self, *old(self)),
                q.wf(),
                seeded(q@),
                old(q)@.dom().subset_of(q@.dom()),
                old(self).episode < self.episode ==> q@.dom().contains(
                    empty_cells() + old(self).current_player.name_of(),
                ) || q@.dom().contains(empty_cells() + old(self).other_player.name_of()),
                cfg.wf(),
                cfg.k > 0,
                cfg.num_episodes == old(cfg).num_episodes,
                cfg.learning_rate == old(cfg).learning_rate,
                cfg.discount_rate == old(cfg).discount_rate,
            ensures
                self.episode == cfg.num_episodes,
                !self.current_player.is_human(),
                !self.other_player.is_human(),
                self.current_player.cache_wf(),
                self.other_player.cache_wf(),
                same_pair(*self, *old(self)),
                q.wf(),
                seeded(q@),
                old(q)@.dom().subset_of(q@.dom()),
                old(self).episode < self.episode ==> q@.dom().contains(
                    empty_cells() + old(self).current_player.name_of(),
                ) || q@.dom().contains(empty_cells() + old(self).other_player.name_of()),
                cfg.wf(),
                cfg.num_episodes == old(cfg).num_episodes,
                cfg.learning_rate == old(cfg).learning_rate,
                cfg.discount_rate == old(cfg).discount_rate,
                cfg.exploration_rate == spec_decayed_exploration(
                    old(cfg).exploration_rate as int,
                    schedule_points(
                        old(self).episode as int,
                        cfg.num_episodes as int,
                        5_000,
                        1_000,
                    ),
                ),
                cfg.k == spec_raised_k(
                    old(cfg).k as int,
                    schedule_points(
                        old(self).episode as int,
                        cfg.num_episodes as int,
                        10_000,
                        5_000,
                    ),
                ),
            decreases cfg.num_episodes - self.episode,
        {
            if self.episode > 5_000 && self.episode % 1_000 == 0 {
                cfg.decay_exploration();
            }
            if self.episode > 10_000 && self.episode % 5_000 == 0 {
                cfg.raise_k();
            }
            proof {
                crate::config::lemma_schedule_points_step(
                    old(self).episode as int,
                    self.episode as int,
                    5_000,
                    1_000,
                );
                crate::config::lemma_schedule_points_step(
                    old(self).episode as int,
                    self.episode as int,
                    10_000,
                    5_000,
                );
            }
            if self.episode >= cfg.num_episodes {
                break ;
            }
            self.learn_episode_with_minimax(q, cfg);
        }
    }
}

} // verus!

