use vstd::prelude::*;
use crate::board::{
    Board, GameState, IsGameOver, empties_prefix, empty_char, lemma_available_moves_exact,
    lemma_moves_fill_partition, spec_available_moves, spec_is_full, spec_outcome,
};
use crate::config::{Config, SCALE};
use crate::q_table::{Moves, QTable, max_value_of, min_value_of, move_on_empty_cell, seeded};
use crate::util::rand_below;

verus! {

/// One square's occupancy: a cross, a nought, or no mark assigned yet.
///
/// `Blank` is the unassigned placeholder a participant carries before marks
/// are dealt out at the start of a game; it never appears on a played square.
#[derive(Clone, Copy, Debug, PartialEq, Eq, Structural)]
pub enum Marks {
    CROSS,
    NOUGHT,
    Blank,
}

impl Marks {
    /// The opposing mark. The blank placeholder opposes itself: it is only
    /// ever negated before marks are assigned.
    pub open spec fn spec_other(self) -> Marks {
        match self {
            Marks::CROSS => Marks::NOUGHT,
            Marks::NOUGHT => Marks::CROSS,
            Marks::Blank => Marks::Blank,
        }
    }

    pub fn other(self) -> (r: Self)
        ensures
            r == self.spec_other(),
    {
        match self {
            Marks::CROSS => Marks::NOUGHT,
            Marks::NOUGHT => Marks::CROSS,
            Marks::Blank => Marks::Blank,
        }
    }

    /// The character this mark leaves on the grid. The blank placeholder
    /// shares the nought's character, a degenerate mapping that play never
    /// exercises after marks are assigned.
    pub open spec fn spec_char(self) -> char {
        match self {
            Marks::CROSS => 'X',
            Marks::NOUGHT => '0',
            Marks::Blank => '0',
        }
    }

    pub fn as_char(self) -> (r: char)
        ensures
            r == self.spec_char(),
    {
        match self {
            Marks::CROSS => 'X',
            Marks::NOUGHT => '0',
            Marks::Blank => '0',
        }
    }

    /// The Unicode code point of the mark's grid character.
    pub fn code(self) -> (r: u32)
        ensures
            r == self.spec_char() as u32,
    {
        match self {
            Marks::CROSS => 88,
            Marks::NOUGHT => 48,
            Marks::Blank => 48,
        }
    }
}

// ---------------------------------------------------------------------------
// Participants.
// ---------------------------------------------------------------------------

/// A participant whose moves arrive from outside the library.
#[derive(Debug)]
pub struct HumanPlayer {
    pub name: String,
    pub mark: Marks,
}

/// The learning participant that maximizes the shared value scale.
#[derive(Debug)]
pub struct ComputerPlayerRLmax {
    pub name: String,
    pub mark: Marks,
}

/// The learning participant that minimizes the shared value scale.
#[derive(Debug)]
pub struct ComputerPlayerRLmin {
    pub name: String,
    pub mark: Marks,
}

/// The exact solver, with its own memoized cache of search scores.
#[derive(Debug)]
pub struct MinimaxPlayer {
    pub name: String,
    pub mark: Marks,
    pub q_max: QTable,
}

// ---------------------------------------------------------------------------
// Helper facts about positions.
// ---------------------------------------------------------------------------

/// Writing a mark onto one empty cell removes exactly that cell from the
/// empties of each prefix.
proof fn lemma_empties_prefix_update(cells: Seq<char>, p: int, ch: char, n: int)
    requires
        cells.len() == 9,
        0 <= p < 9,
        cells[p] == empty_char(),
        ch != empty_char(),
        0 <= n <= 9,
    ensures
        empties_prefix(cells.update(p, ch), n).len() == empties_prefix(cells, n).len() - (
        if p < n {
            1int
        } else {
            0int
        }),
    decreases n,
{
    let c2 = cells.update(p, ch);
    if n > 0 {
        lemma_empties_prefix_update(cells, p, ch, n - 1);
        if n - 1 == p {
            assert(c2[n - 1] == ch);
            assert(cells[n - 1] == empty_char());
        } else {
            assert(c2[n - 1] == cells[n - 1]);
        }
    }
}

/// Applying a move to an empty cell leaves one fewer available move.
pub proof fn lemma_available_moves_set(cells: Seq<char>, mv: (usize, usize), ch: char)
    requires
        cells.len() == 9,
        move_on_empty_cell(cells, mv),
        ch != empty_char(),
    ensures
        spec_available_moves(cells.update(3 * mv.0 + mv.1, ch)).len() == spec_available_moves(
            cells,
        ).len() - 1,
{
    lemma_empties_prefix_update(cells, 3 * mv.0 + mv.1, ch, 9);
}

/// A position that is not full offers at least one available move.
pub proof fn lemma_not_full_has_move(cells: Seq<char>)
    requires
        cells.len() == 9,
        !spec_is_full(cells),
    ensures
        spec_available_moves(cells).len() > 0,
        exists|mv: (usize, usize)| move_on_empty_cell(cells, mv),
{
    let i = choose|i: int| 0 <= i < 9 && cells[i] == empty_char();
    let mv = ((i / 3) as usize, (i % 3) as usize);
    assert(3 * (i / 3) + i % 3 == i) by (nonlinear_arith)
        requires 0 <= i < 9;
    assert(i / 3 < 3 && i % 3 < 3) by (nonlinear_arith)
        requires 0 <= i < 9;
    assert(move_on_empty_cell(cells, mv));
    lemma_available_moves_exact(cells, 9);
    assert(spec_available_moves(cells).contains(mv));
}

// ---------------------------------------------------------------------------
// The exact solver.
// ---------------------------------------------------------------------------

/// The better of two scores for the current layer: the greater on a
/// maximizing layer, the lesser on a minimizing one.
pub open spec fn spec_combine(is_max: bool, a: int, b: int) -> int {
    if is_max {
        if a >= b {
            a
        } else {
            b
        }
    } else {
        if a <= b {
            a
        } else {
            b
        }
    }
}

/// The exact game-theoretic value of a position, searched to the end of the
/// game. A position already won by the mark that just moved (the other mark)
/// scores depth-adjusted: `-10 + depth` seen from a maximizing layer,
/// `10 - depth` from a minimizing one, preferring faster wins and slower
/// losses; a drawn position scores zero; an open position takes the best
/// child score over all available moves.
pub open spec fn spec_minimax(cells: Seq<char>, mark: Marks, depth: int, is_max: bool) -> int
    decreases spec_available_moves(cells).len(), spec_available_moves(cells).len() + 1int,
        when cells.len() == 9
{
    if spec_outcome(cells, mark.spec_other()) == IsGameOver::Win {
        if is_max {
            -10 + depth
        } else {
            10 - depth
        }
    } else if spec_outcome(cells, mark.spec_other()) == IsGameOver::Drawn {
        0
    } else {
        spec_best_from(cells, mark, depth, is_max, 0)
    }
}

/// The best score over the available moves from position `i` of the list on:
/// each candidate move is played for `mark` and scored one ply deeper with
/// the layers swapped.
pub open spec fn spec_best_from(
    cells: Seq<char>,
    mark: Marks,
    depth: int,
    is_max: bool,
    i: int,
) -> int
    decreases spec_available_moves(cells).len(), spec_available_moves(cells).len() - i,
        when cells.len() == 9
    via spec_best_from_decreases
{
    let avail = spec_available_moves(cells);
    if i < 0 || i >= avail.len() {
        0
    } else {
        let mv = avail[i];
        let child = spec_minimax(
            cells.update(3 * mv.0 + mv.1, mark.spec_char()),
            mark.spec_other(),
            depth + 1,
            !is_max,
        );
        if i == avail.len() - 1 {
            child
        } else {
            spec_combine(is_max, child, spec_best_from(cells, mark, depth, is_max, i + 1))
        }
    }
}

#[via_fn]
proof fn spec_best_from_decreases(cells: Seq<char>, mark: Marks, depth: int, is_max: bool, i: int) {
    let avail = spec_available_moves(cells);
    if 0 <= i < avail.len() {
        let mv = avail[i];
        lemma_available_moves_exact(cells, 9);
        assert(avail.contains(avail[i]));
        assert(move_on_empty_cell(cells, mv));
        assert(mark.spec_char() != empty_char());
        lemma_available_moves_set(cells, mv, mark.spec_char());
    }
}

/// The search value never strays beyond the depth plus the count of open
/// cells plus ten: every reachable terminal scores within that band.
pub proof fn lemma_minimax_bounds(cells: Seq<char>, mark: Marks, depth: int, is_max: bool)
    requires
        cells.len() == 9,
        0 <= depth,
    ensures
        -(depth + spec_available_moves(cells).len() + 10) <= spec_minimax(
            cells,
            mark,
            depth,
            is_max,
        ) <= depth + spec_available_moves(cells).len() + 10,
    decreases spec_available_moves(cells).len(), spec_available_moves(cells).len() + 1int,
{
    if spec_outcome(cells, mark.spec_other()) == IsGameOver::Win {
    } else if spec_outcome(cells, mark.spec_other()) == IsGameOver::Drawn {
    } else {
        lemma_not_full_has_move(cells);
        lemma_best_from_bounds(cells, mark, depth, is_max, 0);
    }
}

proof fn lemma_best_from_bounds(cells: Seq<char>, mark: Marks, depth: int, is_max: bool, i: int)
    requires
        cells.len() == 9,
        0 <= depth,
        0 <= i < spec_available_moves(cells).len(),
    ensures
        -(depth + spec_available_moves(cells).len() + 10) <= spec_best_from(
            cells,
            mark,
            depth,
            is_max,
            i,
        ) <= depth + spec_available_moves(cells).len() + 10,
    decreases spec_available_moves(cells).len(), spec_available_moves(cells).len() - i,
{
    let avail = spec_available_moves(cells);
    let mv = avail[i];
    lemma_available_moves_exact(cells, 9);
    assert(avail.contains(avail[i]));
    assert(move_on_empty_cell(cells, mv));
    let c2 = cells.update(3 * mv.0 + mv.1, mark.spec_char());
    lemma_available_moves_set(cells, mv, mark.spec_char());
    lemma_minimax_bounds(c2, mark.spec_other(), depth + 1, !is_max);
    if i < avail.len() - 1 {
        lemma_best_from_bounds(cells, mark, depth, is_max, i + 1);
    }
}

/// The solver is a function of the position alone: two searches of the same
/// position with the same mark, depth and layer return the same value,
/// whatever moves either search examined first.
pub proof fn lemma_minimax_deterministic(
    cells: Seq<char>,
    mark: Marks,
    depth: int,
    is_max: bool,
    r1: int,
    r2: int,
)
    requires
        r1 == spec_minimax(cells, mark, depth, is_max),
        r2 == spec_minimax(cells, mark, depth, is_max),
    ensures
        r1 == r2,
{
}

impl MinimaxPlayer {
    /// The exact value of a position for `mark` to move, searched to the end
    /// of the game, scoring wins depth-adjusted and draws zero.
    pub fn minimax(state: GameState, mark: &Marks, depth: &i32, is_max: bool) -> (r: i32)
        requires
            state.wf(),
            0 <= *depth,
            *depth + spec_available_moves(state@).len() <= 1000,
        ensures
            r as int == spec_minimax(state@, *mark, *depth as int, is_max),
        decreases spec_available_moves(state@).len(),
    {
        let outcome = state.is_game_over(&mark.other());
        match outcome {
            IsGameOver::Win => {
                if is_max {
                    -10 + *depth
                } else {
                    10 - *depth
                }
            },
            IsGameOver::Drawn => 0,
            IsGameOver::InPlay => {
                proof {
                    lemma_not_full_has_move(state@);
                }
                let avail = state.available_moves();
                let n = avail.len();
                let mut best: i32 = 0;
                let mut k: usize = 0;
                while k < n
                    invariant
                        state.wf(),
                        0 <= *depth,
                        *depth + spec_available_moves(state@).len() <= 1000,
                        avail@ == spec_available_moves(state@),
                        n == avail@.len(),
                        0 < n,
                        k <= n,
                        spec_outcome(state@, mark.spec_other()) == IsGameOver::InPlay,
                        k > 0 ==> -2000 <= best <= 2000,
                        k > 0 ==> spec_best_from(state@, *mark, *depth as int, is_max, 0) == (
                        if k < n {
                            spec_combine(
                                is_max,
                                best as int,
                                spec_best_from(state@, *mark, *depth as int, is_max, k as int),
                            )
                        } else {
                            best as int
                        }),
                    decreases n - k,
                {
                    let mv = avail[k];
                    proof {
                        lemma_available_moves_exact(state@, 9);
                        assert(avail@.contains(avail@[k as int]));
                        assert(move_on_empty_cell(state@, mv));
                        lemma_available_moves_set(state@, mv, mark.spec_char());
                    }
                    let mut child = state.duplicate();
                    child.set_cell(mv.0, mv.1, mark.as_char());
                    let d2 = *depth + 1;
                    let score = Self::minimax(child, &mark.other(), &d2, !is_max);
                    proof {
                        lemma_minimax_bounds(child@, mark.spec_other(), d2 as int, !is_max);
                        lemma_moves_fill_partition(child@, 9);
                        lemma_moves_fill_partition(state@, 9);
                    }
                    if k == 0 {
                        best = score;
                    } else if is_max {
                        if score > best {
                            best = score;
                        }
                    } else {
                        if score < best {
                            best = score;
                        }
                    }
                    k = k + 1;
                }
                best
            },
        }
    }
}

// ---------------------------------------------------------------------------
// Accessors shared by all participants.
// ---------------------------------------------------------------------------

impl HumanPlayer {
    pub fn set_mark(&mut self, mark: Marks)
        ensures
            final(self).mark == mark,
            final(self).name == old(self).name,
    {
        self.mark = mark;
    }

    pub fn get_mark(&self) -> (r: &Marks)
        ensures
            *r == self.mark,
    {
        &self.mark
    }

    pub fn get_name(&self) -> (r: &str)
        ensures
            r@ == self.name@,
    {
        self.name.as_str()
    }

    /// Write this participant's mark into the chosen cell of the post-move
    /// position.
    pub fn make_move(&self, board: &mut Board, mv: &(usize, usize))
        requires
            old(board).wf(),
            mv.0 < 3,
            mv.1 < 3,
        ensures
            final(board).wf(),
            final(board).next_state@ == old(board).next_state@.update(
                3 * mv.0 + mv.1,
                self.mark.spec_char(),
            ),
            final(board).previous_state@ == old(board).previous_state@,
            final(board).current_state@ == old(board).current_state@,
    {
        board.next_state.set_cell(mv.0, mv.1, self.mark.as_char());
    }
}

impl ComputerPlayerRLmax {
    pub fn set_mark(&mut self, mark: Marks)
        ensures
            final(self).mark == mark,
            final(self).name == old(self).name,
    {
        self.mark = mark;
    }

    pub fn get_mark(&self) -> (r: &Marks)
        ensures
            *r == self.mark,
    {
        &self.mark
    }

    pub fn get_name(&self) -> (r: &str)
        ensures
            r@ == self.name@,
    {
        self.name.as_str()
    }
}

impl ComputerPlayerRLmin {
    pub fn set_mark(&mut self, mark: Marks)
        ensures
            final(self).mark == mark,
            final(self).name == old(self).name,
    {
        self.mark = mark;
    }

    pub fn get_mark(&self) -> (r: &Marks)
        ensures
            *r == self.mark,
    {
        &self.mark
    }

    pub fn get_name(&self) -> (r: &str)
        ensures
            r@ == self.name@,
    {
        self.name.as_str()
    }
}

// ---------------------------------------------------------------------------
// Policies.
// ---------------------------------------------------------------------------

/// A present, seeded key over a position with an open cell holds a nonempty
/// move table.
pub proof fn lemma_seeded_entry_nonempty(
    t: Map<Seq<char>, Map<(usize, usize), i64>>,
    key: Seq<char>,
    cells: Seq<char>,
)
    requires
        seeded(t),
        t.dom().contains(key),
        key.subrange(0, 9) == cells,
        cells.len() == 9,
        !spec_is_full(cells),
    ensures
        exists|mv: (usize, usize)| #[trigger] t[key].dom().contains(mv),
        forall|mv: (usize, usize)|
            #[trigger] t[key].dom().contains(mv) <==> move_on_empty_cell(cells, mv),
{
    lemma_not_full_has_move(cells);
    let mv0 = choose|mv: (usize, usize)| move_on_empty_cell(cells, mv);
    assert(t[key].dom().contains(mv0) <==> move_on_empty_cell(key.subrange(0, 9), mv0));
    assert(t[key].dom().contains(mv0));
    assert forall|mv: (usize, usize)|
        #[trigger] t[key].dom().contains(mv) <==> move_on_empty_cell(cells, mv) by {
        assert(t[key].dom().contains(mv) <==> move_on_empty_cell(key.subrange(0, 9), mv));
    }
}

/// A uniformly random available move of the current position.
fn random_available_move(board: &Board) -> (r: (usize, usize))
    requires
        board.wf(),
        !spec_is_full(board.current_state@),
    ensures
        move_on_empty_cell(board.current_state@, r),
{
    proof {
        lemma_not_full_has_move(board.current_state@);
    }
    let avail = board.current_state.available_moves();
    let idx = rand_below(avail.len());
    let r = avail[idx];
    proof {
        lemma_available_moves_exact(board.current_state@, 9);
        assert(avail@.contains(avail@[idx as int]));
    }
    r
}

impl ComputerPlayerRLmax {
    /// The epsilon-greedy policy of the maximizing participant: if this
    /// state's key is absent from the store, or a uniform draw falls below
    /// the exploration rate, a uniformly random available move; otherwise a
    /// move with the greatest stored value. Once the exploration rate has
    /// decayed to zero and the key is present, the draw cannot fall below it,
    /// so the returned move always carries the greatest stored value.
    pub fn choose_move(&self, board: &Board, q: &QTable, cfg: &Config) -> (r: (usize, usize))
        requires
            board.wf(),
            q.wf(),
            cfg.wf(),
            seeded(q@),
            !spec_is_full(board.current_state@),
        ensures
            move_on_empty_cell(board.current_state@, r),
            q@.dom().contains(board.current_state@ + self.name@) && cfg.exploration_rate == 0
                ==> {
                &&& q@[board.current_state@ + self.name@].dom().contains(r)
                &&& forall|k2: (usize, usize)|
                    #[trigger] q@[board.current_state@ + self.name@].dom().contains(k2)
                        ==> q@[board.current_state@ + self.name@][k2] <= q@[board.current_state@
                        + self.name@][r]
                &&& q@[board.current_state@ + self.name@][r] == max_value_of(
                    q@[board.current_state@ + self.name@],
                )
            },
    {
        let key = board.current_state.to_state_key().concat(self.name.as_str());
        proof {
            assert(key@.subrange(0, 9) =~= board.current_state@);
        }
        let n = crate::util::rand_range(0, SCALE + 1);
        if !q.contains_key(key.as_str()) || n < cfg.exploration_rate {
            random_available_move(board)
        } else {
            proof {
                lemma_seeded_entry_nonempty(q@, key@, board.current_state@);
            }
            let m = match q.get(key.as_str()) {
                Some(m) => m,
                None => {
                    proof {
                        assert(false);
                    }
                    return (0, 0);
                },
            };
            proof {
                m.lemma_view();
                let mv0 = choose|mv: (usize, usize)| #[trigger] m@.dom().contains(mv);
                let i0 = choose|i: int| 0 <= i < m.moves@.len() && m.moves@[i].0 == mv0;
                assert(m.moves@.len() > 0);
            }
            let r = m.select_max_move();
            proof {
                assert(q@[key@].dom().contains(r) <==> move_on_empty_cell(
                    board.current_state@,
                    r,
                ));
            }
            r
        }
    }

    /// The sharpened late-training policy of the maximizing participant.
    ///
    /// The stored values are shifted to be non-negative, raised to the
    /// configured positive exponent and normalized; since that weighting is
    /// strictly increasing on the shifted values, the move with the greatest
    /// weighted score is a move with the greatest stored value, and that is
    /// what is returned.
    pub fn choose_move_k(&self, board: &Board, q: &QTable, cfg: &Config) -> (r: (usize, usize))
        requires
            board.wf(),
            q.wf(),
            cfg.wf(),
            cfg.k > 0,
            seeded(q@),
            q@.dom().contains(board.current_state@ + self.name@),
            !spec_is_full(board.current_state@),
        ensures
            move_on_empty_cell(board.current_state@, r),
            q@[board.current_state@ + self.name@].dom().contains(r),
            forall|k2: (usize, usize)|
                #[trigger] q@[board.current_state@ + self.name@].dom().contains(k2)
                    ==> q@[board.current_state@ + self.name@][k2] <= q@[board.current_state@
                    + self.name@][r],
    {
        let key = board.current_state.to_state_key().concat(self.name.as_str());
        proof {
            assert(key@.subrange(0, 9) =~= board.current_state@);
            lemma_seeded_entry_nonempty(q@, key@, board.current_state@);
        }
        let m = match q.get(key.as_str()) {
            Some(m) => m,
            None => {
                proof {
                    assert(false);
                }
                return (0, 0);
            },
        };
        proof {
            m.lemma_view();
            let mv0 = choose|mv: (usize, usize)| #[trigger] m@.dom().contains(mv);
            let i0 = choose|i: int| 0 <= i < m.moves@.len() && m.moves@[i].0 == mv0;
            assert(m.moves@.len() > 0);
        }
        let sh = m.shifted_non_negative();
        let r = sh.select_max_move();
        proof {
            assert forall|k2: (usize, usize)| #[trigger] m@.dom().contains(k2) implies m@[k2]
                <= m@[r] by {
                assert(sh@.dom().contains(k2));
                assert(sh@[k2] <= sh@[r]);
            }
            assert(q@[key@].dom().contains(r) <==> move_on_empty_cell(board.current_state@, r));
        }
        r
    }

    /// Write this participant's mark into the chosen cell of the post-move
    /// position.
    pub fn make_move(&self, board: &mut Board, mv: &(usize, usize))
        requires
            old(board).wf(),
            mv.0 < 3,
            mv.1 < 3,
        ensures
            final(board).wf(),
            final(board).next_state@ == old(board).next_state@.update(
                3 * mv.0 + mv.1,
                self.mark.spec_char(),
            ),
            final(board).previous_state@ == old(board).previous_state@,
            final(board).current_state@ == old(board).current_state@,
    {
        board.next_state.set_cell(mv.0, mv.1, self.mark.as_char());
    }
}

impl ComputerPlayerRLmin {
    /// The epsilon-greedy policy of the minimizing participant: as the
    /// maximizing one's, but exploiting with a least-valued move. With the
    /// exploration rate at zero and the key present, the returned move always
    /// carries the least stored value.
    pub fn choose_move(&self, board: &Board, q: &QTable, cfg: &Config) -> (r: (usize, usize))
        requires
            board.wf(),
            q.wf(),
            cfg.wf(),
            seeded(q@),
            !spec_is_full(board.current_state@),
        ensures
            move_on_empty_cell(board.current_state@, r),
            q@.dom().contains(board.current_state@ + self.name@) && cfg.exploration_rate == 0
                ==> {
                &&& q@[board.current_state@ + self.name@].dom().contains(r)
                &&& forall|k2: (usize, usize)|
                    #[trigger] q@[board.current_state@ + self.name@].dom().contains(k2)
                        ==> q@[board.current_state@ + self.name@][r] <= q@[board.current_state@
                        + self.name@][k2]
                &&& q@[board.current_state@ + self.name@][r] == min_value_of(
                    q@[board.current_state@ + self.name@],
                )
            },
    {
        let key = board.current_state.to_state_key().concat(self.name.as_str());
        proof {
            assert(key@.subrange(0, 9) =~= board.current_state@);
        }
        let n = crate::util::rand_range(0, SCALE + 1);
        if !q.contains_key(key.as_str()) || n < cfg.exploration_rate {
            random_available_move(board)
        } else {
            proof {
                lemma_seeded_entry_nonempty(q@, key@, board.current_state@);
            }
            let m = match q.get(key.as_str()) {
                Some(m) => m,
                None => {
                    proof {
                        assert(false);
                    }
                    return (0, 0);
                },
            };
            proof {
                m.lemma_view();
                let mv0 = choose|mv: (usize, usize)| #[trigger] m@.dom().contains(mv);
                let i0 = choose|i: int| 0 <= i < m.moves@.len() && m.moves@[i].0 == mv0;
                assert(m.moves@.len() > 0);
            }
            let r = m.select_min_move();
            proof {
                assert(q@[key@].dom().contains(r) <==> move_on_empty_cell(
                    board.current_state@,
                    r,
                ));
            }
            r
        }
    }

    /// The sharpened late-training policy of the minimizing participant: a
    /// move with the least stored value, by the same order-preserving
    /// weighting argument as the maximizing one's.
    pub fn choose_move_k(&self, board: &Board, q: &QTable, cfg: &Config) -> (r: (usize, usize))
        requires
            board.wf(),
            q.wf(),
            cfg.wf(),
            cfg.k > 0,
            seeded(q@),
            q@.dom().contains(board.current_state@ + self.name@),
            !spec_is_full(board.current_state@),
        ensures
            move_on_empty_cell(board.current_state@, r),
            q@[board.current_state@ + self.name@].dom().contains(r),
            forall|k2: (usize, usize)|
                #[trigger] q@[board.current_state@ + self.name@].dom().contains(k2)
                    ==> q@[board.current_state@ + self.name@][r] <= q@[board.current_state@
                    + self.name@][k2],
    {
        let key = board.current_state.to_state_key().concat(self.name.as_str());
        proof {
            assert(key@.subrange(0, 9) =~= board.current_state@);
            lemma_seeded_entry_nonempty(q@, key@, board.current_state@);
        }
        let m = match q.get(key.as_str()) {
            Some(m) => m,
            None => {
                proof {
                    assert(false);
                }
                return (0, 0);
            },
        };
        proof {
            m.lemma_view();
            let mv0 = choose|mv: (usize, usize)| #[trigger] m@.dom().contains(mv);
            let i0 = choose|i: int| 0 <= i < m.moves@.len() && m.moves@[i].0 == mv0;
            assert(m.moves@.len() > 0);
        }
        let sh = m.shifted_non_negative();
        let r = sh.select_min_move();
        proof {
            assert forall|k2: (usize, usize)| #[trigger] m@.dom().contains(k2) implies m@[r]
                <= m@[k2] by {
                assert(sh@.dom().contains(k2));
                assert(sh@[r] <= sh@[k2]);
            }
            assert(q@[key@].dom().contains(r) <==> move_on_empty_cell(board.current_state@, r));
        }
        r
    }

    /// Write this participant's mark into the chosen cell of the post-move
    /// position.
    pub fn make_move(&self, board: &mut Board, mv: &(usize, usize))
        requires
            old(board).wf(),
            mv.0 < 3,
            mv.1 < 3,
        ensures
            final(board).wf(),
            final(board).next_state@ == old(board).next_state@.update(
                3 * mv.0 + mv.1,
                self.mark.spec_char(),
            ),
            final(board).previous_state@ == old(board).previous_state@,
            final(board).current_state@ == old(board).current_state@,
    {
        board.next_state.set_cell(mv.0, mv.1, self.mark.as_char());
    }
}

impl MinimaxPlayer {
    pub fn set_mark(&mut self, mark: Marks)
        ensures
            final(self).mark == mark,
            final(self).name == old(self).name,
            final(self).q_max == old(self).q_max,
    {
        self.mark = mark;
    }

    pub fn get_mark(&self) -> (r: &Marks)
        ensures
            *r == self.mark,
    {
        &self.mark
    }

    pub fn get_name(&self) -> (r: &str)
        ensures
            r@ == self.name@,
    {
        self.name.as_str()
    }

    /// The exact solver's policy. If the current position is cached, a move
    /// with the greatest cached score, ties broken uniformly at random; else
    /// every available move is played hypothetically, scored by a full
    /// search, the scores are cached under this position's key, and a move
    /// with the greatest score is returned. Either way the returned move is
    /// tied for the greatest score the cache holds for this position, so
    /// repeated calls on one position return moves of one and the same value.
    pub fn choose_move(&mut self, board: &Board) -> (r: (usize, usize))
        requires
            old(self).q_max.wf(),
            seeded(old(self).q_max@),
            board.wf(),
            !spec_is_full(board.current_state@),
        ensures
            final(self).q_max.wf(),
            seeded(final(self).q_max@),
            final(self).name@ == old(self).name@,
            final(self).mark == old(self).mark,
            move_on_empty_cell(board.current_state@, r),
            final(self).q_max@.dom().contains(board.current_state@ + "max"@),
            final(self).q_max@[board.current_state@ + "max"@].dom().contains(r),
            forall|mv: (usize, usize)|
                #[trigger] final(self).q_max@[board.current_state@ + "max"@].dom().contains(mv)
                    ==> final(self).q_max@[board.current_state@ + "max"@][mv]
                    <= final(self).q_max@[board.current_state@ + "max"@][r],
            final(self).q_max@[board.current_state@ + "max"@][r] == max_value_of(
                final(self).q_max@[board.current_state@ + "max"@],
            ),
            old(self).q_max@.dom().contains(board.current_state@ + "max"@) ==> final(self).q_max@
                == old(self).q_max@,
            !old(self).q_max@.dom().contains(board.current_state@ + "max"@) ==> {
                &&& final(self).q_max@.dom() =~= old(self).q_max@.dom().insert(
                    board.current_state@ + "max"@,
                )
                &&& forall|mv: (usize, usize)|
                    #[trigger] final(self).q_max@[board.current_state@ + "max"@].dom().contains(
                        mv,
                    ) <==> move_on_empty_cell(board.current_state@, mv)
                &&& forall|mv: (usize, usize)|
                    #[trigger] final(self).q_max@[board.current_state@ + "max"@].dom().contains(
                        mv,
                    ) ==> final(self).q_max@[board.current_state@ + "max"@][mv] == SCALE
                        * spec_minimax(
                        board.current_state@.update(3 * mv.0 + mv.1, old(self).mark.spec_char()),
                        old(self).mark.spec_other(),
                        0,
                        false,
                    )
            },
    {
        let key = board.current_state.to_state_key().concat("max");
        proof {
            assert(key@.subrange(0, 9) =~= board.current_state@);
        }
        if self.q_max.contains_key(key.as_str()) {
            proof {
                lemma_seeded_entry_nonempty(self.q_max@, key@, board.current_state@);
            }
            let m = match self.q_max.get(key.as_str()) {
                Some(m) => m,
                None => {
                    proof {
                        assert(false);
                    }
                    return (0, 0);
                },
            };
            proof {
                m.lemma_view();
                let mv0 = choose|mv: (usize, usize)| #[trigger] m@.dom().contains(mv);
                let i0 = choose|i: int| 0 <= i < m.moves@.len() && m.moves@[i].0 == mv0;
                assert(m.moves@.len() > 0);
            }
            let r = m.select_max_move();
            proof {
                assert(self.q_max@[key@].dom().contains(r) <==> move_on_empty_cell(
                    board.current_state@,
                    r,
                ));
            }
            return r;
        }
        proof {
            lemma_available_moves_exact(board.current_state@, 9);
            lemma_moves_fill_partition(board.current_state@, 9);
            lemma_not_full_has_move(board.current_state@);
        }
        let avail = board.current_state.available_moves();
        let ghost av = avail@;
        let n = avail.len();
        let mut m = Moves::with_sentinel(avail);
        let mut k: usize = 0;
        while k < n
            invariant
                board.wf(),
                !spec_is_full(board.current_state@),
                av == spec_available_moves(board.current_state@),
                n == av.len(),
                0 < n <= 9,
                k <= n,
                m.wf(),
                m.bounded(),
                m.moves@.len() == n,
                forall|j: int| 0 <= j < n ==> m.moves@[j].0 == av[j],
                forall|j: int|
                    0 <= j < k ==> #[trigger] m.moves@[j].1 == SCALE * spec_minimax(
                        board.current_state@.update(
                            3 * av[j].0 + av[j].1,
                            self.mark.spec_char(),
                        ),
                        self.mark.spec_other(),
                        0,
                        false,
                    ),
            decreases n - k,
        {
            let mv = m.moves[k].0;
            proof {
                lemma_available_moves_exact(board.current_state@, 9);
                assert(av.contains(av[k as int]));
                assert(move_on_empty_cell(board.current_state@, mv));
                m.lemma_view();
                assert(m@.dom().contains(m.moves@[k as int].0));
            }
            let mut child = board.current_state.duplicate();
            child.set_cell(mv.0, mv.1, self.mark.as_char());
            proof {
                lemma_available_moves_set(board.current_state@, mv, self.mark.spec_char());
                lemma_moves_fill_partition(child@, 9);
            }
            let zero: i32 = 0;
            let score = Self::minimax(child, &self.mark.other(), &zero, false);
            proof {
                lemma_minimax_bounds(child@, self.mark.spec_other(), 0, false);
            }
            m.set_value(mv, (score as i64) * SCALE);
            k = k + 1;
        }
        let best = m.select_max_move();
        proof {
            m.lemma_view();
            lemma_available_moves_exact(board.current_state@, 9);
            let jb = choose|j: int| 0 <= j < m.moves@.len() && m.moves@[j].0 == best;
            assert(av.contains(av[jb]));
            assert(move_on_empty_cell(board.current_state@, best));
        }
        let ghost pre_cache = self.q_max@;
        self.q_max.insert(key, m);
        proof {
            assert forall|mv: (usize, usize)| #[trigger] self.q_max@[key@].dom().contains(mv)
                <==> move_on_empty_cell(board.current_state@, mv) by {
                if self.q_max@[key@].dom().contains(mv) {
                    let j = choose|j: int| 0 <= j < m.moves@.len() && m.moves@[j].0 == mv;
                    assert(av.contains(av[j]));
                }
                if move_on_empty_cell(board.current_state@, mv) {
                    assert(av.contains(mv));
                    let j = choose|j: int| 0 <= j < av.len() && av[j] == mv;
                    assert(m@.dom().contains(m.moves@[j].0));
                }
            }
            assert forall|mv: (usize, usize)|
                #[trigger] self.q_max@[key@].dom().contains(mv) implies self.q_max@[key@][mv]
                == SCALE * spec_minimax(
                board.current_state@.update(3 * mv.0 + mv.1, self.mark.spec_char()),
                self.mark.spec_other(),
                0,
                false,
            ) by {
                let j = choose|j: int| 0 <= j < m.moves@.len() && m.moves@[j].0 == mv;
                assert(m@[m.moves@[j].0] == m.moves@[j].1);
                assert(m.moves@[j].1 == SCALE * spec_minimax(
                    board.current_state@.update(3 * av[j].0 + av[j].1, self.mark.spec_char()),
                    self.mark.spec_other(),
                    0,
                    false,
                ));
            }
            assert(seeded(pre_cache));
            assert forall|kk: Seq<char>| #[trigger] self.q_max@.dom().contains(kk) implies kk.len()
                >= 9 && (forall|mv: (usize, usize)|
                #[trigger] self.q_max@[kk].dom().contains(mv) <==> move_on_empty_cell(
                    kk.subrange(0, 9),
                    mv,
                )) by {
                if kk == key@ {
                    assert(key@.len() >= 9);
                    assert forall|mv: (usize, usize)|
                        #[trigger] self.q_max@[kk].dom().contains(mv) <==> move_on_empty_cell(
                            kk.subrange(0, 9),
                            mv,
                        ) by {
                        assert(self.q_max@[key@].dom().contains(mv) <==> move_on_empty_cell(
                            board.current_state@,
                            mv,
                        ));
                    }
                } else {
                    assert(pre_cache.dom().contains(kk));
                    assert(self.q_max@[kk] == pre_cache[kk]);
                }
            }
        }
        best
    }

    /// The exact solver ignores the weighting exponent: the late-training
    /// policy is the same full search.
    pub fn choose_move_k(&mut self, board: &Board) -> (r: (usize, usize))
        requires
            old(self).q_max.wf(),
            seeded(old(self).q_max@),
            board.wf(),
            !spec_is_full(board.current_state@),
        ensures
            final(self).q_max.wf(),
            seeded(final(self).q_max@),
            final(self).name@ == old(self).name@,
            final(self).mark == old(self).mark,
            move_on_empty_cell(board.current_state@, r),
    {
        self.choose_move(board)
    }

    /// Write this participant's mark into the chosen cell of the post-move
    /// position.
    pub fn make_move(&self, board: &mut Board, mv: &(usize, usize))
        requires
            old(board).wf(),
            mv.0 < 3,
            mv.1 < 3,
        ensures
            final(board).wf(),
            final(board).next_state@ == old(board).next_state@.update(
                3 * mv.0 + mv.1,
                self.mark.spec_char(),
            ),
            final(board).previous_state@ == old(board).previous_state@,
            final(board).current_state@ == old(board).current_state@,
    {
        board.next_state.set_cell(mv.0, mv.1, self.mark.as_char());
    }
}

} // verus!
