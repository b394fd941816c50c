use vstd::prelude::*;
use crate::players::Marks;

verus! {

// ---------------------------------------------------------------------------
// The grid storage.
//
// A position is kept in an `ndarray` two-dimensional array of characters,
// as a 3-by-3 grid in standard (row-major) layout. The array type and the
// few operations the game needs are trusted declarations; everything that
// reads or judges a position is verified against them, over the flattened
// row-major sequence of the grid's nine cells.
// ---------------------------------------------------------------------------

/// The grid holder. Verus cannot declare `ndarray::ArrayBase` itself (its
/// `RawData` bound cannot be restated here), so the array sits opaquely in
/// this struct, and the trusted operations below carry its meaning.
#[verifier::external_body]
#[derive(Debug)]
pub struct Grid {
    cells: ndarray::Array2<char>,
}

/// The cells a grid holds, flattened in row-major order.
pub uninterp spec fn grid_cells(g: Grid) -> Seq<char>;

/// Whether a grid is a 3-by-3 array in standard row-major layout.
pub uninterp spec fn grid_is_square3(g: Grid) -> bool;

/// Relies on ndarray's `ArrayBase::from_elem`: builds a (3, 3) array in
/// standard row-major layout whose nine elements are all the given one.
#[verifier::external_body]
fn grid_new(fill: char) -> (g: Grid)
    ensures
        grid_is_square3(g),
        grid_cells(g) == Seq::new(9, |i: int| fill),
{
    Grid { cells: ndarray::Array2::from_elem((3, 3), fill) }
}

/// Relies on ndarray's `ArrayBase::get`: on a standard-layout (3, 3) array,
/// element (r, c) is cell 3*r + c of the row-major flattening.
#[verifier::external_body]
fn grid_get(g: &Grid, r: usize, c: usize) -> (ch: char)
    requires
        grid_is_square3(*g),
        r < 3,
        c < 3,
    ensures
        ch == grid_cells(*g)[3 * r + c],
{
    *g.cells.get((r, c)).unwrap()
}

/// Relies on ndarray's `ArrayBase::get_mut`: writing through it replaces
/// element (r, c), cell 3*r + c of the row-major flattening, and nothing else.
#[verifier::external_body]
fn grid_set(g: &mut Grid, r: usize, c: usize, ch: char)
    requires
        grid_is_square3(*old(g)),
        r < 3,
        c < 3,
    ensures
        grid_is_square3(*final(g)),
        grid_cells(*final(g)) == grid_cells(*old(g)).update(3 * r + c, ch),
{
    *g.cells.get_mut((r, c)).unwrap() = ch;
}

// ---------------------------------------------------------------------------
// Positions.
// ---------------------------------------------------------------------------

/// The standing of a position after a move: still open, drawn, or won by the
/// mover.
#[derive(Debug, PartialEq, Eq, Structural)]
pub enum IsGameOver {
    InPlay,
    Drawn,
    Win,
}

/// One board position: a 3-by-3 grid of mark characters.
#[derive(Debug)]
pub struct GameState {
    pub state: Grid,
}

/// The grid character that stands for an empty cell.
pub open spec fn empty_char() -> char {
    '-'
}

/// Cells of a fresh, all-empty position.
pub open spec fn empty_cells() -> Seq<char> {
    Seq::new(9, |i: int| empty_char())
}

/// All nine cells are occupied.
pub open spec fn spec_is_full(cells: Seq<char>) -> bool {
    forall|i: int| 0 <= i < 9 ==> cells[i] != empty_char()
}

/// Three given cells all hold the same character.
pub open spec fn line_is(cells: Seq<char>, a: int, b: int, c: int, ch: char) -> bool {
    cells[a] == ch && cells[b] == ch && cells[c] == ch
}

/// One of the eight lines (three rows, three columns, two diagonals) is
/// uniformly the given character.
pub open spec fn spec_line_match(cells: Seq<char>, ch: char) -> bool {
    ||| line_is(cells, 0, 1, 2, ch)
    ||| line_is(cells, 3, 4, 5, ch)
    ||| line_is(cells, 6, 7, 8, ch)
    ||| line_is(cells, 0, 3, 6, ch)
    ||| line_is(cells, 1, 4, 7, ch)
    ||| line_is(cells, 2, 5, 8, ch)
    ||| line_is(cells, 0, 4, 8, ch)
    ||| line_is(cells, 2, 4, 6, ch)
}

/// The standing of a position, judged for the mark that just moved: a win if
/// that mark owns a line, else a draw if the grid is full, else still open.
pub open spec fn spec_outcome(cells: Seq<char>, mark: Marks) -> IsGameOver {
    if spec_line_match(cells, mark.spec_char()) {
        IsGameOver::Win
    } else if spec_is_full(cells) {
        IsGameOver::Drawn
    } else {
        IsGameOver::InPlay
    }
}

/// The empty cells among the first `n`, as (row, column) pairs in row-major
/// order.
pub open spec fn empties_prefix(cells: Seq<char>, n: int) -> Seq<(usize, usize)>
    decreases n,
{
    if n <= 0 {
        Seq::empty()
    } else if cells[n - 1] == empty_char() {
        empties_prefix(cells, n - 1).push((((n - 1) / 3) as usize, ((n - 1) % 3) as usize))
    } else {
        empties_prefix(cells, n - 1)
    }
}

/// All empty cells of a position, as (row, column) pairs in row-major order.
pub open spec fn spec_available_moves(cells: Seq<char>) -> Seq<(usize, usize)> {
    empties_prefix(cells, 9)
}

/// How many of the nine cells are occupied.
pub open spec fn filled_count(cells: Seq<char>, n: int) -> int
    decreases n,
{
    if n <= 0 {
        0
    } else if cells[n - 1] == empty_char() {
        filled_count(cells, n - 1)
    } else {
        filled_count(cells, n - 1) + 1
    }
}

impl View for GameState {
    type V = Seq<char>;

    open spec fn view(&self) -> Seq<char> {
        grid_cells(self.state)
    }
}

impl GameState {
    /// The grid is a well-formed 3-by-3 array.
    pub open spec fn wf(&self) -> bool {
        grid_is_square3(self.state) && self@.len() == 9
    }

    pub fn new() -> (r: Self)
        ensures
            r.wf(),
            r@ == empty_cells(),
    {
        GameState { state: grid_new('-') }
    }

    /// A copy of this position with the same cells.
    pub fn duplicate(&self) -> (r: Self)
        requires
            self.wf(),
        ensures
            r.wf(),
            r@ == self@,
    {
        let mut g = grid_new('-');
        let mut row: usize = 0;
        while row < 3
            invariant
                self.wf(),
                grid_is_square3(g),
                grid_cells(g).len() == 9,
                row <= 3,
                forall|i: int| 0 <= i < 3 * row ==> grid_cells(g)[i] == self@[i],
            decreases 3 - row,
        {
            let mut col: usize = 0;
            while col < 3
                invariant
                    self.wf(),
                    grid_is_square3(g),
                    grid_cells(g).len() == 9,
                    row < 3,
                    col <= 3,
                    forall|i: int| 0 <= i < 3 * row + col ==> grid_cells(g)[i] == self@[i],
                decreases 3 - col,
            {
                let ch = grid_get(&self.state, row, col);
                grid_set(&mut g, row, col, ch);
                col = col + 1;
            }
            row = row + 1;
        }
        let r = GameState { state: g };
        assert(r@ =~= self@);
        r
    }

    /// Write a mark character into one cell.
    pub fn set_cell(&mut self, r: usize, c: usize, ch: char)
        requires
            old(self).wf(),
            r < 3,
            c < 3,
        ensures
            final(self).wf(),
            final(self)@ == old(self)@.update(3 * r + c, ch),
    {
        grid_set(&mut self.state, r, c, ch);
    }

    /// Read one cell.
    pub fn cell(&self, r: usize, c: usize) -> (ch: char)
        requires
            self.wf(),
            r < 3,
            c < 3,
        ensures
            ch == self@[3 * r + c],
    {
        grid_get(&self.state, r, c)
    }

    /// The flattened nine-character form of the position, the first part of a
    /// state key.
    pub fn to_state_key(&self) -> (r: String)
        requires
            self.wf(),
        ensures
            r@ == self@,
    {
        let mut v: Vec<char> = Vec::new();
        let mut row: usize = 0;
        while row < 3
            invariant
                self.wf(),
                row <= 3,
                v@.len() == 3 * row,
                forall|i: int| 0 <= i < 3 * row ==> v@[i] == self@[i],
            decreases 3 - row,
        {
            let mut col: usize = 0;
            while col < 3
                invariant
                    self.wf(),
                    row < 3,
                    col <= 3,
                    v@.len() == 3 * row + col,
                    forall|i: int| 0 <= i < 3 * row + col ==> v@[i] == self@[i],
                decreases 3 - col,
            {
                v.push(grid_get(&self.state, row, col));
                col = col + 1;
            }
            row = row + 1;
        }
        let s = crate::util::chars_to_string(&v);
        proof {
            assert(s@ =~= self@);
        }
        s
    }

    /// Every cell still holding the empty character, as (row, column) pairs in
    /// row-major order.
    pub fn available_moves(&self) -> (r: Vec<(usize, usize)>)
        requires
            self.wf(),
        ensures
            r@ == spec_available_moves(self@),
    {
        let mut v: Vec<(usize, usize)> = Vec::new();
        let mut row: usize = 0;
        while row < 3
            invariant
                self.wf(),
                row <= 3,
                v@ == empties_prefix(self@, 3 * row),
            decreases 3 - row,
        {
            let mut col: usize = 0;
            while col < 3
                invariant
                    self.wf(),
                    row < 3,
                    col <= 3,
                    v@ == empties_prefix(self@, 3 * row + col),
                decreases 3 - col,
            {
                let ch = grid_get(&self.state, row, col);
                proof {
                    assert((3 * row + col + 1 - 1) / 3 == row as int) by (nonlinear_arith)
                        requires row < 3 && col < 3;
                    assert((3 * row + col + 1 - 1) % 3 == col as int) by (nonlinear_arith)
                        requires row < 3 && col < 3;
                }
                if ch == '-' {
                    v.push((row, col));
                }
                col = col + 1;
            }
            row = row + 1;
        }
        v
    }

    /// True iff no cell is empty.
    pub fn is_full(&self) -> (r: bool)
        requires
            self.wf(),
        ensures
            r == spec_is_full(self@),
    {
        let mut row: usize = 0;
        while row < 3
            invariant
                self.wf(),
                row <= 3,
                forall|i: int| 0 <= i < 3 * row ==> self@[i] != empty_char(),
            decreases 3 - row,
        {
            let mut col: usize = 0;
            while col < 3
                invariant
                    self.wf(),
                    row < 3,
                    col <= 3,
                    forall|i: int| 0 <= i < 3 * row + col ==> self@[i] != empty_char(),
                decreases 3 - col,
            {
                if grid_get(&self.state, row, col) == '-' {
                    return false;
                }
                col = col + 1;
            }
            row = row + 1;
        }
        true
    }

    /// True iff one of the eight lines is uniformly the given character.
    pub fn line_match(&self, ch: char) -> (r: bool)
        requires
            self.wf(),
        ensures
            r == spec_line_match(self@, ch),
    {
        let c0 = grid_get(&self.state, 0, 0);
        let c1 = grid_get(&self.state, 0, 1);
        let c2 = grid_get(&self.state, 0, 2);
        let c3 = grid_get(&self.state, 1, 0);
        let c4 = grid_get(&self.state, 1, 1);
        let c5 = grid_get(&self.state, 1, 2);
        let c6 = grid_get(&self.state, 2, 0);
        let c7 = grid_get(&self.state, 2, 1);
        let c8 = grid_get(&self.state, 2, 2);
        (c0 == ch && c1 == ch && c2 == ch) || (c3 == ch && c4 == ch && c5 == ch) || (c6 == ch
            && c7 == ch && c8 == ch) || (c0 == ch && c3 == ch && c6 == ch) || (c1 == ch && c4 == ch
            && c7 == ch) || (c2 == ch && c5 == ch && c8 == ch) || (c0 == ch && c4 == ch && c8 == ch)
            || (c2 == ch && c4 == ch && c6 == ch)
    }

    /// The standing of this position, judged for the mark that just moved.
    pub fn is_game_over(&self, mark: &Marks) -> (r: IsGameOver)
        requires
            self.wf(),
        ensures
            r == spec_outcome(self@, *mark),
    {
        if self.line_match(mark.as_char()) {
            IsGameOver::Win
        } else if self.is_full() {
            IsGameOver::Drawn
        } else {
            IsGameOver::InPlay
        }
    }
}

// ---------------------------------------------------------------------------
// The rotating triple buffer of positions.
// ---------------------------------------------------------------------------

/// Three positions forming a rotating buffer: the position before the last
/// ply, the position a move is chosen from, and the position the chosen move
/// is written into.
#[derive(Debug)]
pub struct Board {
    pub previous_state: GameState,
    pub current_state: GameState,
    pub next_state: GameState,
}

impl Board {
    pub open spec fn wf(&self) -> bool {
        self.previous_state.wf() && self.current_state.wf() && self.next_state.wf()
    }

    pub fn new() -> (r: Self)
        ensures
            r.wf(),
            r.previous_state@ == empty_cells(),
            r.current_state@ == empty_cells(),
            r.next_state@ == empty_cells(),
    {
        Board {
            previous_state: GameState::new(),
            current_state: GameState::new(),
            next_state: GameState::new(),
        }
    }

    /// True iff the post-move position has no empty cell.
    pub fn is_full(&self) -> (r: bool)
        requires
            self.wf(),
        ensures
            r == spec_is_full(self.next_state@),
    {
        self.next_state.is_full()
    }

    /// The standing of the post-move position, judged for the mark that just
    /// moved. Only the post-move position can contain the mover's finished
    /// line, so the judgement always reads `next_state`.
    pub fn is_game_over(&self, mark: &Marks) -> (r: IsGameOver)
        requires
            self.wf(),
        ensures
            r == spec_outcome(self.next_state@, *mark),
    {
        self.next_state.is_game_over(mark)
    }
}

// ---------------------------------------------------------------------------
// Laws of the position model.
// ---------------------------------------------------------------------------

/// The list of available moves has no repeated entry, and holds exactly the
/// (row, column) pairs whose cell is empty.
pub proof fn lemma_available_moves_exact(cells: Seq<char>, n: int)
    requires
        0 <= n <= 9,
        cells.len() == 9,
    ensures
        forall|m: (usize, usize)|
            empties_prefix(cells, n).contains(m) <==> (m.0 < 3 && m.1 < 3 && 3 * m.0 + m.1 < n
                && cells[3 * m.0 + m.1] == empty_char()),
        forall|i: int, j: int|
            0 <= i < j < empties_prefix(cells, n).len() ==> empties_prefix(cells, n)[i]
                != empties_prefix(cells, n)[j],
    decreases n,
{
    if n > 0 {
        lemma_available_moves_exact(cells, n - 1);
        let prev = empties_prefix(cells, n - 1);
        let cur = empties_prefix(cells, n);
        assert forall|m: (usize, usize)|
            cur.contains(m) <==> (m.0 < 3 && m.1 < 3 && 3 * m.0 + m.1 < n && cells[3 * m.0 + m.1]
                == empty_char()) by {
            let p = (((n - 1) / 3) as usize, ((n - 1) % 3) as usize);
            assert(3 * ((n - 1) / 3) + (n - 1) % 3 == n - 1) by (nonlinear_arith)
                requires 0 < n <= 9;
            assert((n - 1) / 3 < 3 && (n - 1) % 3 < 3) by (nonlinear_arith)
                requires 0 < n <= 9;
            if cells[n - 1] == empty_char() {
                assert(cur == prev.push(p));
                assert(forall|i: int| 0 <= i < prev.len() ==> cur[i] == prev[i]);
                assert(cur[prev.len() as int] == p);
                if cur.contains(m) {
                    let i = choose|i: int| 0 <= i < cur.len() && cur[i] == m;
                    if i < prev.len() {
                        assert(prev.contains(m));
                    } else {
                        assert(m == p);
                        assert(3 * m.0 + m.1 == n - 1);
                    }
                }
                if m.0 < 3 && m.1 < 3 && 3 * m.0 + m.1 < n && cells[3 * m.0 + m.1]
                    == empty_char() {
                    if 3 * m.0 + m.1 == n - 1 {
                        assert(m.0 == (n - 1) / 3 && m.1 == (n - 1) % 3) by (nonlinear_arith)
                            requires 0 < n <= 9 && m.0 < 3 && m.1 < 3 && 3 * m.0 + m.1 == n - 1;
                        assert(cur[prev.len() as int] == m);
                        assert(cur.contains(m));
                    } else {
                        assert(prev.contains(m));
                        let i = choose|i: int| 0 <= i < prev.len() && prev[i] == m;
                        assert(cur[i] == m);
                        assert(cur.contains(m));
                    }
                }
            } else {
                assert(cur == prev);
                if m.0 < 3 && m.1 < 3 && 3 * m.0 + m.1 < n && cells[3 * m.0 + m.1]
                    == empty_char() {
                    assert(3 * m.0 + m.1 != n - 1);
                }
            }
        }
        assert forall|i: int, j: int| 0 <= i < j < cur.len() implies cur[i] != cur[j] by {
            if cells[n - 1] == empty_char() {
                let p = (((n - 1) / 3) as usize, ((n - 1) % 3) as usize);
                assert(3 * ((n - 1) / 3) + (n - 1) % 3 == n - 1) by (nonlinear_arith)
                    requires 0 < n <= 9;
                if j == cur.len() - 1 {
                    assert(cur[i] == prev[i]);
                    assert(prev.contains(prev[i]));
                    assert(3 * prev[i].0 + prev[i].1 < n - 1);
                }
            }
        }
    }
}

/// The count of available moves and the count of occupied cells partition the
/// nine cells: they always sum to nine.
pub proof fn lemma_moves_fill_partition(cells: Seq<char>, n: int)
    requires
        0 <= n <= 9,
        cells.len() == 9,
    ensures
        empties_prefix(cells, n).len() + filled_count(cells, n) == n,
        0 <= filled_count(cells, n),
    decreases n,
{
    if n > 0 {
        lemma_moves_fill_partition(cells, n - 1);
    }
}

/// The outcome judgement, case by case: a win exactly when the mover's mark
/// owns a line; a draw exactly when the grid is full and no such line exists;
/// otherwise the game is still open.
pub proof fn lemma_outcome_cases(cells: Seq<char>, mark: Marks)
    ensures
        (spec_outcome(cells, mark) == IsGameOver::Win) <==> spec_line_match(
            cells,
            mark.spec_char(),
        ),
        (spec_outcome(cells, mark) == IsGameOver::Drawn) <==> (!spec_line_match(
            cells,
            mark.spec_char(),
        ) && spec_is_full(cells)),
        (spec_outcome(cells, mark) == IsGameOver::InPlay) <==> (!spec_line_match(
            cells,
            mark.spec_char(),
        ) && !spec_is_full(cells)),
{
}

} // verus!
