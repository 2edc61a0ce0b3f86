//! A crossing game on a board of three by three cells, and its game-tree
//! search.
//!
//! Two players move in turn. The vertical player draws a vertical stroke in
//! an empty cell and the horizontal player a horizontal one; a move on a cell
//! that already holds a stroke completes a cross. Nobody may move on the cell
//! of the move before. The player who completes three crosses in a row, a
//! column or a diagonal has won.

use vstd::prelude::*;

verus! {

/// The two players.
#[derive(PartialEq, Eq, Clone, Copy, Structural)]
pub enum Players {
    VertPlayer,
    HorPlayer,
}

/// What a cell of the board holds.
#[derive(PartialEq, Eq, Clone, Copy, Structural)]
pub enum BoardValues {
    Empty,
    Vertical,
    Horizontal,
    Cross,
}

/// A position of the game: the board by rows, the player to move, and the
/// row and column of the last move (any cell off the board before the first).
pub struct GameState {
    pub board: [[BoardValues; 3]; 3],
    pub current_turn: Players,
    pub last_played_pos: (u8, u8),
}

/// The mathematical model of a `GameState`: the nine cells row by row.
pub struct Position {
    pub cells: Seq<BoardValues>,
    pub turn: Players,
    pub last: (int, int),
}

impl View for GameState {
    type V = Position;

    /// The cells row by row, the player to move and the cell of the last move.
    open spec fn view(&self) -> Position {
        Position {
            cells: Seq::new(9, |p: int| self.board@[p / 3]@[p % 3]),
            turn: self.current_turn,
            last: (self.last_played_pos.0 as int, self.last_played_pos.1 as int),
        }
    }
}

/// The cell in row `r` and column `c` holds a cross.
pub open spec fn crossed(cells: Seq<BoardValues>, r: int, c: int) -> bool {
    cells[3 * r + c] == BoardValues::Cross
}

/// Cell number `t` of line number `k`: lines 0 to 2 are the rows, 3 to 5 the
/// columns, 6 and 7 the diagonals.
pub open spec fn line_cell(k: int, t: int) -> (int, int) {
    if k < 3 {
        (k, t)
    } else if k < 6 {
        (t, k - 3)
    } else if k == 6 {
        (t, t)
    } else {
        (t, 2 - t)
    }
}

/// All three cells of line number `k` hold a cross.
pub open spec fn line_crossed(cells: Seq<BoardValues>, k: int) -> bool {
    &&& crossed(cells, line_cell(k, 0).0, line_cell(k, 0).1)
    &&& crossed(cells, line_cell(k, 1).0, line_cell(k, 1).1)
    &&& crossed(cells, line_cell(k, 2).0, line_cell(k, 2).1)
}

/// Some line of the board is made of crosses.
pub open spec fn has_won(cells: Seq<BoardValues>) -> bool {
    exists|k: int| 0 <= k < 8 && #[trigger] line_crossed(cells, k)
}

/// How many more moves a cell can take.
pub open spec fn strokes_left(v: BoardValues) -> nat {
    match v {
        BoardValues::Empty => 2,
        BoardValues::Vertical => 1,
        BoardValues::Horizontal => 1,
        BoardValues::Cross => 0,
    }
}

/// How many more moves the cells can take together.
pub open spec fn moves_left(cells: Seq<BoardValues>) -> nat
    decreases cells.len(),
{
    if cells.len() == 0 {
        0
    } else {
        moves_left(cells.drop_last()) + strokes_left(cells.last())
    }
}

/// The other player.
pub open spec fn opponent(turn: Players) -> Players {
    if turn == Players::VertPlayer {
        Players::HorPlayer
    } else {
        Players::VertPlayer
    }
}

/// What a cell holds after a move of `turn` on it.
pub open spec fn after_move(v: BoardValues, turn: Players) -> BoardValues {
    if v == BoardValues::Empty {
        if turn == Players::VertPlayer {
            BoardValues::Vertical
        } else {
            BoardValues::Horizontal
        }
    } else {
        BoardValues::Cross
    }
}

/// Cell number `p`, counted row by row from 0, may be moved on: it holds no
/// cross and is not the cell of the last move.
pub open spec fn can_play(pos: Position, p: int) -> bool {
    &&& 0 <= p < 9
    &&& p < pos.cells.len()
    &&& pos.cells[p] != BoardValues::Cross
    &&& !(pos.last.0 == p / 3 && pos.last.1 == p % 3)
}

/// The position after a move on cell number `p`.
pub open spec fn play(pos: Position, p: int) -> Position {
    Position {
        cells: pos.cells.update(p, after_move(pos.cells[p], pos.turn)),
        turn: opponent(pos.turn),
        last: (p / 3, p % 3),
    }
}

/// The positions after each legal move on one of the first `p` cells, in the
/// order of the cells.
pub open spec fn moves_upto(pos: Position, p: int) -> Seq<Position>
    decreases p,
{
    if p <= 0 {
        Seq::empty()
    } else if can_play(pos, p - 1) {
        moves_upto(pos, p - 1).push(play(pos, p - 1))
    } else {
        moves_upto(pos, p - 1)
    }
}

/// The positions after each legal move, in the order of the cells.
pub open spec fn moves(pos: Position) -> Seq<Position> {
    moves_upto(pos, 9)
}

/// Replacing one cell changes the number of moves left by what that cell
/// can take less or more.
pub proof fn lemma_moves_left_update(cells: Seq<BoardValues>, p: int, v: BoardValues)
    requires
        0 <= p < cells.len(),
    ensures
        moves_left(cells.update(p, v)) + strokes_left(cells[p]) == moves_left(cells) + strokes_left(v),
    decreases cells.len(),
{
    let changed = cells.update(p, v);
    if p == cells.len() - 1 {
        assert(changed.drop_last() =~= cells.drop_last());
    } else {
        assert(changed.drop_last() =~= cells.drop_last().update(p, v));
        lemma_moves_left_update(cells.drop_last(), p, v);
    }
}

/// Every legal move uses up one of the moves that are left, and there are
/// at most as many legal moves as cells looked at.
pub proof fn lemma_moves_upto(pos: Position, p: int)
    requires
        0 <= p <= 9,
    ensures
        moves_upto(pos, p).len() <= p,
        forall|k: int|
            0 <= k < moves_upto(pos, p).len() ==> moves_left((#[trigger] moves_upto(pos, p)[k]).cells) + 1
                == moves_left(pos.cells),
    decreases p,
{
    if p > 0 {
        lemma_moves_upto(pos, p - 1);
        if can_play(pos, p - 1) {
            lemma_moves_left_update(pos.cells, p - 1, after_move(pos.cells[p - 1], pos.turn));
        }
    }
}

/// A legal move among the first `p` cells gives the list of moves an entry.
pub proof fn lemma_moves_upto_nonempty(pos: Position, p: int, q: int)
    requires
        0 <= q < p,
        can_play(pos, q),
    ensures
        moves_upto(pos, p).len() >= 1,
    decreases p,
{
    if q < p - 1 {
        lemma_moves_upto_nonempty(pos, p - 1, q);
    }
}

/// On a board on which nobody has won yet, the player to move has a move:
/// every row holds a cell without a cross, and the last move bars one cell only.
pub proof fn lemma_open_position_has_move(pos: Position)
    requires
        pos.cells.len() == 9,
        !has_won(pos.cells),
    ensures
        moves(pos).len() >= 1,
{
    assert(!line_crossed(pos.cells, 0));
    assert(!line_crossed(pos.cells, 1));
    let a = if pos.cells[0] != BoardValues::Cross {
        0int
    } else if pos.cells[1] != BoardValues::Cross {
        1int
    } else {
        2int
    };
    let b = if pos.cells[3] != BoardValues::Cross {
        3int
    } else if pos.cells[4] != BoardValues::Cross {
        4int
    } else {
        5int
    };
    if can_play(pos, a) {
        lemma_moves_upto_nonempty(pos, 9, a);
    } else {
        lemma_moves_upto_nonempty(pos, 9, b);
    }
}

/// The value of a position that is won: the player to move has lost, which
/// counts 1 where the vertical player made the last move and -1 where the
/// horizontal player did.
pub open spec fn win_value(turn: Players) -> int {
    if turn == Players::VertPlayer {
        -1
    } else {
        1
    }
}

/// The larger of two values.
pub open spec fn larger(a: int, b: int) -> int {
    if a >= b {
        a
    } else {
        b
    }
}

/// The smaller of two values.
pub open spec fn lesser(a: int, b: int) -> int {
    if a <= b {
        a
    } else {
        b
    }
}

/// The minimax value of a position: 1 where the vertical player can force a
/// win, -1 where the horizontal player can. On a position that is not won
/// the vertical player takes the move of the largest value and the
/// horizontal player the move of the smallest.
pub open spec fn minimax_value(pos: Position) -> int
    decreases moves_left(pos.cells), 10int,
{
    if has_won(pos.cells) {
        win_value(pos.turn)
    } else {
        proof {
            lemma_moves_upto(pos, 9);
        }
        if pos.turn == Players::VertPlayer {
            best_for_vert(pos, moves(pos).len() as int)
        } else {
            best_for_hor(pos, moves(pos).len() as int)
        }
    }
}

/// The largest value among the first `k` moves; -1 where there is none.
pub open spec fn best_for_vert(pos: Position, k: int) -> int
    decreases moves_left(pos.cells), k,
{
    if k <= 0 || k > moves(pos).len() {
        -1
    } else {
        proof {
            lemma_moves_upto(pos, 9);
        }
        larger(best_for_vert(pos, k - 1), minimax_value(moves(pos)[k - 1]))
    }
}

/// The smallest value among the first `k` moves; 1 where there is none.
pub open spec fn best_for_hor(pos: Position, k: int) -> int
    decreases moves_left(pos.cells), k,
{
    if k <= 0 || k > moves(pos).len() {
        1
    } else {
        proof {
            lemma_moves_upto(pos, 9);
        }
        lesser(best_for_hor(pos, k - 1), minimax_value(moves(pos)[k - 1]))
    }
}

/// What a search inside the window from `alfa` to `beta` tells of the exact
/// value: a result inside the window is exact, a result at or below `alfa`
/// is an upper bound and a result at or above `beta` a lower bound.
pub open spec fn bounds_value(value: int, exact: int, alfa: int, beta: int) -> bool {
    &&& alfa < value < beta ==> value == exact
    &&& value <= alfa ==> exact <= value
    &&& value >= beta ==> exact >= value
}

/// Every position is worth 1 or -1.
pub proof fn lemma_value_range(pos: Position)
    ensures
        minimax_value(pos) == 1 || minimax_value(pos) == -1,
    decreases moves_left(pos.cells), 10int,
{
    if !has_won(pos.cells) {
        lemma_moves_upto(pos, 9);
        if pos.turn == Players::VertPlayer {
            lemma_best_for_vert_range(pos, moves(pos).len() as int);
        } else {
            lemma_best_for_hor_range(pos, moves(pos).len() as int);
        }
    }
}

/// The best of the first `k` moves is worth 1 or -1.
pub proof fn lemma_best_for_vert_range(pos: Position, k: int)
    ensures
        best_for_vert(pos, k) == 1 || best_for_vert(pos, k) == -1,
    decreases moves_left(pos.cells), k,
{
    if 0 < k <= moves(pos).len() {
        lemma_moves_upto(pos, 9);
        lemma_best_for_vert_range(pos, k - 1);
        lemma_value_range(moves(pos)[k - 1]);
    }
}

/// The best of the first `k` moves is worth 1 or -1.
pub proof fn lemma_best_for_hor_range(pos: Position, k: int)
    ensures
        best_for_hor(pos, k) == 1 || best_for_hor(pos, k) == -1,
    decreases moves_left(pos.cells), k,
{
    if 0 < k <= moves(pos).len() {
        lemma_moves_upto(pos, 9);
        lemma_best_for_hor_range(pos, k - 1);
        lemma_value_range(moves(pos)[k - 1]);
    }
}

/// The largest value among the first `k` moves is at least the value of each of them.
pub proof fn lemma_best_for_vert_covers(pos: Position, k: int, j: int)
    requires
        0 <= j < k <= moves(pos).len(),
    ensures
        best_for_vert(pos, k) >= minimax_value(moves(pos)[j]),
    decreases k,
{
    if j < k - 1 {
        lemma_best_for_vert_covers(pos, k - 1, j);
    }
}

/// The smallest value among the first `k` moves is at most the value of each of them.
pub proof fn lemma_best_for_hor_covers(pos: Position, k: int, j: int)
    requires
        0 <= j < k <= moves(pos).len(),
    ensures
        best_for_hor(pos, k) <= minimax_value(moves(pos)[j]),
    decreases k,
{
    if j < k - 1 {
        lemma_best_for_hor_covers(pos, k - 1, j);
    }
}

/// A bound above the value of each of the first `k` moves is above the largest of them.
pub proof fn lemma_best_for_vert_below(pos: Position, k: int, x: int)
    requires
        1 <= k <= moves(pos).len(),
        forall|j: int| 0 <= j < k ==> minimax_value(#[trigger] moves(pos)[j]) <= x,
    ensures
        best_for_vert(pos, k) <= x,
    decreases k,
{
    lemma_value_range(moves(pos)[k - 1]);
    if k > 1 {
        lemma_best_for_vert_below(pos, k - 1, x);
    } else {
        assert(best_for_vert(pos, 0) == -1);
    }
}

/// A bound below the value of each of the first `k` moves is below the smallest of them.
pub proof fn lemma_best_for_hor_above(pos: Position, k: int, x: int)
    requires
        1 <= k <= moves(pos).len(),
        forall|j: int| 0 <= j < k ==> minimax_value(#[trigger] moves(pos)[j]) >= x,
    ensures
        best_for_hor(pos, k) >= x,
    decreases k,
{
    lemma_value_range(moves(pos)[k - 1]);
    if k > 1 {
        lemma_best_for_hor_above(pos, k - 1, x);
    } else {
        assert(best_for_hor(pos, 0) == 1);
    }
}

impl GameState {
    /// Tells whether some row, column or diagonal is made of crosses.
    pub fn is_winning_pos(&self) -> (won: bool)
        ensures
            won == has_won(self@.cells),
    {
        let b = &self.board;
        let c = BoardValues::Cross;
        let won: bool = (b[0][0] == c && b[0][1] == c && b[0][2] == c) || (b[1][0] == c && b[1][1]
            == c && b[1][2] == c) || (b[2][0] == c && b[2][1] == c && b[2][2] == c) || (b[0][0] == c
            && b[1][0] == c && b[2][0] == c) || (b[0][1] == c && b[1][1] == c && b[2][1] == c) || (
        b[0][2] == c && b[1][2] == c && b[2][2] == c) || (b[0][0] == c && b[1][1] == c && b[2][2]
            == c) || (b[0][2] == c && b[1][1] == c && b[2][0] == c);
        proof {
            let cells = self@.cells;
            assert(forall|r: int, col: int|
                0 <= r < 3 && 0 <= col < 3 ==> #[trigger] crossed(cells, r, col) == (self.board@[r]@[col]
                    == c));
            assert(line_crossed(cells, 0) == (b[0][0] == c && b[0][1] == c && b[0][2] == c));
            assert(line_crossed(cells, 1) == (b[1][0] == c && b[1][1] == c && b[1][2] == c));
            assert(line_crossed(cells, 2) == (b[2][0] == c && b[2][1] == c && b[2][2] == c));
            assert(line_crossed(cells, 3) == (b[0][0] == c && b[1][0] == c && b[2][0] == c));
            assert(line_crossed(cells, 4) == (b[0][1] == c && b[1][1] == c && b[2][1] == c));
            assert(line_crossed(cells, 5) == (b[0][2] == c && b[1][2] == c && b[2][2] == c));
            assert(line_crossed(cells, 6) == (b[0][0] == c && b[1][1] == c && b[2][2] == c));
            assert(line_crossed(cells, 7) == (b[0][2] == c && b[1][1] == c && b[2][0] == c));
        }
        won
    }

    /// The positions that one move leads to, in the order of the cells row by row.
    pub fn successor_states(&self) -> (next: Vec<GameState>)
        ensures
            next@.len() == moves(self@).len(),
            forall|k: int| 0 <= k < next@.len() ==> (#[trigger] next@[k])@ == moves(self@)[k],
    {
        let mut accum: Vec<GameState> = Vec::new();
        let turn = self.current_turn;
        let mut row: usize = 0;
        while row < 3
            invariant
                0 <= row <= 3,
                turn == self.current_turn,
                accum@.len() == moves_upto(self@, 3 * row).len(),
                forall|k: int|
                    0 <= k < accum@.len() ==> (#[trigger] accum@[k])@ == moves_upto(self@, 3 * row)[k],
            decreases 3 - row,
        {
            let mut col: usize = 0;
            while col < 3
                invariant
                    0 <= row < 3,
                    0 <= col <= 3,
                    turn == self.current_turn,
                    accum@.len() == moves_upto(self@, 3 * row + col).len(),
                    forall|k: int|
                        0 <= k < accum@.len() ==> (#[trigger] accum@[k])@ == moves_upto(
                            self@,
                            3 * row + col,
                        )[k],
                decreases 3 - col,
            {
                let elem = self.board[row][col];
                let ghost p = 3 * row + col;
                if elem != BoardValues::Cross && !(row as u8 == self.last_played_pos.0 && col as u8
                    == self.last_played_pos.1) {
                    let mark = match elem {
                        BoardValues::Empty => if turn == Players::VertPlayer {
                            BoardValues::Vertical
                        } else {
                            BoardValues::Horizontal
                        },
                        _ => BoardValues::Cross,
                    };
                    let mut line: [BoardValues; 3] = self.board[row];
                    line[col] = mark;
                    let mut board: [[BoardValues; 3]; 3] = self.board;
                    board[row] = line;
                    let new_game = GameState {
                        board: board,
                        current_turn: if turn == Players::VertPlayer {
                            Players::HorPlayer
                        } else {
                            Players::VertPlayer
                        },
                        last_played_pos: (row as u8, col as u8),
                    };
                    proof {
                        assert(new_game@.cells =~= play(self@, p).cells);
                    }
                    accum.push(new_game);
                }
                col = col + 1;
            }
            row = row + 1;
        }
        accum
    }
}

/// Searches the game tree below `game_state` with alpha-beta pruning inside
/// the window from `alfa` to `beta`. With a window that holds -1 and 1 the
/// result is the minimax value of the position.
pub fn minimax(game_state: &GameState, alfa: i32, beta: i32) -> (value: i32)
    ensures
        has_won(game_state@.cells) ==> value == win_value(game_state@.turn),
        alfa < beta ==> bounds_value(
            value as int,
            minimax_value(game_state@),
            alfa as int,
            beta as int,
        ),
        alfa < -1 && 1 < beta ==> value == minimax_value(game_state@),
        !has_won(game_state@.cells) && game_state@.turn == Players::VertPlayer ==> value >= alfa,
        !has_won(game_state@.cells) && game_state@.turn == Players::HorPlayer ==> value <= beta,
    decreases moves_left(game_state@.cells),
{
    if game_state.is_winning_pos() {
        if game_state.current_turn == Players::VertPlayer {
            return -1;
        } else {
            return 1;
        }
    }
    let actions = game_state.successor_states();
    let ghost pos = game_state@;
    proof {
        lemma_moves_upto(pos, 9);
        lemma_open_position_has_move(pos);
        lemma_value_range(pos);
    }
    let mut k: usize = 0;
    match game_state.current_turn {
        Players::VertPlayer => {
            let mut new_alpha: i32 = alfa;
            while k < actions.len()
                invariant
                    pos == game_state@,
                    !has_won(pos.cells),
                    pos.turn == Players::VertPlayer,
                    0 <= k <= actions@.len(),
                    actions@.len() == moves(pos).len(),
                    forall|i: int| 0 <= i < actions@.len() ==> (#[trigger] actions@[i])@ == moves(pos)[i],
                    forall|i: int|
                        0 <= i < moves(pos).len() ==> moves_left((#[trigger] moves(pos)[i]).cells) + 1
                            == moves_left(pos.cells),
                    minimax_value(pos) == 1 || minimax_value(pos) == -1,
                    alfa <= new_alpha,
                    alfa < beta ==> new_alpha < beta,
                    alfa < beta ==> forall|i: int|
                        0 <= i < k ==> minimax_value(#[trigger] moves(pos)[i]) <= new_alpha,
                    alfa < beta && new_alpha > alfa ==> new_alpha == best_for_vert(pos, k as int),
                decreases actions@.len() - k,
            {
                let value: i32 = minimax(&actions[k], new_alpha, beta);
                proof {
                    lemma_value_range(moves(pos)[k as int]);
                    lemma_best_for_vert_covers(pos, moves(pos).len() as int, k as int);
                    if k >= 1 && alfa < beta {
                        lemma_best_for_vert_below(pos, k as int, new_alpha as int);
                    }
                }
                new_alpha = if new_alpha >= value {
                    new_alpha
                } else {
                    value
                };
                if new_alpha >= beta {
                    return new_alpha;
                }
                k = k + 1;
            }
            proof {
                if alfa < beta && new_alpha == alfa {
                    lemma_best_for_vert_below(pos, k as int, alfa as int);
                }
            }
            new_alpha
        },
        Players::HorPlayer => {
            let mut new_beta: i32 = beta;
            while k < actions.len()
                invariant
                    pos == game_state@,
                    !has_won(pos.cells),
                    pos.turn == Players::HorPlayer,
                    0 <= k <= actions@.len(),
                    actions@.len() == moves(pos).len(),
                    forall|i: int| 0 <= i < actions@.len() ==> (#[trigger] actions@[i])@ == moves(pos)[i],
                    forall|i: int|
                        0 <= i < moves(pos).len() ==> moves_left((#[trigger] moves(pos)[i]).cells) + 1
                            == moves_left(pos.cells),
                    minimax_value(pos) == 1 || minimax_value(pos) == -1,
                    new_beta <= beta,
                    alfa < beta ==> alfa < new_beta,
                    alfa < beta ==> forall|i: int|
                        0 <= i < k ==> minimax_value(#[trigger] moves(pos)[i]) >= new_beta,
                    alfa < beta && new_beta < beta ==> new_beta == best_for_hor(pos, k as int),
                decreases actions@.len() - k,
            {
                let value: i32 = minimax(&actions[k], alfa, new_beta);
                proof {
                    lemma_value_range(moves(pos)[k as int]);
                    lemma_best_for_hor_covers(pos, moves(pos).len() as int, k as int);
                    if k >= 1 && alfa < beta {
                        lemma_best_for_hor_above(pos, k as int, new_beta as int);
                    }
                }
                new_beta = if new_beta <= value {
                    new_beta
                } else {
                    value
                };
                if new_beta <= alfa {
                    return new_beta;
                }
                k = k + 1;
            }
            proof {
                if alfa < beta && new_beta == beta {
                    lemma_best_for_hor_above(pos, k as int, beta as int);
                }
            }
            new_beta
        },
    }
}

} // verus!
