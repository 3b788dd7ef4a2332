//! The game-state machine: board, turn alternation, move legality,
//! win and draw detection, undo, and reset.

use vstd::prelude::*;

verus! {

/// Side length of the square board.
pub const BOARD_SIZE: usize = 15;

/// Number of cells on the board.
pub const CELL_COUNT: usize = 225;

/// Number of same-colored stones in one unbroken line needed to win.
pub const WIN_LENGTH: usize = 5;

/// One of the two stone colors; Black always moves first.
#[derive(Clone, Copy, Debug, PartialEq, Eq, Structural)]
pub enum Player {
    Black,
    White,
}

/// Whether the game is still accepting moves, and if not, how it ended.
#[derive(Clone, Copy, Debug, PartialEq, Eq, Structural)]
pub enum GameStatus {
    Ongoing,
    WonBy(Player),
    Draw,
}

/// Why a move attempt was rejected.
#[derive(Clone, Copy, Debug, PartialEq, Eq, Structural)]
pub enum InvalidMove {
    OutOfBounds,
    CellOccupied,
    GameOver,
}

/// Result of a move attempt: either the move was applied, carrying the
/// status the game reached, or it was rejected with a reason.
#[derive(Clone, Copy, Debug, PartialEq, Eq, Structural)]
pub enum MoveOutcome {
    Applied(GameStatus),
    Rejected(InvalidMove),
}

/// One played move: who placed a stone and where. The ordered sequence of
/// these records is the authoritative log of the game; the board is the
/// cache obtained by replaying it.
#[derive(Clone, Copy, Debug, PartialEq, Eq, Structural)]
pub struct HistoryEntry {
    pub player: Player,
    pub row: usize,
    pub col: usize,
}

/// A full game: current board, player to move, move history, and status.
///
/// The board is stored row-major as a flat vector of `CELL_COUNT` cells;
/// cell `(r, c)` lives at index `r * BOARD_SIZE + c`.
pub struct GomokuApp {
    pub board: Vec<Option<Player>>,
    pub current_player: Player,
    pub history: Vec<HistoryEntry>,
    pub status: GameStatus,
}

/// The color that moves on turn `k` (counting from zero): Black on even
/// turns, White on odd ones.
pub open spec fn player_of_turn(k: int) -> Player {
    if k % 2 == 0 {
        Player::Black
    } else {
        Player::White
    }
}

/// The opponent of `p`.
pub open spec fn other_player(p: Player) -> Player {
    match p {
        Player::Black => Player::White,
        Player::White => Player::Black,
    }
}

/// Whether `(r, c)` lies on the board.
pub open spec fn on_board(r: int, c: int) -> bool {
    0 <= r < BOARD_SIZE && 0 <= c < BOARD_SIZE
}

/// Flat index of cell `(r, c)` in the row-major board vector.
pub open spec fn cell_index(r: int, c: int) -> int {
    r * BOARD_SIZE + c
}

/// The board with no stones placed.
pub open spec fn empty_board() -> Seq<Option<Player>> {
    Seq::new(CELL_COUNT as nat, |i: int| None::<Player>)
}

/// The board obtained by replaying the moves of `h`, in order, onto an
/// empty board.
pub open spec fn replay(h: Seq<HistoryEntry>) -> Seq<Option<Player>>
    decreases h.len(),
{
    if h.len() == 0 {
        empty_board()
    } else {
        let e = h.last();
        replay(h.drop_last()).update(cell_index(e.row as int, e.col as int), Some(e.player))
    }
}

/// Move `k` of `h` is legal at its point in the game: it lies on the
/// board, it is made by the color whose turn it is, and its target cell
/// is still empty when it is made.
pub open spec fn entry_ok(h: Seq<HistoryEntry>, k: int) -> bool {
    let e = h[k];
    &&& on_board(e.row as int, e.col as int)
    &&& e.player == player_of_turn(k)
    &&& replay(h.take(k))[cell_index(e.row as int, e.col as int)] is None
}

/// Every move of `h` is legal at its point in the game.
pub open spec fn valid_history(h: Seq<HistoryEntry>) -> bool {
    forall|k: int| 0 <= k < h.len() ==> #[trigger] entry_ok(h, k)
}

/// Whether `(dr, dc)` is a unit step along one of the eight board
/// directions.
pub open spec fn is_step(dr: int, dc: int) -> bool {
    &&& -1 <= dr <= 1
    &&& -1 <= dc <= 1
    &&& !(dr == 0 && dc == 0)
}

/// An upper bound on how many steps of `(dr, dc)` can be taken from
/// `(r, c)` before leaving the board; used as a termination measure.
pub open spec fn exit_distance(r: int, c: int, dr: int, dc: int) -> int {
    if dr == 1 {
        BOARD_SIZE - r
    } else if dr == -1 {
        r + 1
    } else if dc == 1 {
        BOARD_SIZE - c
    } else {
        c + 1
    }
}

/// Number of consecutive cells holding a stone of `p`, starting at
/// `(r, c)` and stepping by `(dr, dc)`; stops at the board edge or at the
/// first cell that is empty or holds the other color.
pub open spec fn run_length(
    b: Seq<Option<Player>>,
    r: int,
    c: int,
    dr: int,
    dc: int,
    p: Player,
) -> nat
    decreases exit_distance(r, c, dr, dc)
        when is_step(dr, dc)
{
    if on_board(r, c) && b[cell_index(r, c)] == Some(p) {
        run_length(b, r + dr, c + dc, dr, dc, p) + 1
    } else {
        0
    }
}

/// Length of the longest unbroken line of `p`-stones through `(r, c)`
/// along the axis of `(dr, dc)`: the stone at `(r, c)` itself plus the
/// runs extending to either side.
pub open spec fn line_length(
    b: Seq<Option<Player>>,
    r: int,
    c: int,
    dr: int,
    dc: int,
    p: Player,
) -> int {
    1 + run_length(b, r + dr, c + dc, dr, dc, p) as int + run_length(
        b,
        r - dr,
        c - dc,
        -dr,
        -dc,
        p,
    ) as int
}

/// A stone of `p` placed at `(r, c)` on board `b` completes a line of at
/// least `WIN_LENGTH` along one of the four axes.
pub open spec fn wins_at(b: Seq<Option<Player>>, r: int, c: int, p: Player) -> bool {
    ||| line_length(b, r, c, 1, 0, p) >= WIN_LENGTH
    ||| line_length(b, r, c, 0, 1, p) >= WIN_LENGTH
    ||| line_length(b, r, c, 1, 1, p) >= WIN_LENGTH
    ||| line_length(b, r, c, 1, -1, p) >= WIN_LENGTH
}

/// The status reached immediately after the last move of `h` was played
/// on the board `b` it produced: a win if that move completed a line,
/// else a draw if it filled the board, else the game goes on.
pub open spec fn status_after(b: Seq<Option<Player>>, h: Seq<HistoryEntry>) -> GameStatus {
    if h.len() == 0 {
        GameStatus::Ongoing
    } else {
        let e = h.last();
        if wins_at(b, e.row as int, e.col as int, e.player) {
            GameStatus::WonBy(e.player)
        } else if h.len() == CELL_COUNT {
            GameStatus::Draw
        } else {
            GameStatus::Ongoing
        }
    }
}

/// Well-formedness of a session given as its four parts. This is the
/// invariant every reachable session satisfies:
/// - the board has exactly `CELL_COUNT` cells and equals the replay of
///   the history, each move of which is legal at its point in the game;
/// - no move before the last one ended the game (play would have stopped
///   there), and the status is exactly what the last move produced;
/// - the player to move continues the alternation while the game is
///   ongoing, and stays the last mover once it has ended.
pub open spec fn wf_parts(
    b: Seq<Option<Player>>,
    cp: Player,
    h: Seq<HistoryEntry>,
    st: GameStatus,
) -> bool {
    &&& b.len() == CELL_COUNT
    &&& h.len() <= CELL_COUNT
    &&& valid_history(h)
    &&& b == replay(h)
    &&& st == status_after(b, h)
    &&& forall|k: int|
        0 <= k < h.len() - 1 ==> !(#[trigger] wins_at(
            replay(h.take(k + 1)),
            h[k].row as int,
            h[k].col as int,
            h[k].player,
        ))
    &&& cp == match st {
        GameStatus::Ongoing => player_of_turn(h.len() as int),
        GameStatus::WonBy(p) => p,
        GameStatus::Draw => player_of_turn(h.len() - 1),
    }
}

/// A move at `(row, col)` would be accepted: the game is ongoing, the
/// cell exists, and it is empty.
pub open spec fn move_allowed(s: GomokuApp, row: int, col: int) -> bool {
    &&& s.status is Ongoing
    &&& on_board(row, col)
    &&& s.board@[cell_index(row, col)] is None
}

/// How an accepted move at `(row, col)` takes `pre` to `post`: the move
/// is logged, the mover's stone is placed, the status becomes a win if
/// the stone completed a line, else a draw if it filled the board, else
/// the game goes on; the turn passes to the opponent only while the game
/// goes on.
pub open spec fn move_rel(pre: GomokuApp, post: GomokuApp, row: int, col: int) -> bool {
    let e = HistoryEntry { player: pre.current_player, row: row as usize, col: col as usize };
    let b2 = pre.board@.update(cell_index(row, col), Some(pre.current_player));
    &&& post.board@ == b2
    &&& post.history@ == pre.history@.push(e)
    &&& post.status == (if wins_at(b2, row, col, pre.current_player) {
        GameStatus::WonBy(pre.current_player)
    } else if pre.history@.len() + 1 == CELL_COUNT {
        GameStatus::Draw
    } else {
        GameStatus::Ongoing
    })
    &&& post.current_player == (if post.status is Ongoing {
        other_player(pre.current_player)
    } else {
        pre.current_player
    })
}

/// How an undo of the most recent move takes `pre` to `post`: the last
/// log record is dropped, its stone is lifted off the board, the turn
/// returns to whoever was about to move, and play is reopened.
pub open spec fn undo_rel(pre: GomokuApp, post: GomokuApp) -> bool {
    let e = pre.history@.last();
    &&& post.history@ == pre.history@.drop_last()
    &&& post.board@ == pre.board@.update(cell_index(e.row as int, e.col as int), None::<Player>)
    &&& post.current_player == e.player
    &&& post.status is Ongoing
}

/// The two sessions hold the same game state.
pub open spec fn state_eq(a: GomokuApp, b: GomokuApp) -> bool {
    &&& a.board@ == b.board@
    &&& a.current_player == b.current_player
    &&& a.history@ == b.history@
    &&& a.status == b.status
}

impl GomokuApp {
    /// The session invariant; see `wf_parts`.
    pub open spec fn wf(self) -> bool {
        wf_parts(self.board@, self.current_player, self.history@, self.status)
    }

    /// A fresh game: empty board, Black to move, no history, ongoing.
    pub fn new() -> (s: GomokuApp)
        ensures
            s.wf(),
            s.board@ == empty_board(),
            s.current_player == Player::Black,
            s.history@.len() == 0,
            s.status == GameStatus::Ongoing,
    {
        let s = GomokuApp {
            board: new_empty_board(),
            current_player: Player::Black,
            history: Vec::new(),
            status: GameStatus::Ongoing,
        };
        proof {
            lemma_empty_session_wf(s.board@, s.history@);
        }
        s
    }

    /// Clears the game back to the fresh state: empty board, Black to
    /// move, no history, ongoing. Unconditional; succeeds from any prior
    /// state, including terminal ones.
    pub fn reset_game(&mut self)
        ensures
            final(self).wf(),
            final(self).board@ == empty_board(),
            final(self).current_player == Player::Black,
            final(self).history@.len() == 0,
            final(self).status == GameStatus::Ongoing,
    {
        self.board = new_empty_board();
        self.current_player = Player::Black;
        self.history.clear();
        self.status = GameStatus::Ongoing;
        proof {
            lemma_empty_session_wf(self.board@, self.history@);
        }
    }
}

impl Default for GomokuApp {
    /// Same as `GomokuApp::new`.
    fn default() -> (s: Self)
        ensures
            s.wf(),
            s.board@ == empty_board(),
            s.current_player == Player::Black,
            s.history@.len() == 0,
            s.status == GameStatus::Ongoing,
    {
        GomokuApp::new()
    }
}

/// A board vector of `CELL_COUNT` empty cells.
pub(crate) fn new_empty_board() -> (v: Vec<Option<Player>>)
    ensures
        v@ == empty_board(),
{
    let mut v: Vec<Option<Player>> = Vec::new();
    let mut i: usize = 0;
    while i < CELL_COUNT
        invariant
            i <= CELL_COUNT,
            v@.len() == i,
            forall|j: int| 0 <= j < i ==> v@[j] is None,
        decreases CELL_COUNT - i,
    {
        v.push(None);
        i = i + 1;
    }
    proof {
        assert(v@ =~= empty_board());
    }
    v
}

/// An empty-board, empty-history session is well-formed.
proof fn lemma_empty_session_wf(b: Seq<Option<Player>>, h: Seq<HistoryEntry>)
    requires
        b == empty_board(),
        h.len() == 0,
    ensures
        wf_parts(b, Player::Black, h, GameStatus::Ongoing),
{
    assert(replay(h) == empty_board());
}

/// Whether `(x, y)` is on the board and holds a stone of `p`.
fn stone_matches(board: &Vec<Option<Player>>, x: isize, y: isize, p: Player) -> (r: bool)
    requires
        board@.len() == CELL_COUNT,
    ensures
        r == (on_board(x as int, y as int) && board@[cell_index(x as int, y as int)] == Some(p)),
{
    if x >= 0 && x < 15 && y >= 0 && y < 15 {
        let idx: usize = (x as usize) * BOARD_SIZE + (y as usize);
        match board[idx] {
            Some(q) => q == p,
            None => false,
        }
    } else {
        false
    }
}

/// Counts the consecutive stones of `p` on `board` starting one step of
/// `(dx, dy)` away from `(start_row, start_col)` and continuing in that
/// direction until the edge or a non-matching cell.
pub(crate) fn count_run(
    board: &Vec<Option<Player>>,
    start_row: usize,
    start_col: usize,
    dx: isize,
    dy: isize,
    p: Player,
) -> (count: usize)
    requires
        board@.len() == CELL_COUNT,
        start_row < BOARD_SIZE,
        start_col < BOARD_SIZE,
        is_step(dx as int, dy as int),
    ensures
        count == run_length(board@, start_row + dx, start_col + dy, dx as int, dy as int, p),
        count < BOARD_SIZE,
{
    let mut count: usize = 0;
    let mut x: isize = start_row as isize + dx;
    let mut y: isize = start_col as isize + dy;
    while stone_matches(board, x, y, p)
        invariant
            board@.len() == CELL_COUNT,
            start_row < BOARD_SIZE,
            start_col < BOARD_SIZE,
            is_step(dx as int, dy as int),
            -1 <= x <= BOARD_SIZE,
            -1 <= y <= BOARD_SIZE,
            dx == 1 ==> x == start_row + 1 + count,
            dx == 0 ==> x == start_row,
            dx == -1 ==> x == start_row - 1 - count,
            dy == 1 ==> y == start_col + 1 + count,
            dy == 0 ==> y == start_col,
            dy == -1 ==> y == start_col - 1 - count,
            count < BOARD_SIZE,
            run_length(board@, start_row + dx, start_col + dy, dx as int, dy as int, p) == count
                + run_length(board@, x as int, y as int, dx as int, dy as int, p),
        decreases exit_distance(x as int, y as int, dx as int, dy as int),
    {
        count = count + 1;
        x = x + dx;
        y = y + dy;
    }
    count
}

/// Whether a stone of `player` at `(row, col)` on `board` completes a
/// winning line, checking all four axes through the cell.
pub(crate) fn board_wins_at(
    board: &Vec<Option<Player>>,
    row: usize,
    col: usize,
    player: Player,
) -> (won: bool)
    requires
        board@.len() == CELL_COUNT,
        row < BOARD_SIZE,
        col < BOARD_SIZE,
    ensures
        won == wins_at(board@, row as int, col as int, player),
{
    let d1 = 1 + count_run(board, row, col, 1, 0, player) + count_run(board, row, col, -1, 0, player);
    if d1 >= WIN_LENGTH {
        return true;
    }
    let d2 = 1 + count_run(board, row, col, 0, 1, player) + count_run(board, row, col, 0, -1, player);
    if d2 >= WIN_LENGTH {
        return true;
    }
    let d3 = 1 + count_run(board, row, col, 1, 1, player) + count_run(board, row, col, -1, -1, player);
    if d3 >= WIN_LENGTH {
        return true;
    }
    let d4 = 1 + count_run(board, row, col, 1, -1, player) + count_run(board, row, col, -1, 1, player);
    if d4 >= WIN_LENGTH {
        return true;
    }
    false
}

impl GomokuApp {
    /// Counts the consecutive stones of `player` extending from
    /// `(start_row, start_col)` in direction `(dx, dy)`, not counting
    /// the starting cell itself.
    pub fn count_stones_in_direction(
        &self,
        start_row: usize,
        start_col: usize,
        dx: isize,
        dy: isize,
        player: Player,
    ) -> (count: usize)
        requires
            self.board@.len() == CELL_COUNT,
            start_row < BOARD_SIZE,
            start_col < BOARD_SIZE,
            is_step(dx as int, dy as int),
        ensures
            count == run_length(
                self.board@,
                start_row + dx,
                start_col + dy,
                dx as int,
                dy as int,
                player,
            ),
            count < BOARD_SIZE,
    {
        count_run(&self.board, start_row, start_col, dx, dy, player)
    }

    /// Checks whether the stone of `player` at `(row, col)` completes a
    /// winning line, and if so records the win in the status. Nothing
    /// else changes.
    pub fn check_win(&mut self, row: usize, col: usize, player: Player) -> (won: bool)
        requires
            old(self).board@.len() == CELL_COUNT,
            row < BOARD_SIZE,
            col < BOARD_SIZE,
        ensures
            won == wins_at(old(self).board@, row as int, col as int, player),
            final(self).board@ == old(self).board@,
            final(self).current_player == old(self).current_player,
            final(self).history@ == old(self).history@,
            final(self).status == if won {
                GameStatus::WonBy(player)
            } else {
                old(self).status
            },
    {
        let won = board_wins_at(&self.board, row, col, player);
        if won {
            self.status = GameStatus::WonBy(player);
        }
        won
    }
}

/// Replaying a log of on-board moves yields a full-size board.
pub(crate) proof fn lemma_replay_len(h: Seq<HistoryEntry>)
    requires
        forall|k: int| 0 <= k < h.len() ==> on_board((#[trigger] h[k]).row as int, h[k].col as int),
    ensures
        replay(h).len() == CELL_COUNT,
    decreases h.len(),
{
    if h.len() > 0 {
        assert forall|k: int| 0 <= k < h.drop_last().len() implies on_board(
            (#[trigger] h.drop_last()[k]).row as int,
            h.drop_last()[k].col as int,
        ) by {
            assert(h.drop_last()[k] == h[k]);
        }
        lemma_replay_len(h.drop_last());
        let e = h.last();
        assert(on_board(e.row as int, e.col as int));
    }
}

/// Appending a move to the log replays to the old board with the new
/// stone placed.
pub(crate) proof fn lemma_replay_push(h: Seq<HistoryEntry>, e: HistoryEntry)
    ensures
        replay(h.push(e)) == replay(h).update(
            cell_index(e.row as int, e.col as int),
            Some(e.player),
        ),
{
    assert(h.push(e).drop_last() =~= h);
    assert(h.push(e).last() == e);
}

/// Taking a prefix is unaffected by a later append.
pub(crate) proof fn lemma_take_push(h: Seq<HistoryEntry>, e: HistoryEntry, k: int)
    requires
        0 <= k <= h.len(),
    ensures
        h.push(e).take(k) == h.take(k),
{
    assert(h.push(e).take(k) =~= h.take(k));
}

/// A legal history stays legal when a move is appended that lies on the
/// board, continues the alternation, and lands on an empty cell.
pub(crate) proof fn lemma_valid_history_push(h: Seq<HistoryEntry>, e: HistoryEntry)
    requires
        valid_history(h),
        on_board(e.row as int, e.col as int),
        e.player == player_of_turn(h.len() as int),
        replay(h)[cell_index(e.row as int, e.col as int)] is None,
    ensures
        valid_history(h.push(e)),
{
    let h2 = h.push(e);
    assert forall|k: int| 0 <= k < h2.len() implies #[trigger] entry_ok(h2, k) by {
        lemma_take_push(h, e, k);
        if k < h.len() {
            assert(entry_ok(h, k));
            assert(h2[k] == h[k]);
        } else {
            assert(h2[k] == e);
            assert(h.take(k) =~= h);
        }
    }
}

/// The colors alternate from one turn to the next.
pub(crate) proof fn lemma_turn_alternates(n: int)
    requires
        n >= 0,
    ensures
        player_of_turn(n + 1) == other_player(player_of_turn(n)),
{
}

impl GomokuApp {
    /// Submits a move for the current player at `(row, col)`.
    ///
    /// The move is rejected, leaving the state untouched, when the game
    /// has already ended (`GameOver`), the coordinates are off the board
    /// (`OutOfBounds`), or the cell already holds a stone
    /// (`CellOccupied`). Otherwise the move is applied as `move_rel`
    /// describes and the outcome carries the status the game reached.
    pub fn attempt_move(&mut self, row: usize, col: usize) -> (outcome: MoveOutcome)
        requires
            old(self).wf(),
        ensures
            final(self).wf(),
            !(old(self).status is Ongoing) ==> outcome == MoveOutcome::Rejected(
                InvalidMove::GameOver,
            ) && state_eq(*final(self), *old(self)),
            old(self).status is Ongoing && !on_board(row as int, col as int) ==> outcome
                == MoveOutcome::Rejected(InvalidMove::OutOfBounds) && state_eq(
                *final(self),
                *old(self),
            ),
            old(self).status is Ongoing && on_board(row as int, col as int) && !(old(
                self,
            ).board@[cell_index(row as int, col as int)] is None) ==> outcome
                == MoveOutcome::Rejected(InvalidMove::CellOccupied) && state_eq(
                *final(self),
                *old(self),
            ),
            move_allowed(*old(self), row as int, col as int) ==> move_rel(
                *old(self),
                *final(self),
                row as int,
                col as int,
            ) && outcome == MoveOutcome::Applied(final(self).status),
    {
        let is_ongoing = match self.status {
            GameStatus::Ongoing => true,
            _ => false,
        };
        if !is_ongoing {
            return MoveOutcome::Rejected(InvalidMove::GameOver);
        }
        if row >= BOARD_SIZE || col >= BOARD_SIZE {
            return MoveOutcome::Rejected(InvalidMove::OutOfBounds);
        }
        let idx: usize = row * BOARD_SIZE + col;
        let occupied = match self.board[idx] {
            Some(_) => true,
            None => false,
        };
        if occupied {
            return MoveOutcome::Rejected(InvalidMove::CellOccupied);
        }
        let ghost pre = *self;
        let mover = self.current_player;
        let entry = HistoryEntry { player: mover, row, col };
        proof {
            // An ongoing game cannot already have a full log: with the
            // board full, the last move would have ended it.
            if pre.history@.len() == CELL_COUNT {
                assert(pre.status == status_after(pre.board@, pre.history@));
                assert(!(pre.status is Ongoing));
            }
        }
        self.history.push(entry);
        self.board.set(idx, Some(mover));
        let won = self.check_win(row, col, mover);
        if won {
            // check_win already recorded the win; the winner keeps the turn.
        } else if self.history.len() == CELL_COUNT {
            self.status = GameStatus::Draw;
        } else {
            self.current_player = match mover {
                Player::Black => Player::White,
                Player::White => Player::Black,
            };
        }
        proof {
            lemma_move_applied_wf(pre, *self, entry);
        }
        MoveOutcome::Applied(self.status)
    }

    /// Takes back the most recent move, if any: the last log record is
    /// dropped, its stone is lifted off the board, the turn returns to
    /// whoever made that move, and play is reopened even after a win or
    /// a draw. Returns whether a move was undone.
    pub fn undo(&mut self) -> (undone: bool)
        requires
            old(self).wf(),
        ensures
            final(self).wf(),
            old(self).history@.len() == 0 ==> undone == false && state_eq(
                *final(self),
                *old(self),
            ),
            old(self).history@.len() > 0 ==> undone == true && undo_rel(*old(self), *final(self)),
    {
        let ghost pre = *self;
        let popped = self.history.pop();
        match popped {
            None => false,
            Some(e) => {
                proof {
                    assert(entry_ok(pre.history@, pre.history@.len() - 1));
                    assert(pre.history@.drop_last() =~= self.history@);
                }
                let idx: usize = e.row * BOARD_SIZE + e.col;
                self.board.set(idx, None);
                self.current_player = e.player;
                self.status = GameStatus::Ongoing;
                proof {
                    lemma_undo_applied_wf(pre, *self);
                }
                true
            },
        }
    }
}

/// An accepted move takes one well-formed session to another; `post` is
/// the session after the log append, the stone placement, and the status
/// and turn update that `attempt_move` performs.
proof fn lemma_move_applied_wf(pre: GomokuApp, post: GomokuApp, e: HistoryEntry)
    requires
        pre.wf(),
        pre.status is Ongoing,
        e.player == pre.current_player,
        on_board(e.row as int, e.col as int),
        pre.board@[cell_index(e.row as int, e.col as int)] is None,
        post.history@ == pre.history@.push(e),
        post.board@ == pre.board@.update(cell_index(e.row as int, e.col as int), Some(e.player)),
        post.status == (if wins_at(post.board@, e.row as int, e.col as int, e.player) {
            GameStatus::WonBy(e.player)
        } else if pre.history@.len() + 1 == CELL_COUNT {
            GameStatus::Draw
        } else {
            GameStatus::Ongoing
        }),
        post.current_player == (if post.status is Ongoing {
            other_player(e.player)
        } else {
            e.player
        }),
    ensures
        post.wf(),
        move_rel(pre, post, e.row as int, e.col as int),
{
    let h = pre.history@;
    let h2 = post.history@;
    let idx = cell_index(e.row as int, e.col as int);

    // The log was not full: a full log would have ended the game.
    if h.len() == CELL_COUNT {
        assert(!(status_after(pre.board@, h) is Ongoing));
    }
    assert(h.len() < CELL_COUNT);

    // The appended move is legal at its point in the game.
    assert(e.player == player_of_turn(h.len() as int));
    lemma_valid_history_push(h, e);

    // The new board is the replay of the new log.
    lemma_replay_push(h, e);
    assert(post.board@ == replay(h2));

    // The status recorded is exactly what the last move produced.
    assert(h2.last() == e);
    assert(post.status == status_after(post.board@, h2));

    // No move before the new last one ended the game.
    assert forall|k: int| 0 <= k < h2.len() - 1 implies !(#[trigger] wins_at(
        replay(h2.take(k + 1)),
        h2[k].row as int,
        h2[k].col as int,
        h2[k].player,
    )) by {
        lemma_take_push(h, e, k + 1);
        assert(h2[k] == h[k]);
        if k < h.len() - 1 {
            assert(!wins_at(replay(h.take(k + 1)), h[k].row as int, h[k].col as int, h[k].player));
        } else {
            // k is the index of the previously last move; the game was
            // still ongoing after it.
            assert(h.take(k + 1) =~= h);
            assert(h[k] == h.last());
            assert(pre.status == status_after(pre.board@, h));
            assert(!wins_at(pre.board@, h.last().row as int, h.last().col as int, h.last().player));
        }
    }

    // The turn alternation continues while the game goes on.
    assert(pre.current_player == player_of_turn(h.len() as int));
    lemma_turn_alternates(h.len() as int);
    assert(post.wf());
}

/// Undoing the most recent move takes one well-formed session to
/// another.
proof fn lemma_undo_applied_wf(pre: GomokuApp, post: GomokuApp)
    requires
        pre.wf(),
        pre.history@.len() > 0,
        undo_rel(pre, post),
    ensures
        post.wf(),
{
    let h = pre.history@;
    let hd = post.history@;
    let e = h.last();
    let idx = cell_index(e.row as int, e.col as int);

    assert(entry_ok(h, h.len() - 1));
    assert(h.take(h.len() - 1) =~= hd);
    assert(h.drop_last() =~= hd);
    assert(replay(hd)[idx] is None);

    // Lifting the last stone off the board recovers the replay of the
    // shortened log.
    assert(replay(h) == replay(h.drop_last()).update(idx, Some(e.player)));
    assert(replay(h.drop_last()) == replay(hd));
    assert forall|k: int| 0 <= k < hd.len() implies on_board(
        (#[trigger] hd[k]).row as int,
        hd[k].col as int,
    ) by {
        assert(entry_ok(h, k));
        assert(hd[k] == h[k]);
    }
    lemma_replay_len(hd);
    assert(post.board@ =~= replay(hd));

    // Every remaining move is still legal at its point in the game.
    assert forall|k: int| 0 <= k < hd.len() implies #[trigger] entry_ok(hd, k) by {
        assert(entry_ok(h, k));
        assert(hd.take(k) =~= h.take(k));
        assert(hd[k] == h[k]);
    }

    // No remaining move ended the game, so play is indeed reopened.
    assert forall|k: int| 0 <= k < hd.len() - 1 implies !(#[trigger] wins_at(
        replay(hd.take(k + 1)),
        hd[k].row as int,
        hd[k].col as int,
        hd[k].player,
    )) by {
        assert(hd.take(k + 1) =~= h.take(k + 1));
        assert(hd[k] == h[k]);
        assert(!wins_at(replay(h.take(k + 1)), h[k].row as int, h[k].col as int, h[k].player));
    }
    if hd.len() > 0 {
        let k = hd.len() - 1;
        assert(0 <= k < h.len() - 1);
        assert(!wins_at(replay(h.take(k + 1)), h[k].row as int, h[k].col as int, h[k].player));
        assert(h.take(k + 1) =~= hd);
        assert(hd.last() == h[k]);
        assert(status_after(post.board@, hd) is Ongoing);
    }

    assert(post.current_player == player_of_turn(hd.len() as int));
    assert(post.wf());
}

/// Law: turns alternate. In every well-formed session the moves on the
/// log were made by Black, White, Black, ... in strict alternation
/// starting from Black, and while the game is ongoing the player to
/// move is the one whose color continues that alternation.
pub proof fn lemma_alternation(s: GomokuApp)
    requires
        s.wf(),
    ensures
        forall|k: int| 0 <= k < s.history@.len() ==> (#[trigger] s.history@[k]).player
            == player_of_turn(k),
        s.status is Ongoing ==> s.current_player == player_of_turn(s.history@.len() as int),
        s.status is Ongoing && s.history@.len() > 0 ==> s.current_player == other_player(
            s.history@.last().player,
        ),
{
    assert forall|k: int| 0 <= k < s.history@.len() implies (#[trigger] s.history@[k]).player
        == player_of_turn(k) by {
        assert(entry_ok(s.history@, k));
    }
    if s.history@.len() > 0 {
        assert(entry_ok(s.history@, s.history@.len() - 1));
        lemma_turn_alternates(s.history@.len() - 1);
    }
}

/// Law: the history is the authoritative log. In every well-formed
/// session, replaying the history from an empty board, in order,
/// reproduces the board exactly.
pub proof fn lemma_history_board_consistency(s: GomokuApp)
    requires
        s.wf(),
    ensures
        s.board@ == replay(s.history@),
{
}

/// Number of stones on a board.
pub open spec fn stone_count(b: Seq<Option<Player>>) -> nat
    decreases b.len(),
{
    if b.len() == 0 {
        0
    } else {
        stone_count(b.drop_last()) + (if b.last() is Some {
            1nat
        } else {
            0nat
        })
    }
}

/// A board with no stones has stone count zero.
proof fn lemma_stone_count_all_none(b: Seq<Option<Player>>)
    requires
        forall|j: int| 0 <= j < b.len() ==> b[j] is None,
    ensures
        stone_count(b) == 0,
    decreases b.len(),
{
    if b.len() > 0 {
        assert(b.last() is None);
        assert forall|j: int| 0 <= j < b.drop_last().len() implies b.drop_last()[j] is None by {
            assert(b.drop_last()[j] == b[j]);
        }
        lemma_stone_count_all_none(b.drop_last());
    }
}

/// Placing a stone on an empty cell raises the stone count by one.
proof fn lemma_stone_count_update(b: Seq<Option<Player>>, i: int, p: Player)
    requires
        0 <= i < b.len(),
        b[i] is None,
    ensures
        stone_count(b.update(i, Some(p))) == stone_count(b) + 1,
    decreases b.len(),
{
    let b2 = b.update(i, Some(p));
    if i == b.len() - 1 {
        assert(b2.drop_last() =~= b.drop_last());
        assert(b2.last() == Some(p));
        assert(b.last() is None);
    } else {
        assert(b2.drop_last() =~= b.drop_last().update(i, Some(p)));
        assert(b2.last() == b.last());
        assert(b.drop_last()[i] == b[i]);
        lemma_stone_count_update(b.drop_last(), i, p);
    }
}

/// Replaying a legal history puts exactly one stone on the board per
/// move.
proof fn lemma_replay_stone_count(h: Seq<HistoryEntry>)
    requires
        valid_history(h),
    ensures
        stone_count(replay(h)) == h.len(),
    decreases h.len(),
{
    if h.len() == 0 {
        lemma_stone_count_all_none(empty_board());
    } else {
        let hd = h.drop_last();
        let e = h.last();
        let idx = cell_index(e.row as int, e.col as int);
        assert(entry_ok(h, h.len() - 1));
        assert(h.take(h.len() - 1) =~= hd);
        assert forall|k: int| 0 <= k < hd.len() implies #[trigger] entry_ok(hd, k) by {
            assert(entry_ok(h, k));
            assert(hd.take(k) =~= h.take(k));
            assert(hd[k] == h[k]);
        }
        lemma_replay_stone_count(hd);
        assert forall|k: int| 0 <= k < hd.len() implies on_board(
            (#[trigger] hd[k]).row as int,
            hd[k].col as int,
        ) by {
            assert(entry_ok(hd, k));
        }
        lemma_replay_len(hd);
        assert(replay(hd)[idx] is None);
        lemma_stone_count_update(replay(hd), idx, e.player);
    }
}

/// Law: the length of the history equals the number of stones placed
/// on the board, in every well-formed session.
pub proof fn lemma_history_counts_stones(s: GomokuApp)
    requires
        s.wf(),
    ensures
        stone_count(s.board@) == s.history@.len(),
{
    lemma_replay_stone_count(s.history@);
}

/// Law: undo is a true inverse of attempt_move for the most recent
/// move. After undoing the last move of a session `s` (which takes `s`
/// to `mid`), that same move is accepted again, and any session `s2`
/// reached by replaying it from `mid` holds exactly the state of `s`.
pub proof fn lemma_undo_inverse(s: GomokuApp, mid: GomokuApp)
    requires
        s.wf(),
        s.history@.len() > 0,
        undo_rel(s, mid),
    ensures
        move_allowed(mid, s.history@.last().row as int, s.history@.last().col as int),
        forall|s2: GomokuApp| #[trigger] move_rel(
            mid,
            s2,
            s.history@.last().row as int,
            s.history@.last().col as int,
        ) ==> state_eq(s2, s),
{
    let h = s.history@;
    let e = h.last();
    let r = e.row as int;
    let c = e.col as int;
    let idx = cell_index(r, c);
    lemma_undo_applied_wf(s, mid);
    assert(entry_ok(h, h.len() - 1));
    assert(h.drop_last() =~= h.take(h.len() - 1));

    // The undone move's cell is empty again, so the move is accepted.
    assert(mid.board@[idx] is None);

    // The undone move's stone was on the board of `s`.
    assert(replay(h) == replay(h.drop_last()).update(idx, Some(e.player)));
    assert(s.board@[idx] == Some(e.player));

    assert forall|s2: GomokuApp| #[trigger] move_rel(mid, s2, r, c) implies state_eq(s2, s) by {
        // Replacing the stone restores the board of `s`.
        assert(mid.current_player == e.player);
        let b2 = mid.board@.update(idx, Some(e.player));
        assert(b2 =~= s.board@);

        // Re-logging the move restores the history of `s`.
        let e2 = HistoryEntry { player: mid.current_player, row: r as usize, col: c as usize };
        assert(e2 == e);
        assert(mid.history@.push(e2) =~= h);

        // The replayed move produces the status and turn of `s`.
        assert(s.status == status_after(s.board@, h));
        if s.status is Ongoing {
            assert(e.player == player_of_turn(h.len() - 1));
            lemma_turn_alternates(h.len() - 1);
        }
    }
}

impl GomokuApp {
    /// Read-only view of one board cell for a presentation layer.
    pub fn cell(&self, row: usize, col: usize) -> (c: Option<Player>)
        requires
            self.board@.len() == CELL_COUNT,
            row < BOARD_SIZE,
            col < BOARD_SIZE,
        ensures
            c == self.board@[cell_index(row as int, col as int)],
    {
        self.board[row * BOARD_SIZE + col]
    }
}

/// Converts a column index to its letter label: 0 is `A`, 1 is `B`, and
/// so on.
pub fn column_index_to_letter(index: usize) -> (letter: char)
    requires
        index < 26,
    ensures
        letter as int == 'A' as int + index,
{
    (('A' as u8) + index as u8) as char
}

} // verus!
