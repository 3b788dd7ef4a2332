//! Save and load: a self-describing byte format for a game session.
//!
//! A saved session is laid out as follows.
//!
//! | bytes             | content                                        |
//! |-------------------|------------------------------------------------|
//! | `0 .. 225`        | board cells, row-major: 0 empty, 1 Black, 2 White |
//! | `225`             | current player: 1 Black, 2 White               |
//! | `226`             | status: 0 ongoing, 1 won by Black, 2 won by White, 3 draw |
//! | `227`             | number of moves on the history log             |
//! | `228 ..`          | one record per move: player byte, row, column  |
//!
//! Loading validates everything: the length, every byte's range, that
//! the history is a legal game whose replay matches the stored board,
//! and that the stored status and player are the ones that game
//! produced. A load therefore either yields a well-formed session or
//! rejects the bytes as corrupt; it never yields a session that the
//! operations of this crate could not themselves have reached.

use vstd::arithmetic::div_mod::lemma_fundamental_div_mod_converse;
use vstd::prelude::*;

use crate::game::{
    board_wins_at, cell_index, entry_ok, on_board, player_of_turn, replay, status_after,
    valid_history, wf_parts, wins_at, GameStatus, GomokuApp, HistoryEntry, Player, BOARD_SIZE,
    CELL_COUNT,
};

verus! {

/// Byte offset of the current-player tag in a saved session.
pub const PLAYER_POS: usize = 225;

/// Byte offset of the status tag in a saved session.
pub const STATUS_POS: usize = 226;

/// Byte offset of the history length in a saved session.
pub const LEN_POS: usize = 227;

/// Byte offset of the first move record in a saved session.
pub const MOVES_POS: usize = 228;

/// Loading failure: the bytes do not encode any reachable session.
#[derive(Clone, Copy, Debug, PartialEq, Eq, Structural)]
pub enum LoadError {
    CorruptSave,
}

/// Encoding of one board cell.
pub open spec fn cell_code(c: Option<Player>) -> u8 {
    match c {
        None => 0,
        Some(Player::Black) => 1,
        Some(Player::White) => 2,
    }
}

/// Encoding of a player tag.
pub open spec fn player_code(p: Player) -> u8 {
    match p {
        Player::Black => 1,
        Player::White => 2,
    }
}

/// Encoding of a status tag, with the winner embedded.
pub open spec fn status_code(st: GameStatus) -> u8 {
    match st {
        GameStatus::Ongoing => 0,
        GameStatus::WonBy(Player::Black) => 1,
        GameStatus::WonBy(Player::White) => 2,
        GameStatus::Draw => 3,
    }
}

/// The cell a board byte stands for.
pub open spec fn decode_cell(x: u8) -> Option<Player> {
    if x == 1 {
        Some(Player::Black)
    } else if x == 2 {
        Some(Player::White)
    } else {
        None
    }
}

/// The player a player byte stands for.
pub open spec fn decode_player(x: u8) -> Player {
    if x == 2 {
        Player::White
    } else {
        Player::Black
    }
}

/// The status a status byte stands for.
pub open spec fn decode_status(x: u8) -> GameStatus {
    if x == 1 {
        GameStatus::WonBy(Player::Black)
    } else if x == 2 {
        GameStatus::WonBy(Player::White)
    } else if x == 3 {
        GameStatus::Draw
    } else {
        GameStatus::Ongoing
    }
}

/// Byte `j` of the record for move `e`.
pub open spec fn entry_byte(e: HistoryEntry, j: int) -> u8 {
    if j == 0 {
        player_code(e.player)
    } else if j == 1 {
        e.row as u8
    } else {
        e.col as u8
    }
}

/// Byte `i` of the encoding of a session given as its four parts.
pub open spec fn save_byte(
    b: Seq<Option<Player>>,
    cp: Player,
    h: Seq<HistoryEntry>,
    st: GameStatus,
    i: int,
) -> u8 {
    if i < PLAYER_POS {
        cell_code(b[i])
    } else if i == PLAYER_POS {
        player_code(cp)
    } else if i == STATUS_POS {
        status_code(st)
    } else if i == LEN_POS {
        h.len() as u8
    } else {
        entry_byte(h[(i - MOVES_POS) / 3], (i - MOVES_POS) % 3)
    }
}

/// The full encoding of a session.
pub open spec fn session_bytes(s: GomokuApp) -> Seq<u8> {
    Seq::new(
        (MOVES_POS + 3 * s.history@.len()) as nat,
        |i: int| save_byte(s.board@, s.current_player, s.history@, s.status, i),
    )
}

/// History length a saved session claims.
pub open spec fn saved_len(bytes: Seq<u8>) -> int {
    bytes[LEN_POS as int] as int
}

/// The board stored in a saved session.
pub open spec fn saved_board(bytes: Seq<u8>) -> Seq<Option<Player>> {
    Seq::new(CELL_COUNT as nat, |i: int| decode_cell(bytes[i]))
}

/// The current player stored in a saved session.
pub open spec fn saved_player(bytes: Seq<u8>) -> Player {
    decode_player(bytes[PLAYER_POS as int])
}

/// The status stored in a saved session.
pub open spec fn saved_status(bytes: Seq<u8>) -> GameStatus {
    decode_status(bytes[STATUS_POS as int])
}

/// The move log stored in a saved session.
pub open spec fn saved_history(bytes: Seq<u8>) -> Seq<HistoryEntry> {
    Seq::new(
        saved_len(bytes) as nat,
        |k: int| HistoryEntry {
            player: decode_player(bytes[MOVES_POS + 3 * k]),
            row: bytes[MOVES_POS + 3 * k + 1] as usize,
            col: bytes[MOVES_POS + 3 * k + 2] as usize,
        },
    )
}

/// Every board byte of the save is a cell code.
pub open spec fn cell_bytes_in_range(bytes: Seq<u8>) -> bool {
    forall|i: int| 0 <= i < CELL_COUNT ==> #[trigger] bytes[i] <= 2
}

/// Every move record of the save holds a player code and on-board
/// coordinates.
pub open spec fn record_bytes_in_range(bytes: Seq<u8>) -> bool {
    forall|k: int| 0 <= k < saved_len(bytes) ==> {
        &&& ((#[trigger] bytes[MOVES_POS + 3 * k]) == 1 || bytes[MOVES_POS + 3 * k] == 2)
        &&& bytes[MOVES_POS + 3 * k + 1] < BOARD_SIZE
        &&& bytes[MOVES_POS + 3 * k + 2] < BOARD_SIZE
    }
}

/// Every byte of the save is in the range its position allows.
pub open spec fn bytes_in_range(bytes: Seq<u8>) -> bool {
    &&& cell_bytes_in_range(bytes)
    &&& (bytes[PLAYER_POS as int] == 1 || bytes[PLAYER_POS as int] == 2)
    &&& bytes[STATUS_POS as int] <= 3
    &&& record_bytes_in_range(bytes)
}

/// The bytes are a valid save: the right shape, every byte in range,
/// and the parts they store form a well-formed session. Loading
/// succeeds exactly on such byte sequences.
pub open spec fn valid_encoding(bytes: Seq<u8>) -> bool {
    &&& bytes.len() >= MOVES_POS
    &&& saved_len(bytes) <= CELL_COUNT
    &&& bytes.len() == MOVES_POS + 3 * saved_len(bytes)
    &&& bytes_in_range(bytes)
    &&& wf_parts(saved_board(bytes), saved_player(bytes), saved_history(bytes), saved_status(bytes))
}

/// Executable encoding of one cell; agrees with `cell_code`.
fn cell_code_x(c: Option<Player>) -> (x: u8)
    ensures
        x == cell_code(c),
{
    match c {
        None => 0,
        Some(Player::Black) => 1,
        Some(Player::White) => 2,
    }
}

/// Executable encoding of a player tag; agrees with `player_code`.
fn player_code_x(p: Player) -> (x: u8)
    ensures
        x == player_code(p),
{
    match p {
        Player::Black => 1,
        Player::White => 2,
    }
}

/// Executable encoding of a status tag; agrees with `status_code`.
fn status_code_x(st: GameStatus) -> (x: u8)
    ensures
        x == status_code(st),
{
    match st {
        GameStatus::Ongoing => 0,
        GameStatus::WonBy(Player::Black) => 1,
        GameStatus::WonBy(Player::White) => 2,
        GameStatus::Draw => 3,
    }
}

impl GomokuApp {
    /// Encodes the session in the byte format described in the module
    /// documentation, so that `deserialize` reproduces it exactly.
    pub fn serialize(&self) -> (bytes: Vec<u8>)
        requires
            self.wf(),
        ensures
            bytes@ == session_bytes(*self),
    {
        let mut out: Vec<u8> = Vec::new();
        let mut i: usize = 0;
        while i < CELL_COUNT
            invariant
                self.wf(),
                i <= CELL_COUNT,
                out@.len() == i,
                forall|j: int| 0 <= j < i ==> #[trigger] out@[j] == save_byte(
                    self.board@,
                    self.current_player,
                    self.history@,
                    self.status,
                    j,
                ),
            decreases CELL_COUNT - i,
        {
            out.push(cell_code_x(self.board[i]));
            i = i + 1;
        }
        out.push(player_code_x(self.current_player));
        out.push(status_code_x(self.status));
        out.push(self.history.len() as u8);
        let mut k: usize = 0;
        while k < self.history.len()
            invariant
                self.wf(),
                k <= self.history@.len(),
                out@.len() == MOVES_POS + 3 * k,
                forall|j: int| 0 <= j < out@.len() ==> #[trigger] out@[j] == save_byte(
                    self.board@,
                    self.current_player,
                    self.history@,
                    self.status,
                    j,
                ),
            decreases self.history@.len() - k,
        {
            let e = self.history[k];
            proof {
                assert(entry_ok(self.history@, k as int));
                lemma_record_offsets(k as int);
            }
            out.push(player_code_x(e.player));
            out.push(e.row as u8);
            out.push(e.col as u8);
            k = k + 1;
        }
        proof {
            assert(out@ =~= session_bytes(*self));
        }
        out
    }
}

/// Executable turn alternation; agrees with `player_of_turn`.
fn player_of_turn_x(n: usize) -> (p: Player)
    ensures
        p == player_of_turn(n as int),
{
    if n % 2 == 0 {
        Player::Black
    } else {
        Player::White
    }
}

impl GomokuApp {
    /// Decodes a saved session, validating it in full: the shape and
    /// every byte's range, that the stored history is a legal game
    /// whose replay reproduces the stored board, and that the stored
    /// status and current player are the ones that game produced.
    ///
    /// Returns the decoded session exactly when the bytes are a valid
    /// save (`valid_encoding`), and `CorruptSave` otherwise. Nothing is
    /// mutated either way; a caller replaces its live session only on
    /// success.
    pub fn deserialize(bytes: &Vec<u8>) -> (r: Result<GomokuApp, LoadError>)
        ensures
            r is Ok <==> valid_encoding(bytes@),
            r matches Ok(s) ==> {
                &&& s.wf()
                &&& s.board@ == saved_board(bytes@)
                &&& s.current_player == saved_player(bytes@)
                &&& s.history@ == saved_history(bytes@)
                &&& s.status == saved_status(bytes@)
            },
            r matches Err(e) ==> e == LoadError::CorruptSave,
    {
        // Shape: a header and a whole number of move records.
        if bytes.len() < MOVES_POS {
            return Err(LoadError::CorruptSave);
        }
        let n_moves: usize = bytes[LEN_POS] as usize;
        if n_moves > CELL_COUNT {
            return Err(LoadError::CorruptSave);
        }
        if bytes.len() != MOVES_POS + 3 * n_moves {
            return Err(LoadError::CorruptSave);
        }

        // Range of the board, player, and status bytes.
        let mut i: usize = 0;
        while i < CELL_COUNT
            invariant
                bytes@.len() >= MOVES_POS,
                i <= CELL_COUNT,
                forall|j: int| 0 <= j < i ==> #[trigger] bytes@[j] <= 2,
            decreases CELL_COUNT - i,
        {
            if bytes[i] > 2 {
                return Err(LoadError::CorruptSave);
            }
            i = i + 1;
        }
        let player_byte = bytes[PLAYER_POS];
        if !(player_byte == 1 || player_byte == 2) {
            return Err(LoadError::CorruptSave);
        }
        let status_byte = bytes[STATUS_POS];
        if status_byte > 3 {
            return Err(LoadError::CorruptSave);
        }

        let ghost sh = saved_history(bytes@);
        assert(sh.len() == n_moves);

        // Replay the stored history, checking each move is legal at its
        // point in the game and that no move before the last ended it.
        let mut board: Vec<Option<Player>> = crate::game::new_empty_board();
        let mut hist: Vec<HistoryEntry> = Vec::new();
        let mut last_win: bool = false;
        let mut k: usize = 0;
        proof {
            assert(hist@ =~= sh.take(0));
            assert(board@ == replay(hist@));
        }
        while k < n_moves
            invariant
                bytes@.len() == MOVES_POS + 3 * (n_moves as int),
                n_moves <= CELL_COUNT,
                sh == saved_history(bytes@),
                sh.len() == n_moves,
                k <= n_moves,
                hist@ == sh.take(k as int),
                hist@.len() == k,
                board@.len() == CELL_COUNT,
                board@ == replay(hist@),
                valid_history(hist@),
                forall|j: int| 0 <= j < k ==> {
                    &&& ((#[trigger] bytes@[MOVES_POS + 3 * j]) == 1 || bytes@[
                        MOVES_POS + 3 * j] == 2)
                    &&& bytes@[MOVES_POS + 3 * j + 1] < BOARD_SIZE
                    &&& bytes@[MOVES_POS + 3 * j + 2] < BOARD_SIZE
                },
                forall|j: int|
                    0 <= j < k && j + 1 < n_moves ==> !(#[trigger] wins_at(
                        replay(hist@.take(j + 1)),
                        hist@[j].row as int,
                        hist@[j].col as int,
                        hist@[j].player,
                    )),
                k > 0 ==> last_win == wins_at(
                    board@,
                    hist@[k - 1].row as int,
                    hist@[k - 1].col as int,
                    hist@[k - 1].player,
                ),
            decreases n_moves - k,
        {
            let ghost pre_hist = hist@;
            let base: usize = MOVES_POS + 3 * k;
            let p_byte = bytes[base];
            let r_byte = bytes[base + 1];
            let c_byte = bytes[base + 2];
            proof {
                assert(bytes@[MOVES_POS + 3 * (k as int)] == p_byte);
                assert(bytes@[MOVES_POS + 3 * (k as int) + 1] == r_byte);
                assert(bytes@[MOVES_POS + 3 * (k as int) + 2] == c_byte);
            }
            proof {
                assert(sh[k as int] == HistoryEntry {
                    player: decode_player(bytes@[MOVES_POS + 3 * (k as int)]),
                    row: bytes@[MOVES_POS + 3 * (k as int) + 1] as usize,
                    col: bytes@[MOVES_POS + 3 * (k as int) + 2] as usize,
                });
            }

            // Record bytes must be in range.
            if !(p_byte == 1 || p_byte == 2) || r_byte >= 15 || c_byte >= 15 {
                return Err(LoadError::CorruptSave);
            }

            // The move must continue the alternation.
            let expected_byte: u8 = if k % 2 == 0 {
                1
            } else {
                2
            };
            if p_byte != expected_byte {
                proof {
                    if valid_encoding(bytes@) {
                        assert(entry_ok(sh, k as int));
                        assert(sh[k as int].player == player_of_turn(k as int));
                        assert(false);
                    }
                }
                return Err(LoadError::CorruptSave);
            }
            let mover = if p_byte == 1 {
                Player::Black
            } else {
                Player::White
            };
            let row = r_byte as usize;
            let col = c_byte as usize;
            let idx: usize = row * BOARD_SIZE + col;

            // The move must land on a cell that is still empty.
            let occupied = match board[idx] {
                Some(_) => true,
                None => false,
            };
            if occupied {
                proof {
                    if valid_encoding(bytes@) {
                        assert(entry_ok(sh, k as int));
                        assert(replay(sh.take(k as int))[cell_index(row as int, col as int)]
                            is None);
                        assert(false);
                    }
                }
                return Err(LoadError::CorruptSave);
            }

            let e = HistoryEntry { player: mover, row, col };
            proof {
                assert(e == sh[k as int]);
                assert(e.player == player_of_turn(k as int));
                crate::game::lemma_valid_history_push(hist@, e);
                crate::game::lemma_replay_push(hist@, e);
            }
            hist.push(e);
            board.set(idx, Some(mover));
            proof {
                assert(hist@ =~= sh.take(k + 1));
            }
            let won = crate::game::board_wins_at(&board, row, col, mover);

            // A move before the last one must not have ended the game.
            if won && k + 1 < n_moves {
                proof {
                    if valid_encoding(bytes@) {
                        assert(!wins_at(
                            replay(sh.take(k + 1)),
                            sh[k as int].row as int,
                            sh[k as int].col as int,
                            sh[k as int].player,
                        ));
                        assert(false);
                    }
                }
                return Err(LoadError::CorruptSave);
            }
            last_win = won;
            k = k + 1;
            proof {
                assert forall|j: int| 0 <= j < k implies {
                    &&& ((#[trigger] bytes@[MOVES_POS + 3 * j]) == 1 || bytes@[MOVES_POS + 3 * j]
                        == 2)
                    &&& bytes@[MOVES_POS + 3 * j + 1] < BOARD_SIZE
                    &&& bytes@[MOVES_POS + 3 * j + 2] < BOARD_SIZE
                } by {
                    if j == k - 1 {
                        assert(MOVES_POS + 3 * j == base as int);
                        assert(MOVES_POS + 3 * j + 1 == base as int + 1);
                        assert(MOVES_POS + 3 * j + 2 == base as int + 2);
                    }
                }
                assert forall|j: int|
                    0 <= j < k && j + 1 < n_moves implies !(#[trigger] wins_at(
                    replay(hist@.take(j + 1)),
                    hist@[j].row as int,
                    hist@[j].col as int,
                    hist@[j].player,
                )) by {
                    assert(hist@[j] == sh[j]);
                    if j < k - 1 {
                        // A move handled on an earlier round.
                        assert(pre_hist.take(j + 1) =~= hist@.take(j + 1));
                        assert(pre_hist[j] == hist@[j]);
                        assert(!wins_at(
                            replay(pre_hist.take(j + 1)),
                            pre_hist[j].row as int,
                            pre_hist[j].col as int,
                            pre_hist[j].player,
                        ));
                    } else {
                        // The move handled on this round: it did not win,
                        // or this round would have rejected the bytes.
                        assert(hist@.take(j + 1) =~= hist@);
                        assert(hist@[j] == e);
                    }
                }
            }
        }
        proof {
            assert(hist@ =~= sh);
        }

        // The stored board must equal the replay of the stored history.
        let mut i2: usize = 0;
        while i2 < CELL_COUNT
            invariant
                bytes@.len() >= MOVES_POS,
                i2 <= CELL_COUNT,
                board@.len() == CELL_COUNT,
                hist@ == saved_history(bytes@),
                board@ == replay(hist@),
                forall|j: int| 0 <= j < CELL_COUNT ==> #[trigger] bytes@[j] <= 2,
                forall|j: int| 0 <= j < i2 ==> decode_cell(#[trigger] bytes@[j]) == board@[j],
            decreases CELL_COUNT - i2,
        {
            if bytes[i2] != cell_code_x(board[i2]) {
                proof {
                    if valid_encoding(bytes@) {
                        assert(saved_board(bytes@)[i2 as int] == decode_cell(bytes@[i2 as int]));
                        assert(saved_board(bytes@) == replay(saved_history(bytes@)));
                        assert(false);
                    }
                }
                return Err(LoadError::CorruptSave);
            }
            i2 = i2 + 1;
        }
        proof {
            assert(saved_board(bytes@) =~= board@);
        }

        // The stored status must be the one the history produced.
        let status = if n_moves == 0 {
            GameStatus::Ongoing
        } else if last_win {
            let winner = hist[n_moves - 1].player;
            GameStatus::WonBy(winner)
        } else if n_moves == CELL_COUNT {
            GameStatus::Draw
        } else {
            GameStatus::Ongoing
        };
        proof {
            if n_moves > 0 {
                assert(hist@.last() == hist@[n_moves - 1]);
            }
            assert(status == status_after(board@, hist@));
        }
        if status_byte != status_code_x(status) {
            proof {
                if valid_encoding(bytes@) {
                    assert(saved_status(bytes@) == status_after(
                        saved_board(bytes@),
                        saved_history(bytes@),
                    ));
                    assert(false);
                }
            }
            return Err(LoadError::CorruptSave);
        }

        // The stored player to move must be the one the history and
        // status produce.
        let expected_player = match status {
            GameStatus::Ongoing => player_of_turn_x(n_moves),
            GameStatus::WonBy(p) => p,
            GameStatus::Draw => player_of_turn_x(n_moves - 1),
        };
        if player_byte != player_code_x(expected_player) {
            proof {
                if valid_encoding(bytes@) {
                    assert(false);
                }
            }
            return Err(LoadError::CorruptSave);
        }

        let session = GomokuApp {
            board,
            current_player: expected_player,
            history: hist,
            status,
        };
        proof {
            assert(saved_player(bytes@) == expected_player);
            assert(saved_status(bytes@) == status);
            assert(session.wf());
            assert(bytes@.len() >= MOVES_POS);
            assert(saved_len(bytes@) <= CELL_COUNT);
            assert(bytes@.len() == MOVES_POS + 3 * saved_len(bytes@));
            assert(cell_bytes_in_range(bytes@));
            assert(bytes@[PLAYER_POS as int] == 1 || bytes@[PLAYER_POS as int] == 2);
            assert(bytes@[STATUS_POS as int] <= 3);
            assert(record_bytes_in_range(bytes@)) by {
                assert(saved_len(bytes@) == n_moves);
                assert forall|j: int| 0 <= j < saved_len(bytes@) implies {
                    &&& ((#[trigger] bytes@[MOVES_POS + 3 * j]) == 1 || bytes@[MOVES_POS + 3 * j]
                        == 2)
                    &&& bytes@[MOVES_POS + 3 * j + 1] < BOARD_SIZE
                    &&& bytes@[MOVES_POS + 3 * j + 2] < BOARD_SIZE
                } by {}
            }
            assert(wf_parts(
                saved_board(bytes@),
                saved_player(bytes@),
                saved_history(bytes@),
                saved_status(bytes@),
            ));
            lemma_assemble_valid_encoding(bytes@);
        }
        Ok(session)
    }
}

/// Law: saving and loading round-trip. The encoding of any well-formed
/// session is a valid save, and the parts stored in it are exactly the
/// session's own board, player to move, history, and status. Together
/// with the contracts of `serialize` and `deserialize` this says that
/// deserializing a serialized session succeeds and reproduces it
/// exactly.
/// A byte sequence whose shape is right, whose bytes are in range, and
/// whose stored parts form a well-formed session is a valid save.
proof fn lemma_assemble_valid_encoding(bytes: Seq<u8>)
    requires
        bytes.len() >= MOVES_POS,
        saved_len(bytes) <= CELL_COUNT,
        bytes.len() == MOVES_POS + 3 * saved_len(bytes),
        cell_bytes_in_range(bytes),
        bytes[PLAYER_POS as int] == 1 || bytes[PLAYER_POS as int] == 2,
        bytes[STATUS_POS as int] <= 3,
        record_bytes_in_range(bytes),
        wf_parts(saved_board(bytes), saved_player(bytes), saved_history(bytes), saved_status(bytes)),
    ensures
        valid_encoding(bytes),
{
}

/// The board section of an encoding stores the session's board.
proof fn lemma_saved_board_of_encoding(s: GomokuApp)
    requires
        s.wf(),
    ensures
        saved_board(session_bytes(s)) == s.board@,
        cell_bytes_in_range(session_bytes(s)),
{
    let b = session_bytes(s);
    assert forall|i: int| 0 <= i < CELL_COUNT implies #[trigger] b[i] <= 2 && decode_cell(b[i])
        == s.board@[i] by {
        assert(b[i] == cell_code(s.board@[i]));
    }
    assert(saved_board(b) =~= s.board@);
}

/// The move records of an encoding store the session's history, each
/// byte in range.
proof fn lemma_saved_history_of_encoding(s: GomokuApp)
    requires
        s.wf(),
    ensures
        saved_len(session_bytes(s)) == s.history@.len(),
        saved_history(session_bytes(s)) == s.history@,
        record_bytes_in_range(session_bytes(s)),
{
    let b = session_bytes(s);
    let h = s.history@;
    let n = h.len() as int;
    assert(b[LEN_POS as int] == h.len() as u8);
    assert(saved_len(b) == n);

    assert forall|k: int| 0 <= k < n implies {
        &&& ((#[trigger] b[MOVES_POS + 3 * k]) == player_code(h[k].player))
        &&& b[MOVES_POS + 3 * k + 1] == h[k].row as u8
        &&& b[MOVES_POS + 3 * k + 2] == h[k].col as u8
        &&& on_board(h[k].row as int, h[k].col as int)
    } by {
        lemma_record_offsets(k);
        assert(entry_ok(h, k));
    }
    assert forall|k: int| 0 <= k < n implies #[trigger] saved_history(b)[k] == h[k] by {
        assert(entry_ok(h, k));
        assert(saved_history(b)[k].player == h[k].player);
        assert(saved_history(b)[k].row == h[k].row);
        assert(saved_history(b)[k].col == h[k].col);
    }
    assert(saved_history(b) =~= h);

    assert(record_bytes_in_range(b)) by {
        assert forall|k: int| 0 <= k < saved_len(b) implies {
            &&& ((#[trigger] b[MOVES_POS + 3 * k]) == 1 || b[MOVES_POS + 3 * k] == 2)
            &&& b[MOVES_POS + 3 * k + 1] < BOARD_SIZE
            &&& b[MOVES_POS + 3 * k + 2] < BOARD_SIZE
        } by {
            assert(b[MOVES_POS + 3 * k] == player_code(h[k].player));
            assert(on_board(h[k].row as int, h[k].col as int));
        }
    }
}

/// Law: saving and loading round-trip. The encoding of any well-formed
/// session is a valid save, and the parts stored in it are exactly the
/// session's own board, player to move, history, and status. Together
/// with the contracts of `serialize` and `deserialize` this says that
/// deserializing a serialized session succeeds and reproduces it
/// exactly.
pub proof fn lemma_save_load_round_trip(s: GomokuApp)
    requires
        s.wf(),
    ensures
        valid_encoding(session_bytes(s)),
        saved_board(session_bytes(s)) == s.board@,
        saved_player(session_bytes(s)) == s.current_player,
        saved_history(session_bytes(s)) == s.history@,
        saved_status(session_bytes(s)) == s.status,
{
    let b = session_bytes(s);
    lemma_saved_board_of_encoding(s);
    lemma_saved_history_of_encoding(s);
    assert(b.len() == MOVES_POS + 3 * saved_len(b));
    assert(b[PLAYER_POS as int] == player_code(s.current_player));
    assert(b[STATUS_POS as int] == status_code(s.status));
    assert(saved_player(b) == s.current_player);
    assert(saved_status(b) == s.status);
    assert(wf_parts(saved_board(b), saved_player(b), saved_history(b), saved_status(b)));
    lemma_assemble_valid_encoding(b);
}

/// The three bytes of move record `k` sit at offsets whose division by
/// the record size recovers `k` and the position within the record.
proof fn lemma_record_offsets(k: int)
    requires
        0 <= k,
    ensures
        (MOVES_POS + 3 * k - MOVES_POS) / 3 == k,
        (MOVES_POS + 3 * k - MOVES_POS) % 3 == 0,
        (MOVES_POS + 3 * k + 1 - MOVES_POS) / 3 == k,
        (MOVES_POS + 3 * k + 1 - MOVES_POS) % 3 == 1,
        (MOVES_POS + 3 * k + 2 - MOVES_POS) / 3 == k,
        (MOVES_POS + 3 * k + 2 - MOVES_POS) % 3 == 2,
{
    lemma_fundamental_div_mod_converse(3 * k, 3, k, 0);
    lemma_fundamental_div_mod_converse(3 * k + 1, 3, k, 1);
    lemma_fundamental_div_mod_converse(3 * k + 2, 3, k, 2);
}

} // verus!
