use gomoku::game::{
    column_index_to_letter, GomokuApp, GameStatus, InvalidMove, MoveOutcome, Player,
};

/// Plays the given moves, asserting each one is accepted.
fn play(s: &mut GomokuApp, moves: &[(usize, usize)]) {
    for &(r, c) in moves {
        let out = s.attempt_move(r, c);
        assert!(matches!(out, MoveOutcome::Applied(_)), "move at ({}, {}) rejected", r, c);
    }
}

#[test]
fn new_session_is_canonical() {
    let s = GomokuApp::new();
    assert_eq!(s.current_player, Player::Black);
    assert_eq!(s.status, GameStatus::Ongoing);
    assert_eq!(s.history.len(), 0);
    assert_eq!(s.board.len(), 225);
    assert!(s.board.iter().all(|c| c.is_none()));
}

#[test]
fn default_session_matches_new() {
    let d = GomokuApp::default();
    let n = GomokuApp::new();
    assert_eq!(d.board, n.board);
    assert_eq!(d.current_player, n.current_player);
    assert_eq!(d.history, n.history);
    assert_eq!(d.status, n.status);
}

#[test]
fn players_alternate_from_black() {
    let mut s = GomokuApp::new();
    let coords = [(0, 0), (1, 1), (2, 2), (3, 3), (4, 4), (5, 5)];
    for (i, &(r, c)) in coords.iter().enumerate() {
        let expected = if i % 2 == 0 { Player::Black } else { Player::White };
        assert_eq!(s.current_player, expected);
        let out = s.attempt_move(r, c);
        assert_eq!(out, MoveOutcome::Applied(GameStatus::Ongoing));
        assert_eq!(s.history[i].player, expected);
    }
    assert_eq!(s.current_player, Player::Black);
}

#[test]
fn replaying_history_reproduces_board() {
    let mut s = GomokuApp::new();
    play(&mut s, &[(7, 7), (0, 0), (7, 8), (0, 1), (6, 3)]);
    let mut replayed: Vec<Option<Player>> = vec![None; 225];
    for e in s.history.iter() {
        replayed[e.row * 15 + e.col] = Some(e.player);
    }
    assert_eq!(replayed, s.board);
}

#[test]
fn undo_then_replay_restores_state() {
    let mut s = GomokuApp::new();
    play(&mut s, &[(7, 7), (8, 8), (7, 8)]);
    let board_before = s.board.clone();
    let hist_before = s.history.clone();
    let player_before = s.current_player;
    let status_before = s.status;

    assert!(s.undo());
    assert_eq!(s.board[7 * 15 + 8], None);
    assert_eq!(s.current_player, Player::Black);
    assert_eq!(s.history.len(), 2);

    let out = s.attempt_move(7, 8);
    assert_eq!(out, MoveOutcome::Applied(GameStatus::Ongoing));
    assert_eq!(s.board, board_before);
    assert_eq!(s.history, hist_before);
    assert_eq!(s.current_player, player_before);
    assert_eq!(s.status, status_before);
}

#[test]
fn undo_with_no_moves_is_noop() {
    let mut s = GomokuApp::new();
    assert!(!s.undo());
    assert_eq!(s.current_player, Player::Black);
    assert_eq!(s.status, GameStatus::Ongoing);
    assert_eq!(s.history.len(), 0);
    assert!(s.board.iter().all(|c| c.is_none()));
}

#[test]
fn reset_restores_canonical_state() {
    let mut s = GomokuApp::new();
    // Reach a won game, then reset.
    play(
        &mut s,
        &[(7, 3), (0, 0), (7, 4), (0, 1), (7, 5), (0, 2), (7, 6), (0, 3), (7, 7)],
    );
    assert_eq!(s.status, GameStatus::WonBy(Player::Black));
    s.reset_game();
    assert_eq!(s.current_player, Player::Black);
    assert_eq!(s.status, GameStatus::Ongoing);
    assert_eq!(s.history.len(), 0);
    assert!(s.board.iter().all(|c| c.is_none()));
    // Resetting again changes nothing.
    s.reset_game();
    assert_eq!(s.current_player, Player::Black);
    assert_eq!(s.status, GameStatus::Ongoing);
    assert_eq!(s.history.len(), 0);
    assert!(s.board.iter().all(|c| c.is_none()));
}

#[test]
fn occupied_cell_is_rejected() {
    let mut s = GomokuApp::new();
    play(&mut s, &[(5, 5), (6, 6)]);
    let board_before = s.board.clone();
    let hist_before = s.history.clone();
    let player_before = s.current_player;

    let out = s.attempt_move(5, 5);
    assert_eq!(out, MoveOutcome::Rejected(InvalidMove::CellOccupied));
    let out2 = s.attempt_move(6, 6);
    assert_eq!(out2, MoveOutcome::Rejected(InvalidMove::CellOccupied));

    assert_eq!(s.board, board_before);
    assert_eq!(s.history, hist_before);
    assert_eq!(s.current_player, player_before);
    assert_eq!(s.status, GameStatus::Ongoing);
}

#[test]
fn out_of_bounds_is_rejected() {
    let mut s = GomokuApp::new();
    let out = s.attempt_move(15, 0);
    assert_eq!(out, MoveOutcome::Rejected(InvalidMove::OutOfBounds));
    let out2 = s.attempt_move(0, 15);
    assert_eq!(out2, MoveOutcome::Rejected(InvalidMove::OutOfBounds));
    let out3 = s.attempt_move(usize::MAX, usize::MAX);
    assert_eq!(out3, MoveOutcome::Rejected(InvalidMove::OutOfBounds));
    assert_eq!(s.history.len(), 0);
    assert!(s.board.iter().all(|c| c.is_none()));
}

#[test]
fn win_exactly_on_fifth_stone() {
    let mut s = GomokuApp::new();
    // Black builds (7,3)..(7,6); White plays on row 0.
    play(&mut s, &[(7, 3), (0, 0), (7, 4), (0, 1), (7, 5), (0, 2), (7, 6), (0, 3)]);
    assert_eq!(s.status, GameStatus::Ongoing);

    // The fifth in a row wins, and the winner keeps the turn.
    let out = s.attempt_move(7, 7);
    assert_eq!(out, MoveOutcome::Applied(GameStatus::WonBy(Player::Black)));
    assert_eq!(s.status, GameStatus::WonBy(Player::Black));
    assert_eq!(s.current_player, Player::Black);
}

#[test]
fn vertical_and_diagonal_lines_win() {
    let mut s = GomokuApp::new();
    // Vertical line for Black in column 2.
    play(&mut s, &[(3, 2), (0, 0), (4, 2), (0, 1), (5, 2), (0, 2), (6, 2), (0, 3), (7, 2)]);
    assert_eq!(s.status, GameStatus::WonBy(Player::Black));

    // Down-right diagonal for White.
    let mut s2 = GomokuApp::new();
    play(
        &mut s2,
        &[
            (0, 14),
            (5, 5),
            (1, 14),
            (6, 6),
            (2, 14),
            (7, 7),
            (3, 14),
            (8, 8),
            (0, 13),
            (9, 9),
        ],
    );
    assert_eq!(s2.status, GameStatus::WonBy(Player::White));

    // Down-left diagonal for Black.
    let mut s3 = GomokuApp::new();
    play(
        &mut s3,
        &[(5, 9), (0, 0), (6, 8), (0, 1), (7, 7), (0, 2), (8, 6), (0, 3), (9, 5)],
    );
    assert_eq!(s3.status, GameStatus::WonBy(Player::Black));
}

#[test]
fn overline_counts_as_win() {
    let mut s = GomokuApp::new();
    // Black builds (7,3)..(7,6) and (7,8),(7,9); the joining stone at
    // (7,7) makes a run of seven, which still wins.
    play(
        &mut s,
        &[
            (7, 3),
            (0, 0),
            (7, 4),
            (0, 1),
            (7, 5),
            (0, 2),
            (7, 6),
            (0, 3),
            (7, 8),
            (1, 0),
            (7, 9),
            (1, 1),
        ],
    );
    assert_eq!(s.status, GameStatus::Ongoing);
    let out = s.attempt_move(7, 7);
    assert_eq!(out, MoveOutcome::Applied(GameStatus::WonBy(Player::Black)));
}

#[test]
fn game_over_locks_out_moves() {
    let mut s = GomokuApp::new();
    play(
        &mut s,
        &[(7, 3), (0, 0), (7, 4), (0, 1), (7, 5), (0, 2), (7, 6), (0, 3), (7, 7)],
    );
    assert_eq!(s.status, GameStatus::WonBy(Player::Black));
    let board_before = s.board.clone();
    let hist_before = s.history.clone();

    let out = s.attempt_move(10, 10);
    assert_eq!(out, MoveOutcome::Rejected(InvalidMove::GameOver));
    assert_eq!(s.status, GameStatus::WonBy(Player::Black));
    assert_eq!(s.board, board_before);
    assert_eq!(s.history, hist_before);
}

#[test]
fn undo_reopens_after_win() {
    let mut s = GomokuApp::new();
    play(
        &mut s,
        &[(7, 3), (0, 0), (7, 4), (0, 1), (7, 5), (0, 2), (7, 6), (0, 3), (7, 7)],
    );
    assert_eq!(s.status, GameStatus::WonBy(Player::Black));

    assert!(s.undo());
    assert_eq!(s.status, GameStatus::Ongoing);
    assert_eq!(s.board[7 * 15 + 7], None);
    assert_eq!(s.current_player, Player::Black);

    // Play resumes: Black may move elsewhere.
    let out = s.attempt_move(10, 10);
    assert_eq!(out, MoveOutcome::Applied(GameStatus::Ongoing));
}

#[test]
fn alternating_fill_ends_in_draw() {
    // A coloring with no five in a row anywhere: cell (r, c) is Black
    // when (c + 2r) mod 4 < 2. Rows alternate pairs of colors with a
    // shift of two per row, so no line of any direction holds more than
    // two like-colored cells in a row.
    let mut blacks: Vec<(usize, usize)> = Vec::new();
    let mut whites: Vec<(usize, usize)> = Vec::new();
    for r in 0..15 {
        for c in 0..15 {
            if (c + 2 * r) % 4 < 2 {
                blacks.push((r, c));
            } else {
                whites.push((r, c));
            }
        }
    }
    assert_eq!(blacks.len(), 113);
    assert_eq!(whites.len(), 112);

    let mut s = GomokuApp::new();
    for i in 0..225 {
        let (r, c) = if i % 2 == 0 { blacks[i / 2] } else { whites[i / 2] };
        let out = s.attempt_move(r, c);
        if i < 224 {
            assert_eq!(out, MoveOutcome::Applied(GameStatus::Ongoing));
        } else {
            assert_eq!(out, MoveOutcome::Applied(GameStatus::Draw));
        }
    }
    assert_eq!(s.status, GameStatus::Draw);
    assert_eq!(s.history.len(), 225);

    // A full board accepts no further move.
    let out = s.attempt_move(0, 0);
    assert_eq!(out, MoveOutcome::Rejected(InvalidMove::GameOver));

    // Undo reopens play even from a draw.
    assert!(s.undo());
    assert_eq!(s.status, GameStatus::Ongoing);
}

#[test]
fn count_stones_in_direction_counts_runs() {
    let mut s = GomokuApp::new();
    play(&mut s, &[(7, 3), (0, 0), (7, 4), (0, 1), (7, 5), (0, 2)]);
    // From (7,3) looking right: two more Black stones.
    assert_eq!(s.count_stones_in_direction(7, 3, 0, 1, Player::Black), 2);
    // From (7,5) looking left: two more Black stones.
    assert_eq!(s.count_stones_in_direction(7, 5, 0, -1, Player::Black), 2);
    // From (7,4): one on either side.
    assert_eq!(s.count_stones_in_direction(7, 4, 0, 1, Player::Black), 1);
    assert_eq!(s.count_stones_in_direction(7, 4, 0, -1, Player::Black), 1);
    // No White stones in that row.
    assert_eq!(s.count_stones_in_direction(7, 4, 0, 1, Player::White), 0);
    // Nothing vertically below (7,3).
    assert_eq!(s.count_stones_in_direction(7, 3, 1, 0, Player::Black), 0);
}

#[test]
fn check_win_reports_and_records_a_line() {
    let mut s = GomokuApp::new();
    play(&mut s, &[(7, 3), (0, 0), (7, 4), (0, 1), (7, 5), (0, 2), (7, 6), (0, 3)]);
    // Four in a row is not a win.
    assert!(!s.check_win(7, 6, Player::Black));
    assert_eq!(s.status, GameStatus::Ongoing);
}

#[test]
fn cell_reads_the_board() {
    let mut s = GomokuApp::new();
    play(&mut s, &[(7, 7), (3, 4)]);
    assert_eq!(s.cell(7, 7), Some(Player::Black));
    assert_eq!(s.cell(3, 4), Some(Player::White));
    assert_eq!(s.cell(0, 0), None);
}

#[test]
fn column_letters() {
    assert_eq!(column_index_to_letter(0), 'A');
    assert_eq!(column_index_to_letter(1), 'B');
    assert_eq!(column_index_to_letter(14), 'O');
    assert_eq!(column_index_to_letter(25), 'Z');
}
