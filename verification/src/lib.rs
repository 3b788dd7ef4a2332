//! Core of a two-player Gomoku (five-in-a-row) game: board state, move
//! legality, win and draw detection, undo via the move history, and a
//! self-describing byte format for saving and loading a session.
//!
//! A presentation layer renders the exposed state and forwards discrete
//! intents (a move attempt at a row and column, undo, reset, save, load);
//! the types here are the sole owners and mutators of game state.

pub mod codec;
pub mod game;
