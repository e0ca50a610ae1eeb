//! Core of a turn-based, stakes-bearing chain-reaction grid game.
//!
//! Players place orbs on a shared board; a cell at or over its capacity
//! explodes and feeds its orthogonal neighbors, cascading until the board is
//! stable; a player left without orbs is eliminated, and the last survivor
//! wins the match.
//!
//! - [`board`] models the grid: cells, per-cell capacities, board sizing,
//!   and orb-count sums.
//! - [`engine`] resolves one placement into a fully cascaded board, pinned
//!   to a functional specification so that replaying a move log reproduces
//!   every board exactly.
//! - [`game`] is the turn/match state machine over a [`game::LobbyRoom`]:
//!   lobby lifecycle, roster, moves, timeout forfeits, and win detection,
//!   each action all-or-nothing.
//! - [`codec`] pins the board's durable textual interchange form.
//! - [`ids`] renders fresh identifiers from the wall clock.

pub mod board;
pub mod codec;
pub mod engine;
pub mod game;
pub mod ids;

pub use board::Board;
pub use board::Cell;
pub use game::GameError;
pub use game::LobbyRoom;
