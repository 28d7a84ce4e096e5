//! Game engine for a stacking variant of tic-tac-toe: two players place
//! chips of three sizes on a 3x3 board, a larger chip may cover a smaller
//! one, and three cells in a line under one owner win.
//!
//! - [`state`] holds the executable types: chips, moves, results and the
//!   game state.
//! - [`position`] holds the mathematical model of a state and the rules of
//!   the game stated over it.
//! - [`rules`] reads the outcome off the board, enumerates the legal moves
//!   and makes a move.
//! - [`fingerprint`] packs a state into one integer and back.
//! - [`solver`] computes the value of a position under best play, with a
//!   table of the positions already solved.
//! - [`policy`] chooses a move among the best.
//! - [`service`] answers a request for a move.

pub mod fingerprint;
pub mod policy;
pub mod position;
pub mod rules;
pub mod service;
pub mod solver;
pub mod state;
