//! A verified engine for turn-based, multi-player board games.
//!
//! Players create a game room, others join, the owner starts the game once
//! enough players are present, and players then submit moves in turn until the
//! game reaches a terminal outcome.  The crate provides:
//!
//! - the abstract game contract that a concrete variant implements,
//! - a six-in-a-row board variant with verified win detection,
//! - a write-through cache of in-progress games over a keyed record store,
//!   proved never to diverge from the store.

pub mod codec;
pub mod game;
pub mod game_manage;
pub mod gomoku;
pub mod models;
pub mod shared;
pub mod store;
pub mod tic_tac_toe;
