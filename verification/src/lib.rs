//! A Go (weiqi) rules engine: board state with an incrementally maintained
//! position fingerprint, a legality/capture/superko rule engine, flood-fill
//! territory scoring, and a simple random-playout move search.

pub mod board;
pub mod chains;
pub mod color;
pub mod coord;
pub mod game;
pub mod game_result;
pub mod gametree;
pub mod mcts;
pub mod moves;
pub mod numtext;
pub mod rank;
mod rng;
pub mod scorer;
pub mod sgf;
pub mod zobrist;
