//! The move search: caches of per-position statistics and the controller
//! that drives speculative plays, playouts and move ranking.

pub mod analytics;
pub mod game_state;
pub mod game_tree;
pub mod mred;
