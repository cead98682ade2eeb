//! Analysis advisers: a capability that turns a position into verdicts.

use vstd::prelude::*;

use crate::game::Game;
use crate::mcts::analytics::vote::Vote;

verus! {

/// An adviser that analyses a position and yields verdicts on points.
pub trait Minister {
    /// The verdicts for the given position.
    fn analyse(game: &Game) -> Vec<Vote>;
}

} // verus!
