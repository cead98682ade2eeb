//! The stopping policy of the search: a pluggable decision on whether to
//! keep thinking, from the playouts spent, the time spent, and the
//! current uncertainty.

use vstd::prelude::*;

verus! {

/// A stopping policy: whether the search should go on, given the
/// playouts so far, the elapsed milliseconds, and the current result
/// uncertainty.
pub trait BrainKeeper {
    /// Whether to continue searching.
    fn should_continue(&self, playouts: u32, millis: u32, win_est_range: u16) -> bool;
}

/// The stock stopping policy, configured with fixed bounds.
pub struct DefaultBrainKeeper {
    max_playouts: u32,
    max_millis: u32,
    min_win_est_range: u16,
}

impl DefaultBrainKeeper {
    /// The bounds of the stock policy.
    pub closed spec fn spec_max_playouts(&self) -> u32 {
        self.max_playouts
    }

    /// The time bound of the stock policy.
    pub closed spec fn spec_max_millis(&self) -> u32 {
        self.max_millis
    }

    /// The uncertainty bound of the stock policy.
    pub closed spec fn spec_min_win_est_range(&self) -> u16 {
        self.min_win_est_range
    }

    /// A policy with the given bounds.
    pub fn new(max_playouts: u32, max_millis: u32, min_win_est_range: u16) -> (r: Self)
        ensures
            r.spec_max_playouts() == max_playouts,
            r.spec_max_millis() == max_millis,
            r.spec_min_win_est_range() == min_win_est_range,
    {
        DefaultBrainKeeper { max_playouts, max_millis, min_win_est_range }
    }
}

impl BrainKeeper for DefaultBrainKeeper {
    /// The stock decision: keep searching while the playout and time
    /// budgets still have room and the uncertainty is still above the
    /// configured floor. The decision is monotone: once any budget is
    /// exhausted or the uncertainty is small enough, growing the spent
    /// inputs or shrinking the uncertainty never resumes the search.
    fn should_continue(&self, playouts: u32, millis: u32, win_est_range: u16) -> (r: bool)
        ensures
            r == (playouts < self.spec_max_playouts() && millis < self.spec_max_millis()
                && win_est_range > self.spec_min_win_est_range()),
    {
        playouts < self.max_playouts && millis < self.max_millis && win_est_range
            > self.min_win_est_range
    }
}

} // verus!
