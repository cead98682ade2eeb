//! Pluggable analysis capabilities around the search.

pub mod brain_keeper;
pub mod minister;
pub mod vote;
