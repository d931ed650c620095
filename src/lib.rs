//! Ranked-choice vote tallying: ballot validation, a pending-vote cache,
//! committed ballots in a shared-prefix tree, and an instant-runoff
//! elimination engine.

pub mod aggregator;
pub mod codec;
pub mod pending;
pub mod tally;
pub mod trie;
