//! A character-frequency counting library.
//!
//! The engine consumes a sequence of characters together with a filter
//! predicate and produces a frequency map: each accepted character maps to
//! the number of times it occurred. Partial maps produced from independent
//! inputs are combined with an associative, commutative merge.

pub mod filter;
pub mod freq;
