//! Full-optimal parsing: the parts of it that do not weigh costs in fractions of bits.
//!
//! Matches of all lengths are found for each position, kept in a cache, and handed to
//! a parser that weighs them. What it decides comes back as a path through the block,
//! which is turned into literals and matches and written.

pub mod cache;
pub mod chain;
pub mod finder;
pub mod search;
pub mod search_laws;
pub mod split;
pub mod squeeze;
pub mod store;
pub mod write;
