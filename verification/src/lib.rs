//! Solutions to a series of small text-puzzle exercises.
//!
//! Each module parses one puzzle's line-oriented input format and computes
//! the puzzle's answers.  The largest piece is the terminal-session parser
//! and the directory-tree aggregator built on top of it.

pub mod calories;
pub mod cleanup;
pub mod filesystem;
pub mod rucksack;
pub mod rucksack_badges;
pub mod rucksack_shared;
pub mod signal;
pub mod stacks;
pub mod strategy;
pub mod strategy_outcome;
pub mod terminal;
pub mod text;
