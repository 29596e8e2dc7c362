//! Solvers for two small text puzzles.
//!
//! The first solver parses lines of nested integer lists into [`value::Value`]
//! trees, compares them under a custom total order, and reports two signals:
//! the sum of the 1-based indices of adjacent pairs that are in order, and the
//! product of the 1-based positions of two sentinel values after sorting.
//!
//! The second solver replays a terminal transcript describing a directory
//! tree and aggregates directory sizes.

pub mod day13;
pub mod day7;
pub mod lines;
pub mod order;
pub mod parse;
pub mod render;
pub mod sorting;
pub mod value;
