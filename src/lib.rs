//! Turns the two text streams printed by a test harness (the diagnostic
//! stream, which announces each test runner, and the result stream, which
//! holds one block of outcomes per runner) into a namespace tree of test
//! outcomes, with pass / fail / ignore counts and times at every level.
//!
//! * [`grammar`]: the line shapes of both streams, recognised line by line
//! * [`parsing`]: runner classification, result blocks, and the correlation
//!   of runners with blocks, grouped by package
//! * [`prettify`]: the namespace tree of one block and its drawing
//! * [`summary`]: the summary texts of statistics
//! * [`fetch`]: the whole pipeline, from the two streams to one drawn tree
//! * [`cli`]: the colour choice and the arguments passed on to `cargo test`
//! * [`laws`]: laws that relate these functions
//! * [`order`], [`text`], [`style`]: string order and sorting, character
//!   helpers, terminal colours

pub mod cli;
pub mod fetch;
pub mod grammar;
pub mod laws;
pub mod order;
pub mod parsing;
pub mod prettify;
pub mod style;
pub mod summary;
pub mod text;
