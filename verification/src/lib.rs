//! Searches for "doublings" of grid jigsaw puzzles: alternate assemblies of the
//! same pieces in which every seam of the puzzle as it was made is cut.
//!
//! The question is compiled to a boolean formula in conjunctive normal form and
//! handed to a satisfiability solver; every model is decoded and then excluded
//! so that the next query yields a different one.
//!
//! - [`literal`], [`formula`]: literals, clauses and formulas, and what it
//!   means to satisfy them.
//! - [`sat`], [`gates`], [`cardinality`]: the formula under construction, with
//!   clauses, gates and counters; [`oracle`] is the solver behind it.
//! - [`puzzle`], [`walk`]: what a puzzle is, the grid puzzle, and what follows
//!   for every puzzle from its laws.
//! - [`encoding`], [`doubler`], [`tables`]: the construction of the formula
//!   for a puzzle, stage by stage, and the search that enumerates its models.
//! - [`orbits`], [`meaning`], [`ending`], [`complete`]: what the formula says:
//!   its models are the doublings, no more and no less.
//! - [`exhaustion`]: why the search ends.
//! - [`sorting`], [`text`]: sorting and strings.
pub mod literal;
pub mod oracle;
pub mod formula;
pub mod sat;
pub mod gates;
pub mod cardinality;
pub mod puzzle;
pub mod walk;
pub mod tables;
pub mod sorting;
pub mod text;
pub mod encoding;
pub mod doubler;
pub mod meaning;
pub mod orbits;
pub mod ending;
pub mod complete;
pub mod exhaustion;
