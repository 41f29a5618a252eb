//! Exact and heuristic solvers for splitting a quantity among profit-bearing
//! options, with machine-checked contracts.
//!
//! An option accepts a bounded integer amount and pays `amount * interest +
//! bonus`. A solver is given a list of options and a quantity `n`, and answers
//! with a combination: a list of `(option, amount)` pairs whose amounts add up
//! to at most `n`. The exact solvers return a combination of the greatest
//! possible value; the greedy solver returns a quick approximation.
//!
//! Money is kept in whole millionths, so every value in this crate is an
//! integer and every comparison is exact.
//!
//! - `opt`: options and combinations.
//! - `brute_force`, `overlapping_subproblems`, `optimal_substructure`,
//!   `dynamic_programming`: the exact solvers, from the plainest to the
//!   fastest.
//! - `greedy`: the heuristic.
//! - `method`: the solvers by name.
//! - `scaling`: solving at a coarser grain.
//! - `model`, `order`, `table`: what the contracts are stated over.
//! - `laws`: what holds of the solvers together.
//! - `lemmas`, `scan`, `solution_set`: what the proofs are built from.

pub mod brute_force;
pub mod dynamic_programming;
pub mod greedy;
pub mod laws;
pub mod lemmas;
pub mod method;
pub mod model;
pub mod opt;
pub mod optimal_substructure;
pub mod order;
pub mod overlapping_subproblems;
pub mod scaling;
pub mod scan;
pub mod solution_set;
pub mod table;
