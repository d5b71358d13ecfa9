//! Exact cubeless-equity solver for finite-checker backgammon variants.
//!
//! The crate enumerates every board position reachable from a variant's
//! starting position, ranks each position into a dense index range with a
//! combinatorial-number-system bijection, precomputes the dice-weighted
//! transition relation, and solves the zero-sum Bellman fixed point over a
//! fixed-point-scaled equity table.  Move generation itself is supplied by
//! the `bkgm` game-rules crate behind a narrow trusted boundary.

pub mod codec;
pub mod comb;
pub mod dice;
pub mod enumerate;
pub mod equity;
pub mod evaluator;
pub mod index;
pub mod movegen;
pub mod position;
pub mod probabilities;
pub mod solver;
