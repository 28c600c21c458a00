//! Randomized bounded falsification for word-level transition systems.
//!
//! Given a transition system (bit-vector expressions interned in an IR
//! context) with inputs, states, environmental constraints and safety ("bad")
//! predicates, the library searches for a concrete input trace that drives
//! the system into a state where a bad predicate holds.  On a hit it replays
//! the episode deterministically and records a witness.

use vstd::prelude::*;

pub mod constraints;
pub mod ir;
pub mod random;
pub mod rng;
pub mod sim;
pub mod witness;

pub use random::random_testing;
pub use random::RandomOptions;
pub use witness::ModelCheckResult;
pub use witness::Witness;

verus! {

/// Cycle indices and cycle budgets are counted in this type.
pub type StepInt = u64;

} // verus!
