//! What holds of resolution in general.
//!
//! - [`aggregates`]: the outcome of an aggregate, from the outcomes of its
//!   rules.
//! - [`nesting`]: an aggregate among the rules of an aggregate.
//! - [`failures`]: which answers stand behind a success or a failure.
//! - [`decided`]: environments whose answers are decided.
//! - [`conditions`]: the order of the conditions of a tree.

pub mod aggregates;
pub mod conditions;
pub mod decided;
pub mod failures;
pub mod nesting;
