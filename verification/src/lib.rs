//! Resolution of conditional permission trees under deny-override.
//!
//! A [`permission::ConditionalPermission`] is a tree of access rules. Resolving
//! it against an [`condition::Environment`], which tests the conditions at its
//! leaves, gives one opinion: allow, deny, or none at all; or the failure of
//! the environment.
//!
//! - [`condition`]: the environment a tree is resolved against.
//! - [`opinion`]: how two opinions, and a sequence of them, combine.
//! - [`outcome`]: how the outcomes of several rules, failures among them,
//!   are gathered into one.
//! - [`permission`]: permissions, trees, and `resolve`.
//! - [`theory`]: what holds of resolution in general.

pub mod condition;
pub mod opinion;
pub mod outcome;
pub mod permission;
pub mod theory;
