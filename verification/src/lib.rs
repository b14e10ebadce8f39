//! Constraint propagators over integer decisions, with verified contracts.
//!
//! - [`helpers`]: the data structures that the propagators are built on.
//! - [`solver`]: views of decisions, and the context that holds their domains.
//! - [`constraints`]: the propagators.
//! - [`model`]: the collection and simplification of difference constraints.

pub mod constraints;
pub mod helpers;
pub mod model;
pub mod solver;
