//! Propagators for the constraints of the library.

pub mod cumulative_slack;
pub mod diff_bounds;
pub mod diff_gates;
pub mod diff_graph;
pub mod diff_lit;
pub mod diff_paths;
pub mod diff_propagation;
pub mod diff_propagator;
pub mod diff_reasons;
pub mod diff_shells;
pub mod difference_logic;
pub mod hall;
pub mod int_unique;
pub mod ranking;
pub mod slack;
