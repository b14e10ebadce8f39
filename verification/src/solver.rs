//! Decisions, views of them, and the context that propagators act on.

pub mod brancher;
pub mod diff_lits;
pub mod domain;
pub mod engine;
pub mod inference;
pub mod initialization;
pub mod int_view;
pub mod reason;
pub mod solving_context;
pub mod view;
