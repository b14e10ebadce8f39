//! Data structures that the propagators are built on.

pub mod division;
pub mod fx;
pub mod priority_queue;
pub mod saturating;
pub mod shortest;
pub mod sorted;
pub mod timeline;
pub mod trail;
pub mod trailed_list;
pub mod trailed_open_list;
