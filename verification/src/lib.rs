//! A call-graph and implementation-graph builder over per-file symbol
//! outlines and call-hierarchy query results.
//!
//! Files are registered one at a time; each registration filters the file's
//! symbol outline through a language policy and stores a position-sorted
//! symbol tree. Buffered call and implementation queries are later resolved
//! against the registered symbols into a deduplicated edge set, recovering
//! nested symbols that the outline never listed where that is allowed.

pub mod cluster;
pub mod generator;
pub mod graph;
pub mod lang;
pub mod recovery;
pub mod types;
