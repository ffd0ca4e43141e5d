//! Cross-step profile statistics for device execution traces.
//!
//! The crate ingests typed trace events (kernel launches, memory copies,
//! memory sets and step markers), groups device operations under their
//! enclosing step, aligns repeated occurrences of the same operation
//! sequence across steps, and reports per-position averages together with
//! inter-operation idle ("bubble") time.  All times are integer ticks of
//! one device clock; reading the raw trace container and writing the
//! report file are left to the caller.

pub mod collect;
pub mod extractor;
pub mod model;
pub mod names;
pub mod profile_stats;
pub mod segment;
pub mod shape;
pub mod stats;
pub mod sort;
pub mod time;
