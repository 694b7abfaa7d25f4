//! Discovery of pointer paths: chains of pointer dereferences plus small
//! byte offsets that lead from a stable storage location (ideally inside a
//! process's main executable image) to a known live address.
//!
//! The library works against an immutable [`snapshot::Snapshot`] of a
//! process's readable memory.

pub mod parse;
pub mod search;
pub mod snapshot;
