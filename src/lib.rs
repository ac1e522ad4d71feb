//! A functional model of a set-associative cache with least-recently-used
//! replacement, driven by a memory-access trace.
pub mod address;
pub mod cache;
pub mod trace;
pub mod lemmas;
