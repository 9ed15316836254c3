//! Supporting data structures.

pub mod idregistry;
