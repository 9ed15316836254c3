//! Mathematical structures.

pub mod graph;
