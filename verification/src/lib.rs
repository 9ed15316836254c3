//! A directed-graph engine indexed by recyclable identifiers.
//!
//! `utility::idregistry` hands out and takes back unique identifiers.
//! `math::graph` stores vertices and edges under such identifiers, changes
//! the graph by single-use mutators, walks it breadth first under a visitor,
//! and finds paths that are shortest by the number of edges.
//!
//! Every function states what it does over a mathematical view of its data:
//! `RegistryView` for a registry, `GraphView` for a graph, with walks and
//! distances in `math::graph::reach` and the breadth-first order in
//! `math::graph::search`.

pub mod math;
pub mod utility;
