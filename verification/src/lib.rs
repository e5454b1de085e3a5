//! Connectivity analysis of road networks read from OpenStreetMap extracts.
//!
//! A network is loaded in three passes over a stream of primitives: the first
//! collects the ids of the nodes that accepted ways use, the second keeps only
//! those nodes, the third links them. The finished [`graph::Graph`] is then
//! searched breadth first for its connected components.

pub mod connectivity;
pub mod drawing;
pub mod error;
pub mod graph;
pub mod laws;
pub mod linking;
pub mod loader;
pub mod model;
pub mod network;
pub mod tags;
