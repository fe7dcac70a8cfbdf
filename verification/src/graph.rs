//! Directed graphs over interchangeable adjacency storage.

pub mod dijkstra;
pub mod structure;
