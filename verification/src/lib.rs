//! Verified algorithms and data structures: a binary-heap priority queue,
//! adjacency-list graph storage with single-source shortest paths on top of
//! both, two sorting algorithms and two small exercises in tabulation.

pub mod datastructures;
pub mod graph;
pub mod s3;
pub mod s6;
pub mod sorting_algorithms;
