//! Sorting algorithms, each with its running time.

pub mod heap_sort;
pub mod merge_sort;
