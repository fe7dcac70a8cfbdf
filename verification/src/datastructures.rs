//! General-purpose containers.

pub mod heap;
