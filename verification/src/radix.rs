//! Radix heap: a priority queue for keys that never fall below the last extracted key.
pub mod heap;

pub use heap::{RadixHandle, RadixHeap};
