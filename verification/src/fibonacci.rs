//! Fibonacci heaps.
pub mod heap_unsafe;
pub mod safe;

pub use heap_unsafe::{UnsafeFibonacciHeap, UnsafeNode};
pub use safe::{FibHandle, FibonacciHeap, Node};
