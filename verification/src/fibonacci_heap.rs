//! A Fibonacci heap with the textbook order of `extract_min`, under the names `FibonacciHeap`
//! and `Node`: the same heap as [`UnsafeFibonacciHeap`](crate::fibonacci::UnsafeFibonacciHeap).
use vstd::prelude::*;

verus! {

/// A Fibonacci heap whose `extract_min` moves the children of the minimum to the end of
/// the root list.
pub type FibonacciHeap = crate::fibonacci::heap_unsafe::UnsafeFibonacciHeap;

/// A node of a [`FibonacciHeap`].
pub type Node = crate::fibonacci::safe::Node;

} // verus!
