//! Shortest weighted paths with Dijkstra's algorithm over interchangeable priority queues.
pub mod graph;
pub mod dijkstra;
pub mod text;
pub mod radix;
pub mod dial;
pub mod pairing;
pub mod fibonacci;
pub mod fibonacci_heap;
