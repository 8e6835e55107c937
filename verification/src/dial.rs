//! Dial's algorithm: a bucket queue indexed by exact distance.
pub mod heap;

pub use heap::{DialHandle, DialHeap};
