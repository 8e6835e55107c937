//! Pairing heap: a heap-ordered tree with cheap insertion and key decrease.
pub mod heap;

pub use heap::{Node, PairingHandle, PairingHeap};
