//! Dijkstra's algorithm on a radix heap.
use crate::dijkstra::heap_trait::PriorityQueue;
use crate::graph::{adjacency, edges_in_range, is_path_and_distance};
use crate::radix::{RadixHandle, RadixHeap};
use vstd::multiset::Multiset;
use vstd::prelude::*;

verus! {

/// A radix heap serves Dijkstra's algorithm: keys never fall below the last extracted
/// one, and each node has at most one entry, whose key `decrease_key` lowers in place.
impl PriorityQueue for RadixHeap {
    type Handle = RadixHandle;

    open spec fn wf(&self) -> bool {
        self.well_formed() && self.tracks_all()
    }

    open spec fn items(&self) -> Multiset<(u32, usize)> {
        self@
    }

    open spec fn floor(&self) -> u32 {
        self.last_key()
    }

    open spec fn seen(&self, node: usize) -> bool {
        self.contains(node)
    }

    open spec fn entry_of(&self, handle: RadixHandle) -> Option<(u32, usize)> {
        RadixHeap::entry_of(self, handle)
    }

    open spec fn accepts(&self, key: u32, node: usize) -> bool {
        self.last_key() <= key && !self.contains(node) && node < usize::MAX
    }

    open spec fn decreases_in_place() -> bool {
        true
    }

    open spec fn spec_key_limit() -> u32 {
        u32::MAX
    }

    open spec fn node_limit() -> nat {
        usize::MAX as nat
    }

    proof fn lemma_accepts(&self, key: u32, node: usize) {
    }

    proof fn lemma_key_limit_positive() {
    }

    fn key_limit(&self) -> (r: u32) {
        u32::MAX
    }

    fn insert(&mut self, key: u32, node_id: usize) -> (handle: RadixHandle) {
        proof {
            self.lemma_room(node_id);
            self.lemma_entry_of_node(node_id);
        }
        let handle = RadixHeap::insert(self, key, node_id);
        proof {
            assert forall|h: RadixHandle| h != handle && (#[trigger] old(self).entry_of(h)) is Some implies self.entry_of(
                h,
            ) == old(self).entry_of(h) by {
                h.lemma_same_id(handle);
            }
        }
        handle
    }

    fn extract_min(&mut self) -> (r: Option<(u32, usize)>) {
        RadixHeap::extract_min(self)
    }

    fn supports_decrease_key(&self) -> (r: bool) {
        true
    }

    fn decrease_key(&mut self, handle: &RadixHandle, new_key: u32) {
        RadixHeap::decrease_key(self, handle, new_key);
        proof {
            assert forall|h: RadixHandle| h != *handle && (#[trigger] old(self).entry_of(h)) is Some implies self.entry_of(
                h,
            ) == old(self).entry_of(h) by {
                h.lemma_same_id(*handle);
            }
        }
    }
}

/// Dijkstra's algorithm using a radix heap.
///
/// Returns the nodes of a shortest path from `start` to `end` with its total weight, or
/// an empty vector and `None` when
/// `end` cannot be reached from `start` by a walk lighter than `u32::MAX`.
pub fn dijkstra_radix(start: usize, end: usize, graph: &[Vec<(usize, u32)>]) -> (r: (Vec<usize>, Option<u32>))
    requires
        start < graph@.len(),
        end < graph@.len(),
        edges_in_range(adjacency(graph)),
    ensures
        is_path_and_distance(adjacency(graph), start, end, u32::MAX as int, r.0@, r.1),
{
    // Pre-allocate with the number of nodes to avoid resizes
    let max_node_id = graph.len().saturating_sub(1);
    let heap = RadixHeap::with_capacity(max_node_id);
    proof {
        assert(heap.items().len() == 0);
    }
    crate::dijkstra::dijkstra(start, end, graph, heap)
}

} // verus!
