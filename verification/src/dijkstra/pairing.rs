//! Dijkstra's algorithm on a pairing heap.
use crate::dijkstra::heap_trait::PriorityQueue;
use crate::graph::{adjacency, edges_in_range, is_path_and_distance};
use crate::pairing::{PairingHandle, PairingHeap};
use vstd::multiset::Multiset;
use vstd::prelude::*;

verus! {

/// A pairing heap serves Dijkstra's algorithm: every inserted entry has a handle through
/// which `decrease_key` lowers its key in place.
impl PriorityQueue for PairingHeap {
    type Handle = PairingHandle;

    open spec fn wf(&self) -> bool {
        self.well_formed()
    }

    open spec fn items(&self) -> Multiset<(u32, usize)> {
        self@
    }

    open spec fn floor(&self) -> u32 {
        0
    }

    open spec fn seen(&self, node: usize) -> bool {
        self.holds_node(node)
    }

    open spec fn entry_of(&self, handle: PairingHandle) -> Option<(u32, usize)> {
        PairingHeap::entry_of(self, handle)
    }

    open spec fn accepts(&self, key: u32, node: usize) -> bool {
        true
    }

    open spec fn decreases_in_place() -> bool {
        true
    }

    open spec fn spec_key_limit() -> u32 {
        u32::MAX
    }

    open spec fn node_limit() -> nat {
        usize::MAX as nat
    }

    proof fn lemma_accepts(&self, key: u32, node: usize) {
    }

    proof fn lemma_key_limit_positive() {
    }

    fn key_limit(&self) -> (r: u32) {
        u32::MAX
    }

    fn insert(&mut self, key: u32, node_id: usize) -> (handle: PairingHandle) {
        PairingHeap::insert(self, key, node_id)
    }

    fn extract_min(&mut self) -> (r: Option<(u32, usize)>) {
        let r = PairingHeap::extract_min(self);
        proof {
            if r is Some {
                let hx = choose|hx: PairingHandle|
                    {
                        &&& #[trigger] old(self).entry_of(hx) == r
                        &&& self.entry_of(hx) is None
                        &&& forall|h: PairingHandle| h != hx ==> #[trigger] self.entry_of(h) == old(self).entry_of(h)
                    };
                assert forall|h: PairingHandle|
                    (#[trigger] old(self).entry_of(h)) is Some && r != old(self).entry_of(h) implies self.entry_of(h)
                    == old(self).entry_of(h) by {
                    if h == hx {
                        assert(old(self).entry_of(h) == r);
                    }
                }
            }
        }
        r
    }

    fn supports_decrease_key(&self) -> (r: bool) {
        true
    }

    fn decrease_key(&mut self, handle: &PairingHandle, new_key: u32) {
        proof {
            self.lemma_entries();
        }
        PairingHeap::decrease_key(self, handle, new_key);
    }
}

/// Dijkstra's algorithm using a pairing heap.
///
/// Returns the nodes of a shortest path from `start` to `end` with its total weight, or
/// an empty vector and `None` when
/// `end` cannot be reached from `start` by a walk lighter than `u32::MAX`.
pub fn dijkstra_pairing(start: usize, end: usize, graph: &[Vec<(usize, u32)>]) -> (r: (Vec<usize>, Option<u32>))
    requires
        start < graph@.len(),
        end < graph@.len(),
        edges_in_range(adjacency(graph)),
    ensures
        is_path_and_distance(adjacency(graph), start, end, u32::MAX as int, r.0@, r.1),
{
    let heap = PairingHeap::new();
    proof {
        assert(heap.items().len() == 0);
    }
    crate::dijkstra::dijkstra(start, end, graph, heap)
}

} // verus!
