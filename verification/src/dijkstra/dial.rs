//! Dijkstra's algorithm on Dial's bucket queue.
use crate::dial::heap::MAX_BUCKETS;
use crate::dial::{DialHandle, DialHeap};
use crate::dijkstra::heap_trait::PriorityQueue;
use crate::graph::{adjacency, edges_in_range, is_path_and_distance};
use vstd::multiset::Multiset;
use vstd::prelude::*;

verus! {

/// Dial's bucket queue serves Dijkstra's algorithm for distances below `MAX_BUCKETS`:
/// distances never fall below the current bucket, and each node has at most one entry,
/// whose distance `decrease_key` lowers in place.
impl PriorityQueue for DialHeap {
    type Handle = DialHandle;

    open spec fn wf(&self) -> bool {
        self.well_formed() && self.ordered()
    }

    open spec fn items(&self) -> Multiset<(u32, usize)> {
        self@
    }

    open spec fn floor(&self) -> u32 {
        self.current() as u32
    }

    open spec fn seen(&self, node: usize) -> bool {
        self.dist_of(node) != u32::MAX
    }

    open spec fn entry_of(&self, handle: DialHandle) -> Option<(u32, usize)> {
        DialHeap::entry_of(self, handle)
    }

    open spec fn accepts(&self, key: u32, node: usize) -> bool {
        &&& self.current() <= key
        &&& key < MAX_BUCKETS
        &&& self.dist_of(node) == u32::MAX
        &&& node < usize::MAX
    }

    open spec fn decreases_in_place() -> bool {
        true
    }

    open spec fn spec_key_limit() -> u32 {
        MAX_BUCKETS as u32
    }

    open spec fn node_limit() -> nat {
        usize::MAX as nat
    }

    proof fn lemma_accepts(&self, key: u32, node: usize) {
        self.lemma_current_bound();
    }

    proof fn lemma_key_limit_positive() {
    }

    fn key_limit(&self) -> (r: u32) {
        MAX_BUCKETS as u32
    }

    fn insert(&mut self, key: u32, node_id: usize) -> (handle: DialHandle) {
        proof {
            self.lemma_current_bound();
            if self.contains(node_id) {
                self.lemma_dist_of_contained(node_id);
            }
        }
        let handle = DialHeap::insert(self, key, node_id);
        proof {
            assert forall|h: DialHandle| h != handle && (#[trigger] old(self).entry_of(h)) is Some implies self.entry_of(
                h,
            ) == old(self).entry_of(h) by {
                h.lemma_same_id(handle);
            }
            assert forall|n: usize| #[trigger] self.seen(n) == (old(self).seen(n) || n == node_id) by {}
        }
        handle
    }

    fn extract_min(&mut self) -> (r: Option<(u32, usize)>) {
        proof {
            old(self).lemma_view();
        }
        let r = DialHeap::extract_min(self);
        proof {
            self.lemma_current_bound();
            old(self).lemma_current_bound();
            assert forall|h: DialHandle|
                (#[trigger] old(self).entry_of(h)) is Some && r != old(self).entry_of(h) implies self.entry_of(h)
                == old(self).entry_of(h) by {
                if r is Some {
                    let x = r->Some_0;
                    if x.1 == h.id() {
                        assert(old(self)@.count(x) > 0);
                    }
                }
            }
        }
        r
    }

    fn supports_decrease_key(&self) -> (r: bool) {
        true
    }

    fn decrease_key(&mut self, handle: &DialHandle, new_key: u32) {
        proof {
            self.lemma_current_bound();
            self.lemma_dist_of_contained(handle.id());
        }
        DialHeap::decrease_key(self, handle, new_key);
        proof {
            assert forall|h: DialHandle| h != *handle && (#[trigger] old(self).entry_of(h)) is Some implies self.entry_of(
                h,
            ) == old(self).entry_of(h) by {
                h.lemma_same_id(*handle);
            }
            assert forall|n: usize| #[trigger] self.seen(n) == old(self).seen(n) by {}
        }
    }
}

/// Dijkstra's algorithm using Dial's bucket queue.
///
/// Returns the nodes of a shortest path from `start` to `end` with its total weight, or
/// an empty vector and `None` when
/// `end` cannot be reached from `start` by a walk lighter than `MAX_BUCKETS`.
pub fn dijkstra_dial(start: usize, end: usize, graph: &[Vec<(usize, u32)>]) -> (r: (Vec<usize>, Option<u32>))
    requires
        start < graph@.len(),
        end < graph@.len(),
        edges_in_range(adjacency(graph)),
    ensures
        is_path_and_distance(adjacency(graph), start, end, MAX_BUCKETS as int, r.0@, r.1),
{
    let max_nodes = graph.len();
    // Start with a small initial allocation (at most 1000 buckets); the heap grows
    // dynamically as needed
    let initial_max_distance = if max_nodes <= 100 {
        max_nodes * 10
    } else {
        1000
    };
    let heap = DialHeap::new(max_nodes, initial_max_distance);
    proof {
        assert(heap.items().len() == 0);
    }
    crate::dijkstra::dijkstra(start, end, graph, heap)
}

} // verus!
