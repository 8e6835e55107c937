//! Dijkstra's algorithm on the Fibonacci heap with the textbook `extract_min` order.
use crate::dijkstra::heap_trait::PriorityQueue;
use crate::fibonacci::{FibHandle, UnsafeFibonacciHeap};
use crate::graph::{adjacency, edges_in_range, is_path_and_distance};
use vstd::multiset::Multiset;
use vstd::prelude::*;

verus! {

/// This Fibonacci heap serves Dijkstra's algorithm: every inserted entry has a handle
/// through which `decrease_key` lowers its key in place.  A node is inserted at most
/// once, and node ids stay below `fib(52)`, which bounds the entries the heap holds.
impl PriorityQueue for UnsafeFibonacciHeap {
    type Handle = FibHandle;

    open spec fn wf(&self) -> bool {
        &&& self.well_formed()
        &&& self.slot_ids().no_duplicates()
        &&& forall|j: int| 0 <= j < self.slot_ids().len() ==> #[trigger] self.slot_ids()[j] < 32_951_280_099nat
    }

    open spec fn items(&self) -> Multiset<(u32, usize)> {
        self@
    }

    open spec fn floor(&self) -> u32 {
        0
    }

    open spec fn seen(&self, node: usize) -> bool {
        self.slot_ids().contains(node)
    }

    open spec fn entry_of(&self, handle: FibHandle) -> Option<(u32, usize)> {
        UnsafeFibonacciHeap::entry_of(self, handle)
    }

    open spec fn accepts(&self, key: u32, node: usize) -> bool {
        !self.slot_ids().contains(node) && node < 32_951_280_099nat
    }

    open spec fn decreases_in_place() -> bool {
        true
    }

    open spec fn spec_key_limit() -> u32 {
        u32::MAX
    }

    open spec fn node_limit() -> nat {
        32_951_280_099
    }

    proof fn lemma_accepts(&self, key: u32, node: usize) {
    }

    proof fn lemma_key_limit_positive() {
    }

    fn key_limit(&self) -> (r: u32) {
        u32::MAX
    }

    fn insert(&mut self, key: u32, node_id: usize) -> (handle: FibHandle) {
        let ghost s0 = self.slot_ids();
        let handle = UnsafeFibonacciHeap::insert(self, key, node_id);
        proof {
            let s1 = self.slot_ids();
            assert(s1 == s0.push(node_id));
            assert(s1.no_duplicates()) by {
                assert forall|a: int, b: int| 0 <= a < s1.len() && 0 <= b < s1.len() && a != b implies s1[a] != s1[b] by {
                    if a < s0.len() && b < s0.len() {
                        assert(s1[a] == s0[a] && s1[b] == s0[b]);
                    } else if a < s0.len() {
                        assert(s1[a] == s0[a]);
                    } else if b < s0.len() {
                        assert(s1[b] == s0[b]);
                    }
                }
            }
            assert forall|j: int| 0 <= j < s1.len() implies #[trigger] s1[j] < 32_951_280_099nat by {
                if j < s0.len() {
                    assert(s1[j] == s0[j]);
                }
            }
            assert forall|n: usize| #[trigger] s1.contains(n) == (s0.contains(n) || n == node_id) by {
                if s1.contains(n) && n != node_id {
                    let j = choose|j: int| 0 <= j < s1.len() && s1[j] == n;
                    assert(s0[j] == n);
                }
                if s0.contains(n) {
                    let j = choose|j: int| 0 <= j < s0.len() && s0[j] == n;
                    assert(s1[j] == n);
                }
                if n == node_id {
                    assert(s1[s0.len() as int] == n);
                }
            }
        }
        handle
    }

    fn extract_min(&mut self) -> (r: Option<(u32, usize)>) {
        proof {
            self.lemma_len_below(32_951_280_099);
        }
        let r = UnsafeFibonacciHeap::extract_min(self);
        proof {
            if r is Some {
                let hx = choose|hx: FibHandle|
                    {
                        &&& #[trigger] old(self).entry_of(hx) == r
                        &&& self.entry_of(hx) is None
                        &&& forall|h: FibHandle| h != hx ==> #[trigger] self.entry_of(h) == old(self).entry_of(h)
                    };
                assert forall|h: FibHandle|
                    (#[trigger] old(self).entry_of(h)) is Some && r != old(self).entry_of(h) implies self.entry_of(h)
                    == old(self).entry_of(h) by {
                    if h == hx {
                        assert(old(self).entry_of(h) == r);
                    }
                }
            }
        }
        r
    }

    fn supports_decrease_key(&self) -> (r: bool) {
        true
    }

    fn decrease_key(&mut self, handle: &FibHandle, new_key: u32) {
        proof {
            self.lemma_entries();
        }
        UnsafeFibonacciHeap::decrease_key(self, handle, new_key);
        proof {
            let x = old(self).entry_of(*handle)->Some_0;
            if new_key == x.0 {
                assert(old(self)@.remove(x).insert((new_key, x.1)) =~= old(self)@);
            }
        }
    }
}

/// Dijkstra's algorithm using the Fibonacci heap whose `extract_min` moves the children
/// of the minimum to the end of the root list.
///
/// Returns the nodes of a shortest path from `start` to `end` with its total weight, or
/// an empty vector and `None` when
/// `end` cannot be reached from `start` by a walk lighter than `u32::MAX`.  The graph
/// has at most `fib(52)` nodes, which bounds the entries the heap holds.
pub fn dijkstra_fibonacci_unsafe(start: usize, end: usize, graph: &[Vec<(usize, u32)>]) -> (r: (Vec<usize>, Option<u32>))
    requires
        start < graph@.len(),
        end < graph@.len(),
        edges_in_range(adjacency(graph)),
        graph@.len() <= 32_951_280_099,
    ensures
        is_path_and_distance(adjacency(graph), start, end, u32::MAX as int, r.0@, r.1),
{
    let heap = UnsafeFibonacciHeap::new();
    proof {
        assert(heap.items().len() == 0);
    }
    crate::dijkstra::generic::dijkstra_generic(start, end, graph, heap)
}

} // verus!
