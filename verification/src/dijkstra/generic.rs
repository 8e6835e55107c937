//! Dijkstra's algorithm over any priority queue, under the name the Fibonacci variants use.
use crate::dijkstra::heap_trait::PriorityQueue;
use crate::graph::{adjacency, edges_in_range, is_path_and_distance};
use vstd::prelude::*;

verus! {

/// Generic Dijkstra's algorithm that works with any `PriorityQueue`, with or without
/// `decrease_key`.
///
/// Returns the nodes of a shortest path from `start` to `end` with its total weight, or
/// an empty vector and `None` when
/// `end` cannot be reached by a walk lighter than the key bound of the queue.
pub fn dijkstra_generic<Q: PriorityQueue>(
    start: usize,
    end: usize,
    graph: &[Vec<(usize, u32)>],
    heap: Q,
) -> (r: (Vec<usize>, Option<u32>))
    requires
        start < graph@.len(),
        end < graph@.len(),
        edges_in_range(adjacency(graph)),
        graph.len() <= Q::node_limit(),
        heap.wf(),
        heap.items().len() == 0,
        heap.floor() == 0,
        forall|n: usize| !(#[trigger] heap.seen(n)),
    ensures
        is_path_and_distance(adjacency(graph), start, end, Q::spec_key_limit() as int, r.0@, r.1),
{
    crate::dijkstra::dijkstra(start, end, graph, heap)
}

} // verus!
