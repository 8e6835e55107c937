# weighted_path

Shortest weighted paths with Dijkstra's algorithm over interchangeable priority
queues, verified with Verus.

The input is a text graph: the number of nodes `N`, then `N` node names, then one
edge `node1|node2|weight` per line. The answer is the names along a shortest path
from the first node to the last, joined by `-`, or `-1` when there is none.

## Layout

- `src/graph.rs`: graphs as adjacency lists, walks, walk weights and what a
  shortest path is.
- `src/text.rs`: trimming, splitting and number parsing of text lines.
- `src/dijkstra.rs` and `src/dijkstra/`: the priority-queue interface, Dijkstra's
  algorithm over it, the graph parser, the queue adapters and the text front ends
  (`find_shortest_path*`).
- `src/radix/`, `src/dial/`, `src/pairing/`, `src/fibonacci/`,
  `src/fibonacci_heap.rs`: the radix heap, Dial's bucket queue, the pairing heap and
  the Fibonacci heaps, each kept in an arena of nodes and described by the multiset of
  its `(key, node_id)` entries.
- `tests/`: tests of the library.
- `app/`: the command-line program (reading files, arguments) and the random graph
  generator.
