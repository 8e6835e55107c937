//! Dijkstra's algorithm over any `PriorityQueue`, and the graph front end.
pub mod binary;
pub mod dial;
pub mod fib;
pub mod fib_unsafe;
pub mod generic;
pub mod heap_trait;
pub mod pairing;
pub mod parse;
pub mod radix;
pub mod shortest;

pub use binary::dijkstra_binary;
pub use dial::dijkstra_dial;
pub use fib::dijkstra_fibonacci;
pub use fib_unsafe::dijkstra_fibonacci_unsafe;
pub use generic::dijkstra_generic;
pub use pairing::dijkstra_pairing;
pub use parse::{parse_graph, ParsedGraph};
pub use radix::dijkstra_radix;
pub use shortest::{
    find_shortest_path, find_shortest_path_directed, find_shortest_path_fibonacci,
    find_shortest_path_fibonacci_unsafe, find_shortest_path_pairing, find_shortest_path_radix,
    find_shortest_path_weighted, HeapKind,
};

use crate::dijkstra::heap_trait::PriorityQueue;
use vstd::multiset::Multiset;
use crate::graph::{
    adjacency, edges_in_range, is_path_and_distance, is_lower_bound, is_reached, is_shortest_path, is_shortest_walk,
    is_walk_between, lemma_walk_drop_last, lemma_walk_prepend, lemma_walk_push, lemma_walk_single,
    no_walk_below, walk_weight,
};
use vstd::prelude::*;

verus! {

broadcast use {vstd::multiset::group_multiset_axioms, vstd::multiset::group_multiset_properties};

/// Sum of a sequence of distances.
pub open spec fn total(s: Seq<u32>) -> int
    decreases s.len(),
{
    if s.len() == 0 {
        0
    } else {
        total(s.drop_last()) + s.last()
    }
}

proof fn lemma_total_nonneg(s: Seq<u32>)
    ensures
        total(s) >= 0,
    decreases s.len(),
{
    if s.len() > 0 {
        lemma_total_nonneg(s.drop_last());
    }
}

proof fn lemma_total_update(s: Seq<u32>, i: int, v: u32)
    requires
        0 <= i < s.len(),
    ensures
        total(s.update(i, v)) == total(s) - s[i] + v,
    decreases s.len(),
{
    let t = s.update(i, v);
    if i == s.len() - 1 {
        assert(t.drop_last() =~= s.drop_last());
    } else {
        lemma_total_update(s.drop_last(), i, v);
        assert(t.drop_last() =~= s.drop_last().update(i, v));
    }
}

/// Every edge leaving `x` among its first `k` edges is relaxed: it leads to a node whose
/// distance is at most `dist[x]` plus the edge weight, unless that sum reaches `limit`.
pub open spec fn relaxed(g: Seq<Seq<(usize, u32)>>, dist: Seq<u32>, x: usize, limit: int, k: int) -> bool {
    forall|j: int|
        0 <= j < k ==> dist[(#[trigger] g[x as int][j]).0 as int] <= dist[x as int] + g[x as int][j].1
            || dist[x as int] + g[x as int][j].1 >= limit
}

/// The position of `x` in the order nodes were settled in; nodes not settled come last.
pub open spec fn rank(settled: Set<usize>, order: Map<usize, nat>, count: nat, x: usize) -> int {
    if settled.contains(x) {
        order[x] as int
    } else {
        count as int
    }
}

/// Some edge from `x` to `v` accounts for the distance of `v`.
pub open spec fn prev_link(g: Seq<Seq<(usize, u32)>>, dist: Seq<u32>, x: usize, v: usize) -> bool {
    exists|j: int|
        0 <= j < g[x as int].len() && j <= usize::MAX && (#[trigger] g[x as int][j]).0 == v && dist[v as int]
            == dist[x as int] + g[x as int][j].1
}

/// How many relaxed edges of `x` the search state guarantees.
pub open spec fn relaxed_count(g: Seq<Seq<(usize, u32)>>, x: usize, cur: usize, done: int) -> int {
    if x == cur {
        done
    } else {
        g[x as int].len() as int
    }
}

/// The distances, predecessor links and settled nodes of the search.  Settled nodes
/// have their final distance; the edges of `cur` are relaxed up to `done`.
#[verifier::opaque]
pub open spec fn search_state(
    g: Seq<Seq<(usize, u32)>>,
    start: usize,
    limit: int,
    dist: Seq<u32>,
    prev: Seq<Option<usize>>,
    settled: Set<usize>,
    order: Map<usize, nat>,
    count: nat,
    cur: usize,
    done: int,
) -> bool {
    &&& dist.len() == g.len()
    &&& prev.len() == g.len()
    &&& g.len() <= usize::MAX
    &&& start < g.len()
    &&& dist[start as int] == 0
    &&& prev[start as int] is None
    &&& 0 < limit <= u32::MAX
    &&& forall|v: int|
        0 <= v < g.len() && #[trigger] dist[v] < u32::MAX ==> is_reached(g, start, v as usize, dist[v] as int)
    &&& forall|v: int|
        0 <= v < g.len() && #[trigger] dist[v] < u32::MAX && v != start ==> prev[v] is Some
    &&& forall|v: int|
        0 <= v < g.len() && (#[trigger] prev[v]) is Some ==> {
            let x = prev[v]->Some_0;
            &&& x < g.len()
            &&& settled.contains(x)
            &&& dist[v] < limit
            &&& rank(settled, order, count, x) < rank(settled, order, count, v as usize)
            &&& prev_link(g, dist, x, v as usize)
        }
    &&& forall|x: usize|
        #[trigger] settled.contains(x) ==> {
            &&& x < g.len()
            &&& dist[x as int] < limit
            &&& is_lower_bound(g, start, x, dist[x as int] as int)
            &&& order.dom().contains(x)
            &&& order[x] < count
            &&& relaxed(g, dist, x, limit, relaxed_count(g, x, cur, done))
        }
}

/// The entries of the queue, and the handles of the nodes still waiting, agree with the
/// distances.
#[verifier::opaque]
pub open spec fn queue_state<Q: PriorityQueue>(
    g: Seq<Seq<(usize, u32)>>,
    limit: int,
    dist: Seq<u32>,
    settled: Set<usize>,
    heap: Q,
    handles: Seq<Option<Q::Handle>>,
    dk: bool,
) -> bool {
    &&& heap.wf()
    &&& dist.len() == g.len()
    &&& g.len() <= usize::MAX
    &&& forall|y: (u32, usize)|
        #[trigger] heap.items().count(y) > 0 ==> y.1 < g.len() && y.0 >= dist[y.1 as int] && y.0 < limit
    &&& forall|v: usize|
        v < g.len() && dist[v as int] < u32::MAX && !(#[trigger] settled.contains(v)) ==> heap.items().count(
            (dist[v as int], v),
        ) > 0
    &&& dk ==> handles.len() == g.len()
    &&& dk ==> forall|v: int|
        0 <= v < g.len() ==> (#[trigger] handles[v] is None ==> !heap.seen(v as usize))
    &&& dk ==> forall|v: int| 0 <= v < g.len() && (#[trigger] handles[v]) is Some ==> dist[v] < u32::MAX
    &&& dk ==> forall|v: int|
        0 <= v < g.len() && (#[trigger] handles[v]) is Some && !settled.contains(v as usize)
            ==> heap.entry_of(handles[v]->Some_0) == Some((dist[v], v as usize))
}

/// The search after marking `u` settled.
pub open spec fn settle_set(settled: Set<usize>, u: usize) -> Set<usize> {
    settled.insert(u)
}

pub open spec fn settle_order(settled: Set<usize>, order: Map<usize, nat>, count: nat, u: usize) -> Map<usize, nat> {
    if settled.contains(u) {
        order
    } else {
        order.insert(u, count)
    }
}

pub open spec fn settle_count(settled: Set<usize>, count: nat, u: usize) -> nat {
    if settled.contains(u) {
        count
    } else {
        count + 1
    }
}

proof fn lemma_remove_len(m: Multiset<(u32, usize)>, x: (u32, usize))
    requires
        m.count(x) > 0,
    ensures
        m.remove(x).len() == m.len() - 1,
{
    let s = Multiset::<(u32, usize)>::singleton(x);
    assert(s.subset_of(m)) by {
        assert forall|y: (u32, usize)| s.count(y) <= m.count(y) by {
            if y != x {
                assert(s.count(y) == 0);
            }
        }
    }
}

proof fn lemma_search_basics(
    g: Seq<Seq<(usize, u32)>>,
    start: usize,
    limit: int,
    dist: Seq<u32>,
    prev: Seq<Option<usize>>,
    settled: Set<usize>,
    order: Map<usize, nat>,
    count: nat,
    cur: usize,
    done: int,
)
    requires
        search_state(g, start, limit, dist, prev, settled, order, count, cur, done),
    ensures
        dist.len() == g.len(),
        prev.len() == g.len(),
        g.len() <= usize::MAX,
        start < g.len(),
        dist[start as int] == 0,
        0 < limit <= u32::MAX,
        forall|x: usize| #[trigger] settled.contains(x) ==> x < g.len() && dist[x as int] < limit,
        forall|v: int|
            0 <= v < g.len() && #[trigger] dist[v] < u32::MAX ==> is_reached(g, start, v as usize, dist[v] as int),
{
    reveal(search_state);
}

proof fn lemma_search_init(
    g: Seq<Seq<(usize, u32)>>,
    start: usize,
    limit: int,
    dist: Seq<u32>,
    prev: Seq<Option<usize>>,
)
    requires
        start < g.len(),
        g.len() <= usize::MAX,
        dist.len() == g.len(),
        prev.len() == g.len(),
        0 < limit <= u32::MAX,
        dist[start as int] == 0,
        forall|k: int| 0 <= k < g.len() ==> #[trigger] prev[k] is None && (dist[k] == u32::MAX || k == start),
    ensures
        search_state(g, start, limit, dist, prev, Set::empty(), Map::empty(), 0, start, g[start as int].len() as int),
{
    reveal(search_state);
    lemma_walk_single(g, start);
    assert(is_reached(g, start, start, 0));
    assert forall|v: int| 0 <= v < g.len() && #[trigger] dist[v] < u32::MAX implies is_reached(
        g,
        start,
        v as usize,
        dist[v] as int,
    ) by {
        assert(prev[v] is None);
    }
    assert forall|v: int| 0 <= v < g.len() && #[trigger] dist[v] < u32::MAX && v != start implies prev[v] is Some by {
        assert(prev[v] is None);
    }
}

proof fn lemma_queue_init<Q: PriorityQueue>(
    g: Seq<Seq<(usize, u32)>>,
    start: usize,
    limit: int,
    dist: Seq<u32>,
    heap: Q,
    handles: Seq<Option<Q::Handle>>,
    dk: bool,
)
    requires
        start < g.len(),
        g.len() <= usize::MAX,
        dist.len() == g.len(),
        0 < limit,
        dist[start as int] == 0,
        forall|k: int| 0 <= k < g.len() ==> #[trigger] dist[k] == u32::MAX || k == start,
        heap.wf(),
        heap.items() == Multiset::<(u32, usize)>::empty().insert((0u32, start)),
        dk ==> handles.len() == g.len(),
        dk ==> forall|v: int|
            0 <= v < g.len() ==> (#[trigger] handles[v] is None ==> !heap.seen(v as usize)) && (
            handles[v] is Some ==> v == start && heap.entry_of(handles[v]->Some_0) == Some((0u32, start))),
    ensures
        queue_state(g, limit, dist, Set::empty(), heap, handles, dk),
{
    reveal(queue_state);
    assert forall|y: (u32, usize)| #[trigger] heap.items().count(y) > 0 implies y.1 < g.len() && y.0
        >= dist[y.1 as int] && y.0 < limit by {
        assert(y == (0u32, start));
    }
    assert forall|v: usize|
        v < g.len() && dist[v as int] < u32::MAX && !(#[trigger] Set::<usize>::empty().contains(v)) implies heap.items().count(
        (dist[v as int], v),
    ) > 0 by {
        assert(v == start);
    }
}

/// What the queue state says of one entry and of the handle of one node.
proof fn lemma_queue_facts<Q: PriorityQueue>(
    g: Seq<Seq<(usize, u32)>>,
    limit: int,
    dist: Seq<u32>,
    settled: Set<usize>,
    heap: Q,
    handles: Seq<Option<Q::Handle>>,
    dk: bool,
)
    requires
        queue_state(g, limit, dist, settled, heap, handles, dk),
    ensures
        heap.wf(),
        forall|y: (u32, usize)|
            #[trigger] heap.items().count(y) > 0 ==> y.1 < g.len() && y.0 >= dist[y.1 as int] && y.0 < limit,
        dk ==> handles.len() == g.len(),
        dk ==> forall|v: int| 0 <= v < g.len() ==> (#[trigger] handles[v] is None ==> !heap.seen(v as usize)),
        dk ==> forall|v: int|
            0 <= v < g.len() && (#[trigger] handles[v]) is Some && !settled.contains(v as usize)
                ==> heap.entry_of(handles[v]->Some_0) == Some((dist[v], v as usize)),
{
    reveal(queue_state);
}

/// The queue state after an entry `(d, u)` left the queue; `u` is settled when its
/// distance is `d`.
proof fn lemma_queue_extract<Q: PriorityQueue>(
    g: Seq<Seq<(usize, u32)>>,
    limit: int,
    dist: Seq<u32>,
    settled: Set<usize>,
    s1: Set<usize>,
    h0: Q,
    h1: Q,
    handles: Seq<Option<Q::Handle>>,
    dk: bool,
    d: u32,
    u: usize,
)
    requires
        queue_state(g, limit, dist, settled, h0, handles, dk),
        h1.wf(),
        h0.items().count((d, u)) > 0,
        h1.items() == h0.items().remove((d, u)),
        forall|n: usize| #[trigger] h1.seen(n) ==> h0.seen(n),
        forall|h: Q::Handle|
            (#[trigger] h0.entry_of(h)) is Some && Some((d, u)) != h0.entry_of(h) ==> h1.entry_of(h)
                == h0.entry_of(h),
        forall|x: usize| #[trigger] settled.contains(x) ==> s1.contains(x),
        u < g.len() && d == dist[u as int] ==> s1.contains(u),
    ensures
        queue_state(g, limit, dist, s1, h1, handles, dk),
{
    reveal(queue_state);
    assert forall|y: (u32, usize)| #[trigger] h1.items().count(y) > 0 implies y.1 < g.len() && y.0
        >= dist[y.1 as int] && y.0 < limit by {
        assert(h0.items().count(y) > 0);
    }
    assert forall|v: usize|
        v < g.len() && dist[v as int] < u32::MAX && !(#[trigger] s1.contains(v)) implies h1.items().count(
        (dist[v as int], v),
    ) > 0 by {
        assert(!settled.contains(v));
        assert(h0.items().count((dist[v as int], v)) > 0);
    }
    if dk {
        assert forall|v: int| 0 <= v < g.len() && #[trigger] handles[v] is None implies !h1.seen(v as usize) by {}
        assert forall|v: int|
            0 <= v < g.len() && (#[trigger] handles[v]) is Some && !s1.contains(v as usize) implies h1.entry_of(
            handles[v]->Some_0,
        ) == Some((dist[v], v as usize)) by {
            assert(!settled.contains(v as usize));
            assert(h0.entry_of(handles[v]->Some_0) == Some((dist[v], v as usize)));
            if v as usize == u && dist[v] == d {
                assert(u < g.len());
                assert(dist[u as int] == d);
                assert(s1.contains(u));
            }
            assert(Some((d, u)) != h0.entry_of(handles[v]->Some_0));
        }
    }
}

/// A non-stale entry of least key carries the final distance of its node.
proof fn lemma_extracted_final<Q: PriorityQueue>(
    g: Seq<Seq<(usize, u32)>>,
    start: usize,
    limit: int,
    dist: Seq<u32>,
    prev: Seq<Option<usize>>,
    settled: Set<usize>,
    order: Map<usize, nat>,
    count: nat,
    h0: Q,
    handles: Seq<Option<Q::Handle>>,
    dk: bool,
    d: u32,
    u: usize,
)
    requires
        search_state(g, start, limit, dist, prev, settled, order, count, start, g[start as int].len() as int),
        queue_state(g, limit, dist, settled, h0, handles, dk),
        h0.items().count((d, u)) > 0,
        forall|y: (u32, usize)| #[trigger] h0.items().count(y) > 0 ==> d <= y.0,
        u < g.len(),
        d <= dist[u as int],
    ensures
        d == dist[u as int],
        d < limit,
        is_lower_bound(g, start, u, d as int),
{
    reveal(search_state);
    reveal(queue_state);
    assert forall|v: usize|
        v < g.len() && #[trigger] dist[v as int] < u32::MAX && !settled.contains(v) implies dist[v as int]
        >= d by {
        assert(h0.items().count((dist[v as int], v)) > 0);
    }
    assert forall|y: usize| #[trigger] settled.contains(y) implies y < g.len() && is_lower_bound(
        g,
        start,
        y,
        dist[y as int] as int,
    ) && relaxed(g, dist, y, limit, g[y as int].len() as int) by {
        assert(relaxed(g, dist, y, limit, relaxed_count(g, y, start, g[start as int].len() as int)));
    }
    if !settled.contains(u) {
        assert forall|nodes: Seq<usize>, edges: Seq<usize>|
            #[trigger] is_walk_between(g, start, u, nodes, edges) implies d <= walk_weight(g, nodes, edges) by {
            lemma_unsettled_lower_bound(g, start, limit, dist, settled, d as int, u, nodes, edges);
        }
    }
}

/// When the queue is empty, the target either is settled or cannot be reached below the
/// limit.
proof fn lemma_queue_empty<Q: PriorityQueue>(
    g: Seq<Seq<(usize, u32)>>,
    start: usize,
    limit: int,
    dist: Seq<u32>,
    prev: Seq<Option<usize>>,
    settled: Set<usize>,
    order: Map<usize, nat>,
    count: nat,
    h0: Q,
    handles: Seq<Option<Q::Handle>>,
    dk: bool,
    end: usize,
)
    requires
        search_state(g, start, limit, dist, prev, settled, order, count, start, g[start as int].len() as int),
        queue_state(g, limit, dist, settled, h0, handles, dk),
        h0.items().len() == 0,
        end < g.len(),
    ensures
        dist[end as int] < u32::MAX ==> dist[end as int] < limit && is_lower_bound(
            g,
            start,
            end,
            dist[end as int] as int,
        ),
        dist[end as int] == u32::MAX ==> no_walk_below(g, start, end, limit),
{
    reveal(search_state);
    reveal(queue_state);
    assert forall|v: usize|
        v < g.len() && #[trigger] dist[v as int] < u32::MAX && !settled.contains(v) implies dist[v as int]
        >= limit by {
        assert(h0.items().count((dist[v as int], v)) > 0);
    }
    assert forall|y: usize| #[trigger] settled.contains(y) implies y < g.len() && is_lower_bound(
        g,
        start,
        y,
        dist[y as int] as int,
    ) && relaxed(g, dist, y, limit, g[y as int].len() as int) by {
        assert(relaxed(g, dist, y, limit, relaxed_count(g, y, start, g[start as int].len() as int)));
    }
    if !settled.contains(end) {
        assert forall|nodes: Seq<usize>, edges: Seq<usize>|
            #[trigger] is_walk_between(g, start, end, nodes, edges) implies limit <= walk_weight(g, nodes, edges) by {
            lemma_unsettled_lower_bound(g, start, limit, dist, settled, limit, end, nodes, edges);
        }
    }
}

/// Settling `u` keeps the search state, with no edge of `u` relaxed yet.
proof fn lemma_settle(
    g: Seq<Seq<(usize, u32)>>,
    start: usize,
    limit: int,
    dist: Seq<u32>,
    prev: Seq<Option<usize>>,
    settled: Set<usize>,
    order: Map<usize, nat>,
    count: nat,
    u: usize,
)
    requires
        search_state(g, start, limit, dist, prev, settled, order, count, start, g[start as int].len() as int),
        u < g.len(),
        dist[u as int] < limit,
        is_lower_bound(g, start, u, dist[u as int] as int),
    ensures
        search_state(
            g,
            start,
            limit,
            dist,
            prev,
            settle_set(settled, u),
            settle_order(settled, order, count, u),
            settle_count(settled, count, u),
            u,
            0,
        ),
{
    reveal(search_state);
    let s2 = settle_set(settled, u);
    let o2 = settle_order(settled, order, count, u);
    let c2 = settle_count(settled, count, u);
    assert forall|v: int| 0 <= v < g.len() && (#[trigger] prev[v]) is Some implies {
        let x = prev[v]->Some_0;
        &&& x < g.len()
        &&& s2.contains(x)
        &&& dist[v] < limit
        &&& rank(s2, o2, c2, x) < rank(s2, o2, c2, v as usize)
        &&& prev_link(g, dist, x, v as usize)
    } by {
        let x = prev[v]->Some_0;
        assert(settled.contains(x));
        assert(rank(settled, order, count, x) < rank(settled, order, count, v as usize));
    }
    assert forall|x: usize| #[trigger] s2.contains(x) implies {
        &&& x < g.len()
        &&& dist[x as int] < limit
        &&& is_lower_bound(g, start, x, dist[x as int] as int)
        &&& o2.dom().contains(x)
        &&& o2[x] < c2
        &&& relaxed(g, dist, x, limit, relaxed_count(g, x, u, 0))
    } by {
        if x != u {
            assert(settled.contains(x));
            assert(relaxed(g, dist, x, limit, relaxed_count(g, x, start, g[start as int].len() as int)));
        }
    }
}

/// An edge of `u` that gives no improvement is relaxed as it is.
proof fn lemma_relax_skip(
    g: Seq<Seq<(usize, u32)>>,
    start: usize,
    limit: int,
    dist: Seq<u32>,
    prev: Seq<Option<usize>>,
    settled: Set<usize>,
    order: Map<usize, nat>,
    count: nat,
    u: usize,
    j: int,
)
    requires
        search_state(g, start, limit, dist, prev, settled, order, count, u, j),
        u < g.len(),
        0 <= j < g[u as int].len(),
        dist[u as int] + g[u as int][j].1 >= limit || dist[g[u as int][j].0 as int] <= dist[u as int]
            + g[u as int][j].1,
    ensures
        search_state(g, start, limit, dist, prev, settled, order, count, u, j + 1),
{
    reveal(search_state);
    assert forall|x: usize| #[trigger] settled.contains(x) implies relaxed(
        g,
        dist,
        x,
        limit,
        relaxed_count(g, x, u, j + 1),
    ) by {
        assert(relaxed(g, dist, x, limit, relaxed_count(g, x, u, j)));
        assert forall|jj: int| 0 <= jj < relaxed_count(g, x, u, j + 1) implies dist[(
        #[trigger] g[x as int][jj]).0 as int] <= dist[x as int] + g[x as int][jj].1 || dist[x as int]
            + g[x as int][jj].1 >= limit by {
            if !(x == u && jj == j) {
                assert(dist[g[x as int][jj].0 as int] <= dist[x as int] + g[x as int][jj].1 || dist[x as int]
                    + g[x as int][jj].1 >= limit);
            }
        }
    }
}

proof fn lemma_prev_link_update(g: Seq<Seq<(usize, u32)>>, dist: Seq<u32>, p: usize, x: usize, v: usize, nd: u32)
    requires
        prev_link(g, dist, p, x),
        0 <= x < dist.len(),
        0 <= p < dist.len(),
        0 <= v < dist.len(),
        x != v,
        p != v,
    ensures
        prev_link(g, dist.update(v as int, nd), p, x),
{
    let jj = choose|jj: int|
        0 <= jj < g[p as int].len() && jj <= usize::MAX && (#[trigger] g[p as int][jj]).0 == x && dist[x as int]
            == dist[p as int] + g[p as int][jj].1;
    let d2 = dist.update(v as int, nd);
    assert(d2[x as int] == dist[x as int]);
    assert(d2[p as int] == dist[p as int]);
    assert(0 <= jj < g[p as int].len() && jj <= usize::MAX && (g[p as int][jj]).0 == x && d2[x as int] == d2[p as int]
        + g[p as int][jj].1);
}

/// A walk reaching `u` with weight `d`, extended by an edge of `u`.
proof fn lemma_reached_push(g: Seq<Seq<(usize, u32)>>, start: usize, u: usize, d: int, j: usize)
    requires
        is_reached(g, start, u, d),
        edges_in_range(g),
        u < g.len(),
        0 <= j < g[u as int].len(),
    ensures
        g[u as int][j as int].0 < g.len(),
        is_reached(g, start, g[u as int][j as int].0, d + g[u as int][j as int].1),
{
    let v = g[u as int][j as int].0;
    let (pn, pe) = choose|pn: Seq<usize>, pe: Seq<usize>|
        #[trigger] is_walk_between(g, start, u, pn, pe) && walk_weight(g, pn, pe) == d;
    assert(pn.last() == u);
    lemma_walk_push(g, pn, pe, j);
    assert(pn.push(v).last() == v);
    assert(is_walk_between(g, start, v, pn.push(v), pe.push(j)));
}

/// An improving edge of the settled node `u` gives its target a new distance and
/// predecessor; the target is not settled.
proof fn lemma_relax_update(
    g: Seq<Seq<(usize, u32)>>,
    start: usize,
    limit: int,
    dist: Seq<u32>,
    prev: Seq<Option<usize>>,
    settled: Set<usize>,
    order: Map<usize, nat>,
    count: nat,
    u: usize,
    j: usize,
    nd: u32,
)
    requires
        search_state(g, start, limit, dist, prev, settled, order, count, u, j as int),
        edges_in_range(g),
        u < g.len(),
        settled.contains(u),
        0 <= j < g[u as int].len(),
        nd == dist[u as int] + g[u as int][j as int].1,
        nd < limit,
        nd < dist[g[u as int][j as int].0 as int],
    ensures
        g[u as int][j as int].0 < g.len(),
        !settled.contains(g[u as int][j as int].0),
        search_state(
            g,
            start,
            limit,
            dist.update(g[u as int][j as int].0 as int, nd),
            prev.update(g[u as int][j as int].0 as int, Some(u)),
            settled,
            order,
            count,
            u,
            j + 1,
        ),
{
    reveal(search_state);
    let v = g[u as int][j as int].0;
    let w = g[u as int][j as int].1;
    let d2 = dist.update(v as int, nd);
    let p2 = prev.update(v as int, Some(u));
    assert(is_reached(g, start, u, dist[u as int] as int));
    lemma_reached_push(g, start, u, dist[u as int] as int, j);
    assert(v < g.len());
    assert(!settled.contains(v));
    assert(v != start);
    assert forall|x: int| 0 <= x < g.len() && #[trigger] d2[x] < u32::MAX implies is_reached(
        g,
        start,
        x as usize,
        d2[x] as int,
    ) by {
        if x != v {
            assert(dist[x] == d2[x]);
        }
    }
    assert forall|x: int| 0 <= x < g.len() && #[trigger] d2[x] < u32::MAX && x != start implies p2[x] is Some by {
        if x != v {
            assert(dist[x] == d2[x]);
        }
    }
    assert forall|x: int| 0 <= x < g.len() && (#[trigger] p2[x]) is Some implies {
        let p = p2[x]->Some_0;
        &&& p < g.len()
        &&& settled.contains(p)
        &&& d2[x] < limit
        &&& rank(settled, order, count, p) < rank(settled, order, count, x as usize)
        &&& prev_link(g, d2, p, x as usize)
    } by {
        let p = p2[x]->Some_0;
        if x == v {
            assert(g[u as int][j as int].0 == v);
            assert(prev_link(g, d2, p, x as usize));
        } else {
            assert(prev[x] == p2[x]);
            assert(prev_link(g, dist, p, x as usize));
            assert(p != v);
            lemma_prev_link_update(g, dist, p, x as usize, v, nd);
        }
    }
    assert forall|x: usize| #[trigger] settled.contains(x) implies relaxed(
        g,
        d2,
        x,
        limit,
        relaxed_count(g, x, u, j + 1),
    ) by {
        assert(x != v);
        assert(relaxed(g, dist, x, limit, relaxed_count(g, x, u, j as int)));
        assert forall|jj: int| 0 <= jj < relaxed_count(g, x, u, j + 1) implies d2[(
        #[trigger] g[x as int][jj]).0 as int] <= d2[x as int] + g[x as int][jj].1 || d2[x as int]
            + g[x as int][jj].1 >= limit by {
            if !(x == u && jj == j as int) {
                assert(dist[g[x as int][jj].0 as int] <= dist[x as int] + g[x as int][jj].1 || dist[x as int]
                    + g[x as int][jj].1 >= limit);
            }
        }
    }
}

/// The queue state after the node `v` got the smaller distance `nd` and an entry for it
/// was inserted (queues without decrease_key).
proof fn lemma_queue_relax_insert<Q: PriorityQueue>(
    g: Seq<Seq<(usize, u32)>>,
    limit: int,
    dist: Seq<u32>,
    settled: Set<usize>,
    h0: Q,
    h1: Q,
    handles: Seq<Option<Q::Handle>>,
    v: usize,
    nd: u32,
)
    requires
        queue_state(g, limit, dist, settled, h0, handles, false),
        v < g.len(),
        nd < dist[v as int],
        nd < limit,
        h1.wf(),
        h1.items() == h0.items().insert((nd, v)),
    ensures
        queue_state(g, limit, dist.update(v as int, nd), settled, h1, handles, false),
        h1.items().len() == h0.items().len() + 1,
{
    reveal(queue_state);
    let d2 = dist.update(v as int, nd);
    assert forall|y: (u32, usize)| #[trigger] h1.items().count(y) > 0 implies y.1 < g.len() && y.0
        >= d2[y.1 as int] && y.0 < limit by {
        if y != (nd, v) {
            assert(h0.items().count(y) > 0);
        }
    }
    assert forall|x: usize|
        x < g.len() && d2[x as int] < u32::MAX && !(#[trigger] settled.contains(x)) implies h1.items().count(
        (d2[x as int], x),
    ) > 0 by {
        if x != v {
            assert(h0.items().count((dist[x as int], x)) > 0);
        }
    }
}

/// The queue state after the node `v`, not settled and with a handle, got the smaller
/// distance `nd` through decrease_key.
proof fn lemma_queue_relax_decrease<Q: PriorityQueue>(
    g: Seq<Seq<(usize, u32)>>,
    limit: int,
    dist: Seq<u32>,
    settled: Set<usize>,
    h0: Q,
    h1: Q,
    handles: Seq<Option<Q::Handle>>,
    v: usize,
    nd: u32,
)
    requires
        queue_state(g, limit, dist, settled, h0, handles, true),
        v < g.len(),
        !settled.contains(v),
        handles[v as int] is Some,
        nd < dist[v as int],
        nd < limit,
        h1.wf(),
        h1.items() == h0.items().remove((dist[v as int], v)).insert((nd, v)),
        h1.entry_of(handles[v as int]->Some_0) == Some((nd, v)),
        forall|n: usize| #[trigger] h1.seen(n) == h0.seen(n),
        forall|h: Q::Handle|
            h != handles[v as int]->Some_0 && (#[trigger] h0.entry_of(h)) is Some ==> h1.entry_of(h)
                == h0.entry_of(h),
    ensures
        queue_state(g, limit, dist.update(v as int, nd), settled, h1, handles, true),
        h1.items().len() == h0.items().len(),
{
    reveal(queue_state);
    assert(h0.items().count((dist[v as int], v)) > 0);
    lemma_remove_len(h0.items(), (dist[v as int], v));
    let d2 = dist.update(v as int, nd);
    assert forall|y: (u32, usize)| #[trigger] h1.items().count(y) > 0 implies y.1 < g.len() && y.0
        >= d2[y.1 as int] && y.0 < limit by {
        if y != (nd, v) {
            assert(h0.items().count(y) > 0);
        }
    }
    assert forall|x: usize|
        x < g.len() && d2[x as int] < u32::MAX && !(#[trigger] settled.contains(x)) implies h1.items().count(
        (d2[x as int], x),
    ) > 0 by {
        if x != v {
            assert(h0.items().count((dist[x as int], x)) > 0);
        }
    }
    assert forall|x: int| 0 <= x < g.len() && #[trigger] handles[x] is None implies !h1.seen(x as usize) by {}
    assert forall|x: int|
        0 <= x < g.len() && (#[trigger] handles[x]) is Some && !settled.contains(x as usize) implies h1.entry_of(
        handles[x]->Some_0,
    ) == Some((d2[x], x as usize)) by {
        if x != v {
            assert(h0.entry_of(handles[x]->Some_0) == Some((dist[x], x as usize)));
            assert(h0.entry_of(handles[v as int]->Some_0) == Some((dist[v as int], v)));
            assert(handles[x]->Some_0 != handles[v as int]->Some_0);
        }
    }
}

/// The queue state after the node `v`, without a handle yet, got the distance `nd`,
/// an entry inserted and the handle `h` of that entry.
proof fn lemma_queue_relax_new_handle<Q: PriorityQueue>(
    g: Seq<Seq<(usize, u32)>>,
    limit: int,
    dist: Seq<u32>,
    settled: Set<usize>,
    h0: Q,
    h1: Q,
    handles: Seq<Option<Q::Handle>>,
    v: usize,
    nd: u32,
    h: Q::Handle,
)
    requires
        queue_state(g, limit, dist, settled, h0, handles, true),
        v < g.len(),
        handles[v as int] is None,
        nd < dist[v as int],
        nd < limit,
        h1.wf(),
        h1.items() == h0.items().insert((nd, v)),
        h0.entry_of(h) is None,
        h1.entry_of(h) == Some((nd, v)),
        forall|n: usize| #[trigger] h1.seen(n) == (h0.seen(n) || n == v),
        forall|h2: Q::Handle|
            h2 != h && (#[trigger] h0.entry_of(h2)) is Some ==> h1.entry_of(h2) == h0.entry_of(h2),
    ensures
        queue_state(g, limit, dist.update(v as int, nd), settled, h1, handles.update(v as int, Some(h)), true),
        h1.items().len() == h0.items().len() + 1,
{
    reveal(queue_state);
    let d2 = dist.update(v as int, nd);
    let hs = handles.update(v as int, Some(h));
    assert forall|y: (u32, usize)| #[trigger] h1.items().count(y) > 0 implies y.1 < g.len() && y.0
        >= d2[y.1 as int] && y.0 < limit by {
        if y != (nd, v) {
            assert(h0.items().count(y) > 0);
        }
    }
    assert forall|x: usize|
        x < g.len() && d2[x as int] < u32::MAX && !(#[trigger] settled.contains(x)) implies h1.items().count(
        (d2[x as int], x),
    ) > 0 by {
        if x != v {
            assert(h0.items().count((dist[x as int], x)) > 0);
        }
    }
    assert forall|x: int| 0 <= x < g.len() && #[trigger] hs[x] is None implies !h1.seen(x as usize) by {
        if x != v {
            assert(hs[x] == handles[x]);
        }
    }
    assert forall|x: int|
        0 <= x < g.len() && (#[trigger] hs[x]) is Some && !settled.contains(x as usize) implies h1.entry_of(
        hs[x]->Some_0,
    ) == Some((d2[x], x as usize)) by {
        if x != v {
            assert(hs[x] == handles[x]);
            assert(h0.entry_of(handles[x]->Some_0) == Some((dist[x], x as usize)));
        }
    }
}

/// Once all edges of `u` are relaxed, the search state no longer singles `u` out.
proof fn lemma_relax_done(
    g: Seq<Seq<(usize, u32)>>,
    start: usize,
    limit: int,
    dist: Seq<u32>,
    prev: Seq<Option<usize>>,
    settled: Set<usize>,
    order: Map<usize, nat>,
    count: nat,
    u: usize,
)
    requires
        search_state(g, start, limit, dist, prev, settled, order, count, u, g[u as int].len() as int),
    ensures
        search_state(g, start, limit, dist, prev, settled, order, count, start, g[start as int].len() as int),
{
    reveal(search_state);
    assert forall|x: usize| #[trigger] settled.contains(x) implies relaxed(
        g,
        dist,
        x,
        limit,
        relaxed_count(g, x, start, g[start as int].len() as int),
    ) by {
        assert(relaxed(g, dist, x, limit, relaxed_count(g, x, u, g[u as int].len() as int)));
    }
}

/// The predecessor of `v` on the way back to the source.
proof fn lemma_prev_step(
    g: Seq<Seq<(usize, u32)>>,
    start: usize,
    limit: int,
    dist: Seq<u32>,
    prev: Seq<Option<usize>>,
    settled: Set<usize>,
    order: Map<usize, nat>,
    count: nat,
    v: usize,
) -> (jj: usize)
    requires
        search_state(g, start, limit, dist, prev, settled, order, count, start, g[start as int].len() as int),
        v < g.len(),
        prev[v as int] is Some,
    ensures
        ({
            let p = prev[v as int]->Some_0;
            &&& p < g.len()
            &&& dist[p as int] < limit
            &&& rank(settled, order, count, p) < rank(settled, order, count, v)
            &&& jj < g[p as int].len()
            &&& g[p as int][jj as int].0 == v
            &&& dist[v as int] == dist[p as int] + g[p as int][jj as int].1
        }),
{
    reveal(search_state);
    let p = prev[v as int]->Some_0;
    assert(prev_link(g, dist, p, v));
    let jj = choose|jj: int|
        0 <= jj < g[p as int].len() && jj <= usize::MAX && (#[trigger] g[p as int][jj]).0 == v && dist[v as int]
            == dist[p as int] + g[p as int][jj].1;
    assert(settled.contains(p));
    jj as usize
}

/// The walk back along the predecessor links ends at the source.
proof fn lemma_prev_none(
    g: Seq<Seq<(usize, u32)>>,
    start: usize,
    limit: int,
    dist: Seq<u32>,
    prev: Seq<Option<usize>>,
    settled: Set<usize>,
    order: Map<usize, nat>,
    count: nat,
    v: usize,
)
    requires
        search_state(g, start, limit, dist, prev, settled, order, count, start, g[start as int].len() as int),
        v < g.len(),
        prev[v as int] is None,
        dist[v as int] < u32::MAX,
    ensures
        v == start,
{
    reveal(search_state);
}

/// Walks from the source to a node not yet settled weigh at least `b`, when every node
/// not yet settled that the search has reached has distance at least `b`.
proof fn lemma_unsettled_lower_bound(
    g: Seq<Seq<(usize, u32)>>,
    start: usize,
    limit: int,
    dist: Seq<u32>,
    settled: Set<usize>,
    b: int,
    x: usize,
    nodes: Seq<usize>,
    edges: Seq<usize>,
)
    requires
        dist.len() == g.len(),
        start < g.len(),
        dist[start as int] == 0,
        b <= limit <= u32::MAX,
        forall|v: usize|
            v < g.len() && #[trigger] dist[v as int] < u32::MAX && !settled.contains(v) ==> dist[v as int] >= b,
        forall|y: usize|
            #[trigger] settled.contains(y) ==> y < g.len() && is_lower_bound(g, start, y, dist[y as int] as int)
                && relaxed(g, dist, y, limit, g[y as int].len() as int),
        is_walk_between(g, start, x, nodes, edges),
        !settled.contains(x),
    ensures
        walk_weight(g, nodes, edges) >= b,
    decreases edges.len(),
{
    if edges.len() == 0 {
        assert(x == start);
        assert(dist[start as int] < u32::MAX);
    } else {
        lemma_walk_drop_last(g, nodes, edges);
        let pn = nodes.drop_last();
        let pe = edges.drop_last();
        let y = nodes[nodes.len() - 2];
        let j = edges.last();
        assert(is_walk_between(g, start, y, pn, pe));
        let w = g[y as int][j as int].1;
        if settled.contains(y) {
            assert(walk_weight(g, pn, pe) >= dist[y as int]);
            assert(g[y as int][j as int].0 == x);
            assert(dist[x as int] <= dist[y as int] + w || dist[y as int] + w >= limit);
        } else {
            lemma_unsettled_lower_bound(g, start, limit, dist, settled, b, y, pn, pe);
        }
    }
}

/// Dijkstra's algorithm: a shortest path from `start` to `end` in `graph`, and its
/// distance, using `heap` as the priority queue.
///
/// Returns the nodes of a shortest path from `start` to `end` with its total weight, or
/// an empty vector and `None` when no walk from `start` to `end` weighs less than the
/// queue's key limit (`u32::MAX` for every queue but the bucket queue).
pub fn dijkstra<Q: PriorityQueue>(
    start: usize,
    end: usize,
    graph: &[Vec<(usize, u32)>],
    heap: Q,
) -> (r: (Vec<usize>, Option<u32>))
    requires
        start < graph@.len(),
        end < graph@.len(),
        edges_in_range(adjacency(graph)),
        graph.len() <= Q::node_limit(),
        heap.wf(),
        heap.items().len() == 0,
        heap.floor() == 0,
        forall|n: usize| !(#[trigger] heap.seen(n)),
    ensures
        is_path_and_distance(adjacency(graph), start, end, Q::spec_key_limit() as int, r.0@, r.1),
{
    let mut heap = heap;
    let ghost g = adjacency(graph);
    let n = graph.len();
    let limit = heap.key_limit();
    proof {
        Q::lemma_key_limit_positive();
    }
    let mut distances: Vec<u32> = Vec::new();
    let mut previous: Vec<Option<usize>> = Vec::new();
    let mut i: usize = 0;
    while i < n
        invariant
            i <= n,
            distances@.len() == i,
            previous@.len() == i,
            forall|k: int| 0 <= k < i ==> distances@[k] == u32::MAX && previous@[k] is None,
        decreases n - i,
    {
        distances.push(u32::MAX);
        previous.push(None);
        i += 1;
    }
    assert(i == n);
    assert(distances@.len() == n);
    assert(forall|k: int| 0 <= k < n ==> distances@[k] == u32::MAX);
    let ghost d_pre = distances@;
    distances.set(start, 0);
    assert forall|q: int| 0 <= q < n implies #[trigger] previous@[q] is None && (distances@[q] == u32::MAX
        || q == start) by {
        assert(d_pre[q] == u32::MAX);
        assert(previous@[q] is None);
    }

    // Check once whether the queue supports decrease_key.
    let supports_decrease_key = heap.supports_decrease_key();

    // Handles for decrease_key, only kept when the queue supports it.
    let mut handles: Vec<Option<Q::Handle>> = Vec::new();
    if supports_decrease_key {
        let mut k: usize = 0;
        while k < n
            invariant
                k <= n,
                handles@.len() == k,
                forall|m: int| 0 <= m < k ==> handles@[m] is None,
                start < n,
                distances@.len() == n,
                previous@.len() == n,
                distances@[start as int] == 0,
                forall|q: int|
                    0 <= q < n ==> #[trigger] previous@[q] is None && (distances@[q] == u32::MAX || q == start),
            decreases n - k,
        {
            handles.push(None);
            k += 1;
        }
    }
    // Insert the start node.
    let ghost heap_empty = heap;
    proof {
        heap.lemma_accepts(0, start);
    }
    let handle = heap.insert(0, start);
    if supports_decrease_key {
        handles.set(start, Some(handle));
    }
    let ghost mut settled: Set<usize> = Set::empty();
    let ghost mut order: Map<usize, nat> = Map::empty();
    let ghost mut count: nat = 0;
    proof {
        assert(g.len() == n);
        assert(heap.items() =~= Multiset::<(u32, usize)>::empty().insert((0u32, start)));
        assert forall|k: int| 0 <= k < g.len() implies #[trigger] previous@[k] is None && (distances@[k]
            == u32::MAX || k == start) by {
            assert(previous@[k] is None);
        }
        lemma_search_init(g, start, limit as int, distances@, previous@);
        lemma_queue_init(g, start, limit as int, distances@, heap, handles@, supports_decrease_key);
        lemma_total_nonneg(distances@);
    }
    loop
        invariant_except_break
            queue_state(g, limit as int, distances@, settled, heap, handles@, supports_decrease_key),
        invariant
            g == adjacency(graph),
            n == graph@.len(),
            n <= Q::node_limit(),
            g.len() == n,
            edges_in_range(g),
            end < n,
            limit == Q::spec_key_limit(),
            supports_decrease_key == Q::decreases_in_place(),
            search_state(
                g,
                start,
                limit as int,
                distances@,
                previous@,
                settled,
                order,
                count,
                start,
                g[start as int].len() as int,
            ),
        ensures
            distances@[end as int] < u32::MAX ==> distances@[end as int] < limit && is_lower_bound(
                g,
                start,
                end,
                distances@[end as int] as int,
            ),
            distances@[end as int] == u32::MAX ==> no_walk_below(g, start, end, limit as int),
        decreases heap.items().len() + total(distances@),
    {
        let ghost h0 = heap;
        let ghost d0 = distances@;
        proof {
            lemma_queue_facts(g, limit as int, distances@, settled, heap, handles@, supports_decrease_key);
            lemma_search_basics(
                g,
                start,
                limit as int,
                distances@,
                previous@,
                settled,
                order,
                count,
                start,
                g[start as int].len() as int,
            );
        }
        let extracted = heap.extract_min();
        match extracted {
            None => {
                proof {
                    lemma_queue_empty(
                        g,
                        start,
                        limit as int,
                        distances@,
                        previous@,
                        settled,
                        order,
                        count,
                        h0,
                        handles@,
                        supports_decrease_key,
                        end,
                    );
                }
                break ;
            },
            Some((current_distance, current_node)) => {
                let ghost u = current_node;
                let ghost d = current_distance;
                proof {
                    assert(h0.items().count((d, u)) > 0);
                    lemma_remove_len(h0.items(), (d, u));
                }
                // Skip stale entries (queues without decrease_key hold duplicates).
                if distances[current_node] < current_distance {
                    proof {
                        lemma_queue_extract(
                            g,
                            limit as int,
                            distances@,
                            settled,
                            settled,
                            h0,
                            heap,
                            handles@,
                            supports_decrease_key,
                            d,
                            u,
                        );
                        assert(heap.items().len() + total(distances@) < h0.items().len() + total(d0));
                        lemma_total_nonneg(distances@);
                    }
                    continue ;
                }
                proof {
                    lemma_extracted_final(
                        g,
                        start,
                        limit as int,
                        distances@,
                        previous@,
                        settled,
                        order,
                        count,
                        h0,
                        handles@,
                        supports_decrease_key,
                        d,
                        u,
                    );
                }
                // Stop as soon as the target is reached.
                if current_node == end {
                    break ;
                }
                proof {
                    lemma_settle(g, start, limit as int, distances@, previous@, settled, order, count, u);
                    let s1 = settle_set(settled, u);
                    lemma_queue_extract(
                        g,
                        limit as int,
                        distances@,
                        settled,
                        s1,
                        h0,
                        heap,
                        handles@,
                        supports_decrease_key,
                        d,
                        u,
                    );
                    order = settle_order(settled, order, count, u);
                    count = settle_count(settled, count, u);
                    settled = s1;
                }
                let m = graph[current_node].len();
                let mut j: usize = 0;
                while j < m
                    invariant
                        g == adjacency(graph),
                        n == graph@.len(),
                        n <= Q::node_limit(),
                        g.len() == n,
                        edges_in_range(g),
                        end < n,
                        u == current_node,
                        d == current_distance,
                        u < n,
                        m == g[u as int].len(),
                        j <= m,
                        limit == Q::spec_key_limit(),
                        supports_decrease_key == Q::decreases_in_place(),
                        settled.contains(u),
                        distances@[u as int] == d,
                        heap.floor() <= d,
                        search_state(
                            g,
                            start,
                            limit as int,
                            distances@,
                            previous@,
                            settled,
                            order,
                            count,
                            u,
                            j as int,
                        ),
                        queue_state(
                            g,
                            limit as int,
                            distances@,
                            settled,
                            heap,
                            handles@,
                            supports_decrease_key,
                        ),
                        heap.items().len() + total(distances@) < h0.items().len() + total(d0),
                    decreases m - j,
                {
                    let (neighbor, weight) = graph[current_node][j];
                    proof {
                        assert(g[u as int][j as int] == (neighbor, weight));
                        lemma_search_basics(
                            g,
                            start,
                            limit as int,
                            distances@,
                            previous@,
                            settled,
                            order,
                            count,
                            u,
                            j as int,
                        );
                        lemma_queue_facts(
                            g,
                            limit as int,
                            distances@,
                            settled,
                            heap,
                            handles@,
                            supports_decrease_key,
                        );
                    }
                    let mut improved = false;
                    if let Some(new_distance) = current_distance.checked_add(weight) {
                        if new_distance < limit && new_distance < distances[neighbor] {
                            improved = true;
                            let ghost dist_before = distances@;
                            let ghost prev_before = previous@;
                            let ghost heap_before = heap;
                            let ghost handles_before = handles@;
                            proof {
                                lemma_relax_update(
                                    g,
                                    start,
                                    limit as int,
                                    distances@,
                                    previous@,
                                    settled,
                                    order,
                                    count,
                                    u,
                                    j,
                                    new_distance,
                                );
                                lemma_total_update(distances@, neighbor as int, new_distance);
                            }
                            distances.set(neighbor, new_distance);
                            previous.set(neighbor, Some(current_node));
                            if supports_decrease_key {
                                if let Some(h) = &handles[neighbor] {
                                    heap.decrease_key(h, new_distance);
                                    proof {
                                        lemma_queue_relax_decrease(
                                            g,
                                            limit as int,
                                            dist_before,
                                            settled,
                                            heap_before,
                                            heap,
                                            handles@,
                                            neighbor,
                                            new_distance,
                                        );
                                    }
                                } else {
                                    proof {
                                        heap.lemma_accepts(new_distance, neighbor);
                                    }
                                    let h = heap.insert(new_distance, neighbor);
                                    proof {
                                        lemma_queue_relax_new_handle(
                                            g,
                                            limit as int,
                                            dist_before,
                                            settled,
                                            heap_before,
                                            heap,
                                            handles@,
                                            neighbor,
                                            new_distance,
                                            h,
                                        );
                                    }
                                    handles.set(neighbor, Some(h));
                                }
                            } else {
                                proof {
                                    heap.lemma_accepts(new_distance, neighbor);
                                }
                                heap.insert(new_distance, neighbor);
                                proof {
                                    lemma_queue_relax_insert(
                                        g,
                                        limit as int,
                                        dist_before,
                                        settled,
                                        heap_before,
                                        heap,
                                        handles@,
                                        neighbor,
                                        new_distance,
                                    );
                                }
                            }
                        }
                    }
                    if !improved {
                        proof {
                            lemma_relax_skip(
                                g,
                                start,
                                limit as int,
                                distances@,
                                previous@,
                                settled,
                                order,
                                count,
                                u,
                                j as int,
                            );
                        }
                    }
                    j += 1;
                }
                proof {
                    lemma_relax_done(g, start, limit as int, distances@, previous@, settled, order, count, u);
                    lemma_total_nonneg(distances@);
                }
            },
        }
    }

    // Reconstruct the path.
    proof {
        lemma_search_basics(
            g,
            start,
            limit as int,
            distances@,
            previous@,
            settled,
            order,
            count,
            start,
            g[start as int].len() as int,
        );
    }
    if distances[end] == u32::MAX {
        return (Vec::new(), None);
    }
    let mut reversed: Vec<usize> = Vec::new();
    let mut current = end;
    let ghost mut tn: Seq<usize> = seq![end];
    let ghost mut te: Seq<usize> = Seq::empty();
    proof {
        lemma_walk_single(g, end);
    }
    loop
        invariant
            g == adjacency(graph),
            n == graph@.len(),
            g.len() == n,
            end < n,
            current < n,
            distances@.len() == n,
            previous@.len() == n,
            distances@[current as int] < u32::MAX,
            distances@[end as int] < limit,
            is_lower_bound(g, start, end, distances@[end as int] as int),
            search_state(
                g,
                start,
                limit as int,
                distances@,
                previous@,
                settled,
                order,
                count,
                start,
                g[start as int].len() as int,
            ),
            is_walk_between(g, current, end, tn, te),
            walk_weight(g, tn, te) == distances@[end as int] - distances@[current as int],
            reversed@.len() + 1 == tn.len(),
            forall|k: int| 0 <= k < reversed@.len() ==> reversed@[k] == tn[tn.len() - 1 - k],
            forall|a: int, b: int|
                0 <= a < b < tn.len() ==> rank(settled, order, count, #[trigger] tn[a]) < rank(
                    settled,
                    order,
                    count,
                    #[trigger] tn[b],
                ),
        ensures
            current == start,
        decreases rank(settled, order, count, current),
    {
        match previous[current] {
            None => {
                proof {
                    lemma_prev_none(
                        g,
                        start,
                        limit as int,
                        distances@,
                        previous@,
                        settled,
                        order,
                        count,
                        current,
                    );
                }
                break ;
            },
            Some(prev) => {
                proof {
                    let jj = lemma_prev_step(
                        g,
                        start,
                        limit as int,
                        distances@,
                        previous@,
                        settled,
                        order,
                        count,
                        current,
                    );
                    lemma_walk_prepend(g, prev, jj, tn, te);
                    let tn2 = seq![prev] + tn;
                    assert(tn2[0] == prev);
                    assert forall|k: int| 0 <= k < reversed@.len() + 1 implies reversed@.push(current)[k]
                        == tn2[tn2.len() - 1 - k] by {
                        if k < reversed@.len() {
                            assert(tn2[tn2.len() - 1 - k] == tn[tn.len() - 1 - k]);
                        } else {
                            assert(tn2[1] == tn[0]);
                        }
                    }
                    assert(previous@[current as int] is Some);
                    assert(rank(settled, order, count, prev) < rank(settled, order, count, current));
                    assert(tn[0] == current);
                    assert forall|a: int, b: int| 0 <= a < b < tn2.len() implies rank(settled, order, count, #[trigger] tn2[a])
                        < rank(settled, order, count, #[trigger] tn2[b]) by {
                        if a == 0 {
                            if b > 1 {
                                assert(rank(settled, order, count, tn[0]) < rank(settled, order, count, tn[b - 1]));
                            }
                            assert(tn2[b] == tn[b - 1]);
                        } else {
                            assert(tn2[a] == tn[a - 1] && tn2[b] == tn[b - 1]);
                            assert(rank(settled, order, count, tn[a - 1]) < rank(settled, order, count, tn[b - 1]));
                        }
                    }
                    tn = tn2;
                    te = seq![jj] + te;
                }
                reversed.push(current);
                current = prev;
            },
        }
    }
    reversed.push(current);
    let mut path: Vec<usize> = Vec::new();
    let mut k = reversed.len();
    while k > 0
        invariant
            k <= reversed@.len(),
            reversed@.len() == tn.len(),
            forall|q: int| 0 <= q < reversed@.len() ==> reversed@[q] == tn[tn.len() - 1 - q],
            path@.len() + k == reversed@.len(),
            forall|q: int| 0 <= q < path@.len() ==> path@[q] == tn[q],
        decreases k,
    {
        k -= 1;
        path.push(reversed[k]);
    }
    proof {
        assert(path@ =~= tn);
        assert(is_shortest_walk(g, start, end, path@, te, limit as int));
        assert(tn.no_duplicates()) by {
            assert forall|a: int, b: int| 0 <= a < tn.len() && 0 <= b < tn.len() && a != b implies tn[a] != tn[b] by {
                if a < b {
                    assert(rank(settled, order, count, tn[a]) < rank(settled, order, count, tn[b]));
                } else {
                    assert(rank(settled, order, count, tn[b]) < rank(settled, order, count, tn[a]));
                }
            }
        }
        assert(is_shortest_walk(g, start, end, path@, te, limit as int) && walk_weight(g, path@, te)
            == distances@[end as int]);
    }
    (path, Some(distances[end]))
}

} // verus!
