//! Weighted directed graphs given as adjacency lists, and the walks through them.
//!
//! A graph with `n` nodes is a sequence of `n` adjacency lists; `g[u]` holds the
//! `(v, weight)` pairs of the edges leaving `u`.  A walk is described by its nodes and,
//! for each step, the index of the edge taken in the adjacency list of the node it
//! leaves; this way parallel edges of different weights are told apart.
use vstd::prelude::*;

verus! {

/// The mathematical adjacency lists of a sequence of executable adjacency lists.
pub open spec fn rows_view(rows: Seq<Vec<(usize, u32)>>) -> Seq<Seq<(usize, u32)>> {
    Seq::new(rows.len(), |i: int| rows[i]@)
}

/// The mathematical adjacency lists of an executable graph.
pub open spec fn adjacency(graph: &[Vec<(usize, u32)>]) -> Seq<Seq<(usize, u32)>> {
    rows_view(graph@)
}

/// Every edge leads to a node of the graph.
pub open spec fn edges_in_range(g: Seq<Seq<(usize, u32)>>) -> bool {
    forall|u: int, j: int|
        0 <= u < g.len() && 0 <= j < g[u].len() ==> (#[trigger] g[u][j]).0 < g.len()
}

/// `nodes` and `edges` form a walk of `g`: step `i` leaves `nodes[i]` by its edge
/// number `edges[i]`, which leads to `nodes[i + 1]`.
pub open spec fn is_walk(g: Seq<Seq<(usize, u32)>>, nodes: Seq<usize>, edges: Seq<usize>) -> bool {
    &&& nodes.len() == edges.len() + 1
    &&& forall|i: int| 0 <= i < nodes.len() ==> (#[trigger] nodes[i]) < g.len()
    &&& forall|i: int|
        0 <= i < edges.len() ==> (#[trigger] edges[i]) < g[nodes[i] as int].len()
            && g[nodes[i] as int][edges[i] as int].0 == nodes[i + 1]
}

/// The sum of the weights of the edges a walk takes.
pub open spec fn walk_weight(g: Seq<Seq<(usize, u32)>>, nodes: Seq<usize>, edges: Seq<usize>) -> int
    decreases edges.len(),
{
    if edges.len() == 0 {
        0
    } else {
        walk_weight(g, nodes.drop_last(), edges.drop_last()) + g[nodes[edges.len() - 1] as int][edges.last() as int].1
    }
}

/// A walk of `g` from `s` to `t`.
pub open spec fn is_walk_between(
    g: Seq<Seq<(usize, u32)>>,
    s: usize,
    t: usize,
    nodes: Seq<usize>,
    edges: Seq<usize>,
) -> bool {
    &&& is_walk(g, nodes, edges)
    &&& nodes[0] == s
    &&& nodes.last() == t
}

/// No walk from `s` to `t` weighs less than `d`.
pub open spec fn is_lower_bound(g: Seq<Seq<(usize, u32)>>, s: usize, t: usize, d: int) -> bool {
    forall|nodes: Seq<usize>, edges: Seq<usize>|
        #[trigger] is_walk_between(g, s, t, nodes, edges) ==> d <= walk_weight(g, nodes, edges)
}

/// Some walk from `s` to `t` weighs exactly `d`.
pub open spec fn is_reached(g: Seq<Seq<(usize, u32)>>, s: usize, t: usize, d: int) -> bool {
    exists|nodes: Seq<usize>, edges: Seq<usize>|
        #[trigger] is_walk_between(g, s, t, nodes, edges) && walk_weight(g, nodes, edges) == d
}

/// `nodes`/`edges` is a walk from `s` to `t` lighter than `limit` and no walk from `s`
/// to `t` is lighter than it.
pub open spec fn is_shortest_walk(
    g: Seq<Seq<(usize, u32)>>,
    s: usize,
    t: usize,
    nodes: Seq<usize>,
    edges: Seq<usize>,
    limit: int,
) -> bool {
    &&& is_walk_between(g, s, t, nodes, edges)
    &&& walk_weight(g, nodes, edges) < limit
    &&& is_lower_bound(g, s, t, walk_weight(g, nodes, edges))
}

/// Every walk from `s` to `t` weighs at least `limit`.
pub open spec fn no_walk_below(g: Seq<Seq<(usize, u32)>>, s: usize, t: usize, limit: int) -> bool {
    is_lower_bound(g, s, t, limit)
}

/// The node sequence `nodes` is a path (no node repeats) and a shortest walk from `s` to
/// `t` (for some choice of the parallel edges it takes), lighter than `limit`.
pub open spec fn is_shortest_path(
    g: Seq<Seq<(usize, u32)>>,
    s: usize,
    t: usize,
    nodes: Seq<usize>,
    limit: int,
) -> bool {
    &&& nodes.no_duplicates()
    &&& exists|edges: Seq<usize>| #[trigger] is_shortest_walk(g, s, t, nodes, edges, limit)
}

/// Walk weights are never negative.
pub proof fn lemma_walk_weight_nonneg(g: Seq<Seq<(usize, u32)>>, nodes: Seq<usize>, edges: Seq<usize>)
    ensures
        walk_weight(g, nodes, edges) >= 0,
    decreases edges.len(),
{
    if edges.len() > 0 {
        lemma_walk_weight_nonneg(g, nodes.drop_last(), edges.drop_last());
    }
}

/// The walk with no step.
pub proof fn lemma_walk_single(g: Seq<Seq<(usize, u32)>>, s: usize)
    requires
        s < g.len(),
    ensures
        is_walk_between(g, s, s, seq![s], Seq::<usize>::empty()),
        walk_weight(g, seq![s], Seq::<usize>::empty()) == 0,
{
}

/// Dropping the last step of a walk leaves a walk to the node before the last.
pub proof fn lemma_walk_drop_last(g: Seq<Seq<(usize, u32)>>, nodes: Seq<usize>, edges: Seq<usize>)
    requires
        is_walk(g, nodes, edges),
        edges.len() > 0,
    ensures
        is_walk(g, nodes.drop_last(), edges.drop_last()),
        nodes.drop_last()[0] == nodes[0],
        nodes.drop_last().last() == nodes[nodes.len() - 2],
        walk_weight(g, nodes, edges) == walk_weight(g, nodes.drop_last(), edges.drop_last())
            + g[nodes[nodes.len() - 2] as int][edges.last() as int].1,
        edges.last() < g[nodes[nodes.len() - 2] as int].len(),
        g[nodes[nodes.len() - 2] as int][edges.last() as int].0 == nodes.last(),
{
    let n2 = nodes.drop_last();
    let e2 = edges.drop_last();
    assert forall|i: int| 0 <= i < n2.len() implies (#[trigger] n2[i]) < g.len() by {
        assert(n2[i] == nodes[i]);
    }
    assert forall|i: int| 0 <= i < e2.len() implies (#[trigger] e2[i]) < g[n2[i] as int].len()
        && g[n2[i] as int][e2[i] as int].0 == n2[i + 1] by {
        assert(e2[i] == edges[i]);
        assert(n2[i] == nodes[i]);
        assert(n2[i + 1] == nodes[i + 1]);
    }
    assert(edges[edges.len() - 1] < g[nodes[edges.len() - 1] as int].len());
}

/// Extending a walk by an edge leaving its last node.
pub proof fn lemma_walk_push(g: Seq<Seq<(usize, u32)>>, nodes: Seq<usize>, edges: Seq<usize>, j: usize)
    requires
        is_walk(g, nodes, edges),
        edges_in_range(g),
        j < g[nodes.last() as int].len(),
    ensures
        is_walk(g, nodes.push(g[nodes.last() as int][j as int].0), edges.push(j)),
        nodes.push(g[nodes.last() as int][j as int].0)[0] == nodes[0],
        walk_weight(g, nodes.push(g[nodes.last() as int][j as int].0), edges.push(j))
            == walk_weight(g, nodes, edges) + g[nodes.last() as int][j as int].1,
{
    let u = nodes.last();
    let v = g[u as int][j as int].0;
    let n2 = nodes.push(v);
    let e2 = edges.push(j);
    assert(v < g.len()) by {
        assert(g[u as int][j as int] == g[u as int][j as int]);
    }
    assert forall|i: int| 0 <= i < n2.len() implies (#[trigger] n2[i]) < g.len() by {
        if i < nodes.len() {
            assert(n2[i] == nodes[i]);
        }
    }
    assert forall|i: int| 0 <= i < e2.len() implies (#[trigger] e2[i]) < g[n2[i] as int].len()
        && g[n2[i] as int][e2[i] as int].0 == n2[i + 1] by {
        if i < edges.len() {
            assert(e2[i] == edges[i]);
            assert(n2[i] == nodes[i]);
            assert(n2[i + 1] == nodes[i + 1]);
        } else {
            assert(n2[i] == nodes[nodes.len() - 1]);
        }
    }
    assert(n2.drop_last() =~= nodes);
    assert(e2.drop_last() =~= edges);
}

/// Prepending an edge to a walk.
pub proof fn lemma_walk_prepend(
    g: Seq<Seq<(usize, u32)>>,
    a: usize,
    j: usize,
    nodes: Seq<usize>,
    edges: Seq<usize>,
)
    requires
        is_walk(g, nodes, edges),
        a < g.len(),
        j < g[a as int].len(),
        g[a as int][j as int].0 == nodes[0],
    ensures
        is_walk(g, seq![a] + nodes, seq![j] + edges),
        (seq![a] + nodes).last() == nodes.last(),
        walk_weight(g, seq![a] + nodes, seq![j] + edges) == g[a as int][j as int].1 + walk_weight(
            g,
            nodes,
            edges,
        ),
    decreases edges.len(),
{
    let n2 = seq![a] + nodes;
    let e2 = seq![j] + edges;
    assert forall|i: int| 0 <= i < n2.len() implies (#[trigger] n2[i]) < g.len() by {
        if i > 0 {
            assert(n2[i] == nodes[i - 1]);
        }
    }
    assert forall|i: int| 0 <= i < e2.len() implies (#[trigger] e2[i]) < g[n2[i] as int].len()
        && g[n2[i] as int][e2[i] as int].0 == n2[i + 1] by {
        if i > 0 {
            assert(e2[i] == edges[i - 1]);
            assert(n2[i] == nodes[i - 1]);
            assert(n2[i + 1] == nodes[i]);
        } else {
            assert(n2[1] == nodes[0]);
        }
    }
    if edges.len() > 0 {
        lemma_walk_drop_last(g, nodes, edges);
        lemma_walk_prepend(g, a, j, nodes.drop_last(), edges.drop_last());
        assert(n2.drop_last() =~= seq![a] + nodes.drop_last());
        assert(e2.drop_last() =~= seq![j] + edges.drop_last());
        assert(n2[e2.len() - 1] == nodes[edges.len() - 1]);
        assert(e2.last() == edges.last());
    } else {
        assert(n2.drop_last() =~= seq![a]);
        assert(e2.drop_last() =~= Seq::<usize>::empty());
        assert(walk_weight(g, seq![a], Seq::<usize>::empty()) == 0);
        assert(walk_weight(g, nodes, edges) == 0);
        assert(e2.last() == j);
        assert(n2[0] == a);
    }
}


/// `path` and `dist` answer the search for a shortest path from `s` to `t` among walks
/// lighter than `limit`: no path and no distance when there is no such walk; otherwise
/// a shortest path and its weight, the distance from `s` to `t`.
pub open spec fn is_path_and_distance(
    g: Seq<Seq<(usize, u32)>>,
    s: usize,
    t: usize,
    limit: int,
    path: Seq<usize>,
    dist: Option<u32>,
) -> bool {
    match dist {
        None => path.len() == 0 && no_walk_below(g, s, t, limit),
        Some(d) => {
            &&& is_shortest_path(g, s, t, path, limit)
            &&& exists|e: Seq<usize>| #[trigger] is_shortest_walk(g, s, t, path, e, limit) && walk_weight(g, path, e) == d
        },
    }
}

/// Two answers of Dijkstra's algorithm on the same graph and endpoints agree, whatever
/// priority queue produced them: both find no path, or both find a shortest path, with
/// the same distance.
pub proof fn lemma_shortest_answers_agree(
    g: Seq<Seq<(usize, u32)>>,
    s: usize,
    t: usize,
    limit: int,
    p1: Seq<usize>,
    d1: Option<u32>,
    p2: Seq<usize>,
    d2: Option<u32>,
)
    requires
        is_path_and_distance(g, s, t, limit, p1, d1),
        is_path_and_distance(g, s, t, limit, p2, d2),
    ensures
        p1.len() == 0 <==> p2.len() == 0,
        d1 == d2,
{
    if let Some(x1) = d1 {
        let e1 = choose|e: Seq<usize>| #[trigger] is_shortest_walk(g, s, t, p1, e, limit) && walk_weight(g, p1, e) == x1;
        assert(is_walk_between(g, s, t, p1, e1));
        assert(p1.len() > 0);
        if let Some(x2) = d2 {
            let e2 = choose|e: Seq<usize>| #[trigger] is_shortest_walk(g, s, t, p2, e, limit) && walk_weight(g, p2, e) == x2;
            assert(is_walk_between(g, s, t, p2, e2));
            assert(p2.len() > 0);
        }
    } else if let Some(x2) = d2 {
        let e2 = choose|e: Seq<usize>| #[trigger] is_shortest_walk(g, s, t, p2, e, limit) && walk_weight(g, p2, e) == x2;
        assert(is_walk_between(g, s, t, p2, e2));
    }
}

/// Answers searched under two key limits agree when the distance found under the larger
/// limit is below the smaller one (or there is none): this is how the bucket queue, which
/// stops at its bucket count, agrees with the other queues.
pub proof fn lemma_answers_agree_below(
    g: Seq<Seq<(usize, u32)>>,
    s: usize,
    t: usize,
    small: int,
    large: int,
    p1: Seq<usize>,
    d1: Option<u32>,
    p2: Seq<usize>,
    d2: Option<u32>,
)
    requires
        small <= large,
        is_path_and_distance(g, s, t, small, p1, d1),
        is_path_and_distance(g, s, t, large, p2, d2),
        d2 is None || d2->Some_0 < small,
    ensures
        d1 == d2,
        p1.len() == 0 <==> p2.len() == 0,
{
    if let Some(x1) = d1 {
        let e1 = choose|e: Seq<usize>| #[trigger] is_shortest_walk(g, s, t, p1, e, small) && walk_weight(g, p1, e) == x1;
        assert(is_walk_between(g, s, t, p1, e1));
        assert(p1.len() > 0);
        if let Some(x2) = d2 {
            let e2 = choose|e: Seq<usize>| #[trigger] is_shortest_walk(g, s, t, p2, e, large) && walk_weight(g, p2, e) == x2;
            assert(is_walk_between(g, s, t, p2, e2));
            assert(p2.len() > 0);
        }
    } else if let Some(x2) = d2 {
        let e2 = choose|e: Seq<usize>| #[trigger] is_shortest_walk(g, s, t, p2, e, large) && walk_weight(g, p2, e) == x2;
        assert(is_walk_between(g, s, t, p2, e2));
    }
}

/// A shortest path starts at `s`, ends at `t`, and is the single node `s` exactly when
/// `s` and `t` are the same node.
pub proof fn lemma_shortest_path_ends(g: Seq<Seq<(usize, u32)>>, s: usize, t: usize, p: Seq<usize>, limit: int)
    requires
        is_shortest_path(g, s, t, p, limit),
    ensures
        p.len() >= 1,
        p[0] == s,
        p.last() == t,
        p.len() == 1 <==> s == t,
{
    let e = choose|e: Seq<usize>| #[trigger] is_shortest_walk(g, s, t, p, e, limit);
    assert(is_walk_between(g, s, t, p, e));
    if s == t && p.len() > 1 {
        assert(p[0] == p[p.len() - 1]);
    }
}


/// The sum of the weights of the edges in `row`.
pub open spec fn row_weight(row: Seq<(usize, u32)>) -> int
    decreases row.len(),
{
    if row.len() == 0 {
        0
    } else {
        row_weight(row.drop_last()) + row.last().1
    }
}

/// The sum of the weights of the edges leaving the first `k` nodes.
pub open spec fn weight_upto(g: Seq<Seq<(usize, u32)>>, k: nat) -> int
    decreases k,
{
    if k == 0 {
        0
    } else {
        weight_upto(g, (k - 1) as nat) + row_weight(g[k - 1])
    }
}

/// The sum of the weights of all edges of `g`.
pub open spec fn total_weight(g: Seq<Seq<(usize, u32)>>) -> int {
    weight_upto(g, g.len())
}

/// The sum of the row weights of the nodes `s`.
spec fn rows_of(g: Seq<Seq<(usize, u32)>>, s: Seq<usize>) -> int
    decreases s.len(),
{
    if s.len() == 0 {
        0
    } else {
        rows_of(g, s.drop_last()) + row_weight(g[s.last() as int])
    }
}

proof fn lemma_row_weight_bounds(row: Seq<(usize, u32)>, j: int)
    ensures
        row_weight(row) >= 0,
        0 <= j < row.len() ==> row[j].1 <= row_weight(row),
    decreases row.len(),
{
    if row.len() > 0 {
        lemma_row_weight_bounds(row.drop_last(), j);
        if 0 <= j < row.len() - 1 {
            assert(row.drop_last()[j] == row[j]);
        }
    }
}

proof fn lemma_rows_of_remove(g: Seq<Seq<(usize, u32)>>, s: Seq<usize>, p: int)
    requires
        0 <= p < s.len(),
    ensures
        rows_of(g, s) == rows_of(g, s.remove(p)) + row_weight(g[s[p] as int]),
    decreases s.len(),
{
    if p == s.len() - 1 {
        assert(s.remove(p) =~= s.drop_last());
    } else {
        lemma_rows_of_remove(g, s.drop_last(), p);
        assert(s.remove(p).drop_last() =~= s.drop_last().remove(p));
        assert(s.remove(p).last() == s.last());
    }
}

/// Distinct nodes below `k` leave edges weighing no more than all edges of the first `k`
/// nodes.
proof fn lemma_rows_of_distinct(g: Seq<Seq<(usize, u32)>>, s: Seq<usize>, k: nat)
    requires
        s.no_duplicates(),
        forall|i: int| 0 <= i < s.len() ==> (#[trigger] s[i]) < k,
    ensures
        rows_of(g, s) <= weight_upto(g, k),
    decreases k,
{
    if k == 0 {
        if s.len() > 0 {
            assert(s[0] < 0);
        }
    } else {
        lemma_row_weight_bounds(g[k - 1], 0);
        if k - 1 <= usize::MAX && s.contains((k - 1) as usize) {
            let p = choose|p: int| 0 <= p < s.len() && s[p] == (k - 1) as usize;
            lemma_rows_of_remove(g, s, p);
            let s2 = s.remove(p);
            assert forall|i: int| 0 <= i < s2.len() implies (#[trigger] s2[i]) < k - 1 by {
                let i0 = if i < p { i } else { i + 1 };
                assert(s2[i] == s[i0]);
                assert(s[i0] != s[p]);
            }
            assert(s2.no_duplicates()) by {
                assert forall|a: int, b: int| 0 <= a < s2.len() && 0 <= b < s2.len() && a != b implies s2[a] != s2[b] by {
                    let a0 = if a < p { a } else { a + 1 };
                    let b0 = if b < p { b } else { b + 1 };
                    assert(s2[a] == s[a0] && s2[b] == s[b0]);
                }
            }
            lemma_rows_of_distinct(g, s2, (k - 1) as nat);
        } else {
            assert forall|i: int| 0 <= i < s.len() implies (#[trigger] s[i]) < k - 1 by {
                if k - 1 <= usize::MAX {
                    assert(s[i] != (k - 1) as usize);
                }
            }
            lemma_rows_of_distinct(g, s, (k - 1) as nat);
        }
    }
}

/// A walk weighs no more than the rows of the nodes it leaves.
proof fn lemma_walk_le_rows(g: Seq<Seq<(usize, u32)>>, nodes: Seq<usize>, edges: Seq<usize>)
    requires
        is_walk(g, nodes, edges),
    ensures
        walk_weight(g, nodes, edges) <= rows_of(g, nodes.take(edges.len() as int)),
    decreases edges.len(),
{
    if edges.len() > 0 {
        let k = edges.len() as int;
        lemma_walk_drop_last(g, nodes, edges);
        lemma_walk_le_rows(g, nodes.drop_last(), edges.drop_last());
        assert(nodes.drop_last().take(k - 1) =~= nodes.take(k).drop_last());
        lemma_row_weight_bounds(g[nodes[k - 1] as int], edges[k - 1] as int);
    }
}

/// A path (no node repeats) weighs no more than all edges of the graph.
pub proof fn lemma_path_within_total(g: Seq<Seq<(usize, u32)>>, nodes: Seq<usize>, edges: Seq<usize>)
    requires
        is_walk(g, nodes, edges),
        nodes.no_duplicates(),
    ensures
        walk_weight(g, nodes, edges) <= total_weight(g),
{
    lemma_walk_le_rows(g, nodes, edges);
    let s = nodes.take(edges.len() as int);
    assert(s.no_duplicates()) by {
        assert forall|a: int, b: int| 0 <= a < s.len() && 0 <= b < s.len() && a != b implies s[a] != s[b] by {
            assert(s[a] == nodes[a] && s[b] == nodes[b]);
        }
    }
    assert forall|i: int| 0 <= i < s.len() implies (#[trigger] s[i]) < g.len() by {
        assert(s[i] == nodes[i]);
    }
    lemma_rows_of_distinct(g, s, g.len());
}

/// When all edges together weigh less than the bucket count of Dial's queue (or any
/// smaller key limit), its answers agree with those of a queue whose limit is larger:
/// both find no path, or both find a shortest path with the same distance.
pub proof fn lemma_answers_agree_within_total(
    g: Seq<Seq<(usize, u32)>>,
    s: usize,
    t: usize,
    small: int,
    large: int,
    p1: Seq<usize>,
    d1: Option<u32>,
    p2: Seq<usize>,
    d2: Option<u32>,
)
    requires
        total_weight(g) < small <= large,
        is_path_and_distance(g, s, t, small, p1, d1),
        is_path_and_distance(g, s, t, large, p2, d2),
    ensures
        d1 == d2,
        p1.len() == 0 <==> p2.len() == 0,
{
    if let Some(x2) = d2 {
        let e2 = choose|e: Seq<usize>| #[trigger] is_shortest_walk(g, s, t, p2, e, large) && walk_weight(g, p2, e) == x2;
        assert(is_walk_between(g, s, t, p2, e2));
        lemma_path_within_total(g, p2, e2);
    }
    lemma_answers_agree_below(g, s, t, small, large, p1, d1, p2, d2);
}

} // verus!
