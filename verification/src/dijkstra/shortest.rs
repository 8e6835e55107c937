//! The shortest path between the first and the last node of a graph given as text.
use crate::dial::heap::MAX_BUCKETS;
use crate::dijkstra::binary::dijkstra_binary;
use crate::dijkstra::dial::dijkstra_dial;
use crate::dijkstra::fib::dijkstra_fibonacci;
use crate::dijkstra::fib_unsafe::dijkstra_fibonacci_unsafe;
use crate::dijkstra::pairing::dijkstra_pairing;
use crate::dijkstra::radix::dijkstra_radix;
use crate::dijkstra::parse::{line_texts, names_map, parse_graph, parse_result};
use crate::graph::{
    adjacency, edges_in_range, is_path_and_distance, is_shortest_path, lemma_shortest_answers_agree, is_shortest_walk, is_walk_between,
    no_walk_below, rows_view, walk_weight,
};
use crate::text::push_decimal;
use vstd::prelude::*;
use vstd::string::StringExecFns;

verus! {

broadcast use vstd::std_specs::hash::group_hash_axioms;

/// The names of the nodes of `path`, joined by `-`.
pub open spec fn path_text(names: Seq<Seq<char>>, path: Seq<usize>) -> Seq<char>
    decreases path.len(),
{
    if path.len() == 0 {
        Seq::empty()
    } else if path.len() == 1 {
        names[path[0] as int]
    } else {
        path_text(names, path.drop_last()) + "-"@ + names[path.last() as int]
    }
}

/// The text and error message of a result.
pub open spec fn result_view(r: Result<String, String>) -> Result<Seq<char>, Seq<char>> {
    match r {
        Ok(s) => Ok(s@),
        Err(e) => Err(e@),
    }
}

/// `r` answers the question of the shortest path from the first to the last node of the
/// graph that `lines` describes, among walks lighter than `limit`: `-1` when there is no
/// input, no node or no such walk, the single node's name, the names along a shortest
/// path joined by `-`, or the error message of the input.
pub open spec fn is_path_answer(
    lines: Seq<Seq<char>>,
    bidirectional: bool,
    limit: int,
    r: Result<Seq<char>, Seq<char>>,
) -> bool {
    if lines.len() == 0 {
        r == Ok::<Seq<char>, Seq<char>>("-1"@)
    } else {
        match parse_result(lines, bidirectional) {
            Err(m) => r == Err::<Seq<char>, Seq<char>>(m),
            Ok((g, names)) => {
                if g.len() == 0 {
                    r == Ok::<Seq<char>, Seq<char>>("-1"@)
                } else if g.len() == 1 {
                    r == Ok::<Seq<char>, Seq<char>>(names[0])
                } else {
                    let last = (g.len() - 1) as usize;
                    ||| r == Ok::<Seq<char>, Seq<char>>("-1"@) && no_walk_below(g, 0, last, limit)
                    ||| exists|p: Seq<usize>|
                        #[trigger] is_shortest_path(g, 0, last, p, limit) && r == Ok::<
                            Seq<char>,
                            Seq<char>,
                        >(path_text(names, p))
                }
            },
        }
    }
}

/// Two answers to the same input agree, whatever priority queue produced them: both
/// fail, with the same message, or both succeed; and when the input parses to a graph
/// of at least two nodes and no walk from the first to the last node is lighter than
/// `limit`, both are `-1`.
pub proof fn lemma_path_answers_agree(
    lines: Seq<Seq<char>>,
    bidirectional: bool,
    limit: int,
    r1: Result<Seq<char>, Seq<char>>,
    r2: Result<Seq<char>, Seq<char>>,
)
    requires
        is_path_answer(lines, bidirectional, limit, r1),
        is_path_answer(lines, bidirectional, limit, r2),
    ensures
        r1 is Err ==> r1 == r2,
        r1 is Ok <==> r2 is Ok,
        lines.len() > 0 && parse_result(lines, bidirectional) is Ok && ({
            let g = parse_result(lines, bidirectional)->Ok_0.0;
            g.len() >= 2 && no_walk_below(g, 0, (g.len() - 1) as usize, limit)
        }) ==> r1 == Ok::<Seq<char>, Seq<char>>("-1"@) && r2 == Ok::<Seq<char>, Seq<char>>("-1"@),
{
    if lines.len() > 0 {
        if let Ok((g, names)) = parse_result(lines, bidirectional) {
            if g.len() >= 2 {
                let last = (g.len() - 1) as usize;
                if no_walk_below(g, 0, last, limit) {
                    assert forall|p: Seq<usize>| !(#[trigger] is_shortest_path(g, 0, last, p, limit)) by {
                        if is_shortest_path(g, 0, last, p, limit) {
                            let e = choose|e: Seq<usize>| #[trigger] is_shortest_walk(g, 0, last, p, e, limit);
                            assert(is_walk_between(g, 0, last, p, e));
                        }
                    }
                }
            }
        }
    }
}

/// The text and distance, or the error message, of a result.
pub open spec fn weighted_view(r: Result<(String, Option<u32>), String>) -> Result<(Seq<char>, Option<u32>), Seq<char>> {
    match r {
        Ok((s, d)) => Ok((s@, d)),
        Err(e) => Err(e@),
    }
}

/// A successful answer with the text `text` and the distance `d`.
pub open spec fn weighted_ok(text: Seq<char>, d: Option<u32>) -> Result<(Seq<char>, Option<u32>), Seq<char>> {
    Ok((text, d))
}

/// `r` answers the question of the shortest path from the first to the last node of the
/// graph that `lines` describes, among walks lighter than `limit`, with its distance:
/// `-1` and no distance when there is no input, no node or no such walk; the single
/// node's name and distance 0; the names along a shortest path joined by `-` and its
/// weight; or the error message of the input.
pub open spec fn is_weighted_answer(
    lines: Seq<Seq<char>>,
    bidirectional: bool,
    limit: int,
    r: Result<(Seq<char>, Option<u32>), Seq<char>>,
) -> bool {
    if lines.len() == 0 {
        r == weighted_ok("-1"@, None)
    } else {
        match parse_result(lines, bidirectional) {
            Err(m) => r == Err::<(Seq<char>, Option<u32>), Seq<char>>(m),
            Ok((g, names)) => {
                if g.len() == 0 {
                    r == weighted_ok("-1"@, None)
                } else if g.len() == 1 {
                    r == weighted_ok(names[0], Some(0u32))
                } else {
                    let last = (g.len() - 1) as usize;
                    ||| r == weighted_ok("-1"@, None) && no_walk_below(g, 0, last, limit)
                    ||| exists|p: Seq<usize>, d: u32|
                        #[trigger] is_path_and_distance(g, 0, last, limit, p, Some(d)) && r == weighted_ok(
                            path_text(names, p),
                            Some(d),
                        )
                }
            },
        }
    }
}

/// The text of a weighted answer.
pub open spec fn text_part(r: Result<(Seq<char>, Option<u32>), Seq<char>>) -> Result<Seq<char>, Seq<char>> {
    match r {
        Ok((s, _)) => Ok(s),
        Err(e) => Err(e),
    }
}

/// The text of a weighted answer is a path answer.
pub proof fn lemma_weighted_text(
    lines: Seq<Seq<char>>,
    bidirectional: bool,
    limit: int,
    r: Result<(Seq<char>, Option<u32>), Seq<char>>,
)
    requires
        is_weighted_answer(lines, bidirectional, limit, r),
    ensures
        is_path_answer(lines, bidirectional, limit, text_part(r)),
{
    if lines.len() > 0 {
        if let Ok((g, names)) = parse_result(lines, bidirectional) {
            if g.len() >= 2 {
                let last = (g.len() - 1) as usize;
                if !(r == weighted_ok("-1"@, None) && no_walk_below(g, 0, last, limit)) {
                    let (p, d) = choose|p: Seq<usize>, d: u32|
                        #[trigger] is_path_and_distance(g, 0, last, limit, p, Some(d)) && r == weighted_ok(
                            path_text(names, p),
                            Some(d),
                        );
                    assert(is_shortest_path(g, 0, last, p, limit));
                }
            }
        }
    }
}

/// Two weighted answers to the same input under the same key limit agree, whatever
/// priority queues produced them: both fail with the same message, or both succeed with
/// the same distance (the paths may differ when several are shortest).
pub proof fn lemma_weighted_answers_agree(
    lines: Seq<Seq<char>>,
    bidirectional: bool,
    limit: int,
    r1: Result<(Seq<char>, Option<u32>), Seq<char>>,
    r2: Result<(Seq<char>, Option<u32>), Seq<char>>,
)
    requires
        is_weighted_answer(lines, bidirectional, limit, r1),
        is_weighted_answer(lines, bidirectional, limit, r2),
    ensures
        r1 is Err ==> r1 == r2,
        r1 is Ok <==> r2 is Ok,
        r1 is Ok ==> r1->Ok_0.1 == r2->Ok_0.1,
{
    if lines.len() > 0 {
        if let Ok((g, names)) = parse_result(lines, bidirectional) {
            if g.len() >= 2 {
                let last = (g.len() - 1) as usize;
                let (p1, d1) = if r1 == weighted_ok("-1"@, None) && no_walk_below(g, 0, last, limit) {
                    (Seq::<usize>::empty(), None::<u32>)
                } else {
                    let (p, d) = choose|p: Seq<usize>, d: u32|
                        #[trigger] is_path_and_distance(g, 0, last, limit, p, Some(d)) && r1 == weighted_ok(
                            path_text(names, p),
                            Some(d),
                        );
                    (p, Some(d))
                };
                let (p2, d2) = if r2 == weighted_ok("-1"@, None) && no_walk_below(g, 0, last, limit) {
                    (Seq::<usize>::empty(), None::<u32>)
                } else {
                    let (p, d) = choose|p: Seq<usize>, d: u32|
                        #[trigger] is_path_and_distance(g, 0, last, limit, p, Some(d)) && r2 == weighted_ok(
                            path_text(names, p),
                            Some(d),
                        );
                    (p, Some(d))
                };
                lemma_shortest_answers_agree(g, 0, last, limit, p1, d1, p2, d2);
            }
        }
    }
}

/// The priority queue that runs Dijkstra's algorithm.
pub enum HeapKind {
    Binary,
    Fibonacci,
    FibonacciUnsafe,
    Pairing,
    Radix,
    Dial,
}

/// The key limit of the queue `kind`: walks at least this heavy are not searched.
pub open spec fn heap_limit(kind: HeapKind) -> int {
    match kind {
        HeapKind::Dial => MAX_BUCKETS as int,
        _ => u32::MAX as int,
    }
}

/// Dijkstra's algorithm over the priority queue `kind`.
fn run_dijkstra(kind: HeapKind, start: usize, end: usize, graph: &[Vec<(usize, u32)>]) -> (r: (
    Vec<usize>,
    Option<u32>,
))
    requires
        start < graph@.len(),
        end < graph@.len(),
        edges_in_range(adjacency(graph)),
        graph@.len() <= u32::MAX,
    ensures
        is_path_and_distance(adjacency(graph), start, end, heap_limit(kind), r.0@, r.1),
{
    match kind {
        HeapKind::Binary => dijkstra_binary(start, end, graph),
        HeapKind::Fibonacci => dijkstra_fibonacci(start, end, graph),
        HeapKind::FibonacciUnsafe => dijkstra_fibonacci_unsafe(start, end, graph),
        HeapKind::Pairing => dijkstra_pairing(start, end, graph),
        HeapKind::Radix => dijkstra_radix(start, end, graph),
        HeapKind::Dial => dijkstra_dial(start, end, graph),
    }
}

fn text_of(s: &str) -> (r: String)
    ensures
        r@ == s@,
{
    let mut r = String::new();
    r.append(s);
    proof {
        assert(r@ =~= s@);
    }
    r
}

fn find_shortest_path_with(lines: Vec<&str>, bidirectional: bool, kind: HeapKind) -> (r: Result<
    (String, Option<u32>),
    String,
>)
    ensures
        is_weighted_answer(line_texts(lines@), bidirectional, heap_limit(kind), weighted_view(r)),
{
    let ghost limit = heap_limit(kind);
    let ghost lt = line_texts(lines@);
    if lines.len() == 0 {
        return Ok((text_of("-1"), None));
    }
    let parsed = match parse_graph(lines.as_slice(), bidirectional) {
        Ok(p) => p,
        Err(e) => {
            return Err(e);
        },
    };
    let ghost g = parse_result(lt, bidirectional)->Ok_0.0;
    let ghost names = parse_result(lt, bidirectional)->Ok_0.1;
    let num_nodes = parsed.graph.len();
    if num_nodes == 0 {
        return Ok((text_of("-1"), None));
    }
    if num_nodes == 1 {
        return match parsed.nodes_reverse.get(&0) {
            Some(name) => Ok((text_of(*name), Some(0))),
            None => Err(text_of("Internal error: single node not found in reverse map")),
        };
    }
    let graph = parsed.graph.as_slice();
    proof {
        assert(adjacency(graph) == g);
        assert(g.len() <= u32::MAX);
    }
    let (path, dist) = run_dijkstra(kind, 0, num_nodes - 1, graph);
    let ghost last = (num_nodes - 1) as usize;
    if path.len() <= 1 {
        proof {
            if let Some(d) = dist {
                let e = choose|e: Seq<usize>| #[trigger] is_shortest_walk(g, 0, last, path@, e, limit)
                    && walk_weight(g, path@, e) == d;
                assert(is_walk_between(g, 0, last, path@, e));
                assert(path@[0] == 0 && path@.last() == last);
            }
        }
        return Ok((text_of("-1"), None));
    }
    let ghost d = dist->Some_0;
    proof {
        assert(dist is Some);
        let e = choose|e: Seq<usize>| #[trigger] is_shortest_walk(g, 0, last, path@, e, limit) && walk_weight(g, path@, e) == d;
        assert(is_walk_between(g, 0, last, path@, e));
        assert(forall|k: int| 0 <= k < path@.len() ==> #[trigger] path@[k] < g.len());
    }
    // Map path node ids to node names
    let mut out = String::new();
    let mut i: usize = 0;
    while i < path.len()
        invariant
            i <= path@.len(),
            path@.len() >= 2,
            g.len() == names.len(),
            forall|k: int| 0 <= k < path@.len() ==> #[trigger] path@[k] < g.len(),
            names_map(parsed.nodes_reverse@, names),
            out@ == path_text(names, path@.subrange(0, i as int)),
        decreases path@.len() - i,
    {
        let node_id = path[i];
        let node: &str = match parsed.nodes_reverse.get(&node_id) {
            Some(x) => *x,
            None => {
                let mut msg = String::new();
                msg.append("Internal error: node ID ");
                push_decimal(&mut msg, node_id);
                msg.append(" not found in reverse map");
                return Err(msg);
            },
        };
        proof {
            assert(path@[i as int] < g.len());
            assert(node@ == names[node_id as int]);
        }
        let ghost before = out@;
        if i > 0 {
            out.append("-");
        }
        out.append(node);
        proof {
            let s = path@.subrange(0, i + 1);
            if i == 0 {
                assert(out@ =~= names[s[0] as int]);
            } else {
                assert(s.drop_last() =~= path@.subrange(0, i as int));
                assert(out@ =~= before + "-"@ + node@);
            }
        }
        i += 1;
    }
    proof {
        assert(path@.subrange(0, path@.len() as int) =~= path@);
        assert(is_path_and_distance(g, 0, last, limit, path@, Some(d)));
    }
    Ok((out, dist))
}

/// Find the shortest path in a weighted graph using Dijkstra's algorithm.
///
/// Edges are treated as undirected. Returns the node names along a shortest path from
/// the first node to the last, joined by `-`; `-1` when there is no input, no node or
/// no path; or the message of the first error in the input.
pub fn find_shortest_path(lines: Vec<&str>) -> (r: Result<String, String>)
    ensures
        is_path_answer(line_texts(lines@), true, u32::MAX as int, result_view(r)),
{
    let ghost lt = line_texts(lines@);
    let r = find_shortest_path_with(lines, true, HeapKind::Binary);
    proof {
        lemma_weighted_text(lt, true, u32::MAX as int, weighted_view(r));
    }
    match r {
        Ok((text, _)) => Ok(text),
        Err(e) => Err(e),
    }
}

/// Find the shortest path using the Fibonacci-heap Dijkstra implementation.
pub fn find_shortest_path_fibonacci(lines: Vec<&str>) -> (r: Result<String, String>)
    ensures
        is_path_answer(line_texts(lines@), true, u32::MAX as int, result_view(r)),
{
    let ghost lt = line_texts(lines@);
    let r = find_shortest_path_with(lines, true, HeapKind::Fibonacci);
    proof {
        lemma_weighted_text(lt, true, u32::MAX as int, weighted_view(r));
    }
    match r {
        Ok((text, _)) => Ok(text),
        Err(e) => Err(e),
    }
}

/// Find the shortest path using the Dijkstra implementation on the Fibonacci heap with
/// the textbook `extract_min` order.
pub fn find_shortest_path_fibonacci_unsafe(lines: Vec<&str>) -> (r: Result<String, String>)
    ensures
        is_path_answer(line_texts(lines@), true, u32::MAX as int, result_view(r)),
{
    let ghost lt = line_texts(lines@);
    let r = find_shortest_path_with(lines, true, HeapKind::FibonacciUnsafe);
    proof {
        lemma_weighted_text(lt, true, u32::MAX as int, weighted_view(r));
    }
    match r {
        Ok((text, _)) => Ok(text),
        Err(e) => Err(e),
    }
}

/// Find the shortest path using the pairing-heap Dijkstra implementation.
pub fn find_shortest_path_pairing(lines: Vec<&str>) -> (r: Result<String, String>)
    ensures
        is_path_answer(line_texts(lines@), true, u32::MAX as int, result_view(r)),
{
    let ghost lt = line_texts(lines@);
    let r = find_shortest_path_with(lines, true, HeapKind::Pairing);
    proof {
        lemma_weighted_text(lt, true, u32::MAX as int, weighted_view(r));
    }
    match r {
        Ok((text, _)) => Ok(text),
        Err(e) => Err(e),
    }
}

/// Find the shortest path using the radix-heap Dijkstra implementation.
pub fn find_shortest_path_radix(lines: Vec<&str>) -> (r: Result<String, String>)
    ensures
        is_path_answer(line_texts(lines@), true, u32::MAX as int, result_view(r)),
{
    let ghost lt = line_texts(lines@);
    let r = find_shortest_path_with(lines, true, HeapKind::Radix);
    proof {
        lemma_weighted_text(lt, true, u32::MAX as int, weighted_view(r));
    }
    match r {
        Ok((text, _)) => Ok(text),
        Err(e) => Err(e),
    }
}

/// Find the shortest path with explicit control over edge directionality: with
/// `bidirectional` false, edges are one-way only; with `bidirectional` true, edges go
/// both ways, and when the same pair of nodes is given again (either way round), the
/// last weight wins.
pub fn find_shortest_path_directed(lines: Vec<&str>, bidirectional: bool) -> (r: Result<String, String>)
    ensures
        is_path_answer(line_texts(lines@), bidirectional, u32::MAX as int, result_view(r)),
{
    let ghost lt = line_texts(lines@);
    let r = find_shortest_path_with(lines, bidirectional, HeapKind::Binary);
    proof {
        lemma_weighted_text(lt, bidirectional, u32::MAX as int, weighted_view(r));
    }
    match r {
        Ok((text, _)) => Ok(text),
        Err(e) => Err(e),
    }
}

/// Find the shortest path and its total distance, with the priority queue `kind` and
/// explicit control over edge directionality.
///
/// Returns the node names along a shortest path from the first node to the last, joined
/// by `-`, with its total weight; the single node's name with distance 0; `-1` and no
/// distance when there is no input, no node or no path (no walk lighter than the queue's
/// key limit); or the message of the first error in the input.
pub fn find_shortest_path_weighted(lines: Vec<&str>, bidirectional: bool, kind: HeapKind) -> (r: Result<
    (String, Option<u32>),
    String,
>)
    ensures
        is_weighted_answer(line_texts(lines@), bidirectional, heap_limit(kind), weighted_view(r)),
{
    find_shortest_path_with(lines, bidirectional, kind)
}

} // verus!
