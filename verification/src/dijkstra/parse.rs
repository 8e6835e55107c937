//! Reading a weighted graph from its text form.
//!
//! The first line holds the number of nodes `N`, the next `N` lines the node names, and
//! every further non-empty line an edge `node1|node2|weight`.  Read both ways, an edge
//! between two nodes that were already joined takes the new weight; read one way, every
//! edge line adds an edge.
use crate::graph::{edges_in_range, rows_view};
use crate::text::{
    bar_positions, chars_eq, chars_of, decimal, find_bars, parse_u32, parse_u32_in, push_decimal,
    trim, trim_bounds,
};
use std::collections::HashMap;
use vstd::prelude::*;
use vstd::string::StringExecFns;

verus! {

broadcast use vstd::std_specs::hash::group_hash_axioms;

/// The text of each line.
pub open spec fn line_texts(lines: Seq<&str>) -> Seq<Seq<char>> {
    Seq::new(lines.len(), |i: int| lines[i]@)
}

/// The name of node `i`: its line, trimmed.
pub open spec fn node_name(lines: Seq<Seq<char>>, i: int) -> Seq<char> {
    trim(lines[i + 1])
}

/// The names of the first `n` nodes.
pub open spec fn node_names(lines: Seq<Seq<char>>, n: nat) -> Seq<Seq<char>> {
    Seq::new(n, |i: int| node_name(lines, i))
}

/// The error among the first `k` node names, if any: an empty name, or a name that an
/// earlier node already has.
pub open spec fn names_error(lines: Seq<Seq<char>>, k: nat) -> Option<Seq<char>>
    decreases k,
{
    if k == 0 {
        None
    } else {
        match names_error(lines, (k - 1) as nat) {
            Some(e) => Some(e),
            None => {
                let name = node_name(lines, k - 1);
                if name.len() == 0 {
                    Some("Empty node name at line "@ + decimal(k + 1))
                } else if exists|j: int| 0 <= j < k - 1 && #[trigger] node_name(lines, j) == name {
                    Some("Duplicate node name: '"@ + name + "'"@)
                } else {
                    None
                }
            },
        }
    }
}

/// The index of the node named `x`.
pub open spec fn name_index(names: Seq<Seq<char>>, x: Seq<char>) -> Option<int> {
    if exists|i: int| 0 <= i < names.len() && names[i] == x {
        Some(choose|i: int| 0 <= i < names.len() && names[i] == x)
    } else {
        None
    }
}

/// `g` with the edge `(b, w)` added to the adjacency list of `a`.
pub open spec fn add_edge(g: Seq<Seq<(usize, u32)>>, a: int, b: int, w: u32) -> Seq<Seq<(usize, u32)>> {
    g.update(a, g[a].push((b as usize, w)))
}

/// Position `j` holds the first edge of `row` that leads to `b`.
pub open spec fn first_edge_to(row: Seq<(usize, u32)>, b: usize, j: int) -> bool {
    &&& 0 <= j < row.len()
    &&& row[j].0 == b
    &&& forall|i: int| 0 <= i < j ==> (#[trigger] row[i]).0 != b
}

/// `row` with its first edge to `b` given the weight `w`, or with the edge `(b, w)`
/// added when none leads to `b`.
pub open spec fn row_set(row: Seq<(usize, u32)>, b: usize, w: u32) -> Seq<(usize, u32)> {
    if exists|j: int| first_edge_to(row, b, j) {
        row.update(choose|j: int| first_edge_to(row, b, j), (b, w))
    } else {
        row.push((b, w))
    }
}

/// `g` with the edge from `a` to `b` of weight `w`: an edge from `a` to `b` already given
/// takes the new weight (the last weight wins).
pub open spec fn set_edge(g: Seq<Seq<(usize, u32)>>, a: int, b: int, w: u32) -> Seq<Seq<(usize, u32)>> {
    g.update(a, row_set(g[a], b as usize, w))
}

/// No two edges of `row` lead to the same node.
pub open spec fn simple_row(row: Seq<(usize, u32)>) -> bool {
    forall|i: int, j: int| 0 <= i < j < row.len() ==> (#[trigger] row[i]).0 != (#[trigger] row[j]).0
}

/// What giving the edge to `b` the weight `w` does to a row without parallel edges.
proof fn lemma_row_set(row: Seq<(usize, u32)>, b: usize, w: u32)
    requires
        simple_row(row),
    ensures
        simple_row(row_set(row, b, w)),
        row_set(row, b, w).len() == row.len() || row_set(row, b, w).len() == row.len() + 1,
        forall|i: int|
            0 <= i < row_set(row, b, w).len() ==> (#[trigger] row_set(row, b, w)[i]).0 == b ==> row_set(row, b, w)[i]
                == (b, w),
        forall|i: int|
            0 <= i < row_set(row, b, w).len() && (#[trigger] row_set(row, b, w)[i]).0 != b ==> i < row.len()
                && row_set(row, b, w)[i] == row[i],
        forall|i: int| 0 <= i < row.len() && (#[trigger] row[i]).0 != b ==> row_set(row, b, w)[i] == row[i],
        exists|i: int| 0 <= i < row_set(row, b, w).len() && #[trigger] row_set(row, b, w)[i] == (b, w),
{
    let r2 = row_set(row, b, w);
    if exists|j: int| first_edge_to(row, b, j) {
        let j = choose|j: int| first_edge_to(row, b, j);
        assert(r2 == row.update(j, (b, w)));
        assert forall|i: int| 0 <= i < row.len() && i != j implies (#[trigger] row[i]).0 != b by {
            if i > j {
                assert(row[j].0 != row[i].0);
            }
        }
        assert(r2[j] == (b, w));
        assert forall|x: int, y: int| 0 <= x < y < r2.len() implies (#[trigger] r2[x]).0 != (#[trigger] r2[y]).0 by {
            if x != j && y != j {
                assert(row[x].0 != row[y].0);
            }
        }
    } else {
        assert(r2 == row.push((b, w)));
        assert forall|i: int| 0 <= i < row.len() implies (#[trigger] row[i]).0 != b by {
            if row[i].0 == b {
                assert(first_edge_to(row, b, i)) by {
                    assert forall|k: int| 0 <= k < i implies (#[trigger] row[k]).0 != b by {
                        assert(row[k].0 != row[i].0);
                    }
                }
            }
        }
        assert(r2[row.len() as int] == (b, w));
        assert forall|x: int, y: int| 0 <= x < y < r2.len() implies (#[trigger] r2[x]).0 != (#[trigger] r2[y]).0 by {
            if y < row.len() {
                assert(row[x].0 != row[y].0);
            }
        }
    }
}

/// Processing the trimmed edge line `t` (line number `line_no`) on the graph `g`.
#[verifier::opaque]
pub open spec fn edge_step(
    t: Seq<char>,
    line_no: nat,
    names: Seq<Seq<char>>,
    bidirectional: bool,
    g: Seq<Seq<(usize, u32)>>,
) -> Result<Seq<Seq<(usize, u32)>>, Seq<char>> {
    if t.len() == 0 {
        Ok(g)
    } else {
        let bars = bar_positions(t);
        if bars.len() != 2 {
            Err(
                "Invalid edge format at line "@ + decimal(line_no) + ": '"@ + t
                    + "' (expected format: node1|node2|weight)"@,
            )
        } else {
            let p1 = trim(t.subrange(0, bars[0]));
            let p2 = trim(t.subrange(bars[0] + 1, bars[1]));
            let p3 = trim(t.subrange(bars[1] + 1, t.len() as int));
            if name_index(names, p1) is None {
                Err("Node '"@ + p1 + "' in edge definition not found in node list"@)
            } else if name_index(names, p2) is None {
                Err("Node '"@ + p2 + "' in edge definition not found in node list"@)
            } else if parse_u32(p3) is None {
                Err(
                    "Invalid weight '"@ + p3 + "' in edge '"@ + p1 + "|"@ + p2 + "|"@ + p3
                        + "' (expected a positive integer)"@,
                )
            } else {
                let a = name_index(names, p1)->Some_0;
                let b = name_index(names, p2)->Some_0;
                let w = parse_u32(p3)->Some_0;
                if a == b {
                    Err("Self-loop detected: node '"@ + p1 + "' connected to itself"@)
                } else {
                    Ok(
                        if bidirectional {
                            set_edge(set_edge(g, a, b, w), b, a, w)
                        } else {
                            add_edge(g, a, b, w)
                        },
                    )
                }
            }
        }
    }
}

/// The graph after the first `k` edge lines, or the first error among them.
pub open spec fn edges_result(
    lines: Seq<Seq<char>>,
    n: nat,
    names: Seq<Seq<char>>,
    bidirectional: bool,
    k: nat,
) -> Result<Seq<Seq<(usize, u32)>>, Seq<char>>
    decreases k,
{
    if k == 0 {
        Ok(Seq::new(n, |i: int| Seq::<(usize, u32)>::empty()))
    } else {
        match edges_result(lines, n, names, bidirectional, (k - 1) as nat) {
            Err(e) => Err(e),
            Ok(g) => edge_step(trim(lines[(n + k) as int]), n + k + 1, names, bidirectional, g),
        }
    }
}

/// The graph and node names that the text `lines` describes, or the error message.
pub open spec fn parse_result(lines: Seq<Seq<char>>, bidirectional: bool) -> Result<
    (Seq<Seq<(usize, u32)>>, Seq<Seq<char>>),
    Seq<char>,
> {
    if lines.len() == 0 {
        Err("No input lines provided"@)
    } else {
        match parse_u32(lines[0]) {
            None => Err("Invalid number of nodes: '"@ + lines[0] + "' (expected a positive integer)"@),
            Some(n) => {
                if lines.len() - 1 < n {
                    Err(
                        "Not enough lines: expected "@ + decimal(n as nat) + " node names, but only "@
                            + decimal((lines.len() - 1) as nat) + " lines provided"@,
                    )
                } else {
                    match names_error(lines, n as nat) {
                        Some(e) => Err(e),
                        None => match edges_result(
                            lines,
                            n as nat,
                            node_names(lines, n as nat),
                            bidirectional,
                            (lines.len() - 1 - n) as nat,
                        ) {
                            Err(e) => Err(e),
                            Ok(g) => Ok((g, node_names(lines, n as nat))),
                        },
                    }
                }
            },
        }
    }
}

/// Parsed graph representation used by both the main API and benchmarks.
pub struct ParsedGraph<'a> {
    /// Adjacency list: `graph[u]` contains `(v, weight)` edges.
    pub graph: Vec<Vec<(usize, u32)>>,
    /// Reverse mapping from node index to original node name.
    pub nodes_reverse: HashMap<usize, &'a str>,
}

/// `names` are the names of the nodes `0..names.len()` in `m`.
pub open spec fn names_map(m: Map<usize, &str>, names: Seq<Seq<char>>) -> bool {
    &&& forall|i: usize| #[trigger] m.contains_key(i) <==> i < names.len()
    &&& forall|i: usize| i < names.len() ==> (#[trigger] m[i])@ == names[i as int]
}

proof fn lemma_names_distinct(lines: Seq<Seq<char>>, k: nat)
    requires
        names_error(lines, k) is None,
    ensures
        forall|i: int, j: int|
            0 <= i < j < k ==> #[trigger] node_name(lines, i) != #[trigger] node_name(lines, j),
        forall|i: int| 0 <= i < k ==> (#[trigger] node_name(lines, i)).len() > 0,
    decreases k,
{
    if k > 0 {
        lemma_names_distinct(lines, (k - 1) as nat);
        assert forall|i: int, j: int| 0 <= i < j < k implies #[trigger] node_name(lines, i) != #[trigger] node_name(
            lines,
            j,
        ) by {
            if j == k - 1 && node_name(lines, i) == node_name(lines, j) {
                assert(exists|jj: int| 0 <= jj < k - 1 && #[trigger] node_name(lines, jj) == node_name(lines, k - 1));
            }
        }
    }
}

proof fn lemma_edges_in_range(lines: Seq<Seq<char>>, n: nat, names: Seq<Seq<char>>, bidirectional: bool, k: nat)
    requires
        names.len() == n,
        n <= usize::MAX,
        edges_result(lines, n, names, bidirectional, k) is Ok,
    ensures
        ({
            let g = edges_result(lines, n, names, bidirectional, k)->Ok_0;
            &&& g.len() == n
            &&& edges_in_range(g)
            &&& bidirectional ==> forall|u: int| 0 <= u < g.len() ==> simple_row(#[trigger] g[u])
        }),
    decreases k,
{
    if k == 0 {
        let g = edges_result(lines, n, names, bidirectional, 0)->Ok_0;
        assert forall|u: int| 0 <= u < g.len() implies simple_row(#[trigger] g[u]) by {
            assert(g[u].len() == 0);
        }
    } else {
        lemma_edges_in_range(lines, n, names, bidirectional, (k - 1) as nat);
        reveal(edge_step);
        let g = edges_result(lines, n, names, bidirectional, (k - 1) as nat)->Ok_0;
        let t = trim(lines[(n + k) as int]);
        if t.len() > 0 {
            let bars = bar_positions(t);
            let p1 = trim(t.subrange(0, bars[0]));
            let p2 = trim(t.subrange(bars[0] + 1, bars[1]));
            let a = name_index(names, p1)->Some_0;
            let b = name_index(names, p2)->Some_0;
            let w = parse_u32(trim(t.subrange(bars[1] + 1, t.len() as int)))->Some_0;
            assert(0 <= a < n && 0 <= b < n);
            if bidirectional {
                lemma_set_edge_pair(g, a, b, w);
            } else {
                let g1 = add_edge(g, a, b, w);
                assert(edges_in_range(g1)) by {
                    assert forall|u: int, j: int| 0 <= u < g1.len() && 0 <= j < g1[u].len() implies (
                    #[trigger] g1[u][j]).0 < g1.len() by {
                        if u != a || j < g[u].len() {
                            assert(g1[u][j] == g[u][j]);
                        }
                    }
                }
            }
        }
    }
}

/// Giving the edges between `a` and `b` the weight `w`, both ways, keeps the edges in
/// range, the rows without parallel edges, and the graph symmetric.
proof fn lemma_set_edge_pair(g: Seq<Seq<(usize, u32)>>, a: int, b: int, w: u32)
    requires
        edges_in_range(g),
        g.len() <= usize::MAX,
        forall|u: int| 0 <= u < g.len() ==> simple_row(#[trigger] g[u]),
        0 <= a < g.len(),
        0 <= b < g.len(),
        a != b,
    ensures
        ({
            let g2 = set_edge(set_edge(g, a, b, w), b, a, w);
            &&& g2.len() == g.len()
            &&& edges_in_range(g2)
            &&& forall|u: int| 0 <= u < g2.len() ==> simple_row(#[trigger] g2[u])
            &&& is_symmetric(g) ==> is_symmetric(g2)
        }),
{
    let g1 = set_edge(g, a, b, w);
    let g2 = set_edge(g1, b, a, w);
    lemma_row_set(g[a], b as usize, w);
    lemma_row_set(g[b], a as usize, w);
    assert(g1[b] == g[b]);
    assert(g2[a] == row_set(g[a], b as usize, w));
    assert(g2[b] == row_set(g[b], a as usize, w));
    assert forall|x: int| 0 <= x < g.len() && x != a && x != b implies #[trigger] g2[x] == g[x] by {}
    assert forall|u: int, j: int| 0 <= u < g2.len() && 0 <= j < g2[u].len() implies (#[trigger] g2[u][j]).0 < g2.len() by {
        if u == a {
            if g2[u][j].0 != b as usize {
                assert(g2[u][j] == g[a][j]);
            }
        } else if u == b {
            if g2[u][j].0 != a as usize {
                assert(g2[u][j] == g[b][j]);
            }
        } else {
            assert(g2[u][j] == g[u][j]);
        }
    }
    assert forall|u: int| 0 <= u < g2.len() implies simple_row(#[trigger] g2[u]) by {
        if u != a && u != b {
            assert(g2[u] == g[u]);
        }
    }
    if is_symmetric(g) {
        assert forall|u: int, j: int| 0 <= u < g2.len() && 0 <= j < g2[u].len() implies #[trigger] has_edge_back(g2, u, j) by {
            lemma_edge_back(g, g2, a, b, w, u, j);
        }
    }
}

/// The edge `j` of node `u` of `g` has an edge back, of the same weight.
pub open spec fn has_edge_back(g: Seq<Seq<(usize, u32)>>, u: int, j: int) -> bool {
    exists|k: int|
        0 <= k < g[g[u][j].0 as int].len() && #[trigger] g[g[u][j].0 as int][k] == (u as usize, g[u][j].1)
}

/// Every edge of `g` has an edge back to where it leaves from, of the same weight.
pub open spec fn is_symmetric(g: Seq<Seq<(usize, u32)>>) -> bool {
    forall|u: int, j: int| 0 <= u < g.len() && 0 <= j < g[u].len() ==> #[trigger] has_edge_back(g, u, j)
}

/// The edge `j` of node `u` of `g2` has an edge back, when `g2` is the symmetric `g`
/// with the edges between `a` and `b` given the weight `w`, both ways.
proof fn lemma_edge_back(g: Seq<Seq<(usize, u32)>>, g2: Seq<Seq<(usize, u32)>>, a: int, b: int, w: u32, u: int, j: int)
    requires
        is_symmetric(g),
        edges_in_range(g),
        g.len() <= usize::MAX,
        forall|x: int| 0 <= x < g.len() ==> simple_row(#[trigger] g[x]),
        0 <= a < g.len(),
        0 <= b < g.len(),
        a != b,
        g2.len() == g.len(),
        g2[a] == row_set(g[a], b as usize, w),
        g2[b] == row_set(g[b], a as usize, w),
        forall|x: int| 0 <= x < g.len() && x != a && x != b ==> #[trigger] g2[x] == g[x],
        0 <= u < g2.len(),
        0 <= j < g2[u].len(),
    ensures
        has_edge_back(g2, u, j),
{
    lemma_row_set(g[a], b as usize, w);
    lemma_row_set(g[b], a as usize, w);
    let e = g2[u][j];
    let v = e.0 as int;
    if u == a && v == b {
        assert(e == (b as usize, w));
        let q = choose|q: int| 0 <= q < g2[b].len() && #[trigger] g2[b][q] == (a as usize, w);
        assert(g2[g2[u][j].0 as int][q] == (u as usize, g2[u][j].1));
    } else if u == b && v == a {
        assert(e == (a as usize, w));
        let q = choose|q: int| 0 <= q < g2[a].len() && #[trigger] g2[a][q] == (b as usize, w);
        assert(g2[g2[u][j].0 as int][q] == (u as usize, g2[u][j].1));
    } else {
        assert(j < g[u].len() && e == g[u][j]);
        assert(0 <= v < g.len());
        assert(has_edge_back(g, u, j));
        let q = choose|q: int| 0 <= q < g[v].len() && #[trigger] g[v][q] == (u as usize, g[u][j].1);
        if v == a {
            assert(g[a][q].0 != b as usize);
        } else if v == b {
            assert(g[b][q].0 != a as usize);
        }
        assert(g2[v][q] == g[v][q]);
        assert(g2[g2[u][j].0 as int][q] == (u as usize, g2[u][j].1));
    }
}

proof fn lemma_edges_symmetric(lines: Seq<Seq<char>>, n: nat, names: Seq<Seq<char>>, k: nat)
    requires
        names.len() == n,
        n <= usize::MAX,
        edges_result(lines, n, names, true, k) is Ok,
    ensures
        is_symmetric(edges_result(lines, n, names, true, k)->Ok_0),
    decreases k,
{
    if k == 0 {
        let g = edges_result(lines, n, names, true, 0)->Ok_0;
        assert forall|u: int, j: int| 0 <= u < g.len() && 0 <= j < g[u].len() implies #[trigger] has_edge_back(g, u, j) by {
            assert(g[u].len() == 0);
        }
    } else {
        lemma_edges_symmetric(lines, n, names, (k - 1) as nat);
        lemma_edges_in_range(lines, n, names, true, (k - 1) as nat);
        reveal(edge_step);
        let g = edges_result(lines, n, names, true, (k - 1) as nat)->Ok_0;
        let t = trim(lines[(n + k) as int]);
        if t.len() > 0 {
            let bars = bar_positions(t);
            let p1 = trim(t.subrange(0, bars[0]));
            let p2 = trim(t.subrange(bars[0] + 1, bars[1]));
            let a = name_index(names, p1)->Some_0;
            let b = name_index(names, p2)->Some_0;
            let w = parse_u32(trim(t.subrange(bars[1] + 1, t.len() as int)))->Some_0;
            assert(0 <= a < n && 0 <= b < n && a != b);
            lemma_set_edge_pair(g, a, b, w);
        }
    }
}

/// With edges read both ways, every edge of the parsed graph has an edge back of the
/// same weight: the graph is undirected.
pub proof fn lemma_bidirectional_symmetric(lines: Seq<Seq<char>>)
    requires
        parse_result(lines, true) is Ok,
    ensures
        is_symmetric(parse_result(lines, true)->Ok_0.0),
{
    let n = parse_u32(lines[0])->Some_0;
    let names = node_names(lines, n as nat);
    lemma_edges_symmetric(lines, n as nat, names, (lines.len() - 1 - n) as nat);
}

proof fn lemma_names_error_stays(lines: Seq<Seq<char>>, k: nat, k2: nat)
    requires
        k <= k2,
        names_error(lines, k) is Some,
    ensures
        names_error(lines, k2) == names_error(lines, k),
    decreases k2,
{
    if k2 > k {
        lemma_names_error_stays(lines, k, (k2 - 1) as nat);
    }
}

proof fn lemma_edges_error_stays(
    lines: Seq<Seq<char>>,
    n: nat,
    names: Seq<Seq<char>>,
    bidirectional: bool,
    k: nat,
    k2: nat,
)
    requires
        k <= k2,
        edges_result(lines, n, names, bidirectional, k) is Err,
    ensures
        edges_result(lines, n, names, bidirectional, k2) == edges_result(lines, n, names, bidirectional, k),
    decreases k2,
{
    if k2 > k {
        lemma_edges_error_stays(lines, n, names, bidirectional, k, (k2 - 1) as nat);
    }
}

/// The index of the node whose name is `chars[lo..hi]`.
fn find_name(names: &Vec<Vec<char>>, chars: &Vec<char>, lo: usize, hi: usize, spec_names: Ghost<
    Seq<Seq<char>>,
>) -> (r: Option<usize>)
    requires
        lo <= hi <= chars@.len(),
        names@.len() == spec_names@.len(),
        forall|i: int| 0 <= i < names@.len() ==> (#[trigger] names@[i])@ == spec_names@[i],
        forall|i: int, j: int| 0 <= i < j < spec_names@.len() ==> spec_names@[i] != spec_names@[j],
    ensures
        r is None <==> name_index(spec_names@, chars@.subrange(lo as int, hi as int)) is None,
        r matches Some(x) ==> name_index(spec_names@, chars@.subrange(lo as int, hi as int)) == Some(x as int)
            && x < names@.len(),
{
    let ghost x = chars@.subrange(lo as int, hi as int);
    let mut i: usize = 0;
    while i < names.len()
        invariant
            i <= names@.len(),
            lo <= hi <= chars@.len(),
            x == chars@.subrange(lo as int, hi as int),
            names@.len() == spec_names@.len(),
            forall|k: int| 0 <= k < names@.len() ==> (#[trigger] names@[k])@ == spec_names@[k],
            forall|k: int, j: int| 0 <= k < j < spec_names@.len() ==> spec_names@[k] != spec_names@[j],
            forall|k: int| 0 <= k < i ==> spec_names@[k] != x,
        decreases names@.len() - i,
    {
        if chars_eq(chars, lo, hi, &names[i]) {
            proof {
                assert(names@[i as int]@ == spec_names@[i as int]);
                assert(spec_names@[i as int] == x);
                let c = choose|c: int| 0 <= c < spec_names@.len() && spec_names@[c] == x;
                if c != i {
                    if c < i {
                        assert(spec_names@[c] != spec_names@[i as int]);
                    } else {
                        assert(spec_names@[i as int] != spec_names@[c]);
                    }
                }
            }
            return Some(i);
        }
        proof {
            assert(names@[i as int]@ == spec_names@[i as int]);
        }
        i += 1;
    }
    None
}

/// Reads the names of the first `num_nodes` nodes.
fn read_node_names<'a>(lines: &'a [&'a str], num_nodes: usize) -> (r: Result<
    (Vec<Vec<char>>, HashMap<usize, &'a str>),
    String,
>)
    requires
        num_nodes < lines@.len(),
    ensures
        match names_error(line_texts(lines@), num_nodes as nat) {
            None => r matches Ok((names, map)) && names@.len() == num_nodes && (forall|k: int|
                0 <= k < num_nodes ==> (#[trigger] names@[k])@ == node_name(line_texts(lines@), k))
                && names_map(map@, node_names(line_texts(lines@), num_nodes as nat)),
            Some(e) => r matches Err(m) && m@ == e,
        },
{
    let ghost lt = line_texts(lines@);
    let ghost n = num_nodes as nat;
    let ghost spec_names = node_names(lt, n);
    let mut names: Vec<Vec<char>> = Vec::new();
    let mut nodes_reverse: HashMap<usize, &'a str> = HashMap::new();
    let mut i: usize = 0;
    while i < num_nodes
        invariant
            lt == line_texts(lines@),
            n == num_nodes,
            spec_names == node_names(lt, n),
            num_nodes < lines@.len(),
            i <= num_nodes,
            names@.len() == i,
            forall|k: int| 0 <= k < i ==> (#[trigger] names@[k])@ == spec_names[k],
            names_error(lt, i as nat) is None,
            names_map(nodes_reverse@, spec_names.subrange(0, i as int)),
        decreases num_nodes - i,
    {
        let line = lines[i + 1];
        let chars = chars_of(line);
        let (a, b) = trim_bounds(&chars, 0, chars.len());
        proof {
            assert(chars@.subrange(0, chars@.len() as int) =~= lt[i + 1]);
            assert(chars@.subrange(a as int, b as int) == node_name(lt, i as int));
        }
        if a == b {
            let mut msg = String::new();
            msg.append("Empty node name at line ");
            push_decimal(&mut msg, i + 2);
            proof {
                assert(names_error(lt, (i + 1) as nat) == Some("Empty node name at line "@ + decimal((i + 2) as nat)));
                lemma_names_error_stays(lt, (i + 1) as nat, n);
            }
            return Err(msg);
        }
        // Check for duplicate node names
        let mut j: usize = 0;
        while j < i
            invariant
                j <= i,
                i < num_nodes,
                names@.len() == i,
                a < b <= chars@.len(),
                chars@ == line@,
                forall|k: int| 0 <= k < i ==> (#[trigger] names@[k])@ == spec_names[k],
                forall|k: int| 0 <= k < j ==> #[trigger] node_name(lt, k) != chars@.subrange(a as int, b as int),
                spec_names == node_names(lt, n),
                chars@.subrange(a as int, b as int) == node_name(lt, i as int),
                lt == line_texts(lines@),
                n == num_nodes,
                names_error(lt, i as nat) is None,
            decreases i - j,
        {
            proof {
                assert(names@[j as int]@ == spec_names[j as int]);
                assert(spec_names[j as int] == node_name(lt, j as int));
            }
            if chars_eq(&chars, a, b, &names[j]) {
                let mut msg = String::new();
                msg.append("Duplicate node name: '");
                msg.append(line.substring_char(a, b));
                msg.append("'");
                proof {
                    assert(node_name(lt, j as int) == node_name(lt, i as int));
                    assert(exists|jj: int| 0 <= jj < i && #[trigger] node_name(lt, jj) == node_name(lt, i as int));
                    assert(node_name(lt, i as int).len() > 0);
                    assert(names_error(lt, i as nat) is None);
                    assert(names_error(lt, (i + 1) as nat) == Some(
                        "Duplicate node name: '"@ + node_name(lt, i as int) + "'"@,
                    ));
                    lemma_names_error_stays(lt, (i + 1) as nat, n);
                }
                return Err(msg);
            }
            j += 1;
        }
        let name = line.substring_char(a, b);
        nodes_reverse.insert(i, name);
        let mut nv: Vec<char> = Vec::new();
        let mut q = a;
        while q < b
            invariant
                a <= q <= b <= chars@.len(),
                nv@ == chars@.subrange(a as int, q as int),
            decreases b - q,
        {
            nv.push(chars[q]);
            q += 1;
        }
        names.push(nv);
        proof {
            assert(!(exists|jj: int| 0 <= jj < i && #[trigger] node_name(lt, jj) == node_name(lt, i as int)));
            assert(names_error(lt, (i + 1) as nat) is None);
            let s2 = spec_names.subrange(0, i + 1);
            assert forall|k: usize| #[trigger] nodes_reverse@.contains_key(k) <==> k < s2.len() by {}
            assert forall|k: usize| k < s2.len() implies (#[trigger] nodes_reverse@[k])@ == s2[k as int] by {
                if k < i {
                    assert(spec_names.subrange(0, i as int)[k as int] == s2[k as int]);
                }
            }
            assert forall|k: int| 0 <= k < i + 1 implies (#[trigger] names@[k])@ == spec_names[k] by {
                if k == i {
                    assert(names@[k]@ == chars@.subrange(a as int, b as int));
                }
            }
        }
        i += 1;
    }
    proof {
        assert(spec_names.subrange(0, n as int) =~= spec_names);
    }
    Ok((names, nodes_reverse))
}

/// Give the first edge of `row` that leads to `b` the weight `w`, or add the edge
/// `(b, w)` when none does.
fn set_edge_in(row: &mut Vec<(usize, u32)>, b: usize, w: u32)
    ensures
        final(row)@ == row_set(old(row)@, b, w),
{
    let mut j: usize = 0;
    while j < row.len() && row[j].0 != b
        invariant
            row@ == old(row)@,
            j <= row@.len(),
            forall|i: int| 0 <= i < j ==> (#[trigger] row@[i]).0 != b,
        decreases row@.len() - j,
    {
        j += 1;
    }
    if j < row.len() {
        proof {
            assert(first_edge_to(old(row)@, b, j as int));
            let c = choose|c: int| first_edge_to(old(row)@, b, c);
            if c < j {
                assert(old(row)@[c].0 != b);
            }
            if c > j {
                assert(old(row)@[j as int].0 != b);
            }
        }
        row.set(j, (b, w));
    } else {
        proof {
            assert forall|c: int| !first_edge_to(old(row)@, b, c) by {
                if first_edge_to(old(row)@, b, c) {
                    assert(old(row)@[c].0 != b);
                }
            }
        }
        row.push((b, w));
    }
}

/// Processes the edge line `line` (line number `line_no`): adds its edge to `graph`, or
/// returns the error message.
fn read_edge_line(
    line: &str,
    line_no: usize,
    names: &Vec<Vec<char>>,
    spec_names: Ghost<Seq<Seq<char>>>,
    bidirectional: bool,
    graph: &mut Vec<Vec<(usize, u32)>>,
) -> (r: Result<(), String>)
    requires
        names@.len() == spec_names@.len(),
        old(graph)@.len() == names@.len(),
        forall|i: int| 0 <= i < names@.len() ==> (#[trigger] names@[i])@ == spec_names@[i],
        forall|i: int, j: int| 0 <= i < j < spec_names@.len() ==> spec_names@[i] != spec_names@[j],
    ensures
        final(graph)@.len() == old(graph)@.len(),
        match edge_step(trim(line@), line_no as nat, spec_names@, bidirectional, rows_view(old(graph)@)) {
            Ok(g) => r is Ok && rows_view(final(graph)@) == g,
            Err(m) => r matches Err(e) && e@ == m,
        },
{
    let chars = chars_of(line);
    let ghost g0 = rows_view(graph@);
    let (lo, hi) = trim_bounds(&chars, 0, chars.len());
    let ghost t = chars@.subrange(lo as int, hi as int);
    proof {
        assert(chars@.subrange(0, chars@.len() as int) =~= line@);
    }
    let ghost g_spec = rows_view(graph@);
    let ghost ln = line_no as nat;
    let ghost sn = spec_names@;
    if lo == hi {
        proof {
            assert(edge_step(t, ln, sn, bidirectional, g_spec) == Ok::<Seq<Seq<(usize, u32)>>, Seq<char>>(g_spec))
                by {
                reveal(edge_step);
            }
        }
        return Ok(());
    }
    // Split the line into node 1, node 2, and weight
    let bars = find_bars(&chars, lo, hi);
    let ghost bp = bar_positions(t);
    if bars.len() != 2 {
        let mut msg = String::new();
        msg.append("Invalid edge format at line ");
        push_decimal(&mut msg, line_no);
        msg.append(": '");
        msg.append(line.substring_char(lo, hi));
        msg.append("' (expected format: node1|node2|weight)");
        proof {
            assert(bp.len() != 2);
            assert(edge_step(t, ln, sn, bidirectional, g_spec) == Err::<Seq<Seq<(usize, u32)>>, Seq<char>>(msg@))
                by {
                reveal(edge_step);
            }
        }
        return Err(msg);
    }
    let b0 = bars[0];
    let b1 = bars[1];
    proof {
        crate::text::lemma_bar_positions_bound(t);
        assert(t.subrange(0, bp[0]) =~= chars@.subrange(lo as int, b0 as int));
        assert(t.subrange(bp[0] + 1, bp[1]) =~= chars@.subrange(b0 + 1, b1 as int));
        assert(t.subrange(bp[1] + 1, t.len() as int) =~= chars@.subrange(b1 + 1, hi as int));
    }
    let (a1, e1) = trim_bounds(&chars, lo, b0);
    let (a2, e2) = trim_bounds(&chars, b0 + 1, b1);
    let (a3, e3) = trim_bounds(&chars, b1 + 1, hi);
    let ghost p1 = trim(t.subrange(0, bp[0]));
    let ghost p2 = trim(t.subrange(bp[0] + 1, bp[1]));
    let ghost p3 = trim(t.subrange(bp[1] + 1, t.len() as int));
    proof {
        assert(t == trim(line@));
        assert(p1 == chars@.subrange(a1 as int, e1 as int));
        assert(p2 == chars@.subrange(a2 as int, e2 as int));
        assert(p3 == chars@.subrange(a3 as int, e3 as int));
    }
    // Validate node names exist
    let node_1_index = match find_name(names, &chars, a1, e1, spec_names) {
        Some(x) => x,
        None => {
            let mut msg = String::new();
            msg.append("Node '");
            msg.append(line.substring_char(a1, e1));
            msg.append("' in edge definition not found in node list");
            proof {
                assert(edge_step(t, ln, sn, bidirectional, g_spec) == Err::<Seq<Seq<(usize, u32)>>, Seq<char>>(msg@))
                    by {
                    reveal(edge_step);
                }
            }
            return Err(msg);
        },
    };
    let node_2_index = match find_name(names, &chars, a2, e2, spec_names) {
        Some(x) => x,
        None => {
            let mut msg = String::new();
            msg.append("Node '");
            msg.append(line.substring_char(a2, e2));
            msg.append("' in edge definition not found in node list");
            proof {
                assert(edge_step(t, ln, sn, bidirectional, g_spec) == Err::<Seq<Seq<(usize, u32)>>, Seq<char>>(msg@))
                    by {
                    reveal(edge_step);
                }
            }
            return Err(msg);
        },
    };
    // Validate weight
    let weight = match parse_u32_in(&chars, a3, e3) {
        Some(w) => w,
        None => {
            let w_str = line.substring_char(a3, e3);
            let mut msg = String::new();
            msg.append("Invalid weight '");
            msg.append(w_str);
            msg.append("' in edge '");
            msg.append(line.substring_char(a1, e1));
            msg.append("|");
            msg.append(line.substring_char(a2, e2));
            msg.append("|");
            msg.append(w_str);
            msg.append("' (expected a positive integer)");
            proof {
                assert(edge_step(t, ln, sn, bidirectional, g_spec) == Err::<Seq<Seq<(usize, u32)>>, Seq<char>>(msg@))
                    by {
                    reveal(edge_step);
                }
            }
            return Err(msg);
        },
    };
    proof {
        assert(name_index(spec_names@, p1) == Some(node_1_index as int));
        assert(name_index(spec_names@, p2) == Some(node_2_index as int));
        assert(parse_u32(p3) == Some(weight));
    }
    // Check for self-loops
    if node_1_index == node_2_index {
        let mut msg = String::new();
        msg.append("Self-loop detected: node '");
        msg.append(line.substring_char(a1, e1));
        msg.append("' connected to itself");
        proof {
            assert(edge_step(t, ln, sn, bidirectional, g_spec) == Err::<Seq<Seq<(usize, u32)>>, Seq<char>>(msg@))
                by {
                reveal(edge_step);
            }
        }
        return Err(msg);
    }
    if bidirectional {
        // Add the edge both ways; an edge given before between the same nodes takes the
        // new weight
        set_edge_in(&mut graph[node_1_index], node_2_index, weight);
        proof {
            assert(rows_view(graph@) =~= set_edge(g0, node_1_index as int, node_2_index as int, weight));
        }
        let ghost g1 = rows_view(graph@);
        set_edge_in(&mut graph[node_2_index], node_1_index, weight);
        proof {
            assert(rows_view(graph@) =~= set_edge(g1, node_2_index as int, node_1_index as int, weight));
        }
    } else {
        // Add edge to adjacency list
        graph[node_1_index].push((node_2_index, weight));
        proof {
            assert(rows_view(graph@) =~= add_edge(g0, node_1_index as int, node_2_index as int, weight));
        }
    }
    proof {
        assert(edge_step(t, ln, sn, bidirectional, g_spec) == Ok::<Seq<Seq<(usize, u32)>>, Seq<char>>(
            rows_view(graph@),
        )) by {
            reveal(edge_step);
        }
    }
    Ok(())
}

/// Parse a weighted graph from lines into an adjacency list and reverse node map.
///
/// Returns the error message of the first problem found: no lines, an invalid node
/// count, too few lines for the node names, an empty or repeated node name, or an edge
/// line that is malformed, names an unknown node, has an invalid weight or is a loop.
/// With `bidirectional`, each edge goes both ways and the last weight given for a pair
/// of nodes wins.
pub fn parse_graph<'a>(lines: &'a [&'a str], bidirectional: bool) -> (r: Result<ParsedGraph<'a>, String>)
    ensures
        match parse_result(line_texts(lines@), bidirectional) {
            Ok((g, names)) => r matches Ok(p) && rows_view(p.graph@) == g && edges_in_range(g)
                && g.len() == names.len() && names_map(p.nodes_reverse@, names),
            Err(m) => r matches Err(e) && e@ == m,
        },
{
    let ghost lt = line_texts(lines@);
    if lines.len() == 0 {
        let mut msg = String::new();
        msg.append("No input lines provided");
        return Err(msg);
    }
    // Number of nodes
    let first = chars_of(lines[0]);
    proof {
        assert(first@.subrange(0, first@.len() as int) =~= lt[0]);
    }
    let nv: u32 = match parse_u32_in(&first, 0, first.len()) {
        None => {
            let mut msg = String::new();
            msg.append("Invalid number of nodes: '");
            msg.append(lines[0]);
            msg.append("' (expected a positive integer)");
            return Err(msg);
        },
        Some(v) => v,
    };
    let num_nodes = nv as usize;
    // Validate we have enough lines for node names
    if lines.len() - 1 < num_nodes {
        let mut msg = String::new();
        msg.append("Not enough lines: expected ");
        push_decimal(&mut msg, num_nodes);
        msg.append(" node names, but only ");
        push_decimal(&mut msg, lines.len() - 1);
        msg.append(" lines provided");
        return Err(msg);
    }
    // Get the nodes
    let ghost n = num_nodes as nat;
    let ghost spec_names = node_names(lt, n);
    let (names, nodes_reverse) = match read_node_names(lines, num_nodes) {
        Ok(x) => x,
        Err(msg) => {
            return Err(msg);
        },
    };
    proof {
        lemma_names_distinct(lt, n);
        assert forall|i: int| 0 <= i < num_nodes implies (#[trigger] names@[i])@ == spec_names[i] by {}
    }
    // Build the adjacency list: Vec<Vec<(neighbor_index, weight)>>
    let mut graph: Vec<Vec<(usize, u32)>> = Vec::new();
    let mut q: usize = 0;
    while q < num_nodes
        invariant
            q <= num_nodes,
            graph@.len() == q,
            forall|k: int| 0 <= k < q ==> (#[trigger] graph@[k])@ == Seq::<(usize, u32)>::empty(),
        decreases num_nodes - q,
    {
        graph.push(Vec::new());
        q += 1;
    }
    proof {
        assert(rows_view(graph@) =~= Seq::new(n, |i: int| Seq::<(usize, u32)>::empty()));
    }
    let len = lines.len();
    let m = len - 1 - num_nodes;
    let mut k: usize = 0;
    while k < m
        invariant
            len == lines@.len(),
            lt == line_texts(lines@),
            n == num_nodes,
            spec_names == node_names(lt, n),
            num_nodes < lines@.len(),
            m == lines@.len() - 1 - num_nodes,
            k <= m,
            names@.len() == num_nodes,
            forall|i: int| 0 <= i < num_nodes ==> (#[trigger] names@[i])@ == spec_names[i],
            forall|i: int, j: int| 0 <= i < j < spec_names.len() ==> spec_names[i] != spec_names[j],
            edges_result(lt, n, spec_names, bidirectional, k as nat) == Ok::<
                Seq<Seq<(usize, u32)>>,
                Seq<char>,
            >(rows_view(graph@)),
            graph@.len() == num_nodes,
            names_error(lt, n) is None,
            parse_u32(lt[0]) == Some(nv),
            nv as nat == n,
            lines@.len() - 1 >= n,
        decreases m - k,
    {
        let idx = num_nodes + k + 1;
        let line_no = num_nodes + k + 2;
        proof {
            assert(lt[idx as int] == lines@[idx as int]@);
            assert(spec_names.len() == n);
        }
        let res = read_edge_line(lines[idx], line_no, &names, Ghost(spec_names), bidirectional, &mut graph);
        match res {
            Ok(()) => {},
            Err(msg) => {
                proof {
                    assert(edges_result(lt, n, spec_names, bidirectional, (k + 1) as nat) is Err);
                    lemma_edges_error_stays(lt, n, spec_names, bidirectional, (k + 1) as nat, m as nat);
                    assert(names_error(lt, n) is None);
                    assert(parse_u32(lt[0]) == Some(nv));
                    assert(edges_result(lt, n, spec_names, bidirectional, m as nat) == Err::<
                        Seq<Seq<(usize, u32)>>,
                        Seq<char>,
                    >(msg@));
                    assert(lt.len() == lines@.len());
                    assert(m as nat == (lt.len() - 1 - n) as nat);
                    let nn = parse_u32(lt[0])->Some_0;
                    assert(nn as nat == n);
                    assert(!(lt.len() - 1 < nn));
                    assert(names_error(lt, nn as nat) is None);
                    assert(node_names(lt, nn as nat) == spec_names);
                    assert(parse_result(lt, bidirectional) == Err::<
                        (Seq<Seq<(usize, u32)>>, Seq<Seq<char>>),
                        Seq<char>,
                    >(msg@));
                }
                return Err(msg);
            },
        }
        k += 1;
    }
    proof {
        lemma_edges_in_range(lt, n, spec_names, bidirectional, m as nat);
    }
    Ok(ParsedGraph { graph, nodes_reverse })
}

} // verus!
