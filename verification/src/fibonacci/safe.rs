//! Fibonacci heap for Dijkstra's algorithm, with its nodes in an arena.
//!
//! Each node keeps its parent, its degree, its mark and the list of its children in
//! sibling order (the first child first); the root list is kept in order starting
//! from the minimum.
use std::collections::VecDeque;
use vstd::multiset::Multiset;
use vstd::pervasive::VecAdditionalExecFns;
use vstd::prelude::*;

verus! {

broadcast use {vstd::multiset::group_multiset_axioms, vstd::multiset::group_multiset_properties};

/// A node of the Fibonacci heap.
pub struct Node {
    pub(crate) key: u32,
    pub(crate) node_id: usize,
    pub(crate) degree: usize,
    pub(crate) marked: bool,
    pub(crate) parent: Option<usize>,
    /// The children in sibling order, starting from the first child.
    pub(crate) children: Vec<usize>,
}

impl Node {
    fn new(key: u32, node_id: usize) -> (r: Self)
        ensures
            r.key == key,
            r.node_id == node_id,
            r.degree == 0,
            !r.marked,
            r.parent is None,
            r.children@.len() == 0,
    {
        Node { key, node_id, degree: 0, marked: false, parent: None, children: Vec::new() }
    }
}

/// Handle to a node of a Fibonacci heap, used for `decrease_key` operations.
#[derive(Clone, Copy, Debug, PartialEq, Eq, Structural, Hash)]
pub struct FibHandle {
    index: usize,
}

impl FibHandle {
    /// The arena slot of the node the handle designates.
    pub closed spec fn index(self) -> usize {
        self.index
    }

    /// Handles of the same slot are the same handle.
    pub proof fn lemma_same_index(self, other: FibHandle)
        ensures
            self.index() == other.index() ==> self == other,
    {
    }
}

/// A Fibonacci heap.
pub struct FibonacciHeap {
    /// The root list, starting from the minimum.
    roots: VecDeque<usize>,
    /// Every node ever inserted; the heap holds those in `members`.
    nodes: Vec<Node>,
    /// The arena slots of the nodes the heap holds.
    members: Ghost<Set<int>>,
    /// A rank that decreases from parent to child.
    rank: Ghost<Seq<nat>>,
    /// A bound above every rank.
    bound: Ghost<nat>,
}

/// The children of member `m` are members, point back to it, carry keys no smaller
/// than its key and lower ranks, and are listed once.
spec fn child_ok(nodes: Seq<Node>, members: Set<int>, rank: Seq<nat>, m: int) -> bool {
    let ch = nodes[m].children@;
    &&& ch.no_duplicates()
    &&& forall|j: int|
        0 <= j < ch.len() ==> {
            let c = #[trigger] ch[j] as int;
            &&& members.contains(c)
            &&& nodes[c].parent == Some(m as usize)
            &&& nodes[m].key <= nodes[c].key
            &&& rank[c] < rank[m]
        }
}

/// The members form a forest: a member with a parent is listed among the children of
/// that parent, which is a member too.
spec fn forest_ok(nodes: Seq<Node>, members: Set<int>, rank: Seq<nat>, bound: nat) -> bool {
    forest_loose(nodes, members, rank, bound, Set::empty())
}

/// `forest_ok`, except that the members in `loose` may still point to a former parent.
spec fn forest_loose(nodes: Seq<Node>, members: Set<int>, rank: Seq<nat>, bound: nat, loose: Set<int>) -> bool {
    &&& nodes.len() <= usize::MAX
    &&& rank.len() == nodes.len()
    &&& forall|i: int| 0 <= i < rank.len() ==> #[trigger] rank[i] < bound
    &&& forall|m: int| #[trigger] members.contains(m) ==> 0 <= m < nodes.len() && child_ok(nodes, members, rank, m)
    &&& forall|m: int|
        #[trigger] members.contains(m) && !loose.contains(m) && nodes[m].parent is Some ==> {
            let p = nodes[m].parent->Some_0;
            &&& members.contains(p as int)
            &&& nodes[p as int].children@.contains(m as usize)
        }
}

/// The slots below `k` keep their membership, keys and node ids.
spec fn same_entries(nodes: Seq<Node>, members: Set<int>, nodes2: Seq<Node>, members2: Set<int>) -> bool {
    &&& nodes2.len() == nodes.len()
    &&& forall|j: int| 0 <= j < nodes.len() ==> (#[trigger] members2.contains(j) <==> members.contains(j))
    &&& forall|j: int|
        0 <= j < nodes.len() ==> (#[trigger] nodes2[j]).key == nodes[j].key && nodes2[j].node_id == nodes[j].node_id
}

/// The entry of slot `i`, if it is a member.
spec fn item_at(nodes: Seq<Node>, members: Set<int>, i: int) -> Multiset<(u32, usize)> {
    if members.contains(i) {
        Multiset::singleton((nodes[i].key, nodes[i].node_id))
    } else {
        Multiset::empty()
    }
}

/// The entries of the members among the first `k` slots.
spec fn items_upto(nodes: Seq<Node>, members: Set<int>, k: nat) -> Multiset<(u32, usize)>
    decreases k,
{
    if k == 0 {
        Multiset::empty()
    } else {
        items_upto(nodes, members, (k - 1) as nat).add(item_at(nodes, members, k - 1))
    }
}

proof fn lemma_items_update(
    nodes: Seq<Node>,
    members: Set<int>,
    nodes2: Seq<Node>,
    members2: Set<int>,
    i: int,
    k: nat,
)
    requires
        0 <= i,
        k <= nodes.len(),
        k <= nodes2.len(),
        forall|j: int| 0 <= j < k && j != i ==> (#[trigger] members2.contains(j) <==> members.contains(j)),
        forall|j: int|
            0 <= j < k && j != i && members.contains(j) ==> (#[trigger] nodes2[j]).key == nodes[j].key
                && nodes2[j].node_id == nodes[j].node_id,
    ensures
        i < k ==> items_upto(nodes2, members2, k).add(item_at(nodes, members, i)) =~= items_upto(
            nodes,
            members,
            k,
        ).add(item_at(nodes2, members2, i)),
        i >= k ==> items_upto(nodes2, members2, k) =~= items_upto(nodes, members, k),
    decreases k,
{
    if k > 0 {
        lemma_items_update(nodes, members, nodes2, members2, i, (k - 1) as nat);
        let a2 = items_upto(nodes2, members2, (k - 1) as nat);
        let a = items_upto(nodes, members, (k - 1) as nat);
        if k - 1 != i {
            assert(members2.contains(k - 1) <==> members.contains(k - 1));
            if members.contains(k - 1) {
                assert(nodes2[k - 1].key == nodes[k - 1].key);
            }
            assert(item_at(nodes2, members2, k - 1) == item_at(nodes, members, k - 1));
        }
        if i < k {
            let lhs = items_upto(nodes2, members2, k).add(item_at(nodes, members, i));
            let rhs = items_upto(nodes, members, k).add(item_at(nodes2, members2, i));
            assert forall|y: (u32, usize)| lhs.count(y) == rhs.count(y) by {
                if k - 1 != i {
                    assert(a2.add(item_at(nodes, members, i)).count(y) == a.add(item_at(nodes2, members2, i)).count(
                        y,
                    ));
                }
            }
            assert(lhs =~= rhs);
        }
    }
}

proof fn lemma_items_count(nodes: Seq<Node>, members: Set<int>, k: nat, y: (u32, usize))
    requires
        k <= nodes.len(),
    ensures
        items_upto(nodes, members, k).count(y) > 0 <==> exists|i: int|
            0 <= i < k && #[trigger] members.contains(i) && (nodes[i].key, nodes[i].node_id) == y,
    decreases k,
{
    if k > 0 {
        lemma_items_count(nodes, members, (k - 1) as nat, y);
        let a = items_upto(nodes, members, (k - 1) as nat);
        assert(items_upto(nodes, members, k) == a.add(item_at(nodes, members, k - 1)));
        if members.contains(k - 1) && (nodes[k - 1].key, nodes[k - 1].node_id) == y {
            assert(item_at(nodes, members, k - 1).count(y) == 1);
        }
    }
}

proof fn lemma_items_empty(nodes: Seq<Node>, members: Set<int>, k: nat)
    requires
        k <= nodes.len(),
        forall|i: int| 0 <= i < k ==> !(#[trigger] members.contains(i)),
    ensures
        items_upto(nodes, members, k) =~= Multiset::empty(),
    decreases k,
{
    if k > 0 {
        lemma_items_empty(nodes, members, (k - 1) as nat);
    }
}

/// Remove one occurrence of `x` from a multiset after adding the singleton of `x`.
proof fn lemma_cancel(a: Multiset<(u32, usize)>, b: Multiset<(u32, usize)>, x: (u32, usize), z: Multiset<(u32, usize)>)
    requires
        a.add(Multiset::singleton(x)) == b.add(z),
    ensures
        z.len() == 0 ==> a =~= b.remove(x) && b.count(x) > 0,
        z == Multiset::singleton(x) ==> a =~= b,
{
    if z.len() == 0 {
        assert forall|y: (u32, usize)| z.count(y) == 0 by {
            if z.count(y) > 0 {
                assert(z.len() > 0);
            }
        }
        assert(a.add(Multiset::singleton(x)).count(x) == b.add(z).count(x));
        assert(a.add(Multiset::singleton(x)).count(x) == a.count(x) + Multiset::singleton(x).count(x));
        assert(b.add(z).count(x) == b.count(x) + z.count(x));
        assert(Multiset::singleton(x).count(x) == 1);
        assert(b.count(x) > 0);
        assert forall|y: (u32, usize)| a.count(y) == b.remove(x).count(y) by {
            assert(a.add(Multiset::singleton(x)).count(y) == b.add(z).count(y));
            assert(a.add(Multiset::singleton(x)).count(y) == a.count(y) + Multiset::singleton(x).count(y));
            assert(b.add(z).count(y) == b.count(y) + z.count(y));
            if y == x {
                assert(Multiset::singleton(x).count(y) == 1);
            } else {
                assert(Multiset::singleton(x).count(y) == 0);
            }
        }
    }
    if z == Multiset::singleton(x) {
        assert forall|y: (u32, usize)| a.count(y) == b.count(y) by {
            assert(a.add(Multiset::singleton(x)).count(y) == b.add(z).count(y));
            assert(a.add(Multiset::singleton(x)).count(y) == a.count(y) + Multiset::singleton(x).count(y));
            assert(b.add(z).count(y) == b.count(y) + z.count(y));
        }
    }
}

proof fn lemma_same_entries(nodes: Seq<Node>, members: Set<int>, nodes2: Seq<Node>, members2: Set<int>)
    requires
        same_entries(nodes, members, nodes2, members2),
    ensures
        items_upto(nodes2, members2, nodes2.len()) =~= items_upto(nodes, members, nodes.len()),
{
    lemma_items_update(nodes, members, nodes2, members2, nodes.len() as int, nodes.len());
}

/// A member of a forest is no lighter than some member without a parent.
proof fn lemma_top_below(nodes: Seq<Node>, members: Set<int>, rank: Seq<nat>, bound: nat, m: int)
    requires
        forest_ok(nodes, members, rank, bound),
        members.contains(m),
    ensures
        exists|t: int|
            #[trigger] members.contains(t) && nodes[t].parent is None && nodes[t].key <= nodes[m].key,
    decreases bound - rank[m],
{
    if nodes[m].parent is Some {
        let p = nodes[m].parent->Some_0 as int;
        assert(members.contains(p));
        assert(child_ok(nodes, members, rank, p));
        let ch = nodes[p].children@;
        let j = choose|j: int| 0 <= j < ch.len() && ch[j] == m as usize;
        assert(ch[j] as int == m);
        assert(rank[m] < rank[p]);
        assert(rank[p] < bound);
        lemma_top_below(nodes, members, rank, bound, p);
    } else {
        assert(members.contains(m) && nodes[m].parent is None && nodes[m].key <= nodes[m].key);
    }
}

// ---------------------------------------------------------------------------------
// Sizes of subtrees: a node of degree `d` has at least `fib(d + 2)` descendants.
// ---------------------------------------------------------------------------------

/// The Fibonacci numbers.
pub open spec fn fib(n: nat) -> nat
    decreases n,
{
    if n == 0 {
        0
    } else if n == 1 {
        1
    } else {
        fib((n - 1) as nat) + fib((n - 2) as nat)
    }
}

proof fn lemma_fib_monotone(a: nat, b: nat)
    requires
        a <= b,
    ensures
        fib(a) <= fib(b),
    decreases b,
{
    if a < b {
        lemma_fib_monotone(a, (b - 1) as nat);
        if b >= 2 {
            assert(fib(b) == fib((b - 1) as nat) + fib((b - 2) as nat));
        } else {
            assert(b == 1 && a == 0);
        }
    }
}

/// The 52nd Fibonacci number.
pub proof fn lemma_fib_52()
    ensures
        fib(52) == 32_951_280_099,
{
    assert(fib(2) == fib(1) + fib(0));
    assert(fib(3) == fib(2) + fib(1));
    assert(fib(4) == fib(3) + fib(2));
    assert(fib(5) == fib(4) + fib(3));
    assert(fib(6) == fib(5) + fib(4));
    assert(fib(7) == fib(6) + fib(5));
    assert(fib(8) == fib(7) + fib(6));
    assert(fib(9) == fib(8) + fib(7));
    assert(fib(10) == fib(9) + fib(8));
    assert(fib(11) == fib(10) + fib(9));
    assert(fib(12) == fib(11) + fib(10));
    assert(fib(13) == fib(12) + fib(11));
    assert(fib(14) == fib(13) + fib(12));
    assert(fib(15) == fib(14) + fib(13));
    assert(fib(16) == fib(15) + fib(14));
    assert(fib(17) == fib(16) + fib(15));
    assert(fib(18) == fib(17) + fib(16));
    assert(fib(19) == fib(18) + fib(17));
    assert(fib(20) == fib(19) + fib(18));
    assert(fib(21) == fib(20) + fib(19));
    assert(fib(22) == fib(21) + fib(20));
    assert(fib(23) == fib(22) + fib(21));
    assert(fib(24) == fib(23) + fib(22));
    assert(fib(25) == fib(24) + fib(23));
    assert(fib(26) == fib(25) + fib(24));
    assert(fib(27) == fib(26) + fib(25));
    assert(fib(28) == fib(27) + fib(26));
    assert(fib(29) == fib(28) + fib(27));
    assert(fib(30) == fib(29) + fib(28));
    assert(fib(31) == fib(30) + fib(29));
    assert(fib(32) == fib(31) + fib(30));
    assert(fib(33) == fib(32) + fib(31));
    assert(fib(34) == fib(33) + fib(32));
    assert(fib(35) == fib(34) + fib(33));
    assert(fib(36) == fib(35) + fib(34));
    assert(fib(37) == fib(36) + fib(35));
    assert(fib(38) == fib(37) + fib(36));
    assert(fib(39) == fib(38) + fib(37));
    assert(fib(40) == fib(39) + fib(38));
    assert(fib(41) == fib(40) + fib(39));
    assert(fib(42) == fib(41) + fib(40));
    assert(fib(43) == fib(42) + fib(41));
    assert(fib(44) == fib(43) + fib(42));
    assert(fib(45) == fib(44) + fib(43));
    assert(fib(46) == fib(45) + fib(44));
    assert(fib(47) == fib(46) + fib(45));
    assert(fib(48) == fib(47) + fib(46));
    assert(fib(49) == fib(48) + fib(47));
    assert(fib(50) == fib(49) + fib(48));
    assert(fib(51) == fib(50) + fib(49));
    assert(fib(52) == fib(51) + fib(50));
}

/// `a` is `m` or an ancestor of `m`.
spec fn is_anc(nodes: Seq<Node>, rank: Seq<nat>, bound: nat, m: int, a: int) -> bool
    decreases bound - rank[m],
{
    if m == a {
        true
    } else if 0 <= m < nodes.len() && m < rank.len() && nodes[m].parent is Some {
        let p = nodes[m].parent->Some_0 as int;
        if 0 <= p < rank.len() && rank[m] < rank[p] && rank[p] < bound {
            is_anc(nodes, rank, bound, p, a)
        } else {
            false
        }
    } else {
        false
    }
}

/// The members below `x` (with `x` itself).
spec fn desc(nodes: Seq<Node>, members: Set<int>, rank: Seq<nat>, bound: nat, x: int) -> Set<int> {
    members.filter(|m: int| is_anc(nodes, rank, bound, m, x))
}

/// The members below the first `k` of the nodes `ch`.
spec fn desc_upto(nodes: Seq<Node>, members: Set<int>, rank: Seq<nat>, bound: nat, ch: Seq<usize>, k: nat) -> Set<
    int,
>
    decreases k,
{
    if k == 0 {
        Set::empty()
    } else {
        desc_upto(nodes, members, rank, bound, ch, (k - 1) as nat).union(
            desc(nodes, members, rank, bound, ch[k - 1] as int),
        )
    }
}

/// Every member has a degree equal to its number of children, and its `j`-th child has
/// degree at least `j`, or `j - 1` when marked.
spec fn degrees_ok(nodes: Seq<Node>, members: Set<int>) -> bool {
    forall|x: int|
        #[trigger] members.contains(x) ==> {
            &&& nodes[x].degree == nodes[x].children@.len()
            &&& forall|j: int|
                0 <= j < nodes[x].children@.len() ==> nodes[(#[trigger] nodes[x].children@[j]) as int].degree + (
                if nodes[nodes[x].children@[j] as int].marked {
                    1int
                } else {
                    0int
                }) >= j
        }
}

/// `degrees_ok`, except that member `p` may have lost one child more than its mark shows.
spec fn degrees_loose(nodes: Seq<Node>, members: Set<int>, p: int) -> bool {
    forall|x: int|
        #[trigger] members.contains(x) ==> {
            &&& nodes[x].degree == nodes[x].children@.len()
            &&& forall|j: int|
                0 <= j < nodes[x].children@.len() ==> nodes[(#[trigger] nodes[x].children@[j]) as int].degree + (
                if nodes[nodes[x].children@[j] as int].marked {
                    1int
                } else {
                    0int
                }) + (if nodes[x].children@[j] as int == p {
                    1int
                } else {
                    0int
                }) >= j
        }
}

/// Without a parent, the member that may have lost a child is under no rule.
proof fn lemma_degrees_tight(nodes: Seq<Node>, members: Set<int>, rank: Seq<nat>, bound: nat, p: int)
    requires
        forest_ok(nodes, members, rank, bound),
        degrees_loose(nodes, members, p),
        0 <= p < nodes.len(),
        nodes[p].parent is None,
    ensures
        degrees_ok(nodes, members),
{
    assert forall|x: int| #[trigger] members.contains(x) implies {
        &&& nodes[x].degree == nodes[x].children@.len()
        &&& forall|j: int|
            0 <= j < nodes[x].children@.len() ==> nodes[(#[trigger] nodes[x].children@[j]) as int].degree + (
            if nodes[nodes[x].children@[j] as int].marked {
                1int
            } else {
                0int
            }) >= j
    } by {
        assert forall|j: int| 0 <= j < nodes[x].children@.len() implies nodes[(#[trigger] nodes[x].children@[j]) as int].degree + (
        if nodes[nodes[x].children@[j] as int].marked {
            1int
        } else {
            0int
        }) >= j by {
            assert(child_ok(nodes, members, rank, x));
            let c = nodes[x].children@[j] as int;
            assert(nodes[c].parent == Some(x as usize));
        }
    }
}


/// `n1` is `n0` after cutting `node` (the `i`-th child of `parent`) from `parent`.
spec fn cut_step(n0: Seq<Node>, n1: Seq<Node>, node: int, parent: int, i: int) -> bool {
    &&& n1.len() == n0.len()
    &&& 0 <= node < n0.len()
    &&& 0 <= parent < n0.len()
    &&& 0 <= i < n0[parent].children@.len()
    &&& n0[parent].children@[i] as int == node
    &&& forall|x: int| 0 <= x < n0.len() && x != node && x != parent ==> #[trigger] n1[x] == n0[x]
    &&& n1[parent].children@ == n0[parent].children@.remove(i)
    &&& n1[parent].degree == n0[parent].degree - 1
    &&& n1[parent].key == n0[parent].key
    &&& n1[parent].node_id == n0[parent].node_id
    &&& n1[parent].marked == n0[parent].marked
    &&& n1[parent].parent == n0[parent].parent
    &&& n1[node].parent is None
    &&& !n1[node].marked
    &&& n1[node].key == n0[node].key
    &&& n1[node].node_id == n0[node].node_id
    &&& n1[node].degree == n0[node].degree
    &&& n1[node].children == n0[node].children
}

proof fn lemma_cut_forest(n0: Seq<Node>, n1: Seq<Node>, m: Set<int>, rk: Seq<nat>, bound: nat, node: int, parent: int, i: int)
    requires
        forest_ok(n0, m, rk, bound),
        cut_step(n0, n1, node, parent, i),
        node != parent,
        m.contains(node),
        n0[node].parent == Some(parent as usize),
    ensures
        forest_ok(n1, m, rk, bound),
{
    let ch0 = n0[parent].children@;
    assert(m.contains(parent));
    assert(child_ok(n0, m, rk, parent));
    assert(n1[parent].children@ == ch0.remove(i));
    assert(ch0[i] == node);
    assert forall|x: int| #[trigger] m.contains(x) implies 0 <= x < n1.len() && child_ok(n1, m, rk, x) by {
        assert(child_ok(n0, m, rk, x));
        let ch = n1[x].children@;
        if x == parent {
            assert forall|j: int| 0 <= j < ch.len() implies {
                let c = #[trigger] ch[j] as int;
                &&& m.contains(c)
                &&& n1[c].parent == Some(x as usize)
                &&& n1[x].key <= n1[c].key
                &&& rk[c] < rk[x]
            } by {
                let j0 = if j < i { j } else { j + 1 };
                assert(ch[j] == ch0[j0]);
                assert(ch0[j0] != node);
                assert(ch0[j0] != parent);
            }
            assert(ch.no_duplicates()) by {
                assert forall|j1: int, j2: int| 0 <= j1 < ch.len() && 0 <= j2 < ch.len() && j1 != j2 implies ch[j1]
                    != ch[j2] by {
                    let a1 = if j1 < i { j1 } else { j1 + 1 };
                    let a2 = if j2 < i { j2 } else { j2 + 1 };
                    assert(ch[j1] == ch0[a1]);
                    assert(ch[j2] == ch0[a2]);
                }
            }
        } else {
            assert(ch == n0[x].children@);
            assert forall|j: int| 0 <= j < ch.len() implies {
                let c = #[trigger] ch[j] as int;
                &&& m.contains(c)
                &&& n1[c].parent == Some(x as usize)
                &&& n1[x].key <= n1[c].key
                &&& rk[c] < rk[x]
            } by {
                let c = ch[j] as int;
                assert(n0[c].parent == Some(x as usize));
                assert(c != node);
            }
        }
    }
    assert forall|x: int| #[trigger] m.contains(x) && !Set::<int>::empty().contains(x) && n1[x].parent is Some implies {
        let q = n1[x].parent->Some_0;
        &&& m.contains(q as int)
        &&& n1[q as int].children@.contains(x as usize)
    } by {
        let q = n0[x].parent->Some_0;
        assert(n0[q as int].children@.contains(x as usize));
        if q == parent {
            let j = choose|j: int| 0 <= j < ch0.len() && ch0[j] == x as usize;
            assert(j != i);
            let j1 = if j < i { j } else { j - 1 };
            assert(n1[parent].children@[j1] == x as usize);
        }
    }
}

proof fn lemma_cut_degrees(n0: Seq<Node>, n1: Seq<Node>, m: Set<int>, rk: Seq<nat>, bound: nat, node: int, parent: int, i: int)
    requires
        forest_ok(n0, m, rk, bound),
        degrees_loose(n0, m, node),
        cut_step(n0, n1, node, parent, i),
        node != parent,
        m.contains(node),
        n0[node].parent == Some(parent as usize),
    ensures
        degrees_loose(n1, m, parent),
{
    let ch0 = n0[parent].children@;
    assert(m.contains(parent));
    assert(child_ok(n0, m, rk, parent));
    assert forall|x: int| #[trigger] m.contains(x) implies {
        &&& n1[x].degree == n1[x].children@.len()
        &&& forall|j: int|
            0 <= j < n1[x].children@.len() ==> n1[(#[trigger] n1[x].children@[j]) as int].degree + (
            if n1[n1[x].children@[j] as int].marked {
                1int
            } else {
                0int
            }) + (if n1[x].children@[j] as int == parent {
                1int
            } else {
                0int
            }) >= j
    } by {
        assert(child_ok(n0, m, rk, x));
        let ch = n1[x].children@;
        assert forall|j: int| 0 <= j < ch.len() implies n1[(#[trigger] ch[j]) as int].degree + (
        if n1[ch[j] as int].marked {
            1int
        } else {
            0int
        }) + (if ch[j] as int == parent {
            1int
        } else {
            0int
        }) >= j by {
            if x == parent {
                let j0 = if j < i { j } else { j + 1 };
                assert(ch[j] == ch0[j0]);
                let c = ch0[j0] as int;
                assert(c != node && c != parent);
                assert(n0[c].parent == Some(parent as usize));
                assert(n0[(ch0[j0]) as int].degree + (if n0[ch0[j0] as int].marked {
                    1int
                } else {
                    0int
                }) + (if ch0[j0] as int == node {
                    1int
                } else {
                    0int
                }) >= j0);
            } else {
                let c = ch[j] as int;
                assert(ch == n0[x].children@);
                assert(n0[c].parent == Some(x as usize));
                assert(c != node);
                assert(n0[(n0[x].children@[j]) as int].degree + (if n0[n0[x].children@[j] as int].marked {
                    1int
                } else {
                    0int
                }) + (if n0[x].children@[j] as int == node {
                    1int
                } else {
                    0int
                }) >= j);
            }
        }
    }
}


/// Changing a key keeps the degree rules.
proof fn lemma_rekey_degrees(n1: Seq<Node>, n2: Seq<Node>, m: Set<int>, rk: Seq<nat>, bound: nat, i: int, key: u32)
    requires
        forest_ok(n1, m, rk, bound),
        degrees_ok(n1, m),
        0 <= i < n1.len(),
        n2 == n1.update(i, Node { key, ..n1[i] }),
    ensures
        degrees_ok(n2, m),
{
    assert forall|x: int| #[trigger] m.contains(x) implies {
        &&& n2[x].degree == n2[x].children@.len()
        &&& forall|j: int|
            0 <= j < n2[x].children@.len() ==> n2[(#[trigger] n2[x].children@[j]) as int].degree + (
            if n2[n2[x].children@[j] as int].marked {
                1int
            } else {
                0int
            }) >= j
    } by {
        assert forall|j: int| 0 <= j < n2[x].children@.len() implies n2[(#[trigger] n2[x].children@[j]) as int].degree + (
        if n2[n2[x].children@[j] as int].marked {
            1int
        } else {
            0int
        }) >= j by {
            let c = n1[x].children@[j] as int;
            assert(child_ok(n1, m, rk, x));
            assert(m.contains(c));
        }
    }
}

/// Changing the key of member `i` swaps its entry for the entry with the new key.
proof fn lemma_rekey_items(n1: Seq<Node>, n2: Seq<Node>, m: Set<int>, i: int, key: u32)
    requires
        0 <= i < n1.len(),
        m.contains(i),
        n2 == n1.update(i, Node { key, ..n1[i] }),
    ensures
        items_upto(n2, m, n2.len()) =~= items_upto(n1, m, n1.len()).remove((n1[i].key, n1[i].node_id)).insert(
            (key, n1[i].node_id),
        ),
{
    lemma_items_update(n1, m, n2, m, i, n1.len());
    let x0 = (n1[i].key, n1[i].node_id);
    let x1 = (key, n1[i].node_id);
    assert(item_at(n1, m, i) == Multiset::singleton(x0));
    assert(item_at(n2, m, i) == Multiset::singleton(x1));
    let a = items_upto(n2, m, n1.len());
    let b = items_upto(n1, m, n1.len());
    lemma_items_count(n1, m, n1.len(), x0);
    assert(b.count(x0) > 0);
    assert forall|y: (u32, usize)| a.count(y) == b.remove(x0).insert(x1).count(y) by {
        assert(a.add(Multiset::singleton(x0)).count(y) == b.add(Multiset::singleton(x1)).count(y));
    }
}


/// A member lighter than the first root, after lowering its key, has no parent.
proof fn lemma_rekey_root(n1: Seq<Node>, m: Set<int>, rk: Seq<nat>, bound: nat, r1: Seq<usize>, i: int, key: u32)
    requires
        forest_ok(n1, m, rk, bound),
        roots_ok(n1, m, r1),
        m.contains(i),
        r1.len() > 0,
        r1[0] != i,
        key < n1[r1[0] as int].key,
        n1[i].parent is Some ==> n1[n1[i].parent->Some_0 as int].key <= key,
    ensures
        n1[i].parent is None,
        r1.contains(i as usize),
{
    if n1[i].parent is Some {
        let q = n1[i].parent->Some_0 as int;
        assert(m.contains(q));
        lemma_top_below(n1, m, rk, bound, q);
        let t = choose|t: int| #[trigger] m.contains(t) && n1[t].parent is None && n1[t].key <= n1[q].key;
        assert(r1.contains(t as usize));
        let j = choose|j: int| 0 <= j < r1.len() && r1[j] == t as usize;
        assert(n1[r1[0] as int].key <= n1[r1[j] as int].key);
        assert(false);
    }
}

/// Lowering the key of member `i` keeps the root list in order, once a root that became
/// lighter than the first root is moved to the front.
proof fn lemma_rekey_roots(n1: Seq<Node>, n2: Seq<Node>, m: Set<int>, r1: Seq<usize>, rl: Seq<usize>, i: int, key: u32, rotated: bool)
    requires
        roots_ok(n1, m, r1),
        forall|x: int| #[trigger] m.contains(x) ==> 0 <= x < n1.len(),
        0 <= i < n1.len(),
        key <= n1[i].key,
        n2 == n1.update(i, Node { key, ..n1[i] }),
        r1.len() > 0,
        rotated == (key < n2[r1[0] as int].key),
        !rotated ==> rl == r1,
        rotated ==> {
            &&& rl.len() == r1.len()
            &&& rl[0] == i
            &&& rl.no_duplicates()
            &&& forall|x: usize| #[trigger] rl.contains(x) <==> r1.contains(x)
        },
    ensures
        roots_ok(n2, m, rl),
{
    assert forall|j: int| 0 <= j < rl.len() implies m.contains(#[trigger] rl[j] as int) && n2[rl[j] as int].parent is None by {
        assert(rl.contains(rl[j]));
        assert(r1.contains(rl[j]));
        let q = choose|q: int| 0 <= q < r1.len() && r1[q] == rl[j];
    }
    assert forall|x: int| #[trigger] m.contains(x) && n2[x].parent is None implies rl.contains(x as usize) by {
        assert(n1[x].parent is None);
        assert(r1.contains(x as usize));
    }
    assert forall|j: int| 0 <= j < rl.len() implies n2[rl[0] as int].key <= n2[#[trigger] rl[j] as int].key by {
        assert(rl.contains(rl[j]));
        assert(r1.contains(rl[j]));
        let q = choose|q: int| 0 <= q < r1.len() && r1[q] == rl[j];
        assert(n1[r1[0] as int].key <= n1[r1[q] as int].key);
    }
}

proof fn lemma_anc_step(nodes: Seq<Node>, members: Set<int>, rank: Seq<nat>, bound: nat, m: int)
    requires
        forest_ok(nodes, members, rank, bound),
        members.contains(m),
        nodes[m].parent is Some,
    ensures
        ({
            let p = nodes[m].parent->Some_0 as int;
            &&& members.contains(p)
            &&& rank[m] < rank[p]
            &&& forall|a: int| is_anc(nodes, rank, bound, m, a) == (m == a || is_anc(nodes, rank, bound, p, a))
        }),
{
    let p = nodes[m].parent->Some_0 as int;
    assert(child_ok(nodes, members, rank, p));
    let ch = nodes[p].children@;
    let j = choose|j: int| 0 <= j < ch.len() && ch[j] == m as usize;
    assert(ch[j] as int == m);
}

proof fn lemma_anc_rank(nodes: Seq<Node>, members: Set<int>, rank: Seq<nat>, bound: nat, m: int, a: int)
    requires
        forest_ok(nodes, members, rank, bound),
        members.contains(m),
        is_anc(nodes, rank, bound, m, a),
    ensures
        members.contains(a),
        rank[m] <= rank[a],
    decreases bound - rank[m],
{
    if m != a {
        lemma_anc_step(nodes, members, rank, bound, m);
        let p = nodes[m].parent->Some_0 as int;
        lemma_anc_rank(nodes, members, rank, bound, p, a);
    }
}

proof fn lemma_anc_linear(nodes: Seq<Node>, members: Set<int>, rank: Seq<nat>, bound: nat, m: int, a: int, b: int)
    requires
        forest_ok(nodes, members, rank, bound),
        members.contains(m),
        is_anc(nodes, rank, bound, m, a),
        is_anc(nodes, rank, bound, m, b),
    ensures
        is_anc(nodes, rank, bound, a, b) || is_anc(nodes, rank, bound, b, a),
    decreases bound - rank[m],
{
    if m != a && m != b {
        lemma_anc_step(nodes, members, rank, bound, m);
        let p = nodes[m].parent->Some_0 as int;
        lemma_anc_linear(nodes, members, rank, bound, p, a, b);
    }
}

/// A descendant of a child of `x` is a descendant of `x`.
proof fn lemma_anc_parent(nodes: Seq<Node>, members: Set<int>, rank: Seq<nat>, bound: nat, m: int, c: int)
    requires
        forest_ok(nodes, members, rank, bound),
        members.contains(m),
        members.contains(c),
        nodes[c].parent is Some,
        is_anc(nodes, rank, bound, m, c),
    ensures
        is_anc(nodes, rank, bound, m, nodes[c].parent->Some_0 as int),
    decreases bound - rank[m],
{
    lemma_anc_step(nodes, members, rank, bound, c);
    if m != c {
        lemma_anc_step(nodes, members, rank, bound, m);
        let p = nodes[m].parent->Some_0 as int;
        lemma_anc_parent(nodes, members, rank, bound, p, c);
    }
}

/// A descendant of `x` other than `x` descends from one of its children.
proof fn lemma_anc_child(nodes: Seq<Node>, members: Set<int>, rank: Seq<nat>, bound: nat, m: int, x: int)
    requires
        forest_ok(nodes, members, rank, bound),
        members.contains(m),
        m != x,
        is_anc(nodes, rank, bound, m, x),
    ensures
        exists|j: int|
            0 <= j < nodes[x].children@.len() && is_anc(nodes, rank, bound, m, #[trigger] nodes[x].children@[j] as int),
    decreases bound - rank[m],
{
    lemma_anc_step(nodes, members, rank, bound, m);
    let p = nodes[m].parent->Some_0 as int;
    if p == x {
        let ch = nodes[x].children@;
        assert(ch.contains(m as usize));
        let j = choose|j: int| 0 <= j < ch.len() && ch[j] == m as usize;
        assert(ch[j] as int == m);
    } else {
        lemma_anc_child(nodes, members, rank, bound, p, x);
        let j = choose|j: int|
            0 <= j < nodes[x].children@.len() && is_anc(nodes, rank, bound, p, #[trigger] nodes[x].children@[j] as int);
        assert(is_anc(nodes, rank, bound, m, nodes[x].children@[j] as int));
    }
}

proof fn lemma_desc_upto_members(
    nodes: Seq<Node>,
    members: Set<int>,
    rank: Seq<nat>,
    bound: nat,
    ch: Seq<usize>,
    k: nat,
    m: int,
)
    requires
        k <= ch.len(),
    ensures
        desc_upto(nodes, members, rank, bound, ch, k).contains(m) <==> exists|j: int|
            0 <= j < k && #[trigger] desc(nodes, members, rank, bound, ch[j] as int).contains(m),
        desc_upto(nodes, members, rank, bound, ch, k).subset_of(members),
    decreases k,
{
    if k > 0 {
        lemma_desc_upto_members(nodes, members, rank, bound, ch, (k - 1) as nat, m);
        if desc(nodes, members, rank, bound, ch[k - 1] as int).contains(m) {
            assert(exists|j: int| 0 <= j < k && #[trigger] desc(nodes, members, rank, bound, ch[j] as int).contains(m));
        }
    }
}

/// The subtrees of the first `k` children of `x` hold at least `fib(k + 2) - 1` members.
proof fn lemma_desc_upto_size(nodes: Seq<Node>, members: Set<int>, rank: Seq<nat>, bound: nat, x: int, k: nat)
    requires
        forest_ok(nodes, members, rank, bound),
        degrees_ok(nodes, members),
        members.finite(),
        members.contains(x),
        k <= nodes[x].children@.len(),
    ensures
        desc_upto(nodes, members, rank, bound, nodes[x].children@, k).finite(),
        desc_upto(nodes, members, rank, bound, nodes[x].children@, k).len() + 1 >= fib(k + 2),
        !desc_upto(nodes, members, rank, bound, nodes[x].children@, k).contains(x),
    decreases rank[x], 0int, k,
{
    let ch = nodes[x].children@;
    let u = desc_upto(nodes, members, rank, bound, ch, k);
    lemma_desc_upto_members(nodes, members, rank, bound, ch, k, x);
    vstd::set_lib::lemma_len_subset(u, members);
    if k == 0 {
        assert(fib(0) == 0);
        assert(fib(1) == 1);
        assert(fib(2) == fib(1) + fib(0));
    }
    if k > 0 {
        assert(child_ok(nodes, members, rank, x));
        let c = ch[k - 1] as int;
        assert(members.contains(c) && rank[c] < rank[x] && nodes[c].parent == Some(x as usize));
        lemma_desc_upto_size(nodes, members, rank, bound, x, (k - 1) as nat);
        lemma_fib_size(nodes, members, rank, bound, c);
        let u0 = desc_upto(nodes, members, rank, bound, ch, (k - 1) as nat);
        let dc = desc(nodes, members, rank, bound, c);
        // the subtree of the k-th child is disjoint from those before it
        assert(u0.disjoint(dc)) by {
            assert forall|m: int| !(u0.contains(m) && dc.contains(m)) by {
                if u0.contains(m) && dc.contains(m) {
                    lemma_desc_upto_members(nodes, members, rank, bound, ch, (k - 1) as nat, m);
                    let j = choose|j: int| 0 <= j < k - 1 && #[trigger] desc(nodes, members, rank, bound, ch[j] as int).contains(m);
                    let cj = ch[j] as int;
                    assert(members.contains(cj) && nodes[cj].parent == Some(x as usize));
                    assert(cj != c);
                    lemma_anc_linear(nodes, members, rank, bound, m, cj, c);
                    if is_anc(nodes, rank, bound, cj, c) {
                        lemma_anc_step(nodes, members, rank, bound, cj);
                        lemma_anc_rank(nodes, members, rank, bound, x, c);
                    } else {
                        lemma_anc_step(nodes, members, rank, bound, c);
                        lemma_anc_rank(nodes, members, rank, bound, x, cj);
                    }
                }
            }
        }
        vstd::set_lib::lemma_set_disjoint_lens(u0, dc);
        assert(u == u0.union(dc));
        assert(u.len() == u0.len() + dc.len());
        // the child's subtree is large enough
        let dg = nodes[c].degree;
        assert(degrees_ok(nodes, members));
        assert(nodes[x].children@[k - 1] == ch[k - 1]);
        assert(dg + (if nodes[c].marked { 1int } else { 0int }) >= k - 1);
        lemma_fib_monotone(k, (dg + 2) as nat);
        assert(dc.len() >= fib(k));
        assert(fib(k + 2) == fib(k + 1) + fib(k as nat));
        if dc.contains(x) {
            lemma_anc_rank(nodes, members, rank, bound, x, c);
        }
    }
}

/// A member of degree `d` has at least `fib(d + 2)` members below it.
proof fn lemma_fib_size(nodes: Seq<Node>, members: Set<int>, rank: Seq<nat>, bound: nat, x: int)
    requires
        forest_ok(nodes, members, rank, bound),
        degrees_ok(nodes, members),
        members.finite(),
        members.contains(x),
    ensures
        desc(nodes, members, rank, bound, x).finite(),
        desc(nodes, members, rank, bound, x).len() >= fib((nodes[x].degree + 2) as nat),
    decreases rank[x], 1int, 0nat,
{
    let ch = nodes[x].children@;
    let d = ch.len();
    let dx = desc(nodes, members, rank, bound, x);
    let u = desc_upto(nodes, members, rank, bound, ch, d);
    lemma_desc_upto_size(nodes, members, rank, bound, x, d);
    // the members below x are x and those below its children
    assert(dx =~= u.insert(x)) by {
        assert forall|m: int| dx.contains(m) <==> u.insert(x).contains(m) by {
            lemma_desc_upto_members(nodes, members, rank, bound, ch, d, m);
            if dx.contains(m) && m != x {
                lemma_anc_child(nodes, members, rank, bound, m, x);
                let j = choose|j: int| 0 <= j < ch.len() && is_anc(nodes, rank, bound, m, #[trigger] ch[j] as int);
                assert(desc(nodes, members, rank, bound, ch[j] as int).contains(m));
            }
            if u.contains(m) {
                let j = choose|j: int| 0 <= j < d && #[trigger] desc(nodes, members, rank, bound, ch[j] as int).contains(m);
                assert(child_ok(nodes, members, rank, x));
                let c = ch[j] as int;
                assert(nodes[c].parent == Some(x as usize));
                lemma_anc_parent(nodes, members, rank, bound, m, c);
            }
        }
    }
}

/// In a heap of fewer than `fib(52)` members, every member has degree below 50.
proof fn lemma_degree_below_50(nodes: Seq<Node>, members: Set<int>, rank: Seq<nat>, bound: nat, x: int)
    requires
        forest_ok(nodes, members, rank, bound),
        degrees_ok(nodes, members),
        members.finite(),
        members.contains(x),
        members.len() < fib(52),
    ensures
        nodes[x].degree < 50,
{
    lemma_fib_size(nodes, members, rank, bound, x);
    vstd::set_lib::lemma_len_subset(desc(nodes, members, rank, bound, x), members);
    if nodes[x].degree >= 50 {
        lemma_fib_monotone(52, (nodes[x].degree + 2) as nat);
    }
}

/// The root list holds each parentless member once.
spec fn roots_cover(nodes: Seq<Node>, members: Set<int>, rl: Seq<usize>) -> bool {
    &&& rl.no_duplicates()
    &&& forall|j: int| 0 <= j < rl.len() ==> members.contains(#[trigger] rl[j] as int) && nodes[rl[j] as int].parent is None
    &&& forall|m: int| #[trigger] members.contains(m) && nodes[m].parent is None ==> rl.contains(m as usize)
}

/// The root list holds each parentless member once, starting from one of least key.
spec fn roots_ok(nodes: Seq<Node>, members: Set<int>, rl: Seq<usize>) -> bool {
    &&& roots_cover(nodes, members, rl)
    &&& forall|j: int| 0 <= j < rl.len() ==> nodes[rl[0] as int].key <= nodes[#[trigger] rl[j] as int].key
}

/// The members below slot `k`.
spec fn members_below(members: Set<int>, k: int) -> Set<int> {
    members.filter(|i: int| i < k)
}

proof fn lemma_items_len(nodes: Seq<Node>, members: Set<int>, k: nat)
    requires
        k <= nodes.len(),
        members.finite(),
        forall|i: int| #[trigger] members.contains(i) ==> 0 <= i,
    ensures
        items_upto(nodes, members, k).len() == members_below(members, k as int).len(),
        members_below(members, k as int).finite(),
    decreases k,
{
    if k == 0 {
        assert(members_below(members, 0) =~= Set::empty());
    } else {
        lemma_items_len(nodes, members, (k - 1) as nat);
        let b0 = members_below(members, k - 1);
        let b1 = members_below(members, k as int);
        if members.contains(k - 1) {
            assert(b1 =~= b0.insert(k - 1));
        } else {
            assert(b1 =~= b0);
        }
    }
}

impl FibonacciHeap {
    /// The entries the heap holds, as `(key, node_id)` pairs.
    pub closed spec fn view(&self) -> Multiset<(u32, usize)> {
        items_upto(self.nodes@, self.members@, self.nodes@.len())
    }

    /// The members form heap-ordered trees whose roots make up the root list, with the
    /// degree and mark rules of Fibonacci heaps.
    pub closed spec fn well_formed(&self) -> bool {
        &&& forest_ok(self.nodes@, self.members@, self.rank@, self.bound@)
        &&& self.members@.finite()
        &&& degrees_ok(self.nodes@, self.members@)
        &&& forall|i: int|
            0 <= i < self.nodes@.len() && !(#[trigger] self.members@.contains(i)) ==> self.nodes@[i].parent is None
        &&& roots_ok(self.nodes@, self.members@, self.roots@)
    }

    /// The entry of the node that `handle` designates, while the heap holds it.
    pub closed spec fn entry_of(&self, handle: FibHandle) -> Option<(u32, usize)> {
        if self.members@.contains(handle.index as int) {
            Some((self.nodes@[handle.index as int].key, self.nodes@[handle.index as int].node_id))
        } else {
            None
        }
    }

    /// Whether the heap holds an entry of node `n`.
    pub closed spec fn holds_node(&self, n: usize) -> bool {
        exists|i: int| #[trigger] self.members@.contains(i) && self.nodes@[i].node_id == n
    }

    /// No two roots have the same degree: the root list is consolidated.
    pub closed spec fn root_degrees_distinct(&self) -> bool {
        forall|i: int, j: int|
            0 <= i < j < self.roots@.len() ==> self.nodes@[self.roots@[i] as int].degree
                != self.nodes@[self.roots@[j] as int].degree
    }

    /// The node ids of all entries ever inserted, in order of insertion (entries that
    /// left the heap included).
    pub closed spec fn slot_ids(&self) -> Seq<usize> {
        Seq::new(self.nodes@.len(), |i: int| self.nodes@[i].node_id)
    }

    /// A heap whose inserted node ids are distinct and below `b` holds at most `b` entries.
    pub proof fn lemma_len_below(&self, b: nat)
        requires
            self.well_formed(),
            self.slot_ids().no_duplicates(),
            forall|j: int| 0 <= j < self.slot_ids().len() ==> #[trigger] self.slot_ids()[j] < b,
        ensures
            self@.len() <= b,
    {
        let ids = self.slot_ids();
        let t = ids.map_values(|x: usize| x as int);
        assert(t.no_duplicates()) by {
            assert forall|a: int, c: int| 0 <= a < t.len() && 0 <= c < t.len() && a != c implies t[a] != t[c] by {
                assert(ids[a] != ids[c]);
            }
        }
        t.unique_seq_to_set();
        vstd::set_lib::lemma_int_range(0, b as int);
        assert(t.to_set().subset_of(vstd::set_lib::set_int_range(0, b as int))) by {
            assert forall|x: int| #[trigger] t.to_set().contains(x) implies vstd::set_lib::set_int_range(0, b as int).contains(x) by {
                let j = choose|j: int| 0 <= j < t.len() && t[j] == x;
                assert(ids[j] < b);
            }
        }
        vstd::set_lib::lemma_len_subset(t.to_set(), vstd::set_lib::set_int_range(0, b as int));
        let n = self.nodes@.len() as int;
        vstd::set_lib::lemma_int_range(0, n);
        assert(self.members@.subset_of(vstd::set_lib::set_int_range(0, n)));
        vstd::set_lib::lemma_len_subset(self.members@, vstd::set_lib::set_int_range(0, n));
        lemma_items_len(self.nodes@, self.members@, self.nodes@.len());
        assert(members_below(self.members@, n) =~= self.members@);
    }

    /// The entry of a handle is in the heap, and the heap holds an entry of a node exactly
    /// when some key pairs with it in the entries.
    pub proof fn lemma_entries(&self)
        requires
            self.well_formed(),
        ensures
            forall|h: FibHandle| #[trigger] self.entry_of(h) is Some ==> self@.count(self.entry_of(h)->Some_0) > 0,
            forall|n: usize| #[trigger] self.holds_node(n) <==> exists|k: u32| #[trigger] self@.count((k, n)) > 0,
    {
        assert forall|h: FibHandle| #[trigger] self.entry_of(h) is Some implies self@.count(self.entry_of(h)->Some_0) > 0 by {
            let e = self.entry_of(h)->Some_0;
            lemma_items_count(self.nodes@, self.members@, self.nodes@.len(), e);
            assert(self.members@.contains(h.index as int));
        }
        assert forall|n: usize| #[trigger] self.holds_node(n) <==> exists|k: u32| #[trigger] self@.count((k, n)) > 0 by {
            if self.holds_node(n) {
                let i = choose|i: int| #[trigger] self.members@.contains(i) && self.nodes@[i].node_id == n;
                let k = self.nodes@[i].key;
                lemma_items_count(self.nodes@, self.members@, self.nodes@.len(), (k, n));
                assert(self@.count((k, n)) > 0);
            }
            if exists|k: u32| #[trigger] self@.count((k, n)) > 0 {
                let k = choose|k: u32| #[trigger] self@.count((k, n)) > 0;
                lemma_items_count(self.nodes@, self.members@, self.nodes@.len(), (k, n));
                let i = choose|i: int|
                    0 <= i < self.nodes@.len() && #[trigger] self.members@.contains(i) && (
                    self.nodes@[i].key,
                    self.nodes@[i].node_id,
                ) == (k, n);
                assert(self.members@.contains(i) && self.nodes@[i].node_id == n);
            }
        }
    }

    /// Create an empty Fibonacci heap.
    pub fn new() -> (r: Self)
        ensures
            r.well_formed(),
            r@ =~= Multiset::empty(),
            forall|h: FibHandle| #[trigger] r.entry_of(h) is None,
            forall|n: usize| !(#[trigger] r.holds_node(n)),
            r.slot_ids().len() == 0,
    {
        let r = FibonacciHeap {
            roots: VecDeque::new(),
            nodes: Vec::new(),
            members: Ghost(Set::empty()),
            rank: Ghost(Seq::empty()),
            bound: Ghost(0),
        };
        proof {
            lemma_items_empty(r.nodes@, r.members@, 0);
        }
        r
    }

    /// Add a new single-node tree with the given entry to the arena and the members.
    fn add_node(&mut self, key: u32, node_id: usize) -> (idx: usize)
        requires
            forest_ok(old(self).nodes@, old(self).members@, old(self).rank@, old(self).bound@),
            old(self).members@.finite(),
            degrees_ok(old(self).nodes@, old(self).members@),
            forall|i: int|
                0 <= i < old(self).nodes@.len() && !(#[trigger] old(self).members@.contains(i)) ==> old(self).nodes@[i].parent is None,
        ensures
            forest_ok(final(self).nodes@, final(self).members@, final(self).rank@, final(self).bound@),
            final(self).members@.finite(),
            degrees_ok(final(self).nodes@, final(self).members@),
            forall|i: int|
                0 <= i < final(self).nodes@.len() && !(#[trigger] final(self).members@.contains(i)) ==> final(self).nodes@[i].parent is None,
            idx == old(self).nodes@.len(),
            final(self).nodes@.len() == idx + 1,
            forall|i: int| 0 <= i < idx ==> #[trigger] final(self).nodes@[i] == old(self).nodes@[i],
            final(self).nodes@[idx as int].key == key,
            final(self).nodes@[idx as int].node_id == node_id,
            final(self).nodes@[idx as int].parent is None,
            final(self).nodes@[idx as int].degree == 0,
            final(self).members@ == old(self).members@.insert(idx as int),
            final(self).roots == old(self).roots,
            final(self)@ == old(self)@.insert((key, node_id)),
    {
        let idx = self.nodes.len();
        let ghost n0 = self.nodes@;
        let ghost m0 = self.members@;
        self.nodes.push(Node::new(key, node_id));
        self.rank = Ghost(self.rank@.push(0));
        self.bound = Ghost(self.bound@ + 1);
        self.members = Ghost(self.members@.insert(idx as int));
        proof {
            let n1 = self.nodes@;
            let m1 = self.members@;
            let rk = self.rank@;
            assert(n1.len() == self.nodes.len());
            assert(idx as int == n0.len());
            assert forall|i: int| 0 <= i < rk.len() implies #[trigger] rk[i] < self.bound@ by {}
            assert forall|x: int| #[trigger] m1.contains(x) implies 0 <= x < n1.len() && child_ok(n1, m1, rk, x) by {
                if x != idx {
                    assert(child_ok(n0, m0, old(self).rank@, x));
                    let ch = n1[x].children@;
                    assert(n1[x] == n0[x]);
                    assert forall|j: int| 0 <= j < ch.len() implies {
                        let c = #[trigger] ch[j] as int;
                        &&& m1.contains(c)
                        &&& n1[c].parent == Some(x as usize)
                        &&& n1[x].key <= n1[c].key
                        &&& rk[c] < rk[x]
                    } by {
                        let c = ch[j] as int;
                        assert(m0.contains(c));
                        assert(n1[c] == n0[c]);
                    }
                }
            }
            assert forall|x: int| #[trigger] m1.contains(x) && !Set::<int>::empty().contains(x) && n1[x].parent is Some implies {
                let q = n1[x].parent->Some_0;
                &&& m1.contains(q as int)
                &&& n1[q as int].children@.contains(x as usize)
            } by {
                assert(x != idx);
                assert(n1[x] == n0[x]);
                let q = n0[x].parent->Some_0;
                assert(n1[q as int] == n0[q as int]);
            }
            assert forall|x: int| #[trigger] m1.contains(x) implies {
                &&& n1[x].degree == n1[x].children@.len()
                &&& forall|j: int|
                    0 <= j < n1[x].children@.len() ==> n1[(#[trigger] n1[x].children@[j]) as int].degree + (
                    if n1[n1[x].children@[j] as int].marked {
                        1int
                    } else {
                        0int
                    }) >= j
            } by {
                if x != idx {
                    assert(n1[x] == n0[x]);
                    assert forall|j: int| 0 <= j < n1[x].children@.len() implies n1[(#[trigger] n1[x].children@[j]) as int].degree + (
                    if n1[n1[x].children@[j] as int].marked {
                        1int
                    } else {
                        0int
                    }) >= j by {
                        let c = n0[x].children@[j] as int;
                        assert(child_ok(n0, m0, old(self).rank@, x));
                        assert(m0.contains(c));
                        assert(n1[c] == n0[c]);
                    }
                }
            }
            assert forall|i: int| 0 <= i < n1.len() && !(#[trigger] m1.contains(i)) implies n1[i].parent is None by {
                assert(n1[i] == n0[i]);
            }
            lemma_items_update(n0, m0, n1, m1, idx as int, n0.len());
            assert(items_upto(n1, m1, n1.len()) == items_upto(n1, m1, n0.len()).add(item_at(n1, m1, idx as int)));
            assert(item_at(n1, m1, idx as int) == Multiset::singleton((key, node_id)));
            assert(self@ =~= old(self)@.insert((key, node_id)));
        }
        idx
    }

    /// Add `node` to the root list, left of the first root: last, walking from the first.
    fn add_to_root_list(&mut self, node: usize)
        ensures
            final(self).roots@ == old(self).roots@.push(node),
            final(self).nodes == old(self).nodes,
            final(self).members == old(self).members,
            final(self).rank == old(self).rank,
            final(self).bound == old(self).bound,
    {
        self.roots.push_back(node);
    }

    /// Insert a node with the given key into the root list; returns its handle.
    #[verifier::rlimit(30)]
    pub fn insert(&mut self, key: u32, node_id: usize) -> (handle: FibHandle)
        requires
            old(self).well_formed(),
        ensures
            final(self).well_formed(),
            final(self)@ == old(self)@.insert((key, node_id)),
            old(self).entry_of(handle) is None,
            final(self).entry_of(handle) == Some((key, node_id)),
            forall|h: FibHandle| h != handle ==> #[trigger] final(self).entry_of(h) == old(self).entry_of(h),
            forall|n: usize| #[trigger] final(self).holds_node(n) == (old(self).holds_node(n) || n == node_id),
            final(self).slot_ids() == old(self).slot_ids().push(node_id),
    {
        let ghost n0 = self.nodes@;
        let ghost m0 = self.members@;
        let ghost r0 = self.roots@;
        let idx = self.add_node(key, node_id);
        // Add to the root list, left of the minimum; the new node becomes the minimum
        // when its key is smaller
        if self.roots.len() > 0 {
            let min = self.roots[0];
            if key < self.nodes[min].key {
                self.roots.push_front(idx);
            } else {
                self.add_to_root_list(idx);
            }
        } else {
            self.add_to_root_list(idx);
        }
        let handle = FibHandle { index: idx };
        proof {
            let n1 = self.nodes@;
            let rl = self.roots@;
            assert forall|j: int| 0 <= j < r0.len() implies r0[j] < idx by {
                assert(m0.contains(r0[j] as int));
            }
            assert(rl.no_duplicates()) by {
                assert forall|a: int, b: int| 0 <= a < rl.len() && 0 <= b < rl.len() && a != b implies rl[a] != rl[b] by {
                    if r0.len() > 0 && key < n0[r0[0] as int].key {
                        assert(rl == seq![idx].add(r0));
                        if a > 0 && b > 0 {
                            assert(rl[a] == r0[a - 1] && rl[b] == r0[b - 1]);
                        } else if a > 0 {
                            assert(rl[a] == r0[a - 1]);
                        } else if b > 0 {
                            assert(rl[b] == r0[b - 1]);
                        }
                    } else {
                        assert(rl == r0.push(idx));
                    }
                }
            }
            assert forall|j: int| 0 <= j < rl.len() implies self.members@.contains(#[trigger] rl[j] as int)
                && n1[rl[j] as int].parent is None by {
                if rl[j] != idx {
                    assert(r0.contains(rl[j]));
                    let q = choose|q: int| 0 <= q < r0.len() && r0[q] == rl[j];
                    assert(n1[r0[q] as int] == n0[r0[q] as int]);
                }
            }
            assert forall|m: int| #[trigger] self.members@.contains(m) && n1[m].parent is None implies rl.contains(m as usize) by {
                if m == idx {
                    if r0.len() > 0 && key < n0[r0[0] as int].key {
                        assert(rl[0] == idx);
                    } else {
                        assert(rl[rl.len() - 1] == idx);
                    }
                } else {
                    assert(n1[m] == n0[m]);
                    assert(r0.contains(m as usize));
                    let q = choose|q: int| 0 <= q < r0.len() && r0[q] == m as usize;
                    if r0.len() > 0 && key < n0[r0[0] as int].key {
                        assert(rl[q + 1] == m as usize);
                    } else {
                        assert(rl[q] == m as usize);
                    }
                }
            }
            assert forall|j: int| 0 <= j < rl.len() implies n1[rl[0] as int].key <= n1[#[trigger] rl[j] as int].key by {
                if r0.len() > 0 {
                    assert(n1[r0[0] as int] == n0[r0[0] as int]);
                    if key < n0[r0[0] as int].key {
                        if j > 0 {
                            assert(rl[j] == r0[j - 1]);
                            assert(n1[r0[j - 1] as int] == n0[r0[j - 1] as int]);
                        }
                    } else {
                        if j < r0.len() {
                            assert(rl[j] == r0[j]);
                            assert(n1[r0[j] as int] == n0[r0[j] as int]);
                        }
                    }
                }
            }
            assert forall|h: FibHandle| h != handle implies #[trigger] self.entry_of(h) == old(self).entry_of(h) by {
                h.lemma_same_index(handle);
                if h.index < n0.len() {
                    assert(n1[h.index as int] == n0[h.index as int]);
                }
            }
            assert forall|n: usize| #[trigger] self.holds_node(n) == (old(self).holds_node(n) || n == node_id) by {
                if self.holds_node(n) {
                    let i = choose|i: int| #[trigger] self.members@.contains(i) && self.nodes@[i].node_id == n;
                    if i != idx {
                        assert(n1[i] == n0[i]);
                        assert(m0.contains(i) && n0[i].node_id == n);
                    }
                }
                if old(self).holds_node(n) {
                    let i = choose|i: int| #[trigger] m0.contains(i) && n0[i].node_id == n;
                    assert(n1[i] == n0[i]);
                    assert(self.members@.contains(i) && self.nodes@[i].node_id == n);
                }
                if n == node_id {
                    assert(self.members@.contains(idx as int) && self.nodes@[idx as int].node_id == n);
                }
            }
        }
        handle
    }

    /// The key of the entry that `handle` designates.
    pub(crate) fn key_of(&self, handle: &FibHandle) -> (k: u32)
        requires
            self.well_formed(),
            self.entry_of(*handle) is Some,
        ensures
            k == self.entry_of(*handle)->Some_0.0,
    {
        proof {
            assert(self.members@.contains(handle.index as int));
        }
        self.nodes[handle.index].key
    }

    /// Check if the heap is empty.
    pub fn is_empty(&self) -> (r: bool)
        requires
            self.well_formed(),
        ensures
            r == (self@.len() == 0),
    {
        proof {
            if self.roots@.len() == 0 {
                assert forall|i: int| 0 <= i < self.nodes@.len() implies !(#[trigger] self.members@.contains(i)) by {
                    if self.members@.contains(i) {
                        lemma_top_below(self.nodes@, self.members@, self.rank@, self.bound@, i);
                        let t = choose|t: int|
                            #[trigger] self.members@.contains(t) && self.nodes@[t].parent is None && self.nodes@[t].key
                                <= self.nodes@[i].key;
                        assert(self.roots@.contains(t as usize));
                    }
                }
                lemma_items_empty(self.nodes@, self.members@, self.nodes@.len());
            } else {
                let root = self.roots@[0];
                let x = (self.nodes@[root as int].key, self.nodes@[root as int].node_id);
                lemma_items_count(self.nodes@, self.members@, self.nodes@.len(), x);
                assert(self@.count(x) > 0);
            }
        }
        self.roots.len() == 0
    }

    /// Make root `y` the last child of root `x` (whose degree equals that of `y`).
    fn link(&mut self, y: usize, x: usize)
        requires
            forest_ok(old(self).nodes@, old(self).members@, old(self).rank@, old(self).bound@),
            degrees_ok(old(self).nodes@, old(self).members@),
            old(self).members@.contains(x as int),
            old(self).members@.contains(y as int),
            x != y,
            old(self).nodes@[x as int].parent is None,
            old(self).nodes@[y as int].parent is None,
            old(self).nodes@[x as int].key <= old(self).nodes@[y as int].key,
            old(self).nodes@[x as int].degree == old(self).nodes@[y as int].degree,
            old(self).nodes@[x as int].degree < 50,
        ensures
            forest_ok(final(self).nodes@, final(self).members@, final(self).rank@, final(self).bound@),
            degrees_ok(final(self).nodes@, final(self).members@),
            same_entries(old(self).nodes@, old(self).members@, final(self).nodes@, final(self).members@),
            final(self).members@ == old(self).members@,
            final(self).roots == old(self).roots,
            final(self).nodes@[y as int].parent == Some(x),
            final(self).nodes@[x as int].parent is None,
            final(self).nodes@[x as int].degree == old(self).nodes@[x as int].degree + 1,
            forall|i: int|
                0 <= i < final(self).nodes@.len() && i != x && i != y ==> #[trigger] final(self).nodes@[i] == old(self).nodes@[i],
    {
        let ghost n0 = self.nodes@;
        let ghost rank0 = self.rank@;
        let ghost m = self.members@;
        proof {
            assert(child_ok(n0, m, rank0, x as int));
            assert(!n0[x as int].children@.contains(y)) by {
                if n0[x as int].children@.contains(y) {
                    let j = choose|j: int| 0 <= j < n0[x as int].children@.len() && n0[x as int].children@[j] == y;
                    assert(n0[y as int].parent == Some(x));
                }
            }
        }
        // Make y a child of x
        self.nodes[y].parent = Some(x);
        self.nodes[x].children.push(y);
        self.nodes[x].degree = self.nodes[x].degree + 1;
        self.nodes[y].marked = false;
        let ghost new_rank: nat = if rank0[x as int] > rank0[y as int] {
            rank0[x as int]
        } else {
            rank0[y as int] + 1
        };
        self.rank = Ghost(rank0.update(x as int, new_rank));
        self.bound = Ghost(if new_rank + 1 > self.bound@ {
            new_rank + 1
        } else {
            self.bound@
        });
        proof {
            let n1 = self.nodes@;
            let rk = self.rank@;
            assert forall|i: int| 0 <= i < rk.len() implies #[trigger] rk[i] < self.bound@ by {}
            assert forall|z: int| #[trigger] m.contains(z) implies 0 <= z < n1.len() && child_ok(n1, m, rk, z) by {
                assert(child_ok(n0, m, rank0, z));
                let ch = n1[z].children@;
                if z == x {
                    assert(ch == n0[x as int].children@.push(y));
                    assert forall|j: int| 0 <= j < ch.len() implies {
                        let c = #[trigger] ch[j] as int;
                        &&& m.contains(c)
                        &&& n1[c].parent == Some(z as usize)
                        &&& n1[z].key <= n1[c].key
                        &&& rk[c] < rk[z]
                    } by {
                        if j < ch.len() - 1 {
                            let c = n0[x as int].children@[j] as int;
                            assert(ch[j] as int == c);
                            assert(c != y);
                        }
                    }
                } else {
                    assert(ch == n0[z].children@);
                    assert forall|j: int| 0 <= j < ch.len() implies {
                        let c = #[trigger] ch[j] as int;
                        &&& m.contains(c)
                        &&& n1[c].parent == Some(z as usize)
                        &&& n1[z].key <= n1[c].key
                        &&& rk[c] < rk[z]
                    } by {
                        let c = ch[j] as int;
                        assert(n0[c].parent == Some(z as usize));
                        assert(c != y);
                        assert(c != x);
                    }
                }
            }
            assert forall|z: int| #[trigger] m.contains(z) && !Set::<int>::empty().contains(z) && n1[z].parent is Some implies {
                let p = n1[z].parent->Some_0;
                &&& m.contains(p as int)
                &&& n1[p as int].children@.contains(z as usize)
            } by {
                if z == y {
                    assert(n1[x as int].children@.last() == y);
                } else {
                    let p = n0[z].parent->Some_0;
                    assert(n0[p as int].children@.contains(z as usize));
                    if p == x {
                        let j = choose|j: int| 0 <= j < n0[x as int].children@.len() && n0[x as int].children@[j] == z as usize;
                        assert(n1[x as int].children@[j] == z as usize);
                    }
                }
            }
            assert forall|z: int| #[trigger] m.contains(z) implies {
                &&& n1[z].degree == n1[z].children@.len()
                &&& forall|j: int|
                    0 <= j < n1[z].children@.len() ==> n1[(#[trigger] n1[z].children@[j]) as int].degree + (
                    if n1[n1[z].children@[j] as int].marked {
                        1int
                    } else {
                        0int
                    }) >= j
            } by {
                assert(child_ok(n0, m, rank0, z));
                assert forall|j: int| 0 <= j < n1[z].children@.len() implies n1[(#[trigger] n1[z].children@[j]) as int].degree + (
                if n1[n1[z].children@[j] as int].marked {
                    1int
                } else {
                    0int
                }) >= j by {
                    let c = n1[z].children@[j] as int;
                    if z == x && j == n0[x as int].children@.len() {
                        assert(c == y);
                    } else {
                        assert(c == n0[z].children@[j] as int);
                        assert(n0[c].parent == Some(z as usize));
                        assert(c != y && c != x);
                    }
                }
            }
        }
    }

    /// Link roots of equal degree until the degrees of the roots differ, then rebuild the
    /// root list from the degree table, starting from a root of least key.
    #[verifier::rlimit(60)]
    fn consolidate(&mut self)
        requires
            forest_ok(old(self).nodes@, old(self).members@, old(self).rank@, old(self).bound@),
            old(self).members@.finite(),
            degrees_ok(old(self).nodes@, old(self).members@),
            forall|i: int|
                0 <= i < old(self).nodes@.len() && !(#[trigger] old(self).members@.contains(i)) ==> old(self).nodes@[i].parent is None,
            roots_cover(old(self).nodes@, old(self).members@, old(self).roots@),
            old(self).members@.len() < fib(52),
        ensures
            final(self).well_formed(),
            same_entries(old(self).nodes@, old(self).members@, final(self).nodes@, final(self).members@),
            final(self).members@ == old(self).members@,
            forall|i: int, j: int|
                0 <= i < j < final(self).roots@.len() ==> final(self).nodes@[final(self).roots@[i] as int].degree
                    != final(self).nodes@[final(self).roots@[j] as int].degree,
    {
        let ghost n0 = self.nodes@;
        let ghost m0 = self.members@;
        let max_degree: usize = 50;
        let mut degree_table: Vec<Option<usize>> = Vec::new();
        let mut t: usize = 0;
        while t < max_degree
            invariant
                t <= max_degree,
                max_degree == 50,
                degree_table@.len() == t,
                forall|q: int| 0 <= q < t ==> (#[trigger] degree_table@[q]) is None,
            decreases max_degree - t,
        {
            degree_table.push(None);
            t += 1;
        }
        // Collect all root nodes
        let ghost rl0 = self.roots@;
        let mut roots: Vec<usize> = Vec::new();
        while self.roots.len() > 0
            invariant
                self.nodes@ == n0,
                self.members@ == m0,
                self.rank == old(self).rank,
                self.bound == old(self).bound,
                rl0 == old(self).roots@,
                roots@ + self.roots@ == rl0,
            decreases self.roots@.len(),
        {
            let ghost before = self.roots@;
            let r = self.roots.pop_front().unwrap();
            roots.push(r);
            proof {
                assert(roots@ + self.roots@ =~= rl0);
            }
        }
        proof {
            assert(roots@ =~= rl0);
            assert(rl0.subrange(0, rl0.len() as int) =~= rl0);
            assert forall|z: int| #[trigger] m0.contains(z) implies (self.nodes@[z].parent is None <==> (exists|q: int|
                0 <= q < 50 && #[trigger] degree_table@[q] == Some(z as usize)) || rl0.subrange(0, rl0.len() as int).contains(
                z as usize,
            )) by {
                if rl0.contains(z as usize) {
                    let j = choose|j: int| 0 <= j < rl0.len() && rl0[j] == z as usize;
                    assert(m0.contains(rl0[j] as int));
                }
            }
        }
        let mut i: usize = 0;
        while i < roots.len()
            invariant
                forest_ok(self.nodes@, self.members@, self.rank@, self.bound@),
                degrees_ok(self.nodes@, self.members@),
                self.members@ == m0,
                m0.finite(),
                m0.len() < fib(52),
                same_entries(n0, m0, self.nodes@, self.members@),
                forall|z: int| 0 <= z < n0.len() && !(#[trigger] m0.contains(z)) ==> self.nodes@[z] == n0[z],
                forall|z: int| 0 <= z < n0.len() && !(#[trigger] m0.contains(z)) ==> n0[z].parent is None,
                self.roots@.len() == 0,
                max_degree == 50,
                degree_table@.len() == 50,
                roots@ == rl0,
                rl0.no_duplicates(),
                forall|j: int| 0 <= j < rl0.len() ==> m0.contains(#[trigger] rl0[j] as int),
                i <= roots@.len(),
                forall|q: int|
                    0 <= q < 50 && (#[trigger] degree_table@[q]) is Some ==> {
                        let t = degree_table@[q]->Some_0;
                        &&& m0.contains(t as int)
                        &&& self.nodes@[t as int].parent is None
                        &&& self.nodes@[t as int].degree == q
                        &&& !rl0.subrange(i as int, rl0.len() as int).contains(t)
                    },
                forall|z: int|
                    #[trigger] m0.contains(z) ==> (self.nodes@[z].parent is None <==> (exists|q: int|
                        0 <= q < 50 && #[trigger] degree_table@[q] == Some(z as usize)) || rl0.subrange(
                        i as int,
                        rl0.len() as int,
                    ).contains(z as usize)),
                forall|j: int|
                    i <= j < rl0.len() ==> self.nodes@[#[trigger] rl0[j] as int].parent is None,
            decreases roots@.len() - i,
        {
            let w = roots[i];
            let mut x = w;
            let ghost rest = rl0.subrange(i + 1, rl0.len() as int);
            proof {
                assert(rl0.subrange(i as int, rl0.len() as int) =~= seq![w].add(rest));
                assert(!rest.contains(w)) by {
                    if rest.contains(w) {
                        let j = choose|j: int| 0 <= j < rest.len() && rest[j] == w;
                        assert(rl0[i + 1 + j] == w);
                        assert(rl0[i as int] == w);
                    }
                }
                lemma_degree_below_50(self.nodes@, m0, self.rank@, self.bound@, x as int);
                let sub = rl0.subrange(i as int, rl0.len() as int);
                assert(sub[0] == w);
                assert(sub.contains(w));
                assert forall|q: int| 0 <= q < 50 implies #[trigger] degree_table@[q] != Some(w) by {}
                assert forall|q: int| 0 <= q < 50 && (#[trigger] degree_table@[q]) is Some implies !rest.contains(
                    degree_table@[q]->Some_0,
                ) by {
                    let t = degree_table@[q]->Some_0;
                    if rest.contains(t) {
                        let j = choose|j: int| 0 <= j < rest.len() && rest[j] == t;
                        assert(sub[j + 1] == t);
                    }
                }
                assert forall|j: int| 0 <= j < rest.len() implies self.nodes@[#[trigger] rest[j] as int].parent is None
                    && m0.contains(rest[j] as int) by {
                    assert(rest[j] == rl0[i + 1 + j]);
                }
                assert forall|z: int| #[trigger] m0.contains(z) implies (self.nodes@[z].parent is None <==> ((exists|q: int|
                    0 <= q < 50 && #[trigger] degree_table@[q] == Some(z as usize)) || z == w || rest.contains(
                    z as usize,
                ))) by {
                    if sub.contains(z as usize) {
                        let j = choose|j: int| 0 <= j < sub.len() && sub[j] == z as usize;
                        if j > 0 {
                            assert(rest[j - 1] == z as usize);
                        }
                    }
                    if rest.contains(z as usize) {
                        let j = choose|j: int| 0 <= j < rest.len() && rest[j] == z as usize;
                        assert(sub[j + 1] == z as usize);
                    }
                }
            }
            let mut d = self.nodes[x].degree;
            while d < max_degree && degree_table[d].is_some()
                invariant
                    forest_ok(self.nodes@, self.members@, self.rank@, self.bound@),
                    degrees_ok(self.nodes@, self.members@),
                    self.members@ == m0,
                    m0.finite(),
                    m0.len() < fib(52),
                    same_entries(n0, m0, self.nodes@, self.members@),
                    forall|z: int| 0 <= z < n0.len() && !(#[trigger] m0.contains(z)) ==> self.nodes@[z] == n0[z],
                    forall|z: int| 0 <= z < n0.len() && !(#[trigger] m0.contains(z)) ==> n0[z].parent is None,
                    self.roots@.len() == 0,
                    max_degree == 50,
                    degree_table@.len() == 50,
                    m0.contains(x as int),
                    self.nodes@[x as int].parent is None,
                    self.nodes@[x as int].degree == d,
                    d < 50,
                    !rest.contains(x),
                    rest == rl0.subrange(i + 1, rl0.len() as int),
                    forall|q: int| 0 <= q < 50 ==> #[trigger] degree_table@[q] != Some(x),
                    forall|q: int|
                        0 <= q < 50 && (#[trigger] degree_table@[q]) is Some ==> {
                            let t = degree_table@[q]->Some_0;
                            &&& m0.contains(t as int)
                            &&& self.nodes@[t as int].parent is None
                            &&& self.nodes@[t as int].degree == q
                            &&& !rest.contains(t)
                        },
                    forall|z: int|
                        #[trigger] m0.contains(z) ==> (self.nodes@[z].parent is None <==> ((exists|q: int|
                            0 <= q < 50 && #[trigger] degree_table@[q] == Some(z as usize)) || z == x || rest.contains(
                            z as usize,
                        ))),
                    forall|j: int|
                        0 <= j < rest.len() ==> self.nodes@[#[trigger] rest[j] as int].parent is None && m0.contains(
                            rest[j] as int,
                        ),
                decreases 50 - d,
            {
                let ghost t0 = degree_table@;
                let ghost x0 = x;
                let mut y = degree_table[d].unwrap();
                let ghost y0 = y;
                let ghost d0 = d;
                degree_table.set(d, None);
                if self.nodes[x].key > self.nodes[y].key {
                    let tmp = x;
                    x = y;
                    y = tmp;
                }
                let ghost n1 = self.nodes@;
                self.link(y, x);
                d = self.nodes[x].degree;
                proof {
                    lemma_degree_below_50(self.nodes@, m0, self.rank@, self.bound@, x as int);
                    assert forall|q: int|
                        0 <= q < 50 && (#[trigger] degree_table@[q]) is Some implies {
                            let t = degree_table@[q]->Some_0;
                            &&& m0.contains(t as int)
                            &&& self.nodes@[t as int].parent is None
                            &&& self.nodes@[t as int].degree == q
                            &&& !rest.contains(t)
                        } by {
                        let t = degree_table@[q]->Some_0;
                        assert(t != x && t != y);
                        assert(self.nodes@[t as int] == n1[t as int]);
                    }
                    assert forall|z: int| #[trigger] m0.contains(z) implies (self.nodes@[z].parent is None <==> ((exists|q: int|
                        0 <= q < 50 && #[trigger] degree_table@[q] == Some(z as usize)) || z == x || rest.contains(
                        z as usize,
                    ))) by {
                        if z != x && z != y {
                            assert(self.nodes@[z] == n1[z]);
                            if exists|q: int| 0 <= q < 50 && #[trigger] t0[q] == Some(z as usize) {
                                let q = choose|q: int| 0 <= q < 50 && #[trigger] t0[q] == Some(z as usize);
                                assert(t0[d0 as int] == Some(y0));
                                assert(q != d0);
                                assert(degree_table@[q] == Some(z as usize));
                            }
                            if exists|q: int| 0 <= q < 50 && #[trigger] degree_table@[q] == Some(z as usize) {
                                let q = choose|q: int| 0 <= q < 50 && #[trigger] degree_table@[q] == Some(z as usize);
                                assert(t0[q] == Some(z as usize));
                            }
                        }
                        if z == y {
                            assert forall|q: int| 0 <= q < 50 implies #[trigger] degree_table@[q] != Some(z as usize) by {
                                if q != d && degree_table@[q] == Some(z as usize) {
                                    assert(t0[q] == Some(z as usize));
                                    if z == x0 {
                                        assert(false);
                                    } else {
                                        assert(t0[d as int] == Some(z as usize));
                                        assert(n1[z].degree == q);
                                    }
                                }
                            }
                            assert(!rest.contains(z as usize));
                        }
                    }
                    assert forall|j: int| 0 <= j < rest.len() implies self.nodes@[#[trigger] rest[j] as int].parent is None
                        && m0.contains(rest[j] as int) by {
                        assert(rest[j] != x && rest[j] != y);
                        assert(self.nodes@[rest[j] as int] == n1[rest[j] as int]);
                    }
                    assert forall|q: int| 0 <= q < 50 implies #[trigger] degree_table@[q] != Some(x) by {
                        if degree_table@[q] == Some(x) {
                            assert(t0[q] == Some(x));
                            if x != x0 {
                                assert(t0[d as int] == Some(x));
                                assert(q == d);
                            }
                        }
                    }
                    assert forall|z: int| 0 <= z < n0.len() && !(#[trigger] m0.contains(z)) implies self.nodes@[z] == n0[z] by {
                        assert(z != x && z != y);
                    }
                }
            }
            proof {
                if d >= max_degree {
                    lemma_degree_below_50(self.nodes@, m0, self.rank@, self.bound@, x as int);
                }
            }
            let ghost t1 = degree_table@;
            if d < max_degree {
                degree_table.set(d, Some(x));
            }
            i += 1;
            proof {
                assert(t1[d as int] is None);
                assert(rest == rl0.subrange(i as int, rl0.len() as int));
                assert forall|z: int| #[trigger] m0.contains(z) implies (self.nodes@[z].parent is None <==> (exists|q: int|
                    0 <= q < 50 && #[trigger] degree_table@[q] == Some(z as usize)) || rest.contains(z as usize)) by {
                    if z == x {
                        assert(degree_table@[d as int] == Some(z as usize));
                    } else {
                        if exists|q: int| 0 <= q < 50 && #[trigger] t1[q] == Some(z as usize) {
                            let q = choose|q: int| 0 <= q < 50 && #[trigger] t1[q] == Some(z as usize);
                            assert(degree_table@[q] == Some(z as usize));
                        }
                        if exists|q: int| 0 <= q < 50 && #[trigger] degree_table@[q] == Some(z as usize) {
                            let q = choose|q: int| 0 <= q < 50 && #[trigger] degree_table@[q] == Some(z as usize);
                            assert(q != d);
                            assert(t1[q] == Some(z as usize));
                        }
                    }
                }
                assert forall|j: int| i <= j < rl0.len() implies self.nodes@[#[trigger] rl0[j] as int].parent is None by {
                    assert(rl0[j] == rest[j - i]);
                }
                assert forall|q: int|
                    0 <= q < 50 && (#[trigger] degree_table@[q]) is Some implies {
                        let t = degree_table@[q]->Some_0;
                        &&& m0.contains(t as int)
                        &&& self.nodes@[t as int].parent is None
                        &&& self.nodes@[t as int].degree == q
                        &&& !rl0.subrange(i as int, rl0.len() as int).contains(t)
                    } by {}
            }
        }
        // Rebuild the root list from the degree table
        let mut k: usize = 0;
        while k < max_degree
            invariant
                forest_ok(self.nodes@, self.members@, self.rank@, self.bound@),
                degrees_ok(self.nodes@, self.members@),
                self.members@ == m0,
                m0.finite(),
                same_entries(n0, m0, self.nodes@, self.members@),
                forall|z: int| 0 <= z < n0.len() && !(#[trigger] m0.contains(z)) ==> self.nodes@[z] == n0[z],
                forall|z: int| 0 <= z < n0.len() && !(#[trigger] m0.contains(z)) ==> n0[z].parent is None,
                max_degree == 50,
                degree_table@.len() == 50,
                k <= 50,
                forall|q: int|
                    0 <= q < 50 && (#[trigger] degree_table@[q]) is Some ==> {
                        let t = degree_table@[q]->Some_0;
                        &&& m0.contains(t as int)
                        &&& self.nodes@[t as int].parent is None
                        &&& self.nodes@[t as int].degree == q
                    },
                forall|z: int|
                    #[trigger] m0.contains(z) ==> (self.nodes@[z].parent is None <==> (exists|q: int|
                        0 <= q < 50 && #[trigger] degree_table@[q] == Some(z as usize))),
                self.roots@.no_duplicates(),
                forall|j: int|
                    0 <= j < self.roots@.len() ==> exists|q: int|
                        0 <= q < k && #[trigger] degree_table@[q] == Some(#[trigger] self.roots@[j]),
                forall|q: int|
                    0 <= q < k && (#[trigger] degree_table@[q]) is Some ==> self.roots@.contains(degree_table@[q]->Some_0),
                forall|j: int|
                    0 <= j < self.roots@.len() ==> self.nodes@[self.roots@[0] as int].key <= self.nodes@[#[trigger] self.roots@[j] as int].key,
            decreases 50 - k,
        {
            let ghost r0 = self.roots@;
            match degree_table[k] {
                Some(node) => {
                    proof {
                        assert(!r0.contains(node)) by {
                            if r0.contains(node) {
                                let j = choose|j: int| 0 <= j < r0.len() && r0[j] == node;
                                let q = choose|q: int| 0 <= q < k && #[trigger] degree_table@[q] == Some(r0[j]);
                                assert(self.nodes@[node as int].degree == q);
                            }
                        }
                    }
                    if self.roots.len() > 0 {
                        let min = self.roots[0];
                        if self.nodes[node].key < self.nodes[min].key {
                            self.roots.push_front(node);
                        } else {
                            self.add_to_root_list(node);
                        }
                    } else {
                        self.add_to_root_list(node);
                    }
                    proof {
                        let rl = self.roots@;
                        let front = r0.len() > 0 && self.nodes@[node as int].key < self.nodes@[r0[0] as int].key;
                        if front {
                            assert(rl == seq![node].add(r0));
                        } else {
                            assert(rl == r0.push(node));
                        }
                        assert(rl.no_duplicates()) by {
                            assert forall|a: int, b: int| 0 <= a < rl.len() && 0 <= b < rl.len() && a != b implies rl[a] != rl[b] by {
                                if front {
                                    if a > 0 && b > 0 {
                                        assert(rl[a] == r0[a - 1] && rl[b] == r0[b - 1]);
                                    } else if a > 0 {
                                        assert(rl[a] == r0[a - 1]);
                                    } else if b > 0 {
                                        assert(rl[b] == r0[b - 1]);
                                    }
                                }
                            }
                        }
                        assert forall|j: int| 0 <= j < rl.len() implies exists|q: int|
                            0 <= q < k + 1 && #[trigger] degree_table@[q] == Some(#[trigger] rl[j]) by {
                            if rl[j] == node {
                                assert(degree_table@[k as int] == Some(rl[j]));
                            } else {
                                let j0 = if front { j - 1 } else { j };
                                assert(rl[j] == r0[j0]);
                                let q = choose|q: int| 0 <= q < k && #[trigger] degree_table@[q] == Some(r0[j0]);
                                assert(degree_table@[q] == Some(rl[j]));
                            }
                        }
                        assert forall|q: int| 0 <= q < k + 1 && (#[trigger] degree_table@[q]) is Some implies rl.contains(
                            degree_table@[q]->Some_0,
                        ) by {
                            if q == k {
                                if front {
                                    assert(rl[0] == node);
                                } else {
                                    assert(rl[rl.len() - 1] == node);
                                }
                            } else {
                                let t = degree_table@[q]->Some_0;
                                let j = choose|j: int| 0 <= j < r0.len() && r0[j] == t;
                                if front {
                                    assert(rl[j + 1] == t);
                                } else {
                                    assert(rl[j] == t);
                                }
                            }
                        }
                        assert forall|j: int| 0 <= j < rl.len() implies self.nodes@[rl[0] as int].key <= self.nodes@[#[trigger] rl[j] as int].key by {
                            if front {
                                if j > 0 {
                                    assert(rl[j] == r0[j - 1]);
                                }
                            } else if r0.len() > 0 {
                                if j < r0.len() {
                                    assert(rl[j] == r0[j]);
                                }
                            }
                        }
                    }
                },
                None => {},
            }
            k += 1;
        }
        proof {
            let rl = self.roots@;
            assert forall|j: int| 0 <= j < rl.len() implies m0.contains(#[trigger] rl[j] as int) && self.nodes@[rl[j] as int].parent is None by {
                let q = choose|q: int| 0 <= q < 50 && #[trigger] degree_table@[q] == Some(rl[j]);
            }
            assert forall|z: int| #[trigger] m0.contains(z) && self.nodes@[z].parent is None implies rl.contains(z as usize) by {
                let q = choose|q: int| 0 <= q < 50 && #[trigger] degree_table@[q] == Some(z as usize);
            }
            assert forall|z: int| 0 <= z < self.nodes@.len() && !(#[trigger] self.members@.contains(z)) implies self.nodes@[z].parent is None by {
                assert(self.nodes@[z] == n0[z]);
            }
            // Each root sits in the slot of its degree, one root per slot
            assert forall|i: int, j: int| 0 <= i < j < rl.len() implies self.nodes@[rl[i] as int].degree
                != self.nodes@[rl[j] as int].degree by {
                let qi = choose|q: int| 0 <= q < 50 && #[trigger] degree_table@[q] == Some(rl[i]);
                let qj = choose|q: int| 0 <= q < 50 && #[trigger] degree_table@[q] == Some(rl[j]);
                assert(rl[i] != rl[j]);
            }
        }
    }

    /// Remove and return an entry of least key, or `None` when the heap is empty.
    ///
    /// The minimum leaves the root list, the root after it becomes the provisional
    /// minimum, the children of the minimum join the root list, each left of the
    /// provisional minimum and taking its place when lighter, and the root list is
    /// consolidated.  The heap may hold at most `fib(52)` entries, which keeps every
    /// degree below the size of the degree table.
    pub fn extract_min(&mut self) -> (r: Option<(u32, usize)>)
        requires
            old(self).well_formed(),
            old(self)@.len() <= 32_951_280_099,
        ensures
            final(self).well_formed(),
            forall|n: usize| #[trigger] final(self).holds_node(n) ==> old(self).holds_node(n),
            final(self).slot_ids() == old(self).slot_ids(),
            final(self).root_degrees_distinct(),
            match r {
                None => {
                    &&& old(self)@.len() == 0
                    &&& final(self)@ == old(self)@
                    &&& forall|h: FibHandle| #[trigger] final(self).entry_of(h) == old(self).entry_of(h)
                },
                Some(x) => {
                    &&& old(self)@.count(x) > 0
                    &&& final(self)@ == old(self)@.remove(x)
                    &&& forall|y: (u32, usize)| #[trigger] old(self)@.count(y) > 0 ==> x.0 <= y.0
                    &&& exists|hx: FibHandle|
                        {
                            &&& #[trigger] old(self).entry_of(hx) == Some(x)
                            &&& final(self).entry_of(hx) is None
                            &&& forall|h: FibHandle|
                                h != hx ==> #[trigger] final(self).entry_of(h) == old(self).entry_of(h)
                        }
                },
            },
    {
        self.extract_min_core(true)
    }

    /// `extract_min`, where the children of the minimum join the end of the root list;
    /// with `promote_lighter`, a child lighter than the first root goes first instead.
    #[verifier::rlimit(60)]
    pub(crate) fn extract_min_core(&mut self, promote_lighter: bool) -> (r: Option<(u32, usize)>)
        requires
            old(self).well_formed(),
            old(self)@.len() <= 32_951_280_099,
        ensures
            final(self).well_formed(),
            forall|n: usize| #[trigger] final(self).holds_node(n) ==> old(self).holds_node(n),
            final(self).slot_ids() == old(self).slot_ids(),
            final(self).root_degrees_distinct(),
            match r {
                None => {
                    &&& old(self)@.len() == 0
                    &&& final(self)@ == old(self)@
                    &&& forall|h: FibHandle| #[trigger] final(self).entry_of(h) == old(self).entry_of(h)
                },
                Some(x) => {
                    &&& old(self)@.count(x) > 0
                    &&& final(self)@ == old(self)@.remove(x)
                    &&& forall|y: (u32, usize)| #[trigger] old(self)@.count(y) > 0 ==> x.0 <= y.0
                    &&& exists|hx: FibHandle|
                        {
                            &&& #[trigger] old(self).entry_of(hx) == Some(x)
                            &&& final(self).entry_of(hx) is None
                            &&& forall|h: FibHandle|
                                h != hx ==> #[trigger] final(self).entry_of(h) == old(self).entry_of(h)
                        }
                },
            },
    {
        let ghost n0 = self.nodes@;
        let ghost m0 = self.members@;
        let ghost r0 = self.roots@;
        if self.roots.len() == 0 {
            proof {
                assert forall|m: int| 0 <= m < n0.len() implies !(#[trigger] m0.contains(m)) by {
                    if m0.contains(m) {
                        lemma_top_below(n0, m0, self.rank@, self.bound@, m);
                        let t = choose|t: int| #[trigger] m0.contains(t) && n0[t].parent is None && n0[t].key <= n0[m].key;
                        assert(r0.contains(t as usize));
                    }
                }
                lemma_items_empty(n0, m0, n0.len());
            }
            return None;
        }
        let z = self.roots.pop_front().unwrap();
        let result = (self.nodes[z].key, self.nodes[z].node_id);
        proof {
            assert(z == r0[0]);
            assert(self.roots@ == r0.subrange(1, r0.len() as int));
            // The minimum is no heavier than any member
            assert forall|m: int| #[trigger] m0.contains(m) implies n0[z as int].key <= n0[m].key by {
                lemma_top_below(n0, m0, self.rank@, self.bound@, m);
                let t = choose|t: int| #[trigger] m0.contains(t) && n0[t].parent is None && n0[t].key <= n0[m].key;
                assert(r0.contains(t as usize));
                let j = choose|j: int| 0 <= j < r0.len() && r0[j] == t as usize;
                assert(n0[r0[0] as int].key <= n0[r0[j] as int].key);
            }
            assert(child_ok(n0, m0, self.rank@, z as int));
        }
        // Take the children of the minimum out of it
        let mut children: Vec<usize> = Vec::new();
        std::mem::swap(&mut self.nodes[z].children, &mut children);
        self.members = Ghost(self.members@.remove(z as int));
        let ghost m1 = self.members@;
        let ghost rest = r0.subrange(1, r0.len() as int);
        proof {
            assert(children@ == n0[z as int].children@);
            assert forall|j: int| 0 <= j < rest.len() implies #[trigger] rest[j] != z && m0.contains(rest[j] as int)
                && n0[rest[j] as int].parent is None by {
                assert(rest[j] == r0[j + 1]);
            }
            assert forall|x: usize| #[trigger] self.roots@.contains(x) <==> (rest.contains(x)
                || children@.subrange(0, 0).contains(x)) by {}
        }
        // The children join the root list, each left of the provisional minimum,
        // taking its place when lighter
        let mut k: usize = 0;
        while k < children.len()
            invariant
                k <= children@.len(),
                children@ == n0[z as int].children@,
                n0 == old(self).nodes@,
                m0 == old(self).members@,
                r0 == old(self).roots@,
                m1 == m0.remove(z as int),
                self.members@ == m1,
                self.rank == old(self).rank,
                self.bound == old(self).bound,
                forest_ok(n0, m0, old(self).rank@, old(self).bound@),
                degrees_ok(n0, m0),
                m0.contains(z as int),
                n0[z as int].parent is None,
                child_ok(n0, m0, old(self).rank@, z as int),
                rest == r0.subrange(1, r0.len() as int),
                forall|j: int| 0 <= j < rest.len() ==> #[trigger] rest[j] != z && m0.contains(rest[j] as int)
                    && n0[rest[j] as int].parent is None,
                self.nodes@.len() == n0.len(),
                self.nodes@[z as int].children@.len() == 0,
                forall|i: int|
                    0 <= i < n0.len() ==> (#[trigger] self.nodes@[i]).key == n0[i].key && self.nodes@[i].node_id
                        == n0[i].node_id && self.nodes@[i].degree == n0[i].degree && self.nodes@[i].marked == n0[i].marked,
                forall|i: int| 0 <= i < n0.len() && i != z ==> #[trigger] self.nodes@[i].children == n0[i].children,
                forall|i: int|
                    0 <= i < n0.len() ==> #[trigger] self.nodes@[i].parent == if children@.subrange(0, k as int).contains(
                        i as usize,
                    ) {
                        None
                    } else {
                        n0[i].parent
                    },
                self.roots@.no_duplicates(),
                forall|x: usize|
                    #[trigger] self.roots@.contains(x) <==> (rest.contains(x) || children@.subrange(0, k as int).contains(x)),
            decreases children@.len() - k,
        {
            let c = children[k];
            let ghost rs0 = self.roots@;
            let ghost s0 = children@.subrange(0, k as int);
            let ghost s1 = children@.subrange(0, k + 1);
            proof {
                assert(s1 == s0.push(c));
                assert(!rs0.contains(c)) by {
                    if rs0.contains(c) {
                        if rest.contains(c) {
                            let j = choose|j: int| 0 <= j < rest.len() && rest[j] == c;
                            assert(n0[c as int].parent == Some(z));
                        } else {
                            let j = choose|j: int| 0 <= j < s0.len() && s0[j] == c;
                            assert(children@[j] == children@[k as int]);
                        }
                    }
                }
            }
            self.nodes[c].parent = None;
            if promote_lighter && self.roots.len() > 0 {
                let front = self.roots[0];
                proof {
                    assert(rs0.contains(front)) by {
                        assert(rs0[0] == front);
                    }
                    if rest.contains(front) {
                        let j = choose|j: int| 0 <= j < rest.len() && rest[j] == front;
                        assert(m0.contains(rest[j] as int));
                    } else {
                        let j = choose|j: int| 0 <= j < s0.len() && s0[j] == front;
                        assert(children@[j] == front);
                        assert(m0.contains(front as int));
                    }
                }
                if self.nodes[c].key < self.nodes[front].key {
                    self.roots.push_front(c);
                } else {
                    self.add_to_root_list(c);
                }
            } else {
                self.add_to_root_list(c);
            }
            proof {
                let rl = self.roots@;
                if !(rl == seq![c].add(rs0)) {
                    assert(rl == rs0.push(c));
                }
                assert(rl.no_duplicates()) by {
                    assert forall|a: int, b: int| 0 <= a < rl.len() && 0 <= b < rl.len() && a != b implies rl[a] != rl[b] by {
                        if rl == seq![c].add(rs0) {
                            if a > 0 && b > 0 {
                                assert(rl[a] == rs0[a - 1] && rl[b] == rs0[b - 1]);
                            } else if a > 0 {
                                assert(rl[a] == rs0[a - 1]);
                            } else if b > 0 {
                                assert(rl[b] == rs0[b - 1]);
                            }
                        } else {
                            if a < rs0.len() && b < rs0.len() {
                                assert(rl[a] == rs0[a] && rl[b] == rs0[b]);
                            } else if a < rs0.len() {
                                assert(rl[a] == rs0[a]);
                            } else if b < rs0.len() {
                                assert(rl[b] == rs0[b]);
                            }
                        }
                    }
                }
                assert forall|x: usize| #[trigger] rl.contains(x) <==> (rest.contains(x) || s1.contains(x)) by {
                    assert(s1[k as int] == c);
                    if rl.contains(x) {
                        let j = choose|j: int| 0 <= j < rl.len() && rl[j] == x;
                        if x != c {
                            if rl == seq![c].add(rs0) {
                                assert(rs0[j - 1] == x);
                            } else {
                                assert(rs0[j] == x);
                            }
                            assert(rs0.contains(x));
                            if s0.contains(x) {
                                let q = choose|q: int| 0 <= q < s0.len() && s0[q] == x;
                                assert(s1[q] == x);
                            }
                        }
                    }
                    if rest.contains(x) || s1.contains(x) {
                        if x == c {
                            if rl == seq![c].add(rs0) {
                                assert(rl[0] == c);
                            } else {
                                assert(rl[rl.len() - 1] == c);
                            }
                        } else {
                            if s1.contains(x) {
                                let q = choose|q: int| 0 <= q < s1.len() && s1[q] == x;
                                assert(q != k);
                                assert(s0[q] == x);
                            }
                            assert(rs0.contains(x));
                            let j = choose|j: int| 0 <= j < rs0.len() && rs0[j] == x;
                            if rl == seq![c].add(rs0) {
                                assert(rl[j + 1] == x);
                            } else {
                                assert(rl[j] == x);
                            }
                        }
                    }
                }
                assert forall|i: int| 0 <= i < n0.len() implies #[trigger] self.nodes@[i].parent == if s1.contains(
                    i as usize,
                ) {
                    None
                } else {
                    n0[i].parent
                } by {
                    if i != c as int {
                        if s1.contains(i as usize) {
                            let q = choose|q: int| 0 <= q < s1.len() && s1[q] == i as usize;
                            assert(s0[q] == i as usize);
                        }
                        if s0.contains(i as usize) {
                            let q = choose|q: int| 0 <= q < s0.len() && s0[q] == i as usize;
                            assert(s1[q] == i as usize);
                        }
                    } else {
                        assert(s1[k as int] == c);
                    }
                }
            }
            k += 1;
        }
        let ghost n2 = self.nodes@;
        proof {
            let rk = self.rank@;
            let rl = self.roots@;
            assert(children@.subrange(0, children@.len() as int) =~= children@);
            // The children of the minimum are parentless now; every other member keeps its parent
            assert forall|x: int| #[trigger] m1.contains(x) implies 0 <= x < n2.len() && child_ok(n2, m1, rk, x) by {
                assert(child_ok(n0, m0, rk, x));
                let ch = n2[x].children@;
                assert(ch == n0[x].children@);
                assert forall|j: int| 0 <= j < ch.len() implies {
                    let c = #[trigger] ch[j] as int;
                    &&& m1.contains(c)
                    &&& n2[c].parent == Some(x as usize)
                    &&& n2[x].key <= n2[c].key
                    &&& rk[c] < rk[x]
                } by {
                    let c = ch[j] as int;
                    assert(n0[c].parent == Some(x as usize));
                    assert(c != z);
                    if children@.contains(c as usize) {
                        let jj = choose|jj: int| 0 <= jj < children@.len() && children@[jj] == c as usize;
                        assert(n0[c].parent == Some(z));
                    }
                }
            }
            assert forall|x: int| #[trigger] m1.contains(x) && !Set::<int>::empty().contains(x) && n2[x].parent is Some implies {
                let q = n2[x].parent->Some_0;
                &&& m1.contains(q as int)
                &&& n2[q as int].children@.contains(x as usize)
            } by {
                assert(!children@.contains(x as usize));
                let q = n0[x].parent->Some_0;
                assert(n0[q as int].children@.contains(x as usize));
                if q == z {
                    assert(false);
                }
            }
            assert forall|x: int| #[trigger] m1.contains(x) implies {
                &&& n2[x].degree == n2[x].children@.len()
                &&& forall|j: int|
                    0 <= j < n2[x].children@.len() ==> n2[(#[trigger] n2[x].children@[j]) as int].degree + (
                    if n2[n2[x].children@[j] as int].marked {
                        1int
                    } else {
                        0int
                    }) >= j
            } by {
                assert(n2[x].children == n0[x].children);
                assert forall|j: int| 0 <= j < n2[x].children@.len() implies n2[(#[trigger] n2[x].children@[j]) as int].degree + (
                if n2[n2[x].children@[j] as int].marked {
                    1int
                } else {
                    0int
                }) >= j by {
                    let c = n0[x].children@[j] as int;
                    assert(child_ok(n0, m0, rk, x));
                    assert(m0.contains(c));
                }
            }
            assert forall|i: int| 0 <= i < n2.len() && !(#[trigger] m1.contains(i)) implies n2[i].parent is None by {
                if i != z {
                    assert(!children@.contains(i as usize)) by {
                        if children@.contains(i as usize) {
                            let j = choose|j: int| 0 <= j < children@.len() && children@[j] == i as usize;
                        }
                    }
                }
            }
            assert forall|j: int| 0 <= j < rl.len() implies m1.contains(#[trigger] rl[j] as int) && n2[rl[j] as int].parent is None by {
                let x = rl[j];
                assert(rl.contains(x));
                if rest.contains(x) {
                    let q = choose|q: int| 0 <= q < rest.len() && rest[q] == x;
                    assert(!children@.contains(x)) by {
                        if children@.contains(x) {
                            let jj = choose|jj: int| 0 <= jj < children@.len() && children@[jj] == x;
                            assert(n0[x as int].parent == Some(z));
                        }
                    }
                } else {
                    let q = choose|q: int| 0 <= q < children@.len() && children@[q] == x;
                    assert(m0.contains(x as int));
                    assert(n0[x as int].parent == Some(z));
                }
            }
            assert forall|m: int| #[trigger] m1.contains(m) && n2[m].parent is None implies rl.contains(m as usize) by {
                if !children@.contains(m as usize) {
                    assert(n0[m].parent is None);
                    assert(r0.contains(m as usize));
                    let j = choose|j: int| 0 <= j < r0.len() && r0[j] == m as usize;
                    assert(j != 0);
                    assert(rest[j - 1] == m as usize);
                }
            }
            // The entries: the minimum left the heap
            lemma_items_update(n0, m0, n2, m1, z as int, n0.len());
            assert(item_at(n0, m0, z as int) == Multiset::singleton(result));
            assert(item_at(n2, m1, z as int) == Multiset::<(u32, usize)>::empty());
            lemma_cancel(items_upto(n2, m1, n0.len()), items_upto(n0, m0, n0.len()), result, Multiset::empty());
            // Sizes: one member fewer than the entries before
            lemma_items_len(n0, m0, n0.len());
            assert(members_below(m0, n0.len() as int) =~= m0);
            lemma_fib_52();
        }
        if self.roots.len() > 0 {
            self.consolidate();
        } else {
            proof {
                assert(roots_ok(n2, m1, self.roots@));
            }
        }
        proof {
            let nf = self.nodes@;
            lemma_same_entries(n2, m1, nf, self.members@);
            assert forall|y: (u32, usize)| #[trigger] old(self)@.count(y) > 0 implies result.0 <= y.0 by {
                lemma_items_count(n0, m0, n0.len(), y);
            }
            let hx = FibHandle { index: z };
            assert(old(self).entry_of(hx) == Some(result));
            assert forall|h: FibHandle| h != hx implies #[trigger] self.entry_of(h) == old(self).entry_of(h) by {
                h.lemma_same_index(hx);
            }
            assert forall|n: usize| #[trigger] self.holds_node(n) implies old(self).holds_node(n) by {
                let i = choose|i: int| #[trigger] self.members@.contains(i) && self.nodes@[i].node_id == n;
                assert(m0.contains(i) && n0[i].node_id == n);
            }
        }
        Some(result)
    }

    /// Cut `node` from the child list of `parent` and add it to the root list, unmarked.
    #[verifier::rlimit(40)]
    fn cut(&mut self, node: usize, parent: usize)
        requires
            forest_ok(old(self).nodes@, old(self).members@, old(self).rank@, old(self).bound@),
            degrees_loose(old(self).nodes@, old(self).members@, node as int),
            forall|i: int|
                0 <= i < old(self).nodes@.len() && !(#[trigger] old(self).members@.contains(i)) ==> old(self).nodes@[i].parent is None,
            roots_ok(old(self).nodes@, old(self).members@, old(self).roots@),
            old(self).members@.contains(node as int),
            old(self).nodes@[node as int].parent == Some(parent),
        ensures
            forest_ok(final(self).nodes@, final(self).members@, final(self).rank@, final(self).bound@),
            degrees_loose(final(self).nodes@, final(self).members@, parent as int),
            forall|i: int|
                0 <= i < final(self).nodes@.len() && !(#[trigger] final(self).members@.contains(i)) ==> final(self).nodes@[i].parent is None,
            roots_ok(final(self).nodes@, final(self).members@, final(self).roots@),
            same_entries(old(self).nodes@, old(self).members@, final(self).nodes@, final(self).members@),
            final(self).members@ == old(self).members@,
            final(self).rank == old(self).rank,
            final(self).bound == old(self).bound,
            final(self).nodes@[node as int].parent is None,
            final(self).nodes@[parent as int].parent == old(self).nodes@[parent as int].parent,
            final(self).nodes@[parent as int].marked == old(self).nodes@[parent as int].marked,
            forall|i: int|
                0 <= i < final(self).nodes@.len() && i != node && i != parent ==> #[trigger] final(self).nodes@[i] == old(self).nodes@[i],
    {
        let ghost n0 = self.nodes@;
        let ghost r0 = self.roots@;
        let ghost m = self.members@;
        let ghost rk = self.rank@;
        proof {
            assert(m.contains(parent as int));
            assert(n0[parent as int].children@.contains(node));
            assert(child_ok(n0, m, rk, parent as int));
            lemma_top_below(n0, m, rk, self.bound@, node as int);
            let t = choose|t: int| #[trigger] m.contains(t) && n0[t].parent is None && n0[t].key <= n0[node as int].key;
            assert(r0.contains(t as usize));
            let jt = choose|jt: int| 0 <= jt < r0.len() && r0[jt] == t as usize;
            assert(n0[r0[0] as int].key <= n0[r0[jt] as int].key);
            assert(!r0.contains(node)) by {
                if r0.contains(node) {
                    let j = choose|j: int| 0 <= j < r0.len() && r0[j] == node;
                }
            }
            assert(node != parent) by {
                let j = choose|j: int| 0 <= j < n0[parent as int].children@.len() && n0[parent as int].children@[j] == node;
                assert(rk[node as int] < rk[parent as int]);
            }
        }
        // Find the node in its parent's child list
        let mut i: usize = 0;
        while i < self.nodes[parent].children.len() && self.nodes[parent].children[i] != node
            invariant
                self.nodes@ == n0,
                parent < n0.len(),
                i <= n0[parent as int].children@.len(),
                n0[parent as int].children@.contains(node),
                forall|j: int| 0 <= j < i ==> n0[parent as int].children@[j] != node,
            decreases n0[parent as int].children@.len() - i,
        {
            i += 1;
        }
        proof {
            if i == n0[parent as int].children@.len() {
                let j = choose|j: int| 0 <= j < n0[parent as int].children@.len() && n0[parent as int].children@[j] == node;
                assert(false);
            }
        }
        self.nodes[parent].children.remove(i);
        self.nodes[parent].degree = self.nodes[parent].degree - 1;
        self.nodes[node].parent = None;
        self.nodes[node].marked = false;
        self.add_to_root_list(node);
        proof {
            let n1 = self.nodes@;
            assert(cut_step(n0, n1, node as int, parent as int, i as int));
            lemma_cut_forest(n0, n1, m, rk, self.bound@, node as int, parent as int, i as int);
            lemma_cut_degrees(n0, n1, m, rk, self.bound@, node as int, parent as int, i as int);
            assert forall|x: int| 0 <= x < n1.len() && !(#[trigger] m.contains(x)) implies n1[x].parent is None by {
                assert(x != node && x != parent);
            }
            let rl = self.roots@;
            assert(rl == r0.push(node));
            assert(rl.no_duplicates()) by {
                assert forall|a: int, b: int| 0 <= a < rl.len() && 0 <= b < rl.len() && a != b implies rl[a] != rl[b] by {
                    if a < r0.len() && b < r0.len() {
                        assert(rl[a] == r0[a] && rl[b] == r0[b]);
                    } else if a < r0.len() {
                        assert(rl[a] == r0[a]);
                    } else if b < r0.len() {
                        assert(rl[b] == r0[b]);
                    }
                }
            }
            assert forall|j: int| 0 <= j < rl.len() implies m.contains(#[trigger] rl[j] as int) && n1[rl[j] as int].parent is None by {
                if j < r0.len() {
                    assert(rl[j] == r0[j]);
                    assert(r0[j] != node);
                }
            }
            assert forall|x: int| #[trigger] m.contains(x) && n1[x].parent is None implies rl.contains(x as usize) by {
                if x == node {
                    assert(rl[rl.len() - 1] == node);
                } else {
                    assert(n0[x].parent is None);
                    let j = choose|j: int| 0 <= j < r0.len() && r0[j] == x as usize;
                    assert(rl[j] == x as usize);
                }
            }
            assert forall|j: int| 0 <= j < rl.len() implies n1[rl[0] as int].key <= n1[#[trigger] rl[j] as int].key by {
                if j < r0.len() {
                    assert(rl[j] == r0[j]);
                }
            }
        }
    }

    /// Walk up from `node`, which lost a child: an unmarked node with a parent is
    /// marked; a marked one is cut from its parent, which is handled in turn.
    fn cascading_cut(&mut self, node: usize)
        requires
            forest_ok(old(self).nodes@, old(self).members@, old(self).rank@, old(self).bound@),
            old(self).members@.finite(),
            degrees_loose(old(self).nodes@, old(self).members@, node as int),
            forall|i: int|
                0 <= i < old(self).nodes@.len() && !(#[trigger] old(self).members@.contains(i)) ==> old(self).nodes@[i].parent is None,
            roots_ok(old(self).nodes@, old(self).members@, old(self).roots@),
            old(self).members@.contains(node as int),
        ensures
            final(self).well_formed(),
            same_entries(old(self).nodes@, old(self).members@, final(self).nodes@, final(self).members@),
            final(self).members@ == old(self).members@,
            forall|i: int|
                0 <= i < old(self).nodes@.len() && (#[trigger] old(self).nodes@[i]).parent is None ==> final(self).nodes@[i].parent is None,
        decreases old(self).bound@ - old(self).rank@[node as int],
    {
        match self.nodes[node].parent {
            Some(p) => {
                if !self.nodes[node].marked {
                    let ghost n0 = self.nodes@;
                    self.nodes[node].marked = true;
                    proof {
                        let n1 = self.nodes@;
                        let m = self.members@;
                        let rk = self.rank@;
                        assert forall|x: int| #[trigger] m.contains(x) implies 0 <= x < n1.len() && child_ok(n1, m, rk, x) by {
                            assert(child_ok(n0, m, rk, x));
                            assert forall|j: int| 0 <= j < n1[x].children@.len() implies {
                                let c = #[trigger] n1[x].children@[j] as int;
                                &&& m.contains(c)
                                &&& n1[c].parent == Some(x as usize)
                                &&& n1[x].key <= n1[c].key
                                &&& rk[c] < rk[x]
                            } by {
                                let c = n0[x].children@[j] as int;
                                assert(m.contains(c));
                            }
                        }
                        assert forall|x: int| #[trigger] m.contains(x) && !Set::<int>::empty().contains(x) && n1[x].parent is Some implies {
                            let q = n1[x].parent->Some_0;
                            &&& m.contains(q as int)
                            &&& n1[q as int].children@.contains(x as usize)
                        } by {
                            let q = n0[x].parent->Some_0;
                            assert(n0[q as int].children@.contains(x as usize));
                        }
                        assert forall|x: int| #[trigger] m.contains(x) implies {
                            &&& n1[x].degree == n1[x].children@.len()
                            &&& forall|j: int|
                                0 <= j < n1[x].children@.len() ==> n1[(#[trigger] n1[x].children@[j]) as int].degree + (
                                if n1[n1[x].children@[j] as int].marked {
                                    1int
                                } else {
                                    0int
                                }) >= j
                        } by {
                            assert forall|j: int| 0 <= j < n1[x].children@.len() implies n1[(#[trigger] n1[x].children@[j]) as int].degree + (
                            if n1[n1[x].children@[j] as int].marked {
                                1int
                            } else {
                                0int
                            }) >= j by {
                                let c = n0[x].children@[j] as int;
                                assert(n0[c].degree + (if n0[c].marked {
                                    1int
                                } else {
                                    0int
                                }) + (if c == node as int {
                                    1int
                                } else {
                                    0int
                                }) >= j);
                            }
                        }
                        assert forall|i: int| 0 <= i < n1.len() && !(#[trigger] m.contains(i)) implies n1[i].parent is None by {
                            assert(n1[i].parent == n0[i].parent);
                        }
                        assert forall|j: int| 0 <= j < self.roots@.len() implies m.contains(#[trigger] self.roots@[j] as int)
                            && n1[self.roots@[j] as int].parent is None by {
                            assert(n1[self.roots@[j] as int].parent == n0[self.roots@[j] as int].parent);
                        }
                        assert forall|x: int| #[trigger] m.contains(x) && n1[x].parent is None implies self.roots@.contains(x as usize) by {
                            assert(n1[x].parent == n0[x].parent);
                        }
                        assert forall|j: int| 0 <= j < self.roots@.len() implies n1[self.roots@[0] as int].key <= n1[#[trigger] self.roots@[j] as int].key by {
                            assert(n0[self.roots@[0] as int].key <= n0[self.roots@[j] as int].key);
                        }
                    }
                } else {
                    let ghost n0 = self.nodes@;
                    proof {
                        let m = self.members@;
                        assert(m.contains(p as int));
                        assert(n0[p as int].children@.contains(node));
                        assert(child_ok(n0, m, self.rank@, p as int));
                        let j = choose|j: int| 0 <= j < n0[p as int].children@.len() && n0[p as int].children@[j] == node;
                        assert(self.rank@[node as int] < self.rank@[p as int]);
                    }
                    self.cut(node, p);
                    self.cascading_cut(p);
                }
            },
            None => {
                proof {
                    lemma_degrees_tight(self.nodes@, self.members@, self.rank@, self.bound@, node as int);
                }
            },
        }
    }

    /// Give the member at slot `i` the key `key`, no larger than its key and no smaller
    /// than the key of its parent.
    fn set_key(&mut self, i: usize, key: u32)
        requires
            forest_ok(old(self).nodes@, old(self).members@, old(self).rank@, old(self).bound@),
            old(self).members@.contains(i as int),
            key <= old(self).nodes@[i as int].key,
            old(self).nodes@[i as int].parent is Some ==> old(self).nodes@[old(self).nodes@[i as int].parent->Some_0 as int].key <= key,
        ensures
            forest_ok(final(self).nodes@, final(self).members@, final(self).rank@, final(self).bound@),
            final(self).nodes@ == old(self).nodes@.update(i as int, Node { key, ..old(self).nodes@[i as int] }),
            final(self).members@ == old(self).members@,
            final(self).roots@ == old(self).roots@,
    {
        let ghost n0 = self.nodes@;
        self.nodes[i].key = key;
        proof {
            let n1 = self.nodes@;
            let m = self.members@;
            let rk = self.rank@;
            assert(n1 =~= n0.update(i as int, Node { key, ..n0[i as int] }));
            assert forall|x: int| #[trigger] m.contains(x) implies 0 <= x < n1.len() && child_ok(n1, m, rk, x) by {
                assert(child_ok(n0, m, rk, x));
                assert forall|j: int| 0 <= j < n1[x].children@.len() implies {
                    let c = #[trigger] n1[x].children@[j] as int;
                    &&& m.contains(c)
                    &&& n1[c].parent == Some(x as usize)
                    &&& n1[x].key <= n1[c].key
                    &&& rk[c] < rk[x]
                } by {
                    let c = n0[x].children@[j] as int;
                    assert(m.contains(c));
                    assert(n0[c].parent == Some(x as usize));
                }
            }
            assert forall|x: int| #[trigger] m.contains(x) && !Set::<int>::empty().contains(x) && n1[x].parent is Some implies {
                let q = n1[x].parent->Some_0;
                &&& m.contains(q as int)
                &&& n1[q as int].children@.contains(x as usize)
            } by {
                let q = n0[x].parent->Some_0;
                assert(n0[q as int].children@.contains(x as usize));
            }
        }
    }

    /// Rotate the root list until the root at slot `i` comes first.
    fn rotate_to(&mut self, i: usize)
        requires
            old(self).roots@.contains(i),
            old(self).roots@.no_duplicates(),
        ensures
            final(self).roots@.len() == old(self).roots@.len(),
            final(self).roots@[0] == i,
            final(self).roots@.no_duplicates(),
            forall|x: usize| #[trigger] final(self).roots@.contains(x) <==> old(self).roots@.contains(x),
            final(self).nodes == old(self).nodes,
            final(self).members == old(self).members,
            final(self).rank == old(self).rank,
            final(self).bound == old(self).bound,
    {
        let ghost r0 = self.roots@;
        let ghost pos = choose|p: int| 0 <= p < r0.len() && r0[p] == i;
        let ghost mut k: int = 0;
        proof {
            assert(r0.subrange(0, r0.len() as int) + r0.subrange(0, 0) =~= r0);
        }
        while self.roots[0] != i
            invariant
                0 <= k <= pos < r0.len(),
                r0[pos] == i,
                r0.no_duplicates(),
                self.roots@ == r0.subrange(k, r0.len() as int) + r0.subrange(0, k),
                self.nodes == old(self).nodes,
                self.members == old(self).members,
                self.rank == old(self).rank,
                self.bound == old(self).bound,
            decreases pos - k,
        {
            proof {
                assert(self.roots@[0] == r0[k]);
                if k == pos {
                    assert(false);
                }
            }
            let x = self.roots.pop_front().unwrap();
            self.roots.push_back(x);
            proof {
                k = k + 1;
                assert(self.roots@ =~= r0.subrange(k, r0.len() as int) + r0.subrange(0, k));
            }
        }
        proof {
            let rl = self.roots@;
            let len = r0.len() as int;
            assert forall|j: int| 0 <= j < len implies #[trigger] rl[j] == r0[if j < len - k { j + k } else { j - (len - k) }] by {}
            assert(rl.no_duplicates()) by {
                assert forall|a: int, b: int| 0 <= a < rl.len() && 0 <= b < rl.len() && a != b implies rl[a] != rl[b] by {
                    let a0 = if a < len - k { a + k } else { a - (len - k) };
                    let b0 = if b < len - k { b + k } else { b - (len - k) };
                    assert(rl[a] == r0[a0] && rl[b] == r0[b0]);
                }
            }
            assert forall|x: usize| #[trigger] rl.contains(x) <==> r0.contains(x) by {
                if rl.contains(x) {
                    let a = choose|a: int| 0 <= a < rl.len() && rl[a] == x;
                    let a0 = if a < len - k { a + k } else { a - (len - k) };
                    assert(r0[a0] == x);
                }
                if r0.contains(x) {
                    let a0 = choose|a0: int| 0 <= a0 < r0.len() && r0[a0] == x;
                    let a = if a0 >= k { a0 - k } else { a0 + (len - k) };
                    assert(rl[a] == x);
                }
            }
        }
    }

    /// Cut member `i` from its parent (with cascading cuts above) when `new_key` is below
    /// the key of its parent.
    fn cut_if_lighter(&mut self, i: usize, new_key: u32)
        requires
            old(self).well_formed(),
            old(self).members@.contains(i as int),
        ensures
            final(self).well_formed(),
            final(self).members@ == old(self).members@,
            same_entries(old(self).nodes@, old(self).members@, final(self).nodes@, final(self).members@),
            final(self).nodes@[i as int].parent is Some ==> final(self).nodes@[final(self).nodes@[i as int].parent->Some_0 as int].key <= new_key,
    {
        let ghost n0 = self.nodes@;
        match self.nodes[i].parent {
            Some(p) => {
                if new_key < self.nodes[p].key {
                    self.cut(i, p);
                    self.cascading_cut(p);
                }
            },
            None => {},
        }
    }

    /// Lower the key of member `i` to `new_key`: a node that becomes lighter than its
    /// parent is cut from it (with cascading cuts above), and a root lighter than the
    /// first root becomes the first root.
    fn lower_key(&mut self, i: usize, new_key: u32)
        requires
            old(self).well_formed(),
            old(self).members@.contains(i as int),
            new_key <= old(self).nodes@[i as int].key,
        ensures
            final(self).well_formed(),
            final(self).members@ == old(self).members@,
            same_entries(
                old(self).nodes@.update(i as int, Node { key: new_key, ..old(self).nodes@[i as int] }),
                old(self).members@,
                final(self).nodes@,
                final(self).members@,
            ),
    {
        let ghost n0 = self.nodes@;
        let ghost m0 = self.members@;
        self.cut_if_lighter(i, new_key);
        let ghost n1 = self.nodes@;
        self.set_key(i, new_key);
        let ghost n2 = self.nodes@;
        let ghost r1 = self.roots@;
        proof {
            lemma_top_below(n1, m0, self.rank@, self.bound@, i as int);
            let t = choose|t: int| #[trigger] m0.contains(t) && n1[t].parent is None && n1[t].key <= n1[i as int].key;
            assert(r1.contains(t as usize));
        }
        let front = self.roots[0];
        proof {
            assert(r1.contains(front)) by {
                assert(r1[0] == front);
            }
            let j = choose|j: int| 0 <= j < r1.len() && r1[j] == front;
            assert(m0.contains(r1[j] as int));
        }
        let rotate = new_key < self.nodes[front].key;
        if rotate {
            proof {
                lemma_rekey_root(n1, m0, self.rank@, self.bound@, r1, i as int, new_key);
            }
            self.rotate_to(i);
        }
        proof {
            lemma_rekey_degrees(n1, n2, m0, self.rank@, self.bound@, i as int, new_key);
            lemma_rekey_roots(n1, n2, m0, r1, self.roots@, i as int, new_key, rotate);
            assert forall|x: int| 0 <= x < n2.len() && !(#[trigger] m0.contains(x)) implies n2[x].parent is None by {
                assert(n2[x].parent == n1[x].parent);
            }
            assert forall|j: int| 0 <= j < n0.len() implies (#[trigger] self.nodes@[j]).key == n0.update(i as int, Node { key: new_key, ..n0[i as int] })[j].key by {}
        }
    }

    /// Decrease the key of the node that `handle` designates to `new_key`.  Returns
    /// `false`, changing nothing, when `new_key` is larger than its key.  A node that
    /// becomes lighter than its parent is cut from it (with cascading cuts above), and
    /// becomes the minimum when lighter than the minimum.
    pub fn decrease_key(&mut self, handle: &FibHandle, new_key: u32) -> (r: bool)
        requires
            old(self).well_formed(),
            old(self).entry_of(*handle) is Some,
        ensures
            final(self).well_formed(),
            r == (new_key <= old(self).entry_of(*handle)->Some_0.0),
            forall|n: usize| #[trigger] final(self).holds_node(n) == old(self).holds_node(n),
            final(self).slot_ids() == old(self).slot_ids(),
            forall|h: FibHandle| h != *handle ==> #[trigger] final(self).entry_of(h) == old(self).entry_of(h),
            ({
                let e = old(self).entry_of(*handle)->Some_0;
                if r {
                    &&& final(self)@ == old(self)@.remove(e).insert((new_key, e.1))
                    &&& final(self).entry_of(*handle) == Some((new_key, e.1))
                } else {
                    &&& final(self)@ == old(self)@
                    &&& final(self).entry_of(*handle) == old(self).entry_of(*handle)
                }
            }),
    {
        let i = handle.index;
        let old_key = self.nodes[i].key;
        if new_key > old_key {
            return false;
        }
        let ghost n0 = self.nodes@;
        let ghost m0 = self.members@;
        self.lower_key(i, new_key);
        proof {
            let nu = n0.update(i as int, Node { key: new_key, ..n0[i as int] });
            lemma_rekey_items(n0, nu, m0, i as int, new_key);
            lemma_same_entries(nu, m0, self.nodes@, self.members@);
            assert forall|h: FibHandle| h != *handle implies #[trigger] self.entry_of(h) == old(self).entry_of(h) by {
                h.lemma_same_index(*handle);
            }
            assert forall|n: usize| #[trigger] self.holds_node(n) == old(self).holds_node(n) by {
                if self.holds_node(n) {
                    let k = choose|k: int| #[trigger] self.members@.contains(k) && self.nodes@[k].node_id == n;
                    assert(m0.contains(k) && n0[k].node_id == n);
                }
                if old(self).holds_node(n) {
                    let k = choose|k: int| #[trigger] m0.contains(k) && n0[k].node_id == n;
                    assert(self.members@.contains(k) && self.nodes@[k].node_id == n);
                }
            }
            assert(self.slot_ids() =~= old(self).slot_ids());
        }
        true
    }
}


impl Default for FibonacciHeap {
    fn default() -> (r: Self)
        ensures
            r.well_formed(),
            r@ =~= Multiset::empty(),
            forall|h: FibHandle| #[trigger] r.entry_of(h) is None,
            forall|n: usize| !(#[trigger] r.holds_node(n)),
            r.slot_ids().len() == 0,
    {
        Self::new()
    }
}

} // verus!
