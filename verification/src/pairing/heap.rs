//! Pairing heap implementation for Dijkstra's algorithm.
//!
//! A pairing heap is a simpler alternative to Fibonacci heaps with similar amortized
//! complexity: O(1) insert, O(log n) extract-min, O(log n) decrease-key.
//!
//! The nodes live in an arena (a vector indexed by node handle); each node keeps its
//! parent and the list of its children, the most recently attached child last.
use vstd::multiset::Multiset;
use vstd::pervasive::VecAdditionalExecFns;
use vstd::prelude::*;

verus! {

broadcast use {vstd::multiset::group_multiset_axioms, vstd::multiset::group_multiset_properties};

/// A node of the pairing heap.
pub struct Node {
    pub(crate) key: u32,
    pub(crate) node_id: usize,
    pub(crate) parent: Option<usize>,
    /// The children, the most recently attached (the first in pairing order) last.
    pub(crate) children: Vec<usize>,
}

impl Node {
    fn new(key: u32, node_id: usize) -> (r: Self)
        ensures
            r.key == key,
            r.node_id == node_id,
            r.parent is None,
            r.children@.len() == 0,
    {
        Node { key, node_id, parent: None, children: Vec::new() }
    }
}

/// Handle to a node of a pairing heap, used for `decrease_key` operations.
#[derive(Clone, Copy, Debug, PartialEq, Eq, Structural, Hash)]
pub struct PairingHandle {
    index: usize,
}

impl PairingHandle {
    /// The arena slot of the node the handle designates.
    pub closed spec fn index(self) -> usize {
        self.index
    }

    /// Handles of the same slot are the same handle.
    pub proof fn lemma_same_index(self, other: PairingHandle)
        ensures
            self.index() == other.index() ==> self == other,
    {
    }
}

/// A pairing heap.
pub struct PairingHeap {
    root: Option<usize>,
    /// Every node ever inserted; the heap holds those in `members`.
    nodes: Vec<Node>,
    /// The arena slots of the nodes the heap holds.
    members: Ghost<Set<int>>,
    /// A rank that decreases from parent to child.
    rank: Ghost<Seq<nat>>,
    /// A bound above every rank.
    bound: Ghost<nat>,
}

/// The children of member `m` are members, point back to it, carry keys no smaller
/// than its key and lower ranks, and are listed once.
spec fn child_ok(nodes: Seq<Node>, members: Set<int>, rank: Seq<nat>, m: int) -> bool {
    let ch = nodes[m].children@;
    &&& ch.no_duplicates()
    &&& forall|j: int|
        0 <= j < ch.len() ==> {
            let c = #[trigger] ch[j] as int;
            &&& members.contains(c)
            &&& nodes[c].parent == Some(m as usize)
            &&& nodes[m].key <= nodes[c].key
            &&& rank[c] < rank[m]
        }
}

/// The members form a forest: a member with a parent is listed among the children of
/// that parent, which is a member too.
spec fn forest_ok(nodes: Seq<Node>, members: Set<int>, rank: Seq<nat>, bound: nat) -> bool {
    forest_loose(nodes, members, rank, bound, Set::empty())
}

/// `forest_ok`, except that the members in `loose` may still point to a former parent.
spec fn forest_loose(nodes: Seq<Node>, members: Set<int>, rank: Seq<nat>, bound: nat, loose: Set<int>) -> bool {
    &&& nodes.len() <= usize::MAX
    &&& rank.len() == nodes.len()
    &&& forall|i: int| 0 <= i < rank.len() ==> #[trigger] rank[i] < bound
    &&& forall|m: int| #[trigger] members.contains(m) ==> 0 <= m < nodes.len() && child_ok(nodes, members, rank, m)
    &&& forall|m: int|
        #[trigger] members.contains(m) && !loose.contains(m) && nodes[m].parent is Some ==> {
            let p = nodes[m].parent->Some_0;
            &&& members.contains(p as int)
            &&& nodes[p as int].children@.contains(m as usize)
        }
}

/// The slots below `k` keep their membership, keys and node ids.
spec fn same_entries(nodes: Seq<Node>, members: Set<int>, nodes2: Seq<Node>, members2: Set<int>) -> bool {
    &&& nodes2.len() == nodes.len()
    &&& forall|j: int| 0 <= j < nodes.len() ==> (#[trigger] members2.contains(j) <==> members.contains(j))
    &&& forall|j: int|
        0 <= j < nodes.len() ==> (#[trigger] nodes2[j]).key == nodes[j].key && nodes2[j].node_id == nodes[j].node_id
}

/// The entry of slot `i`, if it is a member.
spec fn item_at(nodes: Seq<Node>, members: Set<int>, i: int) -> Multiset<(u32, usize)> {
    if members.contains(i) {
        Multiset::singleton((nodes[i].key, nodes[i].node_id))
    } else {
        Multiset::empty()
    }
}

/// The entries of the members among the first `k` slots.
spec fn items_upto(nodes: Seq<Node>, members: Set<int>, k: nat) -> Multiset<(u32, usize)>
    decreases k,
{
    if k == 0 {
        Multiset::empty()
    } else {
        items_upto(nodes, members, (k - 1) as nat).add(item_at(nodes, members, k - 1))
    }
}

proof fn lemma_items_update(
    nodes: Seq<Node>,
    members: Set<int>,
    nodes2: Seq<Node>,
    members2: Set<int>,
    i: int,
    k: nat,
)
    requires
        0 <= i,
        k <= nodes.len(),
        k <= nodes2.len(),
        forall|j: int| 0 <= j < k && j != i ==> (#[trigger] members2.contains(j) <==> members.contains(j)),
        forall|j: int|
            0 <= j < k && j != i && members.contains(j) ==> (#[trigger] nodes2[j]).key == nodes[j].key
                && nodes2[j].node_id == nodes[j].node_id,
    ensures
        i < k ==> items_upto(nodes2, members2, k).add(item_at(nodes, members, i)) =~= items_upto(
            nodes,
            members,
            k,
        ).add(item_at(nodes2, members2, i)),
        i >= k ==> items_upto(nodes2, members2, k) =~= items_upto(nodes, members, k),
    decreases k,
{
    if k > 0 {
        lemma_items_update(nodes, members, nodes2, members2, i, (k - 1) as nat);
        let a2 = items_upto(nodes2, members2, (k - 1) as nat);
        let a = items_upto(nodes, members, (k - 1) as nat);
        if k - 1 != i {
            assert(members2.contains(k - 1) <==> members.contains(k - 1));
            if members.contains(k - 1) {
                assert(nodes2[k - 1].key == nodes[k - 1].key);
            }
            assert(item_at(nodes2, members2, k - 1) == item_at(nodes, members, k - 1));
        }
        if i < k {
            let lhs = items_upto(nodes2, members2, k).add(item_at(nodes, members, i));
            let rhs = items_upto(nodes, members, k).add(item_at(nodes2, members2, i));
            assert forall|y: (u32, usize)| lhs.count(y) == rhs.count(y) by {
                if k - 1 != i {
                    assert(a2.add(item_at(nodes, members, i)).count(y) == a.add(item_at(nodes2, members2, i)).count(
                        y,
                    ));
                }
            }
            assert(lhs =~= rhs);
        }
    }
}

proof fn lemma_items_count(nodes: Seq<Node>, members: Set<int>, k: nat, y: (u32, usize))
    requires
        k <= nodes.len(),
    ensures
        items_upto(nodes, members, k).count(y) > 0 <==> exists|i: int|
            0 <= i < k && #[trigger] members.contains(i) && (nodes[i].key, nodes[i].node_id) == y,
    decreases k,
{
    if k > 0 {
        lemma_items_count(nodes, members, (k - 1) as nat, y);
        let a = items_upto(nodes, members, (k - 1) as nat);
        assert(items_upto(nodes, members, k) == a.add(item_at(nodes, members, k - 1)));
        if members.contains(k - 1) && (nodes[k - 1].key, nodes[k - 1].node_id) == y {
            assert(item_at(nodes, members, k - 1).count(y) == 1);
        }
    }
}

proof fn lemma_items_empty(nodes: Seq<Node>, members: Set<int>, k: nat)
    requires
        k <= nodes.len(),
        forall|i: int| 0 <= i < k ==> !(#[trigger] members.contains(i)),
    ensures
        items_upto(nodes, members, k) =~= Multiset::empty(),
    decreases k,
{
    if k > 0 {
        lemma_items_empty(nodes, members, (k - 1) as nat);
    }
}

/// Remove one occurrence of `x` from a multiset after adding the singleton of `x`.
proof fn lemma_cancel(a: Multiset<(u32, usize)>, b: Multiset<(u32, usize)>, x: (u32, usize), z: Multiset<(u32, usize)>)
    requires
        a.add(Multiset::singleton(x)) == b.add(z),
    ensures
        z.len() == 0 ==> a =~= b.remove(x) && b.count(x) > 0,
        z == Multiset::singleton(x) ==> a =~= b,
{
    if z.len() == 0 {
        assert forall|y: (u32, usize)| z.count(y) == 0 by {
            if z.count(y) > 0 {
                assert(z.len() > 0);
            }
        }
        assert(a.add(Multiset::singleton(x)).count(x) == b.add(z).count(x));
        assert(a.add(Multiset::singleton(x)).count(x) == a.count(x) + Multiset::singleton(x).count(x));
        assert(b.add(z).count(x) == b.count(x) + z.count(x));
        assert(Multiset::singleton(x).count(x) == 1);
        assert(b.count(x) > 0);
        assert forall|y: (u32, usize)| a.count(y) == b.remove(x).count(y) by {
            assert(a.add(Multiset::singleton(x)).count(y) == b.add(z).count(y));
            assert(a.add(Multiset::singleton(x)).count(y) == a.count(y) + Multiset::singleton(x).count(y));
            assert(b.add(z).count(y) == b.count(y) + z.count(y));
            if y == x {
                assert(Multiset::singleton(x).count(y) == 1);
            } else {
                assert(Multiset::singleton(x).count(y) == 0);
            }
        }
    }
    if z == Multiset::singleton(x) {
        assert forall|y: (u32, usize)| a.count(y) == b.count(y) by {
            assert(a.add(Multiset::singleton(x)).count(y) == b.add(z).count(y));
            assert(a.add(Multiset::singleton(x)).count(y) == a.count(y) + Multiset::singleton(x).count(y));
            assert(b.add(z).count(y) == b.count(y) + z.count(y));
        }
    }
}

proof fn lemma_same_entries(nodes: Seq<Node>, members: Set<int>, nodes2: Seq<Node>, members2: Set<int>)
    requires
        same_entries(nodes, members, nodes2, members2),
    ensures
        items_upto(nodes2, members2, nodes2.len()) =~= items_upto(nodes, members, nodes.len()),
{
    lemma_items_update(nodes, members, nodes2, members2, nodes.len() as int, nodes.len());
}

/// A member of a forest is no lighter than some member without a parent.
proof fn lemma_top_below(nodes: Seq<Node>, members: Set<int>, rank: Seq<nat>, bound: nat, m: int)
    requires
        forest_ok(nodes, members, rank, bound),
        members.contains(m),
    ensures
        exists|t: int|
            #[trigger] members.contains(t) && nodes[t].parent is None && nodes[t].key <= nodes[m].key,
    decreases bound - rank[m],
{
    if nodes[m].parent is Some {
        let p = nodes[m].parent->Some_0 as int;
        assert(members.contains(p));
        assert(child_ok(nodes, members, rank, p));
        let ch = nodes[p].children@;
        let j = choose|j: int| 0 <= j < ch.len() && ch[j] == m as usize;
        assert(ch[j] as int == m);
        assert(rank[m] < rank[p]);
        assert(rank[p] < bound);
        lemma_top_below(nodes, members, rank, bound, p);
    } else {
        assert(members.contains(m) && nodes[m].parent is None && nodes[m].key <= nodes[m].key);
    }
}

impl PairingHeap {
    /// The entries the heap holds, as `(key, node_id)` pairs.
    pub closed spec fn view(&self) -> Multiset<(u32, usize)> {
        items_upto(self.nodes@, self.members@, self.nodes@.len())
    }

    /// The members form one heap-ordered tree whose root is `root`.
    pub closed spec fn well_formed(&self) -> bool {
        &&& forest_ok(self.nodes@, self.members@, self.rank@, self.bound@)
        &&& forall|i: int|
            0 <= i < self.nodes@.len() && !(#[trigger] self.members@.contains(i)) ==> self.nodes@[i].parent is None
        &&& match self.root {
            None => forall|m: int| !(#[trigger] self.members@.contains(m)),
            Some(r) => {
                &&& self.members@.contains(r as int)
                &&& self.nodes@[r as int].parent is None
                &&& forall|m: int|
                    #[trigger] self.members@.contains(m) && self.nodes@[m].parent is None ==> m == r
            },
        }
    }

    /// Whether `handle` designates a node of this heap's arena.
    pub closed spec fn owns(&self, handle: PairingHandle) -> bool {
        handle.index < self.nodes@.len()
    }

    /// The entry of the node that `handle` designates, while the heap holds it.
    pub closed spec fn entry_of(&self, handle: PairingHandle) -> Option<(u32, usize)> {
        if self.members@.contains(handle.index as int) {
            Some((self.nodes@[handle.index as int].key, self.nodes@[handle.index as int].node_id))
        } else {
            None
        }
    }

    /// Whether the heap holds an entry of node `n`.
    pub closed spec fn holds_node(&self, n: usize) -> bool {
        exists|i: int| #[trigger] self.members@.contains(i) && self.nodes@[i].node_id == n
    }

    /// The entry of a handle is in the heap, and an entry of the heap has a handle.
    pub proof fn lemma_entries(&self)
        requires
            self.well_formed(),
        ensures
            forall|h: PairingHandle| #[trigger] self.entry_of(h) is Some ==> self@.count(self.entry_of(h)->Some_0) > 0,
            forall|y: (u32, usize)|
                #[trigger] self@.count(y) > 0 ==> exists|h: PairingHandle| #[trigger] self.entry_of(h) == Some(y),
            forall|h: PairingHandle| #[trigger] self.entry_of(h) is Some ==> self.owns(h),
            forall|n: usize| #[trigger] self.holds_node(n) <==> exists|k: u32| #[trigger] self@.count((k, n)) > 0,
    {
        assert forall|h: PairingHandle| #[trigger] self.entry_of(h) is Some implies self@.count(self.entry_of(h)->Some_0) > 0 by {
            let e = self.entry_of(h)->Some_0;
            lemma_items_count(self.nodes@, self.members@, self.nodes@.len(), e);
            assert(self.members@.contains(h.index as int));
        }
        assert forall|y: (u32, usize)| #[trigger] self@.count(y) > 0 implies exists|h: PairingHandle|
            #[trigger] self.entry_of(h) == Some(y) by {
            lemma_items_count(self.nodes@, self.members@, self.nodes@.len(), y);
            let i = choose|i: int|
                0 <= i < self.nodes@.len() && #[trigger] self.members@.contains(i) && (
                self.nodes@[i].key,
                self.nodes@[i].node_id,
            ) == y;
            let h = PairingHandle { index: i as usize };
            assert(self.entry_of(h) == Some(y));
        }
        assert forall|n: usize| #[trigger] self.holds_node(n) <==> exists|k: u32| #[trigger] self@.count((k, n)) > 0 by {
            if self.holds_node(n) {
                let i = choose|i: int| #[trigger] self.members@.contains(i) && self.nodes@[i].node_id == n;
                let k = self.nodes@[i].key;
                lemma_items_count(self.nodes@, self.members@, self.nodes@.len(), (k, n));
                assert(self@.count((k, n)) > 0);
            }
            if exists|k: u32| #[trigger] self@.count((k, n)) > 0 {
                let k = choose|k: u32| #[trigger] self@.count((k, n)) > 0;
                lemma_items_count(self.nodes@, self.members@, self.nodes@.len(), (k, n));
                let i = choose|i: int|
                    0 <= i < self.nodes@.len() && #[trigger] self.members@.contains(i) && (
                    self.nodes@[i].key,
                    self.nodes@[i].node_id,
                ) == (k, n);
                assert(self.members@.contains(i) && self.nodes@[i].node_id == n);
            }
        }
    }

    /// Create an empty pairing heap.
    pub fn new() -> (r: Self)
        ensures
            r.well_formed(),
            r@ =~= Multiset::empty(),
            forall|h: PairingHandle| #[trigger] r.entry_of(h) is None,
            forall|n: usize| !(#[trigger] r.holds_node(n)),
    {
        let r = PairingHeap {
            root: None,
            nodes: Vec::new(),
            members: Ghost(Set::empty()),
            rank: Ghost(Seq::empty()),
            bound: Ghost(0),
        };
        proof {
            lemma_items_empty(r.nodes@, r.members@, 0);
        }
        r
    }

    /// Make `l` the first child of `w`.
    fn attach(&mut self, w: usize, l: usize)
        requires
            forest_ok(old(self).nodes@, old(self).members@, old(self).rank@, old(self).bound@),
            old(self).members@.contains(w as int),
            old(self).members@.contains(l as int),
            w != l,
            old(self).nodes@[w as int].parent is None,
            old(self).nodes@[l as int].parent is None,
            old(self).nodes@[w as int].key <= old(self).nodes@[l as int].key,
        ensures
            forest_ok(final(self).nodes@, final(self).members@, final(self).rank@, final(self).bound@),
            same_entries(old(self).nodes@, old(self).members@, final(self).nodes@, final(self).members@),
            final(self).members@ == old(self).members@,
            final(self).root == old(self).root,
            final(self).nodes@[l as int].parent == Some(w),
            forall|i: int| 0 <= i < final(self).nodes@.len() && i != l ==> #[trigger] final(self).nodes@[i].parent == old(self).nodes@[i].parent,
    {
        let ghost n0 = self.nodes@;
        let ghost rank0 = self.rank@;
        proof {
            assert(child_ok(n0, self.members@, rank0, w as int));
            assert(!n0[w as int].children@.contains(l)) by {
                if n0[w as int].children@.contains(l) {
                    let j = choose|j: int| 0 <= j < n0[w as int].children@.len() && n0[w as int].children@[j] == l;
                    assert(n0[l as int].parent == Some(w));
                }
            }
        }
        self.nodes[l].parent = Some(w);
        self.nodes[w].children.push(l);
        let ghost new_rank: nat = if rank0[w as int] > rank0[l as int] {
            rank0[w as int]
        } else {
            rank0[l as int] + 1
        };
        self.rank = Ghost(rank0.update(w as int, new_rank));
        self.bound = Ghost(if new_rank + 1 > self.bound@ {
            new_rank + 1
        } else {
            self.bound@
        });
        proof {
            let n1 = self.nodes@;
            let m = self.members@;
            let rk = self.rank@;
            assert forall|i: int| 0 <= i < n1.len() && i != l implies #[trigger] n1[i].parent == n0[i].parent by {}
            assert forall|i: int| 0 <= i < rk.len() implies #[trigger] rk[i] < self.bound@ by {}
            assert forall|x: int| #[trigger] m.contains(x) implies 0 <= x < n1.len() && child_ok(n1, m, rk, x) by {
                assert(child_ok(n0, m, rank0, x));
                let ch = n1[x].children@;
                if x == w {
                    assert(ch == n0[w as int].children@.push(l));
                    assert forall|j: int| 0 <= j < ch.len() implies {
                        let c = #[trigger] ch[j] as int;
                        &&& m.contains(c)
                        &&& n1[c].parent == Some(x as usize)
                        &&& n1[x].key <= n1[c].key
                        &&& rk[c] < rk[x]
                    } by {
                        if j < ch.len() - 1 {
                            let c = n0[w as int].children@[j] as int;
                            assert(ch[j] as int == c);
                            assert(c != l);
                        }
                    }
                } else {
                    assert(ch == n0[x].children@);
                    assert forall|j: int| 0 <= j < ch.len() implies {
                        let c = #[trigger] ch[j] as int;
                        &&& m.contains(c)
                        &&& n1[c].parent == Some(x as usize)
                        &&& n1[x].key <= n1[c].key
                        &&& rk[c] < rk[x]
                    } by {
                        let c = ch[j] as int;
                        assert(n0[c].parent == Some(x as usize));
                        assert(c != l);
                        assert(c != w);
                    }
                }
            }
            assert forall|x: int| #[trigger] m.contains(x) && !Set::<int>::empty().contains(x) && n1[x].parent is Some implies {
                let p = n1[x].parent->Some_0;
                &&& m.contains(p as int)
                &&& n1[p as int].children@.contains(x as usize)
            } by {
                if x == l {
                    assert(n1[w as int].children@.last() == l);
                } else {
                    let p = n0[x].parent->Some_0;
                    assert(n0[p as int].children@.contains(x as usize));
                    if p == w {
                        let j = choose|j: int| 0 <= j < n0[w as int].children@.len() && n0[w as int].children@[j] == x as usize;
                        assert(n1[w as int].children@[j] == x as usize);
                    }
                }
            }
        }
    }

    /// Merge the trees rooted at `a` and `b`: the root of larger key becomes the first
    /// child of the other (`a` wins ties).  Returns the root of the merged tree.
    fn merge(&mut self, a: usize, b: usize) -> (w: usize)
        requires
            forest_ok(old(self).nodes@, old(self).members@, old(self).rank@, old(self).bound@),
            old(self).members@.contains(a as int),
            old(self).members@.contains(b as int),
            a != b,
            old(self).nodes@[a as int].parent is None,
            old(self).nodes@[b as int].parent is None,
        ensures
            forest_ok(final(self).nodes@, final(self).members@, final(self).rank@, final(self).bound@),
            same_entries(old(self).nodes@, old(self).members@, final(self).nodes@, final(self).members@),
            final(self).members@ == old(self).members@,
            final(self).root == old(self).root,
            w == if old(self).nodes@[a as int].key <= old(self).nodes@[b as int].key {
                a
            } else {
                b
            },
            final(self).nodes@[w as int].parent is None,
            final(self).nodes@[(if w == a {
                b
            } else {
                a
            }) as int].parent == Some(w),
            forall|i: int|
                0 <= i < final(self).nodes@.len() && i != a && i != b ==> #[trigger] final(self).nodes@[i].parent
                    == old(self).nodes@[i].parent,
    {
        let a_key = self.nodes[a].key;
        let b_key = self.nodes[b].key;
        if a_key <= b_key {
            // a becomes root, b becomes its first child
            self.attach(a, b);
            a
        } else {
            // b becomes root, a becomes its first child
            self.attach(b, a);
            b
        }
    }

    /// Cut member `h` from the children of its parent; it becomes a root of the forest.
    fn detach(&mut self, h: usize)
        requires
            forest_ok(old(self).nodes@, old(self).members@, old(self).rank@, old(self).bound@),
            old(self).members@.contains(h as int),
            old(self).nodes@[h as int].parent is Some,
        ensures
            forest_ok(final(self).nodes@, final(self).members@, final(self).rank@, final(self).bound@),
            same_entries(old(self).nodes@, old(self).members@, final(self).nodes@, final(self).members@),
            final(self).members@ == old(self).members@,
            final(self).root == old(self).root,
            final(self).nodes@[h as int].parent is None,
            forall|i: int| 0 <= i < final(self).nodes@.len() && i != h ==> #[trigger] final(self).nodes@[i].parent == old(self).nodes@[i].parent,
    {
        let ghost n0 = self.nodes@;
        let p = match self.nodes[h].parent {
            Some(p) => p,
            None => {
                return ;
            },
        };
        proof {
            assert(n0[p as int].children@.contains(h));
            assert(child_ok(n0, self.members@, self.rank@, p as int));
        }
        // Find the node in its parent's child list
        let mut i: usize = 0;
        while i < self.nodes[p].children.len() && self.nodes[p].children[i] != h
            invariant
                self.nodes@ == n0,
                p < n0.len(),
                i <= n0[p as int].children@.len(),
                n0[p as int].children@.contains(h),
                forall|j: int| 0 <= j < i ==> n0[p as int].children@[j] != h,
            decreases n0[p as int].children@.len() - i,
        {
            i += 1;
        }
        proof {
            if i == n0[p as int].children@.len() {
                let j = choose|j: int| 0 <= j < n0[p as int].children@.len() && n0[p as int].children@[j] == h;
                assert(false);
            }
        }
        self.nodes[p].children.remove(i);
        self.nodes[h].parent = None;
        proof {
            let n1 = self.nodes@;
            let m = self.members@;
            let rk = self.rank@;
            let ch0 = n0[p as int].children@;
            assert(n1[p as int].children@ == ch0.remove(i as int));
            assert forall|x: int| #[trigger] m.contains(x) implies 0 <= x < n1.len() && child_ok(n1, m, rk, x) by {
                assert(child_ok(n0, m, rk, x));
                let ch = n1[x].children@;
                if x == p {
                    assert forall|j: int| 0 <= j < ch.len() implies {
                        let c = #[trigger] ch[j] as int;
                        &&& m.contains(c)
                        &&& n1[c].parent == Some(x as usize)
                        &&& n1[x].key <= n1[c].key
                        &&& rk[c] < rk[x]
                    } by {
                        let j0 = if j < i { j } else { j + 1 };
                        assert(ch[j] == ch0[j0]);
                        assert(ch0[j0] != h) by {
                            assert(ch0[i as int] == h);
                        }
                    }
                    assert(ch.no_duplicates()) by {
                        assert forall|j1: int, j2: int| 0 <= j1 < ch.len() && 0 <= j2 < ch.len() && j1 != j2 implies ch[j1]
                            != ch[j2] by {
                            let a1 = if j1 < i { j1 } else { j1 + 1 };
                            let a2 = if j2 < i { j2 } else { j2 + 1 };
                            assert(ch[j1] == ch0[a1]);
                            assert(ch[j2] == ch0[a2]);
                        }
                    }
                } else {
                    assert(ch == n0[x].children@);
                    assert forall|j: int| 0 <= j < ch.len() implies {
                        let c = #[trigger] ch[j] as int;
                        &&& m.contains(c)
                        &&& n1[c].parent == Some(x as usize)
                        &&& n1[x].key <= n1[c].key
                        &&& rk[c] < rk[x]
                    } by {
                        let c = ch[j] as int;
                        assert(n0[c].parent == Some(x as usize));
                        assert(c != h);
                    }
                }
            }
            assert forall|x: int| #[trigger] m.contains(x) && !Set::<int>::empty().contains(x) && n1[x].parent is Some implies {
                let q = n1[x].parent->Some_0;
                &&& m.contains(q as int)
                &&& n1[q as int].children@.contains(x as usize)
            } by {
                let q = n0[x].parent->Some_0;
                assert(n0[q as int].children@.contains(x as usize));
                if q == p {
                    let j = choose|j: int| 0 <= j < ch0.len() && ch0[j] == x as usize;
                    assert(j != i);
                    let j1 = if j < i { j } else { j - 1 };
                    assert(n1[p as int].children@[j1] == x as usize);
                }
            }
        }
    }

    /// Merge the roots `children` into one tree: pairs from left to right, then the
    /// pairs from right to left.  Returns the root of the result.
    fn pair_children(&mut self, children: Vec<usize>) -> (r: usize)
        requires
            forest_ok(old(self).nodes@, old(self).members@, old(self).rank@, old(self).bound@),
            children@.len() >= 1,
            children@.no_duplicates(),
            forall|j: int|
                0 <= j < children@.len() ==> old(self).members@.contains(#[trigger] children@[j] as int)
                    && old(self).nodes@[children@[j] as int].parent is None,
        ensures
            forest_ok(final(self).nodes@, final(self).members@, final(self).rank@, final(self).bound@),
            same_entries(old(self).nodes@, old(self).members@, final(self).nodes@, final(self).members@),
            final(self).members@ == old(self).members@,
            final(self).root == old(self).root,
            final(self).members@.contains(r as int),
            final(self).nodes@[r as int].parent is None,
            forall|i: int|
                0 <= i < old(self).nodes@.len() && !(#[trigger] old(self).members@.contains(i)) ==> final(self).nodes@[i].parent
                    == old(self).nodes@[i].parent,
            forall|m: usize|
                #[trigger] final(self).members@.contains(m as int) ==> (final(self).nodes@[m as int].parent is None
                    <==> (m == r || (old(self).nodes@[m as int].parent is None && !children@.contains(m)))),
    {
        let ghost n0 = self.nodes@;
        if children.len() == 1 {
            proof {
                assert forall|m: usize| #[trigger] self.members@.contains(m as int) implies (
                self.nodes@[m as int].parent is None <==> (m == children@[0] || (n0[m as int].parent is None
                    && !children@.contains(m)))) by {
                    if children@.contains(m) {
                        let j = choose|j: int| 0 <= j < children@.len() && children@[j] == m;
                        assert(j == 0);
                    }
                }
            }
            return children[0];
        }
        // Pair children: merge pairs from left to right
        let mut pairs: Vec<usize> = Vec::new();
        let mut i: usize = 0;
        let ghost mut tops: Set<usize> = children@.to_set();
        proof {
            assert(pairs@ + children@.subrange(0, children@.len() as int) =~= children@);
        }
        while i < children.len()
            invariant
                forest_ok(self.nodes@, self.members@, self.rank@, self.bound@),
                same_entries(n0, old(self).members@, self.nodes@, self.members@),
                n0 == old(self).nodes@,
                self.members@ == old(self).members@,
                self.root == old(self).root,
                children@.no_duplicates(),
                children@.len() >= 2,
                i <= children@.len(),
                pairs@.len() > 0 || i == 0,
                (pairs@ + children@.subrange(i as int, children@.len() as int)).no_duplicates(),
                forall|j: int| 0 <= j < children@.len() ==> old(self).members@.contains(#[trigger] children@[j] as int),
                forall|x: usize| #[trigger] tops.contains(x) ==> children@.contains(x),
                forall|x: usize|
                    #[trigger] tops.contains(x) <==> (pairs@.contains(x) || children@.subrange(
                        i as int,
                        children@.len() as int,
                    ).contains(x)),
                forall|x: usize| #[trigger] tops.contains(x) ==> self.members@.contains(x as int),
                forall|m: usize|
                    #[trigger] self.members@.contains(m as int) ==> (self.nodes@[m as int].parent is None <==> (
                    tops.contains(m) || (n0[m as int].parent is None && !children@.contains(m)))),
                forall|i: int|
                    0 <= i < n0.len() && !(#[trigger] old(self).members@.contains(i)) ==> self.nodes@[i].parent
                        == n0[i].parent,
            decreases children@.len() - i,
        {
            let ghost pairs0 = pairs@;
            let ghost i0 = i as int;
            let ghost rest0 = children@.subrange(i0, children@.len() as int);
            let ghost before = pairs0 + rest0;
            let ghost n1 = self.nodes@;
            if i + 1 < children.len() {
                let a = children[i];
                let b = children[i + 1];
                proof {
                    assert(before[pairs0.len() as int] == a);
                    assert(before[pairs0.len() as int + 1] == b);
                    assert(rest0[0] == a);
                    assert(rest0[1] == b);
                    assert(tops.contains(a) && tops.contains(b));
                    assert(self.nodes@[a as int].parent is None);
                    assert(self.nodes@[b as int].parent is None);
                }
                let w = self.merge(a, b);
                let ghost loser = if w == a { b } else { a };
                pairs.push(w);
                i += 2;
                proof {
                    tops = tops.remove(loser);
                    let rest1 = children@.subrange(i as int, children@.len() as int);
                    assert(pairs@ == pairs0.push(w));
                    assert(rest0 =~= seq![a, b] + rest1);
                    let after = pairs@ + rest1;
                    assert forall|j1: int, j2: int|
                        0 <= j1 < after.len() && 0 <= j2 < after.len() && j1 != j2 implies after[j1] != after[j2] by {
                        let k = pairs0.len() as int;
                        let b1 = if j1 < k { j1 } else if j1 == k { if w == a { k } else { k + 1 } } else { j1 + 1 };
                        let b2 = if j2 < k { j2 } else if j2 == k { if w == a { k } else { k + 1 } } else { j2 + 1 };
                        assert(after[j1] == before[b1]);
                        assert(after[j2] == before[b2]);
                    }
                    assert(!pairs0.contains(a) && !pairs0.contains(b)) by {
                        if pairs0.contains(a) {
                            let j = choose|j: int| 0 <= j < pairs0.len() && pairs0[j] == a;
                            assert(before[j] == a);
                        }
                        if pairs0.contains(b) {
                            let j = choose|j: int| 0 <= j < pairs0.len() && pairs0[j] == b;
                            assert(before[j] == b);
                        }
                    }
                    assert(!rest1.contains(a) && !rest1.contains(b)) by {
                        if rest1.contains(a) {
                            let j = choose|j: int| 0 <= j < rest1.len() && rest1[j] == a;
                            assert(children@[i + j] == a);
                            assert(children@[i - 2] == a);
                        }
                        if rest1.contains(b) {
                            let j = choose|j: int| 0 <= j < rest1.len() && rest1[j] == b;
                            assert(children@[i + j] == b);
                            assert(children@[i - 1] == b);
                        }
                    }
                    assert forall|x: usize| #[trigger] tops.contains(x) <==> (pairs@.contains(x) || rest1.contains(x)) by {
                        if x != a && x != b {
                            if rest0.contains(x) {
                                let j = choose|j: int| 0 <= j < rest0.len() && rest0[j] == x;
                                assert(j >= 2);
                                assert(rest1[j - 2] == x);
                            }
                            if rest1.contains(x) {
                                let j = choose|j: int| 0 <= j < rest1.len() && rest1[j] == x;
                                assert(rest0[j + 2] == x);
                            }
                            if pairs@.contains(x) {
                                let j = choose|j: int| 0 <= j < pairs@.len() && pairs@[j] == x;
                                assert(j < pairs0.len());
                                assert(pairs0[j] == x);
                            }
                            if pairs0.contains(x) {
                                let j = choose|j: int| 0 <= j < pairs0.len() && pairs0[j] == x;
                                assert(pairs@[j] == x);
                            }
                        } else if x == w {
                            assert(pairs@[pairs@.len() - 1] == w);
                        } else {
                            assert(x == loser);
                            if pairs@.contains(x) {
                                let j = choose|j: int| 0 <= j < pairs@.len() && pairs@[j] == x;
                                assert(j < pairs0.len());
                                assert(pairs0[j] == x);
                            }
                        }
                    }
                    assert forall|m: usize| #[trigger] self.members@.contains(m as int) implies (
                    self.nodes@[m as int].parent is None <==> (tops.contains(m) || (n0[m as int].parent is None
                        && !children@.contains(m)))) by {
                        if m != a && m != b {
                            assert(self.nodes@[m as int].parent == n1[m as int].parent);
                        } else {
                            assert(children@.contains(m)) by {
                                if m == a {
                                    assert(children@[i - 2] == a);
                                } else {
                                    assert(children@[i - 1] == b);
                                }
                            }
                        }
                    }
                }
            } else {
                pairs.push(children[i]);
                i += 1;
                proof {
                    let rest1 = children@.subrange(i as int, children@.len() as int);
                    let after = pairs@ + rest1;
                    assert(after =~= before);
                    assert forall|x: usize| #[trigger] tops.contains(x) <==> (pairs@.contains(x) || rest1.contains(x)) by {
                        if rest0.contains(x) {
                            let j = choose|j: int| 0 <= j < rest0.len() && rest0[j] == x;
                            assert(after[pairs0.len() + j] == x);
                            if j == 0 {
                                assert(pairs@[pairs0.len() as int] == x);
                            } else {
                                assert(rest1[j - 1] == x);
                            }
                        }
                        if pairs@.contains(x) {
                            let j = choose|j: int| 0 <= j < pairs@.len() && pairs@[j] == x;
                            if j < pairs0.len() {
                                assert(pairs0[j] == x);
                            } else {
                                assert(rest0[0] == x);
                            }
                        }
                        if rest1.contains(x) {
                            let j = choose|j: int| 0 <= j < rest1.len() && rest1[j] == x;
                            assert(rest0[j + 1] == x);
                        }
                        if pairs0.contains(x) {
                            let j = choose|j: int| 0 <= j < pairs0.len() && pairs0[j] == x;
                            assert(pairs@[j] == x);
                        }
                    }
                }
            }
        }
        proof {
            let rest = children@.subrange(i as int, children@.len() as int);
            assert(rest.len() == 0);
            assert forall|x: usize| #[trigger] tops.contains(x) <==> pairs@.contains(x) by {
                if rest.contains(x) {
                    let j = choose|j: int| 0 <= j < rest.len() && rest[j] == x;
                }
            }
            assert(pairs@ + rest =~= pairs@);
        }
        // Merge pairs from right to left (this is the "pairing" operation)
        let ghost pairs_all = pairs@;
        let mut result = match pairs.pop() {
            Some(x) => x,
            None => {
                return children[0];
            },
        };
        proof {
            assert(pairs_all =~= pairs@.push(result));
            assert forall|x: usize| #[trigger] tops.contains(x) <==> (x == result || pairs@.contains(x)) by {
                if pairs_all.contains(x) {
                    let j = choose|j: int| 0 <= j < pairs_all.len() && pairs_all[j] == x;
                    if j < pairs@.len() {
                        assert(pairs@[j] == x);
                    }
                }
                if pairs@.contains(x) {
                    let j = choose|j: int| 0 <= j < pairs@.len() && pairs@[j] == x;
                    assert(pairs_all[j] == x);
                }
                if x == result {
                    assert(pairs_all[pairs@.len() as int] == x);
                }
            }
        }
        while pairs.len() > 0
            invariant
                forest_ok(self.nodes@, self.members@, self.rank@, self.bound@),
                same_entries(n0, old(self).members@, self.nodes@, self.members@),
                n0 == old(self).nodes@,
                self.members@ == old(self).members@,
                self.root == old(self).root,
                pairs@.push(result).no_duplicates(),
                forall|x: usize| #[trigger] tops.contains(x) ==> children@.contains(x),
                forall|x: usize| #[trigger] tops.contains(x) <==> (x == result || pairs@.contains(x)),
                forall|x: usize| #[trigger] tops.contains(x) ==> self.members@.contains(x as int),
                forall|m: usize|
                    #[trigger] self.members@.contains(m as int) ==> (self.nodes@[m as int].parent is None <==> (
                    tops.contains(m) || (n0[m as int].parent is None && !children@.contains(m)))),
                forall|i: int|
                    0 <= i < n0.len() && !(#[trigger] old(self).members@.contains(i)) ==> self.nodes@[i].parent
                        == n0[i].parent,
            decreases pairs@.len(),
        {
            let ghost p0 = pairs@;
            let ghost before = p0.push(result);
            let pair = pairs.pop().unwrap();
            let ghost old_result = result;
            let ghost n1 = self.nodes@;
            proof {
                assert(p0 == pairs@.push(pair));
                assert(before[pairs@.len() as int] == pair);
                assert(before[pairs@.len() as int + 1] == old_result);
                assert(tops.contains(pair));
                assert(tops.contains(old_result));
                assert(self.nodes@[pair as int].parent is None);
                assert(self.nodes@[old_result as int].parent is None);
            }
            result = self.merge(result, pair);
            proof {
                let loser = if result == old_result { pair } else { old_result };
                tops = tops.remove(loser);
                assert forall|j1: int, j2: int|
                    0 <= j1 < pairs@.push(result).len() && 0 <= j2 < pairs@.push(result).len() && j1 != j2 implies pairs@.push(
                    result,
                )[j1] != pairs@.push(result)[j2] by {
                    let k = pairs@.len() as int;
                    let b1 = if j1 < k { j1 } else if result == pair { k } else { k + 1 };
                    let b2 = if j2 < k { j2 } else if result == pair { k } else { k + 1 };
                    assert(pairs@.push(result)[j1] == before[b1]);
                    assert(pairs@.push(result)[j2] == before[b2]);
                }
                assert forall|x: usize| #[trigger] tops.contains(x) <==> (x == result || pairs@.contains(x)) by {
                    if pairs@.contains(x) {
                        let j = choose|j: int| 0 <= j < pairs@.len() && pairs@[j] == x;
                        assert(p0[j] == x);
                        assert(before[j] == x);
                        assert(x != loser);
                    }
                    if p0.contains(x) {
                        let j = choose|j: int| 0 <= j < p0.len() && p0[j] == x;
                        if j < pairs@.len() {
                            assert(pairs@[j] == x);
                        }
                    }
                }
                assert forall|m: usize| #[trigger] self.members@.contains(m as int) implies (
                self.nodes@[m as int].parent is None <==> (tops.contains(m) || (n0[m as int].parent is None
                    && !children@.contains(m)))) by {
                    if m != pair && m != old_result {
                        assert(self.nodes@[m as int].parent == n1[m as int].parent);
                    }
                }
            }
        }
        proof {
            assert forall|m: usize| #[trigger] self.members@.contains(m as int) implies (self.nodes@[m as int].parent
                is None <==> (m == result || (n0[m as int].parent is None && !children@.contains(m)))) by {
                if tops.contains(m) {
                    assert(m == result);
                }
            }
            assert(tops.contains(result));
        }
        result
    }

    /// Set the key of slot `idx` to `key`, no larger than its key; a member must have no
    /// parent.
    fn set_key(&mut self, idx: usize, key: u32)
        requires
            forest_ok(old(self).nodes@, old(self).members@, old(self).rank@, old(self).bound@),
            idx < old(self).nodes@.len(),
            key <= old(self).nodes@[idx as int].key,
            old(self).members@.contains(idx as int) ==> old(self).nodes@[idx as int].parent is None,
        ensures
            forest_ok(final(self).nodes@, final(self).members@, final(self).rank@, final(self).bound@),
            final(self).members@ == old(self).members@,
            final(self).root == old(self).root,
            final(self).nodes@.len() == old(self).nodes@.len(),
            final(self).nodes@[idx as int].key == key,
            final(self).nodes@[idx as int].node_id == old(self).nodes@[idx as int].node_id,
            forall|i: int|
                0 <= i < final(self).nodes@.len() ==> #[trigger] final(self).nodes@[i].parent == old(self).nodes@[i].parent,
            forall|i: int|
                0 <= i < final(self).nodes@.len() && i != idx ==> (#[trigger] final(self).nodes@[i]).key == old(self).nodes@[i].key && final(self).nodes@[i].node_id == old(self).nodes@[i].node_id,
            old(self).members@.contains(idx as int) ==> final(self)@ == old(self)@.remove(
                (old(self).nodes@[idx as int].key, old(self).nodes@[idx as int].node_id),
            ).insert((key, old(self).nodes@[idx as int].node_id)),
            !old(self).members@.contains(idx as int) ==> final(self)@ == old(self)@,
    {
        let ghost n0 = self.nodes@;
        self.nodes[idx].key = key;
        proof {
            let n1 = self.nodes@;
            let m = self.members@;
            let rk = self.rank@;
            assert forall|x: int| #[trigger] m.contains(x) implies 0 <= x < n1.len() && child_ok(n1, m, rk, x) by {
                assert(child_ok(n0, m, rk, x));
                let ch = n1[x].children@;
                assert(ch == n0[x].children@);
                assert forall|j: int| 0 <= j < ch.len() implies {
                    let c = #[trigger] ch[j] as int;
                    &&& m.contains(c)
                    &&& n1[c].parent == Some(x as usize)
                    &&& n1[x].key <= n1[c].key
                    &&& rk[c] < rk[x]
                } by {
                    let c = ch[j] as int;
                    assert(n0[c].parent == Some(x as usize));
                    if c == idx {
                        assert(m.contains(c));
                        assert(false);
                    }
                }
            }
            assert forall|x: int| #[trigger] m.contains(x) && !Set::<int>::empty().contains(x) && n1[x].parent is Some implies {
                let q = n1[x].parent->Some_0;
                &&& m.contains(q as int)
                &&& n1[q as int].children@.contains(x as usize)
            } by {
                assert(n0[x].parent == n1[x].parent);
            }
            lemma_items_update(n0, m, n1, m, idx as int, n0.len());
            let x0 = (n0[idx as int].key, n0[idx as int].node_id);
            let x1 = (key, n0[idx as int].node_id);
            if m.contains(idx as int) {
                assert(item_at(n0, m, idx as int) == Multiset::singleton(x0));
                assert(item_at(n1, m, idx as int) == Multiset::singleton(x1));
                let a = items_upto(n1, m, n0.len());
                let b = items_upto(n0, m, n0.len());
                lemma_items_count(n0, m, n0.len(), x0);
                assert(b.count(x0) > 0);
                assert forall|y: (u32, usize)| a.count(y) == b.remove(x0).insert(x1).count(y) by {
                    assert(a.add(Multiset::singleton(x0)).count(y) == b.add(Multiset::singleton(x1)).count(y));
                }
                assert(self@ =~= old(self)@.remove(x0).insert(x1));
            } else {
                assert(item_at(n0, m, idx as int) == Multiset::<(u32, usize)>::empty());
                assert(item_at(n1, m, idx as int) == Multiset::<(u32, usize)>::empty());
                let a = items_upto(n1, m, n0.len());
                let b = items_upto(n0, m, n0.len());
                assert forall|y: (u32, usize)| a.count(y) == b.count(y) by {
                    assert(a.add(Multiset::empty()).count(y) == b.add(Multiset::empty()).count(y));
                }
                assert(self@ =~= old(self)@);
            }
        }
    }

    /// Add a new single-node tree with the given entry to the arena and the members.
    fn add_node(&mut self, key: u32, node_id: usize) -> (idx: usize)
        requires
            forest_ok(old(self).nodes@, old(self).members@, old(self).rank@, old(self).bound@),
            forall|i: int|
                0 <= i < old(self).nodes@.len() && !(#[trigger] old(self).members@.contains(i)) ==> old(self).nodes@[i].parent is None,
        ensures
            forest_ok(final(self).nodes@, final(self).members@, final(self).rank@, final(self).bound@),
            forall|i: int|
                0 <= i < final(self).nodes@.len() && !(#[trigger] final(self).members@.contains(i)) ==> final(self).nodes@[i].parent is None,
            idx == old(self).nodes@.len(),
            final(self).nodes@.len() == idx + 1,
            forall|i: int| 0 <= i < idx ==> #[trigger] final(self).nodes@[i] == old(self).nodes@[i],
            final(self).nodes@[idx as int].key == key,
            final(self).nodes@[idx as int].node_id == node_id,
            final(self).nodes@[idx as int].parent is None,
            final(self).members@ == old(self).members@.insert(idx as int),
            final(self).root == old(self).root,
            final(self)@ == old(self)@.insert((key, node_id)),
    {
        let idx = self.nodes.len();
        let ghost n0 = self.nodes@;
        let ghost m0 = self.members@;
        self.nodes.push(Node::new(key, node_id));
        self.rank = Ghost(self.rank@.push(0));
        self.bound = Ghost(self.bound@ + 1);
        self.members = Ghost(self.members@.insert(idx as int));
        proof {
            let n1 = self.nodes@;
            let m1 = self.members@;
            let rk = self.rank@;
            assert(n1.len() == self.nodes.len());
            assert(idx as int == n0.len());
            assert forall|i: int| 0 <= i < rk.len() implies #[trigger] rk[i] < self.bound@ by {}
            assert forall|x: int| #[trigger] m1.contains(x) implies 0 <= x < n1.len() && child_ok(n1, m1, rk, x) by {
                if x != idx {
                    assert(child_ok(n0, m0, old(self).rank@, x));
                    let ch = n1[x].children@;
                    assert(n1[x] == n0[x]);
                    assert forall|j: int| 0 <= j < ch.len() implies {
                        let c = #[trigger] ch[j] as int;
                        &&& m1.contains(c)
                        &&& n1[c].parent == Some(x as usize)
                        &&& n1[x].key <= n1[c].key
                        &&& rk[c] < rk[x]
                    } by {
                        let c = ch[j] as int;
                        assert(m0.contains(c));
                        assert(n1[c] == n0[c]);
                    }
                }
            }
            assert forall|x: int| #[trigger] m1.contains(x) && !Set::<int>::empty().contains(x) && n1[x].parent is Some implies {
                let q = n1[x].parent->Some_0;
                &&& m1.contains(q as int)
                &&& n1[q as int].children@.contains(x as usize)
            } by {
                assert(x != idx);
                assert(n1[x] == n0[x]);
                let q = n0[x].parent->Some_0;
                assert(n1[q as int] == n0[q as int]);
            }
            assert forall|i: int| 0 <= i < n1.len() && !(#[trigger] m1.contains(i)) implies n1[i].parent is None by {
                assert(n1[i] == n0[i]);
            }
            lemma_items_update(n0, m0, n1, m1, idx as int, n0.len());
            assert(items_upto(n1, m1, n1.len()) == items_upto(n1, m1, n0.len()).add(item_at(n1, m1, idx as int)));
            assert(item_at(n1, m1, idx as int) == Multiset::singleton((key, node_id)));
            assert(self@ =~= old(self)@.insert((key, node_id)));
        }
        idx
    }

    /// Insert a node with the given key; returns the handle of the new heap node.
    #[verifier::rlimit(30)]
    pub fn insert(&mut self, key: u32, node_id: usize) -> (handle: PairingHandle)
        requires
            old(self).well_formed(),
        ensures
            final(self).well_formed(),
            final(self)@ == old(self)@.insert((key, node_id)),
            !old(self).owns(handle),
            old(self).entry_of(handle) is None,
            final(self).owns(handle),
            final(self).entry_of(handle) == Some((key, node_id)),
            forall|h: PairingHandle| h != handle ==> #[trigger] final(self).entry_of(h) == old(self).entry_of(h),
            forall|h: PairingHandle| old(self).owns(h) ==> #[trigger] final(self).owns(h),
            forall|n: usize| #[trigger] final(self).holds_node(n) == (old(self).holds_node(n) || n == node_id),
    {
        let ghost n0 = self.nodes@;
        let ghost m0 = self.members@;
        let idx = self.add_node(key, node_id);
        let ghost n1 = self.nodes@;
        let ghost m1 = self.members@;
        let new_root = match self.root {
            None => idx,
            Some(r) => {
                proof {
                    assert(n1[r as int] == n0[r as int]);
                }
                self.merge(r, idx)
            },
        };
        self.root = Some(new_root);
        let handle = PairingHandle { index: idx };
        proof {
            lemma_same_entries(n1, m1, self.nodes@, self.members@);
            assert forall|i: int|
                0 <= i < self.nodes@.len() && !(#[trigger] self.members@.contains(i)) implies self.nodes@[i].parent
                is None by {
                assert(i != idx);
            }
            assert forall|x: int| #[trigger] self.members@.contains(x) && self.nodes@[x].parent is None implies x
                == new_root by {
                if x != idx {
                    assert(n1[x] == n0[x]);
                }
            }
            assert forall|h: PairingHandle| h != handle implies #[trigger] self.entry_of(h) == old(self).entry_of(h) by {
                h.lemma_same_index(handle);
                if h.index < n0.len() {
                    assert(n1[h.index as int] == n0[h.index as int]);
                }
            }
            assert forall|n: usize| #[trigger] self.holds_node(n) == (old(self).holds_node(n) || n == node_id) by {
                if self.holds_node(n) {
                    let i = choose|i: int| #[trigger] self.members@.contains(i) && self.nodes@[i].node_id == n;
                    if i != idx {
                        assert(n1[i] == n0[i]);
                        assert(m0.contains(i) && n0[i].node_id == n);
                    }
                }
                if old(self).holds_node(n) {
                    let i = choose|i: int| #[trigger] m0.contains(i) && n0[i].node_id == n;
                    assert(n1[i] == n0[i]);
                    assert(self.members@.contains(i) && self.nodes@[i].node_id == n);
                }
                if n == node_id {
                    assert(self.members@.contains(idx as int) && self.nodes@[idx as int].node_id == n);
                }
            }
        }
        handle
    }

    /// Check if the heap is empty.
    pub fn is_empty(&self) -> (r: bool)
        requires
            self.well_formed(),
        ensures
            r == (self@.len() == 0),
    {
        proof {
            match self.root {
                None => {
                    lemma_items_empty(self.nodes@, self.members@, self.nodes@.len());
                },
                Some(root) => {
                    let x = (self.nodes@[root as int].key, self.nodes@[root as int].node_id);
                    lemma_items_count(self.nodes@, self.members@, self.nodes@.len(), x);
                    assert(self@.count(x) > 0);
                },
            }
        }
        self.root.is_none()
    }

    /// Extract and return the entry of least key (the root's), or `None` when the heap
    /// is empty.  The children of the root are merged by the pairing operation.
    #[verifier::rlimit(40)]
    pub fn extract_min(&mut self) -> (r: Option<(u32, usize)>)
        requires
            old(self).well_formed(),
        ensures
            final(self).well_formed(),
            forall|h: PairingHandle| #[trigger] final(self).owns(h) == old(self).owns(h),
            forall|n: usize| #[trigger] final(self).holds_node(n) ==> old(self).holds_node(n),
            match r {
                None => {
                    &&& old(self)@.len() == 0
                    &&& final(self)@ == old(self)@
                    &&& forall|h: PairingHandle| #[trigger] final(self).entry_of(h) == old(self).entry_of(h)
                },
                Some(x) => {
                    &&& old(self)@.count(x) > 0
                    &&& final(self)@ == old(self)@.remove(x)
                    &&& forall|y: (u32, usize)| #[trigger] old(self)@.count(y) > 0 ==> x.0 <= y.0
                    &&& exists|hx: PairingHandle|
                        {
                            &&& #[trigger] old(self).entry_of(hx) == Some(x)
                            &&& final(self).entry_of(hx) is None
                            &&& forall|h: PairingHandle|
                                h != hx ==> #[trigger] final(self).entry_of(h) == old(self).entry_of(h)
                        }
                },
            },
    {
        let min_node = match self.root {
            None => {
                proof {
                    lemma_items_empty(self.nodes@, self.members@, self.nodes@.len());
                }
                return None;
            },
            Some(r) => r,
        };
        let ghost n0 = self.nodes@;
        let ghost m0 = self.members@;
        self.root = None;
        let result = (self.nodes[min_node].key, self.nodes[min_node].node_id);
        proof {
            // The root is no heavier than any member
            assert forall|m: int| #[trigger] m0.contains(m) implies n0[min_node as int].key <= n0[m].key by {
                lemma_top_below(n0, m0, self.rank@, self.bound@, m);
            }
        }
        // Extract children and merge them using the pairing operation
        let mut children: Vec<usize> = Vec::new();
        std::mem::swap(&mut self.nodes[min_node].children, &mut children);
        self.members = Ghost(self.members@.remove(min_node as int));
        let ghost m1 = self.members@;
        let ghost n1 = self.nodes@;
        proof {
            assert(children@ == n0[min_node as int].children@);
            assert(child_ok(n0, m0, self.rank@, min_node as int));
        }
        let mut order: Vec<usize> = Vec::new();
        let mut k: usize = children.len();
        while k > 0
            invariant
                k <= children@.len(),
                children@ == n0[min_node as int].children@,
                children@.no_duplicates(),
                self.members@ == m1,
                m1 == m0.remove(min_node as int),
                self.root is None,
                self.rank == old(self).rank,
                self.bound == old(self).bound,
                self.nodes@.len() == n0.len(),
                n0 == old(self).nodes@,
                m0 == old(self).members@,
                min_node < n0.len(),
                m0.contains(min_node as int),
                n0[min_node as int].parent is None,
                forest_ok(n0, m0, old(self).rank@, old(self).bound@),
                forall|i: int| 0 <= i < n0.len() && !(#[trigger] m0.contains(i)) ==> n0[i].parent is None,
                forall|m: int| #[trigger] m0.contains(m) && n0[m].parent is None ==> m == min_node,
                self.nodes@[min_node as int].children@.len() == 0,
                forall|i: int|
                    0 <= i < n0.len() ==> (#[trigger] self.nodes@[i]).key == n0[i].key && self.nodes@[i].node_id
                        == n0[i].node_id,
                forall|i: int| 0 <= i < n0.len() && i != min_node ==> #[trigger] self.nodes@[i].children == n0[i].children,
                order@.len() == children@.len() - k,
                forall|j: int| 0 <= j < order@.len() ==> #[trigger] order@[j] == children@[children@.len() - 1 - j],
                forall|i: int|
                    0 <= i < n0.len() ==> #[trigger] self.nodes@[i].parent == if children@.subrange(
                        k as int,
                        children@.len() as int,
                    ).contains(i as usize) {
                        None
                    } else {
                        n0[i].parent
                    },
            decreases k,
        {
            k -= 1;
            let c = children[k];
            self.nodes[c].parent = None;
            order.push(c);
            proof {
                let s1 = children@.subrange(k as int, children@.len() as int);
                let s0 = children@.subrange(k + 1, children@.len() as int);
                assert forall|i: int| 0 <= i < n0.len() implies #[trigger] self.nodes@[i].parent == if s1.contains(
                    i as usize,
                ) {
                    None
                } else {
                    n0[i].parent
                } by {
                    if i == c as int {
                        assert(s1[0] == c);
                    } else {
                        if s1.contains(i as usize) {
                            let j = choose|j: int| 0 <= j < s1.len() && s1[j] == i as usize;
                            assert(j > 0);
                            assert(s0[j - 1] == i as usize);
                        }
                        if s0.contains(i as usize) {
                            let j = choose|j: int| 0 <= j < s0.len() && s0[j] == i as usize;
                            assert(s1[j + 1] == i as usize);
                        }
                    }
                }
            }
        }
        proof {
            let n2 = self.nodes@;
            let rk = self.rank@;
            assert(children@.subrange(0, children@.len() as int) =~= children@);
            // the children of the root are now parentless members; every other member keeps its parent
            assert forall|x: int| #[trigger] m1.contains(x) implies 0 <= x < n2.len() && child_ok(n2, m1, rk, x) by {
                assert(child_ok(n0, m0, rk, x));
                let ch = n2[x].children@;
                assert(ch == n0[x].children@);
                assert forall|j: int| 0 <= j < ch.len() implies {
                    let c = #[trigger] ch[j] as int;
                    &&& m1.contains(c)
                    &&& n2[c].parent == Some(x as usize)
                    &&& n2[x].key <= n2[c].key
                    &&& rk[c] < rk[x]
                } by {
                    let c = ch[j] as int;
                    assert(n0[c].parent == Some(x as usize));
                    assert(c != min_node);
                    if children@.contains(c as usize) {
                        let jj = choose|jj: int| 0 <= jj < children@.len() && children@[jj] == c as usize;
                        assert(n0[c].parent == Some(min_node));
                    }
                }
            }
            assert forall|x: int| #[trigger] m1.contains(x) && !Set::<int>::empty().contains(x) && n2[x].parent is Some implies {
                let q = n2[x].parent->Some_0;
                &&& m1.contains(q as int)
                &&& n2[q as int].children@.contains(x as usize)
            } by {
                assert(!children@.contains(x as usize));
                let q = n0[x].parent->Some_0;
                assert(n0[q as int].children@.contains(x as usize));
                if q == min_node {
                    assert(false);
                }
            }
            assert(forest_ok(n2, m1, rk, self.bound@));
            assert(order@.no_duplicates()) by {
                assert forall|j1: int, j2: int| 0 <= j1 < order@.len() && 0 <= j2 < order@.len() && j1 != j2 implies order@[j1]
                    != order@[j2] by {
                    assert(order@[j1] == children@[children@.len() - 1 - j1]);
                    assert(order@[j2] == children@[children@.len() - 1 - j2]);
                }
            }
            assert forall|x: usize| #[trigger] order@.contains(x) <==> children@.contains(x) by {
                if order@.contains(x) {
                    let j = choose|j: int| 0 <= j < order@.len() && order@[j] == x;
                    assert(children@[children@.len() - 1 - j] == x);
                }
                if children@.contains(x) {
                    let j = choose|j: int| 0 <= j < children@.len() && children@[j] == x;
                    assert(order@[children@.len() - 1 - j] == x);
                }
            }
            assert forall|j: int| 0 <= j < order@.len() implies m1.contains(#[trigger] order@[j] as int)
                && n2[order@[j] as int].parent is None by {
                let c = order@[j];
                assert(c == children@[children@.len() - 1 - j]);
                assert(children@.contains(c));
            }
            // the entries: the root's left the heap
            lemma_items_update(n0, m0, n2, m1, min_node as int, n0.len());
            assert(item_at(n0, m0, min_node as int) == Multiset::singleton(result));
            assert(item_at(n2, m1, min_node as int) == Multiset::<(u32, usize)>::empty());
            lemma_cancel(items_upto(n2, m1, n0.len()), items_upto(n0, m0, n0.len()), result, Multiset::empty());
        }
        let ghost n2 = self.nodes@;
        if order.len() > 0 {
            let new_root = self.pair_children(order);
            self.root = Some(new_root);
            proof {
                lemma_same_entries(n2, m1, self.nodes@, self.members@);
                assert forall|x: int| #[trigger] self.members@.contains(x) && self.nodes@[x].parent is None implies x
                    == new_root by {
                    assert(self.members@.contains((x as usize) as int));
                    if n2[x].parent is None {
                        assert(children@.contains(x as usize));
                        assert(order@.contains(x as usize));
                    }
                }
            }
        } else {
            proof {
                assert forall|m: int| !(#[trigger] self.members@.contains(m)) by {
                    if self.members@.contains(m) {
                        if n2[m].parent is None {
                            assert(children@.contains(m as usize));
                            assert(order@.contains(m as usize));
                        } else {
                            let q = n2[m].parent->Some_0;
                            assert(self.members@.contains(q as int));
                            lemma_top_below(n2, m1, self.rank@, self.bound@, m);
                            let t = choose|t: int|
                                #[trigger] m1.contains(t) && n2[t].parent is None && n2[t].key <= n2[m].key;
                            assert(children@.contains(t as usize));
                            assert(order@.contains(t as usize));
                        }
                    }
                }
            }
        }
        proof {
            let nf = self.nodes@;
            assert forall|i: int| 0 <= i < nf.len() && !(#[trigger] self.members@.contains(i)) implies nf[i].parent
                is None by {
                if i != min_node {
                    assert(!m0.contains(i));
                    assert(n0[i].parent is None);
                    assert(!children@.contains(i as usize)) by {
                        if children@.contains(i as usize) {
                            let j = choose|j: int| 0 <= j < children@.len() && children@[j] == i as usize;
                            assert(m0.contains(i));
                        }
                    }
                }
            }
            assert forall|y: (u32, usize)| #[trigger] old(self)@.count(y) > 0 implies result.0 <= y.0 by {
                lemma_items_count(n0, m0, n0.len(), y);
            }
            let hx = PairingHandle { index: min_node };
            assert(old(self).entry_of(hx) == Some(result));
            assert forall|h: PairingHandle| h != hx implies #[trigger] self.entry_of(h) == old(self).entry_of(h) by {
                h.lemma_same_index(hx);
            }
            assert forall|n: usize| #[trigger] self.holds_node(n) implies old(self).holds_node(n) by {
                let i = choose|i: int| #[trigger] self.members@.contains(i) && self.nodes@[i].node_id == n;
                assert(m0.contains(i) && n0[i].node_id == n);
            }
        }
        Some(result)
    }

    /// Cut the node at slot `idx` from its parent and merge it with the root, lowering its
    /// key to `new_key` on the way; a node without a parent (one that left the heap) only
    /// gets the new key.
    fn cut_and_merge(&mut self, idx: usize, new_key: u32)
        requires
            old(self).well_formed(),
            idx < old(self).nodes@.len(),
            new_key < old(self).nodes@[idx as int].key,
            old(self).root != Some(idx),
        ensures
            final(self).well_formed(),
            same_entries(old(self).nodes@.update(idx as int, Node { key: new_key, ..old(self).nodes@[idx as int] }), old(self).members@, final(self).nodes@, final(self).members@),
            old(self).members@.contains(idx as int) ==> final(self)@ == old(self)@.remove(
                (old(self).nodes@[idx as int].key, old(self).nodes@[idx as int].node_id),
            ).insert((new_key, old(self).nodes@[idx as int].node_id)),
            !old(self).members@.contains(idx as int) ==> final(self)@ == old(self)@,
    {
        let ghost n0 = self.nodes@;
        let ghost m0 = self.members@;
        match self.nodes[idx].parent {
            Some(_) => {
                // Remove the node from its parent's child list, then merge it with the root
                self.detach(idx);
                proof {
                    lemma_same_entries(n0, m0, self.nodes@, self.members@);
                }
                self.set_key(idx, new_key);
                let ghost n1 = self.nodes@;
                let r = match self.root {
                    Some(r) => r,
                    None => {
                        proof {
                            assert(m0.contains(idx as int));
                            assert(false);
                        }
                        return ;
                    },
                };
                proof {
                    assert(r != idx);
                    assert(n1[r as int].parent == n0[r as int].parent);
                }
                let new_root = self.merge(r, idx);
                self.root = Some(new_root);
                proof {
                    let nf = self.nodes@;
                    lemma_same_entries(n1, m0, nf, self.members@);
                    assert forall|x: int| #[trigger] self.members@.contains(x) && nf[x].parent is None implies x
                        == new_root by {
                        if x != r && x != idx {
                            assert(nf[x].parent == n0[x].parent);
                        }
                    }
                    assert forall|i: int| 0 <= i < nf.len() && !(#[trigger] self.members@.contains(i)) implies nf[i].parent
                        is None by {
                        assert(i != r && i != idx);
                        assert(nf[i].parent == n0[i].parent);
                    }
                    assert forall|j: int| 0 <= j < n0.len() implies (#[trigger] nf[j]).key == n0.update(idx as int, Node { key: new_key, ..n0[idx as int] })[j].key by {}
                }
            },
            None => {
                // Not in the heap (it was extracted): only the key changes
                self.set_key(idx, new_key);
            },
        }
    }

    /// Decrease the key of the node that `handle` designates to `new_key`.  Nothing
    /// changes when `new_key` is not below its key; a node that already left the heap
    /// does not come back.
    pub fn decrease_key(&mut self, handle: &PairingHandle, new_key: u32)
        requires
            old(self).well_formed(),
            old(self).owns(*handle),
        ensures
            final(self).well_formed(),
            forall|h: PairingHandle| #[trigger] final(self).owns(h) == old(self).owns(h),
            forall|n: usize| #[trigger] final(self).holds_node(n) == old(self).holds_node(n),
            forall|h: PairingHandle| h != *handle ==> #[trigger] final(self).entry_of(h) == old(self).entry_of(h),
            ({
                let e = old(self).entry_of(*handle)->Some_0;
                if old(self).entry_of(*handle) is Some && new_key < e.0 {
                    &&& final(self)@ == old(self)@.remove(e).insert((new_key, e.1))
                    &&& final(self).entry_of(*handle) == Some((new_key, e.1))
                } else {
                    &&& final(self)@ == old(self)@
                    &&& final(self).entry_of(*handle) == old(self).entry_of(*handle)
                }
            }),
    {
        let idx = handle.index;
        let node_key = self.nodes[idx].key;
        if new_key >= node_key {
            return ;
        }
        let ghost n0 = self.nodes@;
        let ghost m0 = self.members@;
        let is_root = match self.root {
            Some(r) => r == idx,
            None => false,
        };
        if is_root {
            // The root only needs its key updated
            self.set_key(idx, new_key);
        } else {
            self.cut_and_merge(idx, new_key);
        }
        proof {
            let nf = self.nodes@;
            assert forall|j: int| 0 <= j < n0.len() && j != idx implies (#[trigger] nf[j]).key == n0[j].key
                && nf[j].node_id == n0[j].node_id by {
                if !is_root {
                    assert(n0.update(idx as int, Node { key: new_key, ..n0[idx as int] })[j] == n0[j]);
                }
            }
            if !is_root {
                assert(n0.update(idx as int, Node { key: new_key, ..n0[idx as int] })[idx as int].node_id == n0[idx as int].node_id);
            }
            assert forall|n: usize| #[trigger] self.holds_node(n) == old(self).holds_node(n) by {
                if self.holds_node(n) {
                    let i = choose|i: int| #[trigger] self.members@.contains(i) && self.nodes@[i].node_id == n;
                    assert(m0.contains(i) && n0[i].node_id == n);
                }
                if old(self).holds_node(n) {
                    let i = choose|i: int| #[trigger] m0.contains(i) && n0[i].node_id == n;
                    assert(self.members@.contains(i) && self.nodes@[i].node_id == n);
                }
            }
            assert forall|h: PairingHandle| h != *handle implies #[trigger] self.entry_of(h) == old(self).entry_of(h) by {
                h.lemma_same_index(*handle);
            }
        }
    }
}

impl Default for PairingHeap {
    fn default() -> (r: Self)
        ensures
            r.well_formed(),
            r@ =~= Multiset::empty(),
            forall|h: PairingHandle| #[trigger] r.entry_of(h) is None,
            forall|n: usize| !(#[trigger] r.holds_node(n)),
    {
        Self::new()
    }
}

} // verus!
