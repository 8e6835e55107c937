//! Binary min-heap priority queue, and Dijkstra's algorithm on it.
use crate::dijkstra::heap_trait::PriorityQueue;
use crate::graph::{adjacency, edges_in_range, is_path_and_distance};
use vstd::multiset::Multiset;
use vstd::prelude::*;

verus! {

broadcast use {
    vstd::multiset::group_multiset_axioms,
    vstd::multiset::group_multiset_properties,
    vstd::seq_lib::group_to_multiset_ensures,
};

/// Entries are ordered by key, then by node id (the order of `(u32, usize)` pairs).
pub open spec fn entry_le(a: (u32, usize), b: (u32, usize)) -> bool {
    a.0 < b.0 || (a.0 == b.0 && a.1 <= b.1)
}

fn entry_lt(a: (u32, usize), b: (u32, usize)) -> (r: bool)
    ensures
        r == !entry_le(b, a),
{
    a.0 < b.0 || (a.0 == b.0 && a.1 < b.1)
}

/// Every entry is no greater than its children (the entries at `2i + 1` and `2i + 2`).
pub open spec fn heap_ordered(s: Seq<(u32, usize)>) -> bool {
    forall|k: int| 0 < k < s.len() ==> entry_le(s[(k - 1) / 2], #[trigger] s[k])
}

/// A binary min-heap of `(key, node_id)` entries stored in a vector.
///
/// Entries come out in the order of `(key, node_id)` pairs.  This queue does not support
/// `decrease_key`, so nodes are re-inserted when their distance decreases (which is why
/// Dijkstra's algorithm skips stale entries).
pub struct BinaryHeapPQ {
    heap: Vec<(u32, usize)>,
}

proof fn lemma_root_least(s: Seq<(u32, usize)>, k: int)
    requires
        heap_ordered(s),
        0 <= k < s.len(),
    ensures
        entry_le(s[0], s[k]),
    decreases k,
{
    if k > 0 {
        lemma_root_least(s, (k - 1) / 2);
        assert(entry_le(s[(k - 1) / 2], s[k]));
    }
}

proof fn lemma_swap_items(s: Seq<(u32, usize)>, i: int, j: int)
    requires
        0 <= i < s.len(),
        0 <= j < s.len(),
    ensures
        s.update(i, s[j]).update(j, s[i]).to_multiset() =~= s.to_multiset(),
{
    let t = s.update(i, s[j]);
    vstd::seq_lib::to_multiset_update(s, i, s[j]);
    vstd::seq_lib::to_multiset_update(t, j, s[i]);
    if i == j {
        assert(t =~= s);
        assert(t.update(j, s[i]) =~= s);
    } else {
        assert(t[j] == s[j]);
    }
}

impl BinaryHeapPQ {
    /// The entries the heap holds.
    pub closed spec fn view(&self) -> Multiset<(u32, usize)> {
        self.heap@.to_multiset()
    }

    /// The heap order of the stored entries.
    pub closed spec fn well_formed(&self) -> bool {
        heap_ordered(self.heap@)
    }

    /// An empty heap.
    pub fn new() -> (r: Self)
        ensures
            r.well_formed(),
            r@ =~= Multiset::empty(),
    {
        BinaryHeapPQ { heap: Vec::new() }
    }

    fn push_entry(&mut self, x: (u32, usize))
        requires
            heap_ordered(old(self).heap@),
        ensures
            heap_ordered(final(self).heap@),
            final(self).heap@.to_multiset() =~= old(self).heap@.to_multiset().insert(x),
    {
        self.heap.push(x);
        let n = self.heap.len();
        let mut i = n - 1;
        proof {
            assert(self.heap@ =~= old(self).heap@.push(x));
        }
        loop
            invariant
                self.heap@.len() == n,
                0 <= i < n,
                self.heap@.to_multiset() =~= old(self).heap@.to_multiset().insert(x),
                forall|k: int|
                    0 < k < n && k != i ==> entry_le(self.heap@[(k - 1) / 2], #[trigger] self.heap@[k]),
                forall|k: int|
                    0 < k < n && i > 0 && (k - 1) / 2 == i ==> entry_le(
                        self.heap@[(i - 1) / 2],
                        #[trigger] self.heap@[k],
                    ),
            ensures
                heap_ordered(self.heap@),
                self.heap@.to_multiset() =~= old(self).heap@.to_multiset().insert(x),
            decreases i,
        {
            if i == 0 {
                break ;
            }
            let p = (i - 1) / 2;
            if !entry_lt(self.heap[i], self.heap[p]) {
                break ;
            }
            let a = self.heap[p];
            let b = self.heap[i];
            let ghost s = self.heap@;
            self.heap.set(p, b);
            self.heap.set(i, a);
            proof {
                lemma_swap_items(s, p as int, i as int);
                assert(self.heap@ =~= s.update(p as int, s[i as int]).update(i as int, s[p as int]));
                assert forall|k: int|
                    0 < k < n && k != p implies entry_le(
                    self.heap@[(k - 1) / 2],
                    #[trigger] self.heap@[k],
                ) by {
                    if k == i {
                    } else if (k - 1) / 2 == i {
                    } else if (k - 1) / 2 == p {
                        assert(entry_le(s[p as int], s[k]));
                    } else if k == p {
                    } else {
                        assert(entry_le(s[(k - 1) / 2], s[k]));
                    }
                }
                assert forall|k: int|
                    0 < k < n && p > 0 && (k - 1) / 2 == p implies entry_le(
                    self.heap@[(p - 1) / 2],
                    #[trigger] self.heap@[k],
                ) by {
                    assert(entry_le(s[(p - 1) / 2], s[p as int]));
                    if k != i {
                        assert(entry_le(s[p as int], s[k]));
                    }
                }
            }
            i = p;
        }
    }

    fn pop_min(&mut self) -> (r: (u32, usize))
        requires
            heap_ordered(old(self).heap@),
            old(self).heap@.len() > 0,
        ensures
            heap_ordered(final(self).heap@),
            old(self).heap@.to_multiset().count(r) > 0,
            final(self).heap@.to_multiset() =~= old(self).heap@.to_multiset().remove(r),
            forall|y: (u32, usize)| old(self).heap@.to_multiset().count(y) > 0 ==> entry_le(r, y),
    {
        let ghost s0 = self.heap@;
        proof {
            assert forall|y: (u32, usize)| s0.to_multiset().count(y) > 0 implies entry_le(s0[0], y) by {
                let k = choose|k: int| 0 <= k < s0.len() && s0[k] == y;
                lemma_root_least(s0, k);
            }
            assert(s0.contains(s0[0]));
        }
        let last = self.heap.pop().unwrap();
        proof {
            assert(self.heap@.push(last) =~= s0);
        }
        let n = self.heap.len();
        if n == 0 {
            return last;
        }
        let top = self.heap[0];
        let ghost s1 = self.heap@;
        self.heap.set(0, last);
        proof {
            vstd::seq_lib::to_multiset_update(s1, 0, last);
            assert(s1[0] == s0[0]);
        }
        let mut i: usize = 0;
        loop
            invariant
                self.heap@.len() == n,
                n > 0,
                0 <= i < n,
                self.heap@.to_multiset() =~= s0.to_multiset().remove(top),
                forall|k: int|
                    0 < k < n && (k - 1) / 2 != i ==> entry_le(self.heap@[(k - 1) / 2], #[trigger] self.heap@[k]),
                forall|k: int|
                    0 < k < n && i > 0 && (k - 1) / 2 == i ==> entry_le(
                        self.heap@[(i - 1) / 2],
                        #[trigger] self.heap@[k],
                    ),
            ensures
                heap_ordered(self.heap@),
                self.heap@.to_multiset() =~= s0.to_multiset().remove(top),
            decreases n - i,
        {
            if i >= n / 2 {
                break ;
            }
            let l = 2 * i + 1;
            let r = 2 * i + 2;
            let mut smallest = i;
            if entry_lt(self.heap[l], self.heap[smallest]) {
                smallest = l;
            }
            if r < n && entry_lt(self.heap[r], self.heap[smallest]) {
                smallest = r;
            }
            if smallest == i {
                break ;
            }
            let a = self.heap[i];
            let b = self.heap[smallest];
            let ghost s = self.heap@;
            self.heap.set(i, b);
            self.heap.set(smallest, a);
            proof {
                lemma_swap_items(s, i as int, smallest as int);
                assert(self.heap@ =~= s.update(i as int, s[smallest as int]).update(
                    smallest as int,
                    s[i as int],
                ));
                assert((l - 1) / 2 == i);
                assert((r - 1) / 2 == i);
                assert forall|k: int|
                    0 < k < n && (k - 1) / 2 != smallest implies entry_le(
                    self.heap@[(k - 1) / 2],
                    #[trigger] self.heap@[k],
                ) by {
                    if k == smallest {
                    } else if (k - 1) / 2 == i {
                    } else if k == i {
                        assert(entry_le(s[(k - 1) / 2], s[smallest as int]));
                    } else {
                        assert(entry_le(s[(k - 1) / 2], s[k]));
                    }
                }
                assert forall|k: int|
                    0 < k < n && smallest > 0 && (k - 1) / 2 == smallest implies entry_le(
                    self.heap@[(smallest - 1) / 2],
                    #[trigger] self.heap@[k],
                ) by {
                    assert(entry_le(s[smallest as int], s[k]));
                }
            }
            i = smallest;
        }
        proof {
            assert(s0.to_multiset().count(top) > 0);
        }
        top
    }
}

impl Default for BinaryHeapPQ {
    fn default() -> (r: Self)
        ensures
            r.well_formed(),
            r@ =~= Multiset::empty(),
    {
        Self::new()
    }
}

impl PriorityQueue for BinaryHeapPQ {
    type Handle = ();

    open spec fn wf(&self) -> bool {
        self.well_formed()
    }

    open spec fn items(&self) -> Multiset<(u32, usize)> {
        self@
    }

    open spec fn floor(&self) -> u32 {
        0
    }

    open spec fn seen(&self, node: usize) -> bool {
        exists|k: u32| #[trigger] self@.count((k, node)) > 0
    }

    open spec fn entry_of(&self, handle: ()) -> Option<(u32, usize)> {
        None
    }

    open spec fn accepts(&self, key: u32, node: usize) -> bool {
        true
    }

    open spec fn decreases_in_place() -> bool {
        false
    }

    open spec fn spec_key_limit() -> u32 {
        u32::MAX
    }

    open spec fn node_limit() -> nat {
        usize::MAX as nat
    }

    proof fn lemma_accepts(&self, key: u32, node: usize) {
    }

    proof fn lemma_key_limit_positive() {
    }

    fn key_limit(&self) -> (r: u32) {
        u32::MAX
    }

    fn insert(&mut self, key: u32, node_id: usize) -> (handle: ()) {
        self.push_entry((key, node_id));
        proof {
            assert forall|n: usize| #[trigger] self.seen(n) == (old(self).seen(n) || n == node_id) by {
                if self.seen(n) && n != node_id {
                    let k = choose|k: u32| #[trigger] self@.count((k, n)) > 0;
                    assert(old(self)@.count((k, n)) > 0);
                }
                if old(self).seen(n) {
                    let k = choose|k: u32| #[trigger] old(self)@.count((k, n)) > 0;
                    assert(self@.count((k, n)) > 0);
                }
                if n == node_id {
                    assert(self@.count((key, n)) > 0);
                }
            }
        }
    }

    fn extract_min(&mut self) -> (r: Option<(u32, usize)>)
        ensures
            r matches Some(x) ==> forall|y: (u32, usize)| old(self)@.count(y) > 0 ==> entry_le(x, y),
    {
        if self.heap.len() == 0 {
            proof {
                assert(self@.len() == 0);
            }
            return None;
        }
        let x = self.pop_min();
        proof {
            assert forall|n: usize| #[trigger] self.seen(n) implies old(self).seen(n) by {
                let k = choose|k: u32| #[trigger] self@.count((k, n)) > 0;
                assert(old(self)@.count((k, n)) > 0);
            }
            assert(old(self).items().count(x) > 0);
            assert(self.items() == old(self).items().remove(x));
            assert forall|y: (u32, usize)| #[trigger] old(self).items().count(y) > 0 implies x.0 <= y.0 by {
                assert(entry_le(x, y));
            }
        }
        Some(x)
    }

    fn supports_decrease_key(&self) -> (r: bool) {
        false
    }

    fn decrease_key(&mut self, handle: &(), new_key: u32) {
        // Never called: the queue hands out no handle designating an entry.
    }
}

/// Dijkstra's algorithm using a binary heap.
///
/// Returns the nodes of a shortest path from `start` to `end` with its total weight, or
/// an empty vector and `None` when
/// `end` cannot be reached from `start` by a walk lighter than `u32::MAX`.
pub fn dijkstra_binary(start: usize, end: usize, graph: &[Vec<(usize, u32)>]) -> (r: (Vec<usize>, Option<u32>))
    requires
        start < graph@.len(),
        end < graph@.len(),
        edges_in_range(adjacency(graph)),
    ensures
        is_path_and_distance(adjacency(graph), start, end, u32::MAX as int, r.0@, r.1),
{
    let heap = BinaryHeapPQ::new();
    proof {
        assert(heap.items().len() == 0);
    }
    crate::dijkstra::dijkstra(start, end, graph, heap)
}

} // verus!
