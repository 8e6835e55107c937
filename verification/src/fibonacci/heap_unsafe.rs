//! The Fibonacci heap with the textbook order of `extract_min`: the children of the
//! minimum join the root list before the minimum leaves it, and the root after the
//! minimum becomes the provisional minimum.  Its `decrease_key` only reports success
//! when the key gets smaller.
//!
//! It keeps its nodes in the same arena as [`FibonacciHeap`](super::safe::FibonacciHeap),
//! with which it shares insertion, linking, consolidation and the cuts of
//! `decrease_key`.
use crate::fibonacci::safe::{FibHandle, FibonacciHeap, Node};
use vstd::multiset::Multiset;
use vstd::prelude::*;

verus! {

/// A node of an [`UnsafeFibonacciHeap`].
pub type UnsafeNode = Node;

/// A Fibonacci heap whose `extract_min` moves the children of the minimum to the end
/// of the root list.
pub struct UnsafeFibonacciHeap {
    heap: FibonacciHeap,
}

impl UnsafeFibonacciHeap {
    /// The entries the heap holds, as `(key, node_id)` pairs.
    pub closed spec fn view(&self) -> Multiset<(u32, usize)> {
        self.heap@
    }

    /// The internal invariant of the heap.
    pub closed spec fn well_formed(&self) -> bool {
        self.heap.well_formed()
    }

    /// The entry of the node that `handle` designates, while the heap holds it.
    pub closed spec fn entry_of(&self, handle: FibHandle) -> Option<(u32, usize)> {
        self.heap.entry_of(handle)
    }

    /// Whether the heap holds an entry of node `n`.
    pub closed spec fn holds_node(&self, n: usize) -> bool {
        self.heap.holds_node(n)
    }

    /// No two roots have the same degree: the root list is consolidated.
    pub closed spec fn root_degrees_distinct(&self) -> bool {
        self.heap.root_degrees_distinct()
    }

    /// The node ids of all entries ever inserted, in order of insertion.
    pub closed spec fn slot_ids(&self) -> Seq<usize> {
        self.heap.slot_ids()
    }

    /// The entry of a handle is in the heap, and the heap holds an entry of a node exactly
    /// when some key pairs with it in the entries.
    pub proof fn lemma_entries(&self)
        requires
            self.well_formed(),
        ensures
            forall|h: FibHandle| #[trigger] self.entry_of(h) is Some ==> self@.count(self.entry_of(h)->Some_0) > 0,
            forall|n: usize| #[trigger] self.holds_node(n) <==> exists|k: u32| #[trigger] self@.count((k, n)) > 0,
    {
        self.heap.lemma_entries();
        assert forall|n: usize| #[trigger] self.holds_node(n) <==> exists|k: u32| #[trigger] self@.count((k, n)) > 0 by {
            assert(self.heap.holds_node(n) <==> exists|k: u32| #[trigger] self.heap@.count((k, n)) > 0);
            if self.holds_node(n) {
                let k = choose|k: u32| #[trigger] self.heap@.count((k, n)) > 0;
                assert(self@.count((k, n)) > 0);
            }
            if exists|k: u32| #[trigger] self@.count((k, n)) > 0 {
                let k = choose|k: u32| #[trigger] self@.count((k, n)) > 0;
                assert(self.heap@.count((k, n)) > 0);
            }
        }
    }

    /// A heap whose inserted node ids are distinct and below `b` holds at most `b` entries.
    pub proof fn lemma_len_below(&self, b: nat)
        requires
            self.well_formed(),
            self.slot_ids().no_duplicates(),
            forall|j: int| 0 <= j < self.slot_ids().len() ==> #[trigger] self.slot_ids()[j] < b,
        ensures
            self@.len() <= b,
    {
        self.heap.lemma_len_below(b);
    }

    /// Create an empty heap.
    pub fn new() -> (r: Self)
        ensures
            r.well_formed(),
            r@ =~= Multiset::empty(),
            forall|h: FibHandle| #[trigger] r.entry_of(h) is None,
            forall|n: usize| !(#[trigger] r.holds_node(n)),
            r.slot_ids().len() == 0,
    {
        UnsafeFibonacciHeap { heap: FibonacciHeap::new() }
    }

    /// Insert a node with the given key into the root list; returns its handle.
    pub fn insert(&mut self, key: u32, node_id: usize) -> (handle: FibHandle)
        requires
            old(self).well_formed(),
        ensures
            final(self).well_formed(),
            final(self)@ == old(self)@.insert((key, node_id)),
            old(self).entry_of(handle) is None,
            final(self).entry_of(handle) == Some((key, node_id)),
            forall|h: FibHandle| h != handle ==> #[trigger] final(self).entry_of(h) == old(self).entry_of(h),
            forall|n: usize| #[trigger] final(self).holds_node(n) == (old(self).holds_node(n) || n == node_id),
            final(self).slot_ids() == old(self).slot_ids().push(node_id),
    {
        self.heap.insert(key, node_id)
    }

    /// Remove and return an entry of least key, or `None` when the heap is empty.
    ///
    /// The children of the minimum join the end of the root list, the minimum leaves
    /// it, the root after it becomes the provisional minimum, and the root list is
    /// consolidated.  The heap may hold at most `fib(52)` entries.
    pub fn extract_min(&mut self) -> (r: Option<(u32, usize)>)
        requires
            old(self).well_formed(),
            old(self)@.len() <= 32_951_280_099,
        ensures
            final(self).well_formed(),
            forall|n: usize| #[trigger] final(self).holds_node(n) ==> old(self).holds_node(n),
            final(self).slot_ids() == old(self).slot_ids(),
            final(self).root_degrees_distinct(),
            match r {
                None => {
                    &&& old(self)@.len() == 0
                    &&& final(self)@ == old(self)@
                    &&& forall|h: FibHandle| #[trigger] final(self).entry_of(h) == old(self).entry_of(h)
                },
                Some(x) => {
                    &&& old(self)@.count(x) > 0
                    &&& final(self)@ == old(self)@.remove(x)
                    &&& forall|y: (u32, usize)| #[trigger] old(self)@.count(y) > 0 ==> x.0 <= y.0
                    &&& exists|hx: FibHandle|
                        {
                            &&& #[trigger] old(self).entry_of(hx) == Some(x)
                            &&& final(self).entry_of(hx) is None
                            &&& forall|h: FibHandle|
                                h != hx ==> #[trigger] final(self).entry_of(h) == old(self).entry_of(h)
                        }
                },
            },
    {
        let r = self.heap.extract_min_core(false);
        proof {
            if r is None {
                assert forall|h: FibHandle| #[trigger] self.entry_of(h) == old(self).entry_of(h) by {
                    assert(self.heap.entry_of(h) == old(self).heap.entry_of(h));
                }
            } else {
                let hx = choose|hx: FibHandle|
                    {
                        &&& #[trigger] old(self).heap.entry_of(hx) == r
                        &&& self.heap.entry_of(hx) is None
                        &&& forall|h: FibHandle| h != hx ==> #[trigger] self.heap.entry_of(h) == old(self).heap.entry_of(h)
                    };
                assert(old(self).entry_of(hx) == r);
                assert forall|h: FibHandle| h != hx implies #[trigger] self.entry_of(h) == old(self).entry_of(h) by {
                    assert(self.heap.entry_of(h) == old(self).heap.entry_of(h));
                }
            }
        }
        r
    }

    /// Decrease the key of the node that `handle` designates to `new_key`.  Returns
    /// `true` when the key was decreased, and `false`, changing nothing, when `new_key`
    /// is not smaller than its key.
    pub fn decrease_key(&mut self, handle: &FibHandle, new_key: u32) -> (r: bool)
        requires
            old(self).well_formed(),
            old(self).entry_of(*handle) is Some,
        ensures
            final(self).well_formed(),
            r == (new_key < old(self).entry_of(*handle)->Some_0.0),
            forall|n: usize| #[trigger] final(self).holds_node(n) == old(self).holds_node(n),
            final(self).slot_ids() == old(self).slot_ids(),
            forall|h: FibHandle| h != *handle ==> #[trigger] final(self).entry_of(h) == old(self).entry_of(h),
            ({
                let e = old(self).entry_of(*handle)->Some_0;
                if r {
                    &&& final(self)@ == old(self)@.remove(e).insert((new_key, e.1))
                    &&& final(self).entry_of(*handle) == Some((new_key, e.1))
                } else {
                    &&& final(self)@ == old(self)@
                    &&& final(self).entry_of(*handle) == old(self).entry_of(*handle)
                }
            }),
    {
        if new_key >= self.heap.key_of(handle) {
            return false;
        }
        self.heap.decrease_key(handle, new_key)
    }

    /// Check if the heap is empty.
    pub fn is_empty(&self) -> (r: bool)
        requires
            self.well_formed(),
        ensures
            r == (self@.len() == 0),
    {
        self.heap.is_empty()
    }
}

impl Default for UnsafeFibonacciHeap {
    fn default() -> (r: Self)
        ensures
            r.well_formed(),
            r@ =~= Multiset::empty(),
            forall|h: FibHandle| #[trigger] r.entry_of(h) is None,
            forall|n: usize| !(#[trigger] r.holds_node(n)),
            r.slot_ids().len() == 0,
    {
        Self::new()
    }
}

} // verus!
