//! The priority-queue interface that Dijkstra's algorithm is written against.
use vstd::multiset::Multiset;
use vstd::prelude::*;

verus! {

/// A min-priority queue of `(key, node_id)` entries, as Dijkstra's algorithm uses it.
///
/// The queue is described by the multiset of entries it holds (`items`).  Queues that
/// support `decrease_key` hand out a handle per inserted entry; `entry_of` says which
/// entry a handle designates while the queue still holds it.  Some queues only accept
/// keys from a lower bound on (`floor`, the last extracted key of a radix heap or of a
/// bucket queue) and below an upper bound (`spec_key_limit`).
pub trait PriorityQueue: Sized {
    /// Handle type for entries in the heap, used by `decrease_key`.
    type Handle;

    /// The internal invariant of the queue.
    spec fn wf(&self) -> bool;

    /// The entries the queue holds.
    spec fn items(&self) -> Multiset<(u32, usize)>;

    /// Keys below this bound cannot be inserted.
    spec fn floor(&self) -> u32;

    /// Whether the queue has taken note of `node` (entries of such a node are not
    /// inserted afresh into a queue that decreases keys in place).
    spec fn seen(&self, node: usize) -> bool;

    /// The entry that `handle` designates, while the queue holds it.
    spec fn entry_of(&self, handle: Self::Handle) -> Option<(u32, usize)>;

    /// Whether `insert(key, node)` is allowed in the current state.
    spec fn accepts(&self, key: u32, node: usize) -> bool;

    /// Whether the queue supports `decrease_key`.
    spec fn decreases_in_place() -> bool;

    /// Keys must stay below this bound.
    spec fn spec_key_limit() -> u32;

    /// Node ids must stay below this bound.
    spec fn node_limit() -> nat;

    /// The conditions under which Dijkstra's algorithm inserts are accepted.
    proof fn lemma_accepts(&self, key: u32, node: usize)
        requires
            self.wf(),
            self.floor() <= key,
            key < Self::spec_key_limit(),
            node < Self::node_limit(),
            Self::decreases_in_place() ==> !self.seen(node),
        ensures
            self.accepts(key, node),
    ;

    /// The key bound is positive.
    proof fn lemma_key_limit_positive()
        ensures
            0 < Self::spec_key_limit(),
    ;

    /// The bound below which keys must stay.
    fn key_limit(&self) -> (r: u32)
        ensures
            r == Self::spec_key_limit(),
    ;

    /// Insert a node with the given key; returns a handle for `decrease_key`.
    fn insert(&mut self, key: u32, node_id: usize) -> (handle: Self::Handle)
        requires
            old(self).wf(),
            old(self).accepts(key, node_id),
        ensures
            final(self).wf(),
            final(self).items() == old(self).items().insert((key, node_id)),
            final(self).floor() == old(self).floor(),
            forall|n: usize| #[trigger] final(self).seen(n) == (old(self).seen(n) || n == node_id),
            old(self).entry_of(handle) is None,
            Self::decreases_in_place() ==> final(self).entry_of(handle) == Some((key, node_id)),
            forall|h: Self::Handle|
                h != handle && (#[trigger] old(self).entry_of(h)) is Some ==> final(self).entry_of(h)
                    == old(self).entry_of(h),
    ;

    /// Remove and return an entry of least key, or `None` when the queue is empty.
    fn extract_min(&mut self) -> (r: Option<(u32, usize)>)
        requires
            old(self).wf(),
        ensures
            final(self).wf(),
            match r {
                None => old(self).items().len() == 0 && final(self).items() == old(self).items(),
                Some(x) => {
                    &&& old(self).items().count(x) > 0
                    &&& final(self).items() == old(self).items().remove(x)
                    &&& forall|y: (u32, usize)| #[trigger] old(self).items().count(y) > 0 ==> x.0 <= y.0
                    &&& final(self).floor() <= x.0
                },
            },
            forall|n: usize| #[trigger] final(self).seen(n) ==> old(self).seen(n),
            forall|h: Self::Handle|
                (#[trigger] old(self).entry_of(h)) is Some && r != old(self).entry_of(h)
                    ==> final(self).entry_of(h) == old(self).entry_of(h),
    ;

    /// Whether this queue supports `decrease_key`; when it does not, Dijkstra's
    /// algorithm re-inserts nodes instead.
    fn supports_decrease_key(&self) -> (r: bool)
        ensures
            r == Self::decreases_in_place(),
    ;

    /// Lower the key of the entry that `handle` designates to `new_key`; nothing changes
    /// when `new_key` is not below the current key.
    fn decrease_key(&mut self, handle: &Self::Handle, new_key: u32)
        requires
            old(self).wf(),
            old(self).entry_of(*handle) is Some,
            old(self).floor() <= new_key,
            new_key < Self::spec_key_limit(),
        ensures
            final(self).wf(),
            final(self).floor() == old(self).floor(),
            forall|n: usize| #[trigger] final(self).seen(n) == old(self).seen(n),
            ({
                let x = old(self).entry_of(*handle)->Some_0;
                if new_key < x.0 {
                    &&& final(self).items() == old(self).items().remove(x).insert((new_key, x.1))
                    &&& final(self).entry_of(*handle) == Some((new_key, x.1))
                } else {
                    &&& final(self).items() == old(self).items()
                    &&& final(self).entry_of(*handle) == old(self).entry_of(*handle)
                }
            }),
            forall|h: Self::Handle|
                h != *handle && (#[trigger] old(self).entry_of(h)) is Some ==> final(self).entry_of(h)
                    == old(self).entry_of(h),
    ;
}


/// Draining a queue by `extract_min` gives back every entry, in order of key: when
/// each step removes an entry of least key from the entries before it (as `extract_min`
/// of every queue here promises), the keys taken come in non-decreasing order, and the
/// entries taken are the entries the queue held at the start, once each.
pub proof fn lemma_drain_in_order(ms: Seq<Multiset<(u32, usize)>>, xs: Seq<(u32, usize)>)
    requires
        ms.len() == xs.len() + 1,
        forall|i: int|
            0 <= i < xs.len() ==> {
                &&& (#[trigger] ms[i]).count(xs[i]) > 0
                &&& ms[i + 1] == ms[i].remove(xs[i])
                &&& forall|y: (u32, usize)| #[trigger] ms[i].count(y) > 0 ==> xs[i].0 <= y.0
            },
        ms.last().len() == 0,
    ensures
        forall|i: int, j: int| 0 <= i < j < xs.len() ==> (#[trigger] xs[i]).0 <= (#[trigger] xs[j]).0,
        xs.to_multiset() == ms[0],
{
    broadcast use vstd::seq_lib::group_to_multiset_ensures;

    let n = xs.len() as int;
    assert forall|i: int, j: int| 0 <= i < j < xs.len() implies (#[trigger] xs[i]).0 <= (#[trigger] xs[j]).0 by {
        assert(ms[j].count(xs[j]) > 0);
        lemma_held_shrink(ms, xs, i, j);
        assert(ms[i].count(xs[j]) > 0);
    }
    // What is taken and what is held make up the start
    lemma_taken_and_held(ms, xs, n);
    assert(xs.subrange(0, n) =~= xs);
    assert(ms[n] =~= Multiset::empty());
    assert(ms[0] =~= xs.to_multiset());
}

/// The entries held after step `j` were already held after step `i <= j`.
proof fn lemma_held_shrink(ms: Seq<Multiset<(u32, usize)>>, xs: Seq<(u32, usize)>, i: int, j: int)
    requires
        ms.len() == xs.len() + 1,
        forall|k: int|
            0 <= k < xs.len() ==> {
                &&& (#[trigger] ms[k]).count(xs[k]) > 0
                &&& ms[k + 1] == ms[k].remove(xs[k])
            },
        0 <= i <= j <= xs.len(),
    ensures
        forall|y: (u32, usize)| #[trigger] ms[j].count(y) <= ms[i].count(y),
    decreases j - i,
{
    if i < j {
        lemma_held_shrink(ms, xs, i, j - 1);
        assert(ms[j] == ms[j - 1].remove(xs[j - 1]));
        assert forall|y: (u32, usize)| #[trigger] ms[j].count(y) <= ms[i].count(y) by {
            assert(ms[j].count(y) <= ms[j - 1].count(y));
        }
    }
}

/// The entries taken in the first `k` steps and those held after them make up the start.
proof fn lemma_taken_and_held(ms: Seq<Multiset<(u32, usize)>>, xs: Seq<(u32, usize)>, k: int)
    requires
        ms.len() == xs.len() + 1,
        forall|i: int|
            0 <= i < xs.len() ==> {
                &&& (#[trigger] ms[i]).count(xs[i]) > 0
                &&& ms[i + 1] == ms[i].remove(xs[i])
            },
        0 <= k <= xs.len(),
    ensures
        ms[0] =~= ms[k].add(xs.subrange(0, k).to_multiset()),
    decreases k,
{
    broadcast use vstd::seq_lib::group_to_multiset_ensures;

    if k == 0 {
        assert(xs.subrange(0, 0).to_multiset() =~= Multiset::empty());
    } else {
        lemma_taken_and_held(ms, xs, k - 1);
        let x = xs[k - 1];
        assert(xs.subrange(0, k) =~= xs.subrange(0, k - 1).push(x));
        assert(ms[k - 1].count(x) > 0);
        assert(ms[k - 1] =~= ms[k].insert(x));
    }
}

} // verus!
