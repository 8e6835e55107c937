//! Dial's algorithm (bucket-based Dijkstra) priority queue.
//!
//! Buckets are indexed by exact distance values: bucket `i` holds the nodes at distance
//! `i`, and the buckets are processed in order.  This is very efficient when edge
//! weights are small integers.
use vstd::multiset::Multiset;
use vstd::pervasive::VecAdditionalExecFns;
use vstd::prelude::*;

verus! {

broadcast use {vstd::multiset::group_multiset_axioms, vstd::multiset::group_multiset_properties};

/// Handle to a node in the Dial heap, used for `decrease_key` operations.
#[derive(Clone, Copy, Debug, PartialEq, Eq, Structural, Hash)]
pub struct DialHandle {
    node_id: usize,
}

impl DialHandle {
    /// The node the handle designates.
    pub closed spec fn id(self) -> usize {
        self.node_id
    }

    /// Handles of the same node are the same handle.
    pub proof fn lemma_same_id(self, other: DialHandle)
        ensures
            self.id() == other.id() ==> self == other,
    {
    }

    /// Handles are made by `insert`, which takes node ids below `usize::MAX`.
    #[verifier::type_invariant]
    spec fn handle_inv(self) -> bool {
        self.node_id < usize::MAX
    }
}

/// Dial's algorithm bucket-based structure.
///
/// Buckets are indexed by distance: bucket `i` contains nodes with distance `i`.
pub struct DialHeap {
    /// Buckets indexed by distance: buckets[i] contains nodes with distance i.
    buckets: Vec<Vec<usize>>,
    /// Current bucket being processed.
    current_bucket: usize,
    /// Maximum distance seen so far (for dynamic bucket allocation).
    max_distance: usize,
    /// Distances from source to each node.
    distances: Vec<u32>,
    /// Map from node_id to (bucket_index, position_in_bucket) for decrease_key.
    /// None means the node is not in the heap.
    node_positions: Vec<Option<(usize, usize)>>,
    /// Number of nodes currently in buckets.
    size: usize,
}

/// Maximum number of buckets supported by Dial's algorithm.
pub const MAX_BUCKETS: usize = 10_000_000;

spec fn count_some(s: Seq<Option<(usize, usize)>>) -> nat
    decreases s.len(),
{
    if s.len() == 0 {
        0
    } else {
        count_some(s.drop_last()) + if s.last() is Some {
            1nat
        } else {
            0nat
        }
    }
}

/// The entries `(distance, node)` of the tracked nodes among the first `k`.
spec fn tracked_items(np: Seq<Option<(usize, usize)>>, dist: Seq<u32>, k: nat) -> Multiset<(u32, usize)>
    decreases k,
{
    if k == 0 {
        Multiset::empty()
    } else {
        tracked_items(np, dist, (k - 1) as nat).add(
            if np[k - 1] is Some {
                Multiset::singleton((dist[k - 1], (k - 1) as usize))
            } else {
                Multiset::empty()
            },
        )
    }
}

/// The entry of node `i`, if it is tracked.
spec fn item_at(np: Seq<Option<(usize, usize)>>, dist: Seq<u32>, i: int) -> Multiset<(u32, usize)> {
    if np[i] is Some {
        Multiset::singleton((dist[i], i as usize))
    } else {
        Multiset::empty()
    }
}

proof fn lemma_tracked_items_update(
    np: Seq<Option<(usize, usize)>>,
    dist: Seq<u32>,
    np2: Seq<Option<(usize, usize)>>,
    dist2: Seq<u32>,
    i: int,
    k: nat,
)
    requires
        k <= np.len(),
        k <= np2.len(),
        k <= dist.len(),
        k <= dist2.len(),
        0 <= i,
        forall|j: int| 0 <= j < k && j != i ==> (#[trigger] np2[j] is Some <==> np[j] is Some),
        forall|j: int| 0 <= j < k && j != i ==> #[trigger] dist2[j] == dist[j],
    ensures
        i < k ==> tracked_items(np2, dist2, k).add(item_at(np, dist, i)) =~= tracked_items(np, dist, k).add(
            item_at(np2, dist2, i),
        ),
        i >= k ==> tracked_items(np2, dist2, k) =~= tracked_items(np, dist, k),
    decreases k,
{
    if k > 0 {
        lemma_tracked_items_update(np, dist, np2, dist2, i, (k - 1) as nat);
        let a2 = tracked_items(np2, dist2, (k - 1) as nat);
        let a = tracked_items(np, dist, (k - 1) as nat);
        assert(tracked_items(np2, dist2, k) == a2.add(item_at(np2, dist2, k - 1)));
        assert(tracked_items(np, dist, k) == a.add(item_at(np, dist, k - 1)));
        if i < k {
            let lhs = tracked_items(np2, dist2, k).add(item_at(np, dist, i));
            let rhs = tracked_items(np, dist, k).add(item_at(np2, dist2, i));
            assert forall|y: (u32, usize)| lhs.count(y) == rhs.count(y) by {
                if k - 1 != i {
                    assert(item_at(np2, dist2, k - 1) == item_at(np, dist, k - 1));
                    assert(a2.add(item_at(np, dist, i)).count(y) == a.add(item_at(np2, dist2, i)).count(y));
                }
            }
            assert(lhs =~= rhs);
        } else {
            assert(item_at(np2, dist2, k - 1) == item_at(np, dist, k - 1));
        }
    }
}

proof fn lemma_tracked_items_extend(
    np: Seq<Option<(usize, usize)>>,
    dist: Seq<u32>,
    np2: Seq<Option<(usize, usize)>>,
    dist2: Seq<u32>,
    m: nat,
)
    requires
        np.len() <= m <= np2.len(),
        np.len() <= dist.len(),
        m <= dist2.len(),
        forall|j: int| 0 <= j < np.len() ==> np2[j] == np[j] && dist2[j] == dist[j],
        forall|j: int| np.len() <= j < m ==> #[trigger] np2[j] is None,
    ensures
        tracked_items(np2, dist2, m) =~= tracked_items(np, dist, np.len()),
    decreases m,
{
    if m > np.len() {
        lemma_tracked_items_extend(np, dist, np2, dist2, (m - 1) as nat);
        assert(np2[m - 1] is None);
    } else {
        lemma_tracked_items_update(np, dist, np2, dist2, m as int, m);
    }
}

proof fn lemma_tracked_items_count(np: Seq<Option<(usize, usize)>>, dist: Seq<u32>, k: nat, y: (u32, usize))
    requires
        k <= np.len(),
        k <= dist.len(),
        k <= usize::MAX,
    ensures
        tracked_items(np, dist, k).count(y) > 0 <==> (y.1 < k && np[y.1 as int] is Some && dist[y.1 as int]
            == y.0),
        tracked_items(np, dist, k).count(y) <= 1,
        tracked_items(np, dist, k).len() == count_some(np.subrange(0, k as int)),
    decreases k,
{
    if k > 0 {
        lemma_tracked_items_count(np, dist, (k - 1) as nat, y);
        assert(np.subrange(0, k as int).drop_last() =~= np.subrange(0, k - 1));
        let a = tracked_items(np, dist, (k - 1) as nat);
        let last = item_at(np, dist, k - 1);
        assert(tracked_items(np, dist, k) == a.add(last));
        assert(((k - 1) as usize) as int == k - 1);
        if y.1 == k - 1 {
            assert(a.count(y) == 0);
            if np[k - 1] is Some {
                assert(last.count(y) == if y.0 == dist[k - 1] { 1nat } else { 0nat });
            }
        } else {
            assert(last.count(y) == 0);
        }
    } else {
        assert(np.subrange(0, 0) =~= Seq::<Option<(usize, usize)>>::empty());
    }
}

proof fn lemma_count_some_bound(s: Seq<Option<(usize, usize)>>)
    ensures
        count_some(s) <= s.len(),
        (exists|i: int| 0 <= i < s.len() && #[trigger] s[i] is None) ==> count_some(s) < s.len(),
    decreases s.len(),
{
    if s.len() > 0 {
        lemma_count_some_bound(s.drop_last());
        if exists|i: int| 0 <= i < s.len() && #[trigger] s[i] is None {
            let i = choose|i: int| 0 <= i < s.len() && #[trigger] s[i] is None;
            if i < s.len() - 1 {
                assert(s.drop_last()[i] is None);
            }
        }
    }
}

proof fn lemma_count_some_update(s: Seq<Option<(usize, usize)>>, i: int, v: Option<(usize, usize)>)
    requires
        0 <= i < s.len(),
    ensures
        count_some(s.update(i, v)) + (if s[i] is Some { 1int } else { 0int }) == count_some(s) + (if v is Some {
            1int
        } else {
            0int
        }),
    decreases s.len(),
{
    if i < s.len() - 1 {
        lemma_count_some_update(s.drop_last(), i, v);
        assert(s.update(i, v).drop_last() =~= s.drop_last().update(i, v));
    } else {
        assert(s.update(i, v).drop_last() =~= s.drop_last());
    }
}

proof fn lemma_count_some_push_none(s: Seq<Option<(usize, usize)>>)
    ensures
        count_some(s.push(None)) == count_some(s),
{
    assert(s.push(None).drop_last() =~= s);
}

impl DialHeap {
    /// The entries the heap holds, as `(distance, node_id)` pairs.
    pub closed spec fn view(&self) -> Multiset<(u32, usize)> {
        tracked_items(self.node_positions@, self.distances@, self.node_positions@.len())
    }

    /// Whether node `id` has an entry in the buckets.
    pub closed spec fn contains(&self, id: usize) -> bool {
        id < self.node_positions@.len() && self.node_positions@[id as int] is Some
    }

    /// The distance recorded for node `id` (`u32::MAX` when none was recorded).
    pub closed spec fn dist_of(&self, id: usize) -> u32 {
        if id < self.distances@.len() {
            self.distances@[id as int]
        } else {
            u32::MAX
        }
    }

    /// The bucket that extraction scans from.
    pub closed spec fn current(&self) -> usize {
        self.current_bucket
    }

    /// The largest distance placed in a bucket so far (the last bucket extraction scans).
    pub closed spec fn max_seen(&self) -> usize {
        self.max_distance
    }

    /// The entry that `handle` designates, if its node has one.
    pub open spec fn entry_of(&self, handle: DialHandle) -> Option<(u32, usize)> {
        if self.contains(handle.id()) {
            Some((self.dist_of(handle.id()), handle.id()))
        } else {
            None
        }
    }

    /// Positions and buckets agree, bucket indices stay below `MAX_BUCKETS`, and the
    /// size counts the entries.
    pub closed spec fn well_formed(&self) -> bool {
        &&& self.distances@.len() == self.node_positions@.len()
        &&& self.max_distance < self.buckets@.len()
        &&& self.max_distance < MAX_BUCKETS
        &&& self.current_bucket <= self.max_distance + 1
        &&& forall|b: int, p: int|
            0 <= b < self.buckets@.len() && 0 <= p < self.buckets@[b]@.len() ==> {
                let id = #[trigger] self.buckets@[b]@[p];
                &&& id < self.node_positions@.len()
                &&& self.node_positions@[id as int] == Some((b as usize, p as usize))
            }
        &&& forall|id: int|
            0 <= id < self.node_positions@.len() && (#[trigger] self.node_positions@[id]) is Some ==> {
                let q = self.node_positions@[id]->Some_0;
                &&& q.0 < self.buckets@.len()
                &&& q.1 < self.buckets@[q.0 as int]@.len()
                &&& self.buckets@[q.0 as int]@[q.1 as int] == id
            }
        &&& self.size == count_some(self.node_positions@)
    }

    /// Every node sits in the bucket of its distance, and no node sits below the current
    /// bucket or above the maximum distance: extraction then yields the least distance.
    pub closed spec fn ordered(&self) -> bool {
        &&& forall|id: int|
            0 <= id < self.node_positions@.len() && (#[trigger] self.node_positions@[id]) is Some
                ==> self.distances@[id] as int == self.node_positions@[id]->Some_0.0 as int
        &&& forall|b: int|
            0 <= b < self.buckets@.len() && (b < self.current_bucket || b > self.max_distance) ==> (
            #[trigger] self.buckets@[b])@.len() == 0
    }

    /// A heap has room for an entry of a node it does not hold.
    pub proof fn lemma_room(&self, node_id: usize)
        requires
            self.well_formed(),
            !self.contains(node_id),
            node_id < usize::MAX,
        ensures
            self@.len() < usize::MAX,
    {
        lemma_count_some_bound(self.node_positions@);
        assert(self.node_positions@.len() == self.node_positions.len());
        lemma_tracked_items_count(self.node_positions@, self.distances@, self.node_positions@.len(), (0, 0));
        assert(self.node_positions@.subrange(0, self.node_positions@.len() as int) =~= self.node_positions@);
        assert(self.node_positions@.len() == self.node_positions.len());
        if node_id < self.node_positions@.len() {
            assert(self.node_positions@[node_id as int] is None);
        }
    }

    /// The entries are those of the tracked nodes, at their distances.
    pub proof fn lemma_view(&self)
        requires
            self.well_formed(),
        ensures
            forall|y: (u32, usize)|
                #[trigger] self@.count(y) > 0 <==> (self.contains(y.1) && self.dist_of(y.1) == y.0),
            forall|y: (u32, usize)| #[trigger] self@.count(y) <= 1,
    {
        assert(self.node_positions@.len() == self.node_positions.len());
        assert forall|y: (u32, usize)|
            #[trigger] self@.count(y) > 0 <==> (self.contains(y.1) && self.dist_of(y.1) == y.0) by {
            lemma_tracked_items_count(self.node_positions@, self.distances@, self.node_positions@.len(), y);
        }
        assert forall|y: (u32, usize)| #[trigger] self@.count(y) <= 1 by {
            lemma_tracked_items_count(self.node_positions@, self.distances@, self.node_positions@.len(), y);
        }
    }

    /// The current bucket never passes `MAX_BUCKETS`.
    pub proof fn lemma_current_bound(&self)
        requires
            self.well_formed(),
        ensures
            self.current() <= MAX_BUCKETS,
    {
    }

    /// In an ordered heap, a node with an entry has a distance below `MAX_BUCKETS`.
    pub proof fn lemma_dist_of_contained(&self, n: usize)
        requires
            self.well_formed(),
            self.ordered(),
            self.contains(n),
        ensures
            self.dist_of(n) < MAX_BUCKETS,
    {
        let q = self.node_positions@[n as int]->Some_0;
        assert(self.node_positions@[n as int] is Some);
        assert(q.1 < self.buckets@[q.0 as int]@.len());
        if q.0 > self.max_distance {
            assert(self.buckets@[q.0 as int]@.len() == 0);
        }
    }

    proof fn lemma_size(&self)
        requires
            self.well_formed(),
        ensures
            self@.len() == self.size,
    {
        assert(self.node_positions@.len() == self.node_positions.len());
        lemma_tracked_items_count(self.node_positions@, self.distances@, self.node_positions@.len(), (0, 0));
        assert(self.node_positions@.subrange(0, self.node_positions@.len() as int) =~= self.node_positions@);
    }

    /// Create a new Dial heap with room for `max_nodes` nodes and buckets for the
    /// distances `0..=initial_max_distance`.
    pub fn new(max_nodes: usize, initial_max_distance: usize) -> (r: Self)
        requires
            initial_max_distance < usize::MAX,
        ensures
            r.well_formed(),
            r.ordered(),
            r@ =~= Multiset::empty(),
            r.current() == 0,
            r.max_seen() == 0,
            forall|n: usize| !(#[trigger] r.contains(n)),
            forall|n: usize| #[trigger] r.dist_of(n) == u32::MAX,
    {
        let mut buckets: Vec<Vec<usize>> = Vec::new();
        let mut i: usize = 0;
        while i < initial_max_distance + 1
            invariant
                initial_max_distance < usize::MAX,
                i <= initial_max_distance + 1,
                buckets@.len() == i,
                forall|b: int| 0 <= b < i ==> (#[trigger] buckets@[b])@.len() == 0,
            decreases initial_max_distance + 1 - i,
        {
            buckets.push(Vec::new());
            i += 1;
        }
        let mut distances: Vec<u32> = Vec::new();
        let mut node_positions: Vec<Option<(usize, usize)>> = Vec::new();
        let mut k: usize = 0;
        while k < max_nodes
            invariant
                k <= max_nodes,
                distances@.len() == k,
                node_positions@.len() == k,
                forall|j: int| 0 <= j < k ==> (#[trigger] distances@[j]) == u32::MAX,
                forall|j: int| 0 <= j < k ==> (#[trigger] node_positions@[j]) is None,
                count_some(node_positions@) == 0,
            decreases max_nodes - k,
        {
            proof {
                lemma_count_some_push_none(node_positions@);
            }
            distances.push(u32::MAX);
            node_positions.push(None);
            k += 1;
        }
        let r = DialHeap { buckets, current_bucket: 0, max_distance: 0, distances, node_positions, size: 0 };
        proof {
            r.lemma_view();
            assert forall|y: (u32, usize)| r@.count(y) == 0 by {}
            assert(r@ =~= Multiset::empty());
        }
        r
    }

    /// Extends the distance and position tables to cover node `node_id`.
    fn grow(&mut self, node_id: usize)
        requires
            old(self).well_formed(),
            node_id < usize::MAX,
        ensures
            final(self).well_formed(),
            final(self).node_positions@.len() > node_id,
            final(self)@ == old(self)@,
            final(self).buckets == old(self).buckets,
            final(self).current_bucket == old(self).current_bucket,
            final(self).max_distance == old(self).max_distance,
            final(self).size == old(self).size,
            forall|n: usize| #[trigger] final(self).contains(n) == old(self).contains(n),
            forall|n: usize| #[trigger] final(self).dist_of(n) == old(self).dist_of(n),
            old(self).ordered() ==> final(self).ordered(),
    {
        let ghost np0 = self.node_positions@;
        let ghost d0 = self.distances@;
        while self.node_positions.len() <= node_id
            invariant
                self.well_formed(),
                node_id < usize::MAX,
                self.buckets == old(self).buckets,
                self.current_bucket == old(self).current_bucket,
                self.max_distance == old(self).max_distance,
                self.size == old(self).size,
                np0 == old(self).node_positions@,
                d0 == old(self).distances@,
                np0.len() <= self.node_positions@.len(),
                forall|j: int| 0 <= j < np0.len() ==> #[trigger] self.node_positions@[j] == np0[j],
                forall|j: int| 0 <= j < np0.len() ==> #[trigger] self.distances@[j] == d0[j],
                forall|j: int|
                    np0.len() <= j < self.node_positions@.len() ==> #[trigger] self.node_positions@[j] is None,
                forall|j: int| np0.len() <= j < self.distances@.len() ==> #[trigger] self.distances@[j] == u32::MAX,
                old(self).ordered() ==> self.ordered(),
            decreases node_id + 1 - self.node_positions@.len(),
        {
            proof {
                lemma_count_some_push_none(self.node_positions@);
            }
            self.distances.push(u32::MAX);
            self.node_positions.push(None);
        }
        proof {
            lemma_tracked_items_extend(np0, d0, self.node_positions@, self.distances@, self.node_positions@.len());
        }
    }

    /// Remove the node at position `pos` of bucket `bucket_idx`, moving the bucket's last
    /// node into its place.
    fn remove_from_bucket(&mut self, bucket_idx: usize, pos: usize)
        requires
            old(self).well_formed(),
            bucket_idx < old(self).buckets@.len(),
            pos < old(self).buckets@[bucket_idx as int]@.len(),
        ensures
            final(self).well_formed(),
            ({
                let id = old(self).buckets@[bucket_idx as int]@[pos as int];
                &&& final(self)@ == old(self)@.remove((old(self).dist_of(id), id))
                &&& !final(self).contains(id)
                &&& forall|n: usize| n != id ==> #[trigger] final(self).contains(n) == old(self).contains(n)
            }),
            forall|n: usize| #[trigger] final(self).dist_of(n) == old(self).dist_of(n),
            final(self).current_bucket == old(self).current_bucket,
            final(self).max_distance == old(self).max_distance,
            final(self).buckets@.len() == old(self).buckets@.len(),
            final(self).node_positions@.len() == old(self).node_positions@.len(),
            old(self).ordered() ==> final(self).ordered(),
    {
        let ghost bs0 = self.buckets@;
        let ghost np0 = self.node_positions@;
        let ghost d0 = self.distances@;
        let ghost last = bs0[bucket_idx as int]@.len() - 1;
        proof {
            assert(np0.len() == self.node_positions.len());
        }
        let removed = self.buckets[bucket_idx].swap_remove(pos);
        proof {
            assert(np0[removed as int] == Some((bucket_idx, pos)));
            lemma_count_some_update(np0, removed as int, None);
        }
        self.node_positions.set(removed, None);
        // Update position of swapped node if a swap occurred
        let bucket_len = self.buckets[bucket_idx].len();
        let ghost np1 = self.node_positions@;
        if pos < bucket_len {
            let swapped_node_id = self.buckets[bucket_idx][pos];
            proof {
                assert(bs0[bucket_idx as int]@[last] == swapped_node_id);
                assert(np0[swapped_node_id as int] == Some((bucket_idx, last as usize)));
                lemma_count_some_update(np1, swapped_node_id as int, Some((bucket_idx, pos)));
            }
            self.node_positions.set(swapped_node_id, Some((bucket_idx, pos)));
        }
        self.size -= 1;
        proof {
            let bs1 = self.buckets@;
            let np2 = self.node_positions@;
            if pos < bucket_len {
                let sw = bs0[bucket_idx as int]@[last];
                assert(np2 =~= np0.update(removed as int, None).update(sw as int, Some((bucket_idx, pos))));
            } else {
                assert(np2 =~= np0.update(removed as int, None));
            }
            let x = (d0[removed as int], removed);
            if pos < bucket_len {
                assert(bs0[bucket_idx as int]@[last] != removed);
            }
            lemma_tracked_items_update(np0, d0, np2, d0, removed as int, np0.len());
            assert(item_at(np0, d0, removed as int) =~= Multiset::singleton(x));
            assert(item_at(np2, d0, removed as int) =~= Multiset::empty());
            let a = tracked_items(np2, d0, np0.len());
            let b0 = tracked_items(np0, d0, np0.len());
            assert(a.add(Multiset::singleton(x)) == b0.add(Multiset::empty()));
            assert forall|y: (u32, usize)| a.count(y) == b0.remove(x).count(y) by {
                assert(a.add(Multiset::singleton(x)).count(y) == b0.add(Multiset::empty()).count(y));
                if y == x {
                    assert(b0.count(y) >= 1);
                }
            }
            assert(self@ =~= old(self)@.remove(x));
            let sw = if pos < bucket_len { bs0[bucket_idx as int]@[last] as int } else { -1 };
            if pos < bucket_len {
                assert(np0[sw] == Some((bucket_idx, last as usize)));
            }
            assert forall|b: int, p: int| 0 <= b < bs1.len() && 0 <= p < bs1[b]@.len() implies {
                let id = #[trigger] bs1[b]@[p];
                &&& id < np2.len()
                &&& np2[id as int] == Some((b as usize, p as usize))
            } by {
                if b == bucket_idx && p == pos {
                    assert(bs1[b]@[p] == bs0[b]@[last]);
                    assert(sw == bs0[b]@[last]);
                } else {
                    assert(bs1.len() == self.buckets.len());
                    assert(bs0[b]@.len() == bs0[b].len());
                    assert(bs1[b]@[p] == bs0[b]@[p]);
                    let id = bs0[b]@[p];
                    assert(np0[id as int] == Some((b as usize, p as usize)));
                    assert(id != removed);
                    if b == bucket_idx {
                        assert(p < last);
                    }
                    assert(id != sw);
                    assert(np2[id as int] == np0[id as int]);
                }
            }
            assert forall|id: int| 0 <= id < np2.len() && (#[trigger] np2[id]) is Some implies {
                let q = np2[id]->Some_0;
                &&& q.0 < bs1.len()
                &&& q.1 < bs1[q.0 as int]@.len()
                &&& bs1[q.0 as int]@[q.1 as int] == id
            } by {
                if pos < bucket_len && id == bs0[bucket_idx as int]@[last] {
                } else {
                    assert(id != removed);
                    let q = np0[id]->Some_0;
                    assert(np2[id] == np0[id]);
                    if q.0 == bucket_idx {
                        assert(q.1 != pos);
                        assert(q.1 as int != last);
                        assert(bs1[q.0 as int]@[q.1 as int] == bs0[q.0 as int]@[q.1 as int]);
                    } else {
                        assert(bs1[q.0 as int] == bs0[q.0 as int]);
                    }
                }
            }
            if old(self).ordered() {
                assert forall|id: int| 0 <= id < np2.len() && (#[trigger] np2[id]) is Some implies d0[id] as int
                    == np2[id]->Some_0.0 as int by {
                    if pos < bucket_len && id == bs0[bucket_idx as int]@[last] {
                        assert(np0[id] == Some((bucket_idx, last as usize)));
                    } else {
                        assert(np2[id] == np0[id]);
                    }
                }
                assert forall|b: int|
                    0 <= b < bs1.len() && (b < self.current_bucket || b > self.max_distance) implies (
                    #[trigger] bs1[b])@.len() == 0 by {
                    if b != bucket_idx {
                        assert(bs1[b] == bs0[b]);
                    } else {
                        assert(bs0[b]@.len() == 0);
                    }
                }
            }
            assert forall|n: usize| n != removed implies #[trigger] self.contains(n) == old(self).contains(n) by {
                if n < np0.len() && !(pos < bucket_len && n == bs0[bucket_idx as int]@[last]) {
                    assert(np2[n as int] == np0[n as int]);
                }
            }
        }
    }

    /// Ensure there is a bucket for distance `dist`.
    fn ensure_bucket_capacity(&mut self, dist: usize)
        requires
            old(self).well_formed(),
            dist < MAX_BUCKETS,
        ensures
            final(self).well_formed(),
            final(self).buckets@.len() > dist,
            final(self).buckets@.len() >= old(self).buckets@.len(),
            forall|b: int| 0 <= b < old(self).buckets@.len() ==> #[trigger] final(self).buckets@[b] == old(self).buckets@[b],
            forall|b: int|
                old(self).buckets@.len() <= b < final(self).buckets@.len() ==> (#[trigger] final(self).buckets@[b])@.len()
                    == 0,
            final(self)@ == old(self)@,
            final(self).node_positions == old(self).node_positions,
            final(self).distances == old(self).distances,
            final(self).current_bucket == old(self).current_bucket,
            final(self).max_distance == old(self).max_distance,
            final(self).size == old(self).size,
            old(self).ordered() ==> final(self).ordered(),
    {
        while self.buckets.len() <= dist
            invariant
                self.well_formed(),
                dist < MAX_BUCKETS,
                self.buckets@.len() >= old(self).buckets@.len(),
                forall|b: int| 0 <= b < old(self).buckets@.len() ==> #[trigger] self.buckets@[b] == old(self).buckets@[b],
                forall|b: int|
                    old(self).buckets@.len() <= b < self.buckets@.len() ==> (#[trigger] self.buckets@[b])@.len()
                        == 0,
                self.node_positions == old(self).node_positions,
                self.distances == old(self).distances,
                self.current_bucket == old(self).current_bucket,
                self.max_distance == old(self).max_distance,
                self.size == old(self).size,
                old(self).ordered() ==> self.ordered(),
            decreases dist + 1 - self.buckets@.len(),
        {
            self.buckets.push(Vec::new());
        }
    }

    /// Moves node `node_id` to the bucket of `distance` (adding it when absent) and
    /// records the distance.
    #[verifier::rlimit(40)]
    fn place(&mut self, node_id: usize, distance: u32)
        requires
            old(self).well_formed(),
            node_id < old(self).node_positions@.len(),
            distance < MAX_BUCKETS,
        ensures
            final(self).well_formed(),
            final(self)@ == (if old(self).contains(node_id) {
                old(self)@.remove((old(self).dist_of(node_id), node_id))
            } else {
                old(self)@
            }).insert((distance, node_id)),
            final(self).contains(node_id),
            final(self).dist_of(node_id) == distance,
            forall|n: usize| n != node_id ==> #[trigger] final(self).contains(n) == old(self).contains(n),
            forall|n: usize| n != node_id ==> #[trigger] final(self).dist_of(n) == old(self).dist_of(n),
            final(self).current() == old(self).current(),
            old(self).ordered() && old(self).current() <= distance ==> final(self).ordered(),
    {
        proof {
            assert(self.node_positions@.len() == self.node_positions.len());
        }
        // Remove from old bucket if it exists
        match self.node_positions[node_id] {
            Some((old_bucket, old_pos)) => {
                proof {
                    assert(self.buckets@[old_bucket as int]@[old_pos as int] == node_id);
                }
                self.remove_from_bucket(old_bucket, old_pos);
            },
            None => {},
        }
        // Add to new bucket
        let ghost np1 = self.node_positions@;
        let ghost d1 = self.distances@;
        let ghost view1 = self@;
        let ghost mid: DialHeap = *self;
        proof {
            self.lemma_room(node_id);
            self.lemma_size();
        }
        let dist = distance as usize;
        self.ensure_bucket_capacity(dist);
        let ghost bs2 = self.buckets@;
        let pos = self.buckets[dist].len();
        self.buckets[dist].push(node_id);
        proof {
            lemma_count_some_update(np1, node_id as int, Some((dist, pos)));
        }
        self.node_positions.set(node_id, Some((dist, pos)));
        self.distances.set(node_id, distance);
        self.size += 1;
        if dist > self.max_distance {
            self.max_distance = dist;
        }
        proof {
            let bs3 = self.buckets@;
            let np3 = self.node_positions@;
            let d3 = self.distances@;
            let x = (distance, node_id);
            assert(np1.len() == self.node_positions.len());
            lemma_tracked_items_update(np1, d1, np3, d3, node_id as int, np1.len());
            assert(item_at(np1, d1, node_id as int) =~= Multiset::empty());
            assert(item_at(np3, d3, node_id as int) =~= Multiset::singleton(x));
            assert(self@ =~= view1.insert(x));
            assert forall|b: int, p: int| 0 <= b < bs3.len() && 0 <= p < bs3[b]@.len() implies {
                let id = #[trigger] bs3[b]@[p];
                &&& id < np3.len()
                &&& np3[id as int] == Some((b as usize, p as usize))
            } by {
                if b == dist && p == pos {
                } else {
                    assert(bs3.len() == self.buckets.len());
                    assert(bs2[b]@.len() == bs2[b].len());
                    assert(bs3[b]@[p] == bs2[b]@[p]);
                    let id = bs2[b]@[p];
                    assert(np1[id as int] == Some((b as usize, p as usize)));
                    assert(id != node_id);
                }
            }
            assert forall|id: int| 0 <= id < np3.len() && (#[trigger] np3[id]) is Some implies {
                let q = np3[id]->Some_0;
                &&& q.0 < bs3.len()
                &&& q.1 < bs3[q.0 as int]@.len()
                &&& bs3[q.0 as int]@[q.1 as int] == id
            } by {
                if id != node_id {
                    let q = np1[id]->Some_0;
                    assert(np3[id] == np1[id]);
                    assert(bs3[q.0 as int]@[q.1 as int] == bs2[q.0 as int]@[q.1 as int]);
                }
            }
            if old(self).ordered() && old(self).current() <= distance {
                assert forall|id: int| 0 <= id < np3.len() && (#[trigger] np3[id]) is Some implies d3[id] as int
                    == np3[id]->Some_0.0 as int by {
                    if id != node_id {
                        assert(np3[id] == np1[id]);
                        assert(d3[id] == d1[id]);
                    }
                }
                assert forall|b: int|
                    0 <= b < bs3.len() && (b < self.current_bucket || b > self.max_distance) implies (
                    #[trigger] bs3[b])@.len() == 0 by {
                    assert(b != dist);
                    assert(bs3[b] == bs2[b]);
                }
            }
            assert forall|n: usize| n != node_id implies #[trigger] self.contains(n) == old(self).contains(n) by {
                assert(mid.contains(n) == old(self).contains(n));
                if n < np1.len() {
                    assert(np3[n as int] == np1[n as int]);
                }
            }
            assert forall|n: usize| n != node_id implies #[trigger] self.dist_of(n) == old(self).dist_of(n) by {
                assert(mid.dist_of(n) == old(self).dist_of(n));
                if n < d1.len() {
                    assert(d3[n as int] == d1[n as int]);
                }
            }
            assert(mid.dist_of(node_id) == old(self).dist_of(node_id));
        }
    }

    /// Insert a node with the given distance.
    ///
    /// A node with distance `u32::MAX` is not put into a bucket (it represents an
    /// unreachable node): for a node the queue does not hold, only that distance is
    /// recorded, and the node enters a bucket when `decrease_key` lowers it; a node the
    /// queue holds keeps its better distance.  Otherwise the node is placed only when the
    /// distance is below its recorded one.
    pub fn insert(&mut self, distance: u32, node_id: usize) -> (handle: DialHandle)
        requires
            old(self).well_formed(),
            node_id < usize::MAX,
            distance != u32::MAX && distance < old(self).dist_of(node_id) ==> distance < MAX_BUCKETS,
        ensures
            final(self).well_formed(),
            handle.id() == node_id,
            final(self).current() == old(self).current(),
            forall|n: usize| n != node_id ==> #[trigger] final(self).contains(n) == old(self).contains(n),
            forall|n: usize| n != node_id ==> #[trigger] final(self).dist_of(n) == old(self).dist_of(n),
            distance == u32::MAX ==> {
                &&& final(self).dist_of(node_id) == if old(self).contains(node_id) {
                    old(self).dist_of(node_id)
                } else {
                    u32::MAX
                }
                &&& final(self).contains(node_id) == old(self).contains(node_id)
                &&& final(self)@ == old(self)@
            },
            distance != u32::MAX && distance < old(self).dist_of(node_id) ==> {
                &&& final(self).dist_of(node_id) == distance
                &&& final(self).contains(node_id)
                &&& final(self)@ == (if old(self).contains(node_id) {
                    old(self)@.remove((old(self).dist_of(node_id), node_id))
                } else {
                    old(self)@
                }).insert((distance, node_id))
            },
            distance != u32::MAX && distance >= old(self).dist_of(node_id) ==> {
                &&& final(self).dist_of(node_id) == old(self).dist_of(node_id)
                &&& final(self).contains(node_id) == old(self).contains(node_id)
                &&& final(self)@ == old(self)@
            },
            old(self).ordered() && (distance != u32::MAX && distance < old(self).dist_of(node_id)
                ==> old(self).current() <= distance) ==> final(self).ordered(),
    {
        // Ensure vectors are large enough
        if node_id >= self.distances.len() {
            self.grow(node_id);
        }
        let ghost mid: DialHeap = *self;
        proof {
            assert(node_id < self.distances@.len());
            assert(self.distances@[node_id as int] == mid.dist_of(node_id));
            assert(mid@ == old(self)@);
            assert(forall|n: usize| #[trigger] mid.dist_of(n) == old(self).dist_of(n));
            assert(forall|n: usize| #[trigger] mid.contains(n) == old(self).contains(n));
        }
        // Don't insert nodes with u32::MAX - they'll be inserted via decrease_key
        if distance == u32::MAX {
            let held = match self.node_positions[node_id] {
                Some(_) => true,
                None => false,
            };
            proof {
                assert(self.node_positions@.len() == self.node_positions.len());
                assert(held == mid.contains(node_id));
            }
            if held {
                return DialHandle { node_id };
            }
            let ghost np0 = self.node_positions@;
            let ghost d0 = self.distances@;
            self.distances.set(node_id, distance);
            proof {
                let d1 = self.distances@;
                assert(np0.len() == self.node_positions.len());
                lemma_tracked_items_update(np0, d0, np0, d1, node_id as int, np0.len());
                let a = tracked_items(np0, d1, np0.len());
                let b0 = tracked_items(np0, d0, np0.len());
                assert(a.add(item_at(np0, d0, node_id as int)) == b0.add(item_at(np0, d1, node_id as int)));
                assert(item_at(np0, d0, node_id as int) =~= Multiset::empty());
                assert(item_at(np0, d1, node_id as int) =~= Multiset::empty());
                assert forall|y: (u32, usize)| a.count(y) == b0.count(y) by {
                    assert(a.add(Multiset::empty()).count(y) == b0.add(Multiset::empty()).count(y));
                }
                assert(self@ =~= mid@);
                assert forall|n: usize| n != node_id implies #[trigger] self.dist_of(n) == old(self).dist_of(n) by {
                    assert(mid.dist_of(n) == old(self).dist_of(n));
                    if n < d0.len() {
                        assert(d1[n as int] == d0[n as int]);
                    }
                }
                assert forall|n: usize| #[trigger] self.contains(n) == old(self).contains(n) by {
                    assert(mid.contains(n) == old(self).contains(n));
                }
            }
            return DialHandle { node_id };
        }
        // Only insert if this is a better distance
        if distance < self.distances[node_id] {
            proof {
                assert(mid.dist_of(node_id) == old(self).dist_of(node_id));
                assert(mid.contains(node_id) == old(self).contains(node_id));
            }
            self.place(node_id, distance);
        }
        DialHandle { node_id }
    }

    /// Extract a node of least distance from the buckets, scanning them in order from the
    /// current bucket up to the maximum distance seen.
    pub fn extract_min(&mut self) -> (r: Option<(u32, usize)>)
        requires
            old(self).well_formed(),
        ensures
            final(self).well_formed(),
            final(self).current() >= old(self).current(),
            forall|n: usize| #[trigger] final(self).dist_of(n) == old(self).dist_of(n),
            match r {
                None => {
                    &&& final(self)@ == old(self)@
                    &&& forall|n: usize| #[trigger] final(self).contains(n) == old(self).contains(n)
                    &&& final(self).max_seen() == old(self).max_seen()
                    &&& final(self).current() as int == if old(self).current() <= old(self).max_seen() {
                        old(self).max_seen() + 1
                    } else {
                        old(self).current() as int
                    }
                    &&& old(self).ordered() ==> old(self)@.len() == 0 && final(self).ordered()
                },
                Some(x) => {
                    &&& old(self)@.count(x) > 0
                    &&& final(self)@ == old(self)@.remove(x)
                    &&& !final(self).contains(x.1)
                    &&& forall|n: usize| n != x.1 ==> #[trigger] final(self).contains(n) == old(self).contains(n)
                    &&& old(self).ordered() ==> {
                        &&& forall|y: (u32, usize)| #[trigger] old(self)@.count(y) > 0 ==> x.0 <= y.0
                        &&& final(self).current() <= x.0
                        &&& final(self).ordered()
                    }
                },
            },
    {
        // Process buckets sequentially starting from current_bucket
        while self.current_bucket <= self.max_distance
            invariant
                self.well_formed(),
                self.buckets == old(self).buckets,
                self.node_positions == old(self).node_positions,
                self.distances == old(self).distances,
                self.size == old(self).size,
                self.max_distance == old(self).max_distance,
                old(self).current_bucket <= self.current_bucket,
                self.current_bucket == old(self).current_bucket || self.current_bucket <= self.max_distance + 1,
                forall|b: int|
                    old(self).current_bucket <= b < self.current_bucket ==> (#[trigger] self.buckets@[b])@.len() == 0,
                old(self).ordered() ==> self.ordered(),
            decreases self.max_distance + 1 - self.current_bucket,
        {
            let cb = self.current_bucket;
            let ghost bs0 = self.buckets@;
            let ghost np0 = self.node_positions@;
            let ghost d0 = self.distances@;
            if self.buckets[cb].len() > 0 {
                let node_id = self.buckets[cb].pop().unwrap();
                proof {
                    let last = bs0[cb as int]@.len() - 1;
                    assert(bs0[cb as int]@[last] == node_id);
                    assert(np0[node_id as int] == Some((cb, last as usize)));
                    lemma_count_some_update(np0, node_id as int, None);
                }
                self.node_positions.set(node_id, None);
                self.size -= 1;
                let d = self.distances[node_id];
                proof {
                    let bs1 = self.buckets@;
                    let np1 = self.node_positions@;
                    let last = bs0[cb as int]@.len() - 1;
                    let x = (d, node_id);
                    assert(np0.len() == self.node_positions.len());
                    lemma_tracked_items_update(np0, d0, np1, d0, node_id as int, np0.len());
                    assert(item_at(np0, d0, node_id as int) =~= Multiset::singleton(x));
                    assert(item_at(np1, d0, node_id as int) =~= Multiset::empty());
                    let a = tracked_items(np1, d0, np0.len());
                    let b0 = tracked_items(np0, d0, np0.len());
                    assert(a.add(Multiset::singleton(x)) == b0.add(Multiset::empty()));
                    assert forall|y: (u32, usize)| a.count(y) == b0.remove(x).count(y) by {
                        assert(a.add(Multiset::singleton(x)).count(y) == b0.add(Multiset::empty()).count(y));
                        if y == x {
                            assert(b0.count(y) >= 1);
                        }
                    }
                    assert(self@ =~= old(self)@.remove(x));
                    old(self).lemma_view();
                    assert(old(self)@.count(x) > 0);
                    assert forall|b: int, p: int| 0 <= b < bs1.len() && 0 <= p < bs1[b]@.len() implies {
                        let id = #[trigger] bs1[b]@[p];
                        &&& id < np1.len()
                        &&& np1[id as int] == Some((b as usize, p as usize))
                    } by {
                        assert(bs1.len() == self.buckets.len());
                        assert(bs0[b]@.len() == bs0[b].len());
                        assert(bs1[b]@[p] == bs0[b]@[p]);
                        let id = bs0[b]@[p];
                        assert(np0[id as int] == Some((b as usize, p as usize)));
                        if b == cb {
                            assert(p < last);
                        }
                        assert(id != node_id);
                    }
                    assert forall|id: int| 0 <= id < np1.len() && (#[trigger] np1[id]) is Some implies {
                        let q = np1[id]->Some_0;
                        &&& q.0 < bs1.len()
                        &&& q.1 < bs1[q.0 as int]@.len()
                        &&& bs1[q.0 as int]@[q.1 as int] == id
                    } by {
                        let q = np0[id]->Some_0;
                        assert(np1[id] == np0[id]);
                        if q.0 == cb {
                            assert(q.1 as int != last);
                        }
                        assert(bs1[q.0 as int]@[q.1 as int] == bs0[q.0 as int]@[q.1 as int]);
                    }
                    assert forall|n: usize| n != node_id implies #[trigger] self.contains(n) == old(self).contains(n)
                        by {
                        if n < np0.len() {
                            assert(np1[n as int] == np0[n as int]);
                        }
                    }
                    if old(self).ordered() {
                        assert(d0[node_id as int] as int == cb as int);
                        assert forall|y: (u32, usize)| #[trigger] old(self)@.count(y) > 0 implies x.0 <= y.0 by {
                            let q = np0[y.1 as int]->Some_0;
                            assert(np0[y.1 as int] is Some);
                            assert(d0[y.1 as int] as int == q.0 as int);
                            assert(bs0[q.0 as int]@.len() > 0);
                        }
                        assert forall|id: int| 0 <= id < np1.len() && (#[trigger] np1[id]) is Some implies d0[id]
                            as int == np1[id]->Some_0.0 as int by {
                            assert(np1[id] == np0[id]);
                        }
                        assert forall|b: int|
                            0 <= b < bs1.len() && (b < self.current_bucket || b > self.max_distance) implies (
                            #[trigger] bs1[b])@.len() == 0 by {
                            assert(b != cb);
                            assert(bs1[b] == bs0[b]);
                        }
                    }
                }
                return Some((d, node_id));
            }
            self.current_bucket += 1;
        }
        proof {
            if old(self).ordered() {
                old(self).lemma_view();
                assert forall|y: (u32, usize)| #[trigger] old(self)@.count(y) == 0 by {
                    if old(self)@.count(y) > 0 {
                        let q = self.node_positions@[y.1 as int]->Some_0;
                        assert(self.node_positions@[y.1 as int] is Some);
                        assert(self.buckets@[q.0 as int]@.len() > 0);
                    }
                }
                assert(old(self)@ =~= Multiset::empty());
            }
        }
        None
    }

    /// Decrease the distance of the node that `handle` designates, moving it to the bucket
    /// of the new distance (or adding it when it has no entry).  Nothing changes when
    /// `new_distance` is `u32::MAX` or not below the recorded distance.
    pub fn decrease_key(&mut self, handle: &DialHandle, new_distance: u32)
        requires
            old(self).well_formed(),
            new_distance != u32::MAX && new_distance < old(self).dist_of(handle.id()) ==> new_distance < MAX_BUCKETS,
        ensures
            final(self).well_formed(),
            final(self).current() == old(self).current(),
            forall|n: usize| n != handle.id() ==> #[trigger] final(self).contains(n) == old(self).contains(n),
            forall|n: usize| n != handle.id() ==> #[trigger] final(self).dist_of(n) == old(self).dist_of(n),
            new_distance != u32::MAX && new_distance < old(self).dist_of(handle.id()) ==> {
                &&& final(self).dist_of(handle.id()) == new_distance
                &&& final(self).contains(handle.id())
                &&& final(self)@ == (if old(self).contains(handle.id()) {
                    old(self)@.remove((old(self).dist_of(handle.id()), handle.id()))
                } else {
                    old(self)@
                }).insert((new_distance, handle.id()))
            },
            !(new_distance != u32::MAX && new_distance < old(self).dist_of(handle.id())) ==> {
                &&& final(self).dist_of(handle.id()) == old(self).dist_of(handle.id())
                &&& final(self).contains(handle.id()) == old(self).contains(handle.id())
                &&& final(self)@ == old(self)@
            },
            old(self).ordered() && (new_distance != u32::MAX && new_distance < old(self).dist_of(handle.id())
                ==> old(self).current() <= new_distance) ==> final(self).ordered(),
    {
        proof {
            use_type_invariant(handle);
        }
        // Don't process u32::MAX
        if new_distance == u32::MAX {
            return ;
        }
        let node_id = handle.node_id;
        // Ensure vectors are large enough
        if node_id >= self.distances.len() {
            self.grow(node_id);
        }
        // Check if this is actually a decrease
        if new_distance >= self.distances[node_id] {
            return ;
        }
        self.place(node_id, new_distance);
    }

    /// Check if the heap is empty.
    pub fn is_empty(&self) -> (r: bool)
        requires
            self.well_formed(),
        ensures
            r == (self@.len() == 0),
    {
        proof {
            self.lemma_size();
        }
        self.size == 0
    }

    /// Get the number of elements in the heap.
    pub fn len(&self) -> (r: usize)
        requires
            self.well_formed(),
        ensures
            r == self@.len(),
    {
        proof {
            self.lemma_size();
        }
        self.size
    }
}

impl Default for DialHeap {
    fn default() -> (r: Self)
        ensures
            r.well_formed(),
            r.ordered(),
            r@ =~= Multiset::empty(),
            r.current() == 0,
            forall|n: usize| !(#[trigger] r.contains(n)),
            forall|n: usize| #[trigger] r.dist_of(n) == u32::MAX,
    {
        Self::new(0, 10000)
    }
}


} // verus!
