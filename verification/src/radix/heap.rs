//! Radix heap implementation for priority queues with non-decreasing integer keys.
//!
//! A radix heap exploits the property that extracted keys never decrease: entries sit
//! in buckets by the number of bits of `key ^ min_key`, where `min_key` is the last
//! extracted key.  Extracting the minimum empties the first non-empty bucket into the
//! lower buckets.
use vstd::multiset::Multiset;
use vstd::pervasive::VecAdditionalExecFns;
use vstd::prelude::*;
use vstd::std_specs::bits::u32_leading_zeros;

verus! {

broadcast use {
    vstd::multiset::group_multiset_axioms,
    vstd::multiset::group_multiset_properties,
    vstd::seq_lib::group_to_multiset_ensures,
    vstd::std_specs::bits::axiom_u32_leading_zeros,
};

#[derive(Clone, Copy, Debug)]
struct Node {
    key: u32,
    node_id: usize,
}

/// Handle to a node in the radix heap, used for `decrease_key` operations.
#[derive(Clone, Copy, Debug, PartialEq, Eq, Structural, Hash)]
pub struct RadixHandle {
    node_id: usize,
}

impl RadixHandle {
    /// The node the handle designates.
    pub closed spec fn id(self) -> usize {
        self.node_id
    }

    /// Handles of the same node are the same handle.
    pub proof fn lemma_same_id(self, other: RadixHandle)
        ensures
            self.id() == other.id() ==> self == other,
    {
    }

    /// Handles are made by `insert`, which takes node ids below `usize::MAX`.
    #[verifier::type_invariant]
    spec fn handle_inv(self) -> bool {
        self.node_id < usize::MAX
    }
}

/// Radix heap implementation.
///
/// Bucket `i` holds the entries whose key differs from the current minimum key in a
/// highest bit of position `i - 1` (bucket 0 holds the keys equal to it).
pub struct RadixHeap {
    /// Buckets: bucket[i] contains nodes where the key delta needs i bits.
    buckets: Vec<Vec<Node>>,
    /// Current minimum key (the last extracted key, or 0 initially).
    min_key: u32,
    /// Total number of elements in the heap.
    size: usize,
    /// Direct mapping from node_id to (bucket_index, position_in_bucket) for decrease_key.
    /// None means the node is not tracked.
    node_positions: Vec<Option<(usize, usize)>>,
}

/// The bucket of `key` relative to `base`: the number of bits of `key ^ base`.
pub open spec fn bucket_of(key: u32, base: u32) -> int {
    32 - u32_leading_zeros(key ^ base)
}

spec fn entry(n: Node) -> (u32, usize) {
    (n.key, n.node_id)
}

spec fn bucket_items(b: Seq<Node>) -> Multiset<(u32, usize)> {
    b.map_values(|n: Node| entry(n)).to_multiset()
}

spec fn items_upto(bs: Seq<Vec<Node>>, k: nat) -> Multiset<(u32, usize)>
    decreases k,
{
    if k == 0 {
        Multiset::empty()
    } else {
        items_upto(bs, (k - 1) as nat).add(bucket_items(bs[k - 1]@))
    }
}

spec fn count_some(s: Seq<Option<(usize, usize)>>) -> nat
    decreases s.len(),
{
    if s.len() == 0 {
        0
    } else {
        count_some(s.drop_last()) + if s.last() is Some {
            1nat
        } else {
            0nat
        }
    }
}

/// Every entry sits in the bucket of its key relative to `base`, not below it, and its
/// node has a slot in the position table.
spec fn placement_ok(bs: Seq<Vec<Node>>, base: u32, np_len: nat) -> bool {
    forall|b: int, p: int|
        0 <= b < bs.len() && 0 <= p < bs[b]@.len() ==> {
            let n = #[trigger] bs[b]@[p];
            &&& n.key >= base
            &&& bucket_of(n.key, base) == b
            &&& n.node_id < np_len
        }
}

/// Every tracked position designates an entry of its node.
spec fn positions_ok(bs: Seq<Vec<Node>>, np: Seq<Option<(usize, usize)>>) -> bool {
    forall|id: int| 0 <= id < np.len() && (#[trigger] np[id]) is Some ==> valid_pos(bs, np[id]->Some_0, id as usize)
}

/// Every entry is tracked at its own position.
spec fn tracked_exactly(bs: Seq<Vec<Node>>, np: Seq<Option<(usize, usize)>>) -> bool {
    forall|b: int, p: int|
        0 <= b < bs.len() && 0 <= p < bs[b]@.len() ==> np[(#[trigger] bs[b]@[p]).node_id as int] == Some(
            (b as usize, p as usize),
        )
}

/// The key of the entry at `pos`.
spec fn key_at(bs: Seq<Vec<Node>>, pos: (usize, usize)) -> u32 {
    bs[pos.0 as int]@[pos.1 as int].key
}

/// The key at `pos` while the entries `nodes[j..]` of bucket `i` wait to be placed
/// again: a position in bucket `i` at or past `j` still designates one of them.
spec fn pending_key(bs: Seq<Vec<Node>>, nodes: Seq<Node>, i: usize, j: int, pos: (usize, usize)) -> u32 {
    if pos.0 == i && pos.1 >= j {
        nodes[pos.1 as int].key
    } else {
        key_at(bs, pos)
    }
}

/// `pos` designates an entry of node `id` in `bs`.
spec fn valid_pos(bs: Seq<Vec<Node>>, pos: (usize, usize), id: usize) -> bool {
    &&& pos.0 < bs.len()
    &&& pos.1 < bs[pos.0 as int]@.len()
    &&& bs[pos.0 as int]@[pos.1 as int].node_id == id
}

// ---------------------------------------------------------------------------------
// Bit facts behind the bucket order.
// ---------------------------------------------------------------------------------

/// The highest set bit of `x` is bit `bucket_of(x, 0) - 1`.
proof fn lemma_bits_of_len(x: u32)
    ensures
        0 <= 32 - u32_leading_zeros(x) <= 32,
        x == 0 <==> u32_leading_zeros(x) == 32,
        u32_leading_zeros(x) < 32 ==> {
            let s = (31 - u32_leading_zeros(x)) as u32;
            &&& (x >> s) & 1 == 1
            &&& s < 31 ==> x >> ((s + 1) as u32) == 0
        },
{
    let l = u32_leading_zeros(x);
    if l < 32 {
        let s = (31 - l) as u32;
        let t = (32 - l) as u32;
        assert((x >> s) & 1u32 != 0u32 ==> (x >> s) & 1 == 1) by (bit_vector);
        assert(t == s + 1);
    }
}

/// A value whose highest set bit is `s` has `s + 1` bits.
proof fn lemma_len_of_bits(x: u32, s: u32)
    requires
        s < 32,
        (x >> s) & 1 == 1,
        s < 31 ==> x >> ((s + 1) as u32) == 0,
    ensures
        32 - u32_leading_zeros(x) == s + 1,
{
    lemma_bits_of_len(x);
    let l = u32_leading_zeros(x);
    assert(x != 0) by (bit_vector)
        requires
            (x >> s) & 1 == 1,
    ;
    let s2 = (31 - l) as u32;
    if s2 > s {
        assert(s < 31);
        let s1 = (s + 1) as u32;
        assert((x >> s2) & 1 == 0) by (bit_vector)
            requires
                x >> s1 == 0,
                s1 <= s2,
                s2 < 32,
        ;
    } else if s2 < s {
        let t = (s2 + 1) as u32;
        assert(t <= s);
        assert((x >> s) & 1 == 0) by (bit_vector)
            requires
                x >> t == 0,
                t <= s,
                s < 32,
        ;
    }
}

/// Keys at or above `m` are ordered by their buckets relative to `m`.
proof fn lemma_bucket_order(m: u32, a: u32, b: u32)
    requires
        m <= b,
        bucket_of(a, m) < bucket_of(b, m),
    ensures
        a < b,
{
    let x = a ^ m;
    let y = b ^ m;
    lemma_bits_of_len(x);
    lemma_bits_of_len(y);
    let s = (31 - u32_leading_zeros(y)) as u32;
    if u32_leading_zeros(x) == 32 {
        assert(a == m) by (bit_vector)
            requires
                x == a ^ m,
                x == 0,
        ;
        assert(m < b) by (bit_vector)
            requires
                y == b ^ m,
                (y >> s) & 1 == 1,
                m <= b,
        ;
    } else {
        let sx = (31 - u32_leading_zeros(x)) as u32;
        let t = (sx + 1) as u32;
        assert(t <= s);
        assert(x >> s == 0) by (bit_vector)
            requires
                sx < 31 ==> x >> t == 0,
                t == sx + 1,
                t <= s,
                s < 32,
        ;
        if s < 31 {
            let s1 = (s + 1) as u32;
            assert(a < b) by (bit_vector)
                requires
                    x == a ^ m,
                    y == b ^ m,
                    x >> s == 0,
                    (y >> s) & 1 == 1,
                    y >> s1 == 0,
                    s1 == s + 1,
                    m <= b,
            ;
        } else {
            assert(a < b) by (bit_vector)
                requires
                    x == a ^ m,
                    y == b ^ m,
                    x >> s == 0,
                    (y >> s) & 1 == 1,
                    s == 31,
                    m <= b,
            ;
        }
    }
}

/// Moving the base up to a key of a lower bucket keeps the bucket of `b`.
proof fn lemma_bucket_shift(m: u32, m2: u32, b: u32)
    requires
        m <= b,
        bucket_of(m2, m) < bucket_of(b, m),
    ensures
        bucket_of(b, m2) == bucket_of(b, m),
        m2 < b,
{
    lemma_bucket_order(m, m2, b);
    let x = m2 ^ m;
    let y = b ^ m;
    let z = b ^ m2;
    lemma_bits_of_len(x);
    lemma_bits_of_len(y);
    let s = (31 - u32_leading_zeros(y)) as u32;
    if u32_leading_zeros(x) == 32 {
        assert(z == y) by (bit_vector)
            requires
                x == m2 ^ m,
                y == b ^ m,
                z == b ^ m2,
                x == 0,
        ;
    } else {
        let sx = (31 - u32_leading_zeros(x)) as u32;
        let t = (sx + 1) as u32;
        assert(x >> s == 0) by (bit_vector)
            requires
                sx < 31 ==> x >> t == 0,
                t == sx + 1,
                t <= s,
                s < 32,
        ;
        assert((z >> s) & 1 == 1) by (bit_vector)
            requires
                x == m2 ^ m,
                y == b ^ m,
                z == b ^ m2,
                x >> s == 0,
                (y >> s) & 1 == 1,
        ;
        if s < 31 {
            let s1 = (s + 1) as u32;
            assert(z >> s1 == 0) by (bit_vector)
                requires
                    x == m2 ^ m,
                    y == b ^ m,
                    z == b ^ m2,
                    x >> s == 0,
                    y >> s1 == 0,
                    s1 == s + 1,
            ;
        }
        lemma_len_of_bits(z, s);
        lemma_len_of_bits(y, s);
    }
}

// ---------------------------------------------------------------------------------
// The entries held by the buckets.
// ---------------------------------------------------------------------------------

proof fn lemma_items_update(bs: Seq<Vec<Node>>, b: int, v: Vec<Node>, k: nat)
    requires
        0 <= b < bs.len(),
        k <= bs.len(),
    ensures
        b < k ==> items_upto(bs.update(b, v), k).add(bucket_items(bs[b]@)) =~= items_upto(bs, k).add(
            bucket_items(v@),
        ),
        b >= k ==> items_upto(bs.update(b, v), k) =~= items_upto(bs, k),
    decreases k,
{
    if k > 0 {
        lemma_items_update(bs, b, v, (k - 1) as nat);
        let bs2 = bs.update(b, v);
        if k - 1 == b {
            assert(bs2[k - 1] == v);
        } else {
            assert(bs2[k - 1] == bs[k - 1]);
        }
        let a1 = items_upto(bs2, (k - 1) as nat);
        let a0 = items_upto(bs, (k - 1) as nat);
        assert(items_upto(bs2, k) == a1.add(bucket_items(bs2[k - 1]@)));
        assert(items_upto(bs, k) == a0.add(bucket_items(bs[k - 1]@)));
        if b < k {
            let lhs = items_upto(bs2, k).add(bucket_items(bs[b]@));
            let rhs = items_upto(bs, k).add(bucket_items(v@));
            assert forall|y: (u32, usize)| lhs.count(y) == rhs.count(y) by {
                if k - 1 != b {
                    assert(a1.add(bucket_items(bs[b]@)).count(y) == a0.add(bucket_items(v@)).count(y));
                }
            }
            assert(lhs =~= rhs);
        }
    }
}

proof fn lemma_cancel_insert(a: Multiset<(u32, usize)>, b: Multiset<(u32, usize)>, c: Multiset<(u32, usize)>, e: (u32, usize))
    requires
        a.add(c) == b.add(c.insert(e)),
    ensures
        a =~= b.insert(e),
{
    assert forall|y: (u32, usize)| a.count(y) == b.insert(e).count(y) by {
        assert(a.add(c).count(y) == b.add(c.insert(e)).count(y));
        assert(a.add(c).count(y) == a.count(y) + c.count(y));
        assert(b.add(c.insert(e)).count(y) == b.count(y) + c.insert(e).count(y));
        if y == e {
            assert(c.insert(e).count(y) == c.count(y) + 1);
            assert(b.insert(e).count(y) == b.count(y) + 1);
        } else {
            assert(c.insert(e).count(y) == c.count(y));
            assert(b.insert(e).count(y) == b.count(y));
        }
    }
}

proof fn lemma_cancel_remove(a: Multiset<(u32, usize)>, b: Multiset<(u32, usize)>, c: Multiset<(u32, usize)>, e: (u32, usize))
    requires
        a.add(c) == b.add(c.remove(e)),
        c.count(e) > 0,
    ensures
        a =~= b.remove(e),
{
    assert forall|y: (u32, usize)| a.count(y) == b.remove(e).count(y) by {
        assert(a.add(c).count(y) == b.add(c.remove(e)).count(y));
        assert(a.add(c).count(y) == a.count(y) + c.count(y));
        assert(b.add(c.remove(e)).count(y) == b.count(y) + c.remove(e).count(y));
        if y == e {
            assert(c.remove(e).count(y) == c.count(y) - 1);
            assert(b.count(y) >= 1);
            assert(b.remove(e).count(y) == b.count(y) - 1);
        } else {
            assert(c.remove(e).count(y) == c.count(y));
            assert(b.remove(e).count(y) == b.count(y));
        }
    }
}

proof fn lemma_items_member(bs: Seq<Vec<Node>>, k: nat, y: (u32, usize))
    requires
        k <= bs.len(),
        items_upto(bs, k).count(y) > 0,
    ensures
        exists|b: int, p: int| 0 <= b < k && 0 <= p < bs[b]@.len() && entry(#[trigger] bs[b]@[p]) == y,
    decreases k,
{
    if items_upto(bs, (k - 1) as nat).count(y) > 0 {
        lemma_items_member(bs, (k - 1) as nat, y);
    } else {
        let s = bs[k - 1]@.map_values(|n: Node| entry(n));
        assert(s.to_multiset().count(y) > 0);
        assert(s.contains(y));
        let p = choose|p: int| 0 <= p < s.len() && s[p] == y;
        assert(entry(bs[k - 1]@[p]) == y);
    }
}

proof fn lemma_items_has(bs: Seq<Vec<Node>>, k: nat, b: int, p: int)
    requires
        k <= bs.len(),
        0 <= b < k,
        0 <= p < bs[b]@.len(),
    ensures
        items_upto(bs, k).count(entry(bs[b]@[p])) > 0,
    decreases k,
{
    if b < k - 1 {
        lemma_items_has(bs, (k - 1) as nat, b, p);
    } else {
        let s = bs[b]@.map_values(|n: Node| entry(n));
        assert(s[p] == entry(bs[b]@[p]));
        assert(s.contains(entry(bs[b]@[p])));
    }
}

proof fn lemma_bucket_push(v: Seq<Node>, n: Node)
    ensures
        bucket_items(v.push(n)) =~= bucket_items(v).insert(entry(n)),
{
    assert(v.push(n).map_values(|n: Node| entry(n)) =~= v.map_values(|n: Node| entry(n)).push(entry(n)));
}

proof fn lemma_bucket_swap_remove(v: Seq<Node>, i: int)
    requires
        0 <= i < v.len(),
    ensures
        bucket_items(v.update(i, v.last()).drop_last()) =~= bucket_items(v).remove(entry(v[i])),
{
    let f = |n: Node| entry(n);
    let s = v.map_values(f);
    let u = s.update(i, s.last());
    assert(v.update(i, v.last()).drop_last().map_values(f) =~= u.drop_last());
    vstd::seq_lib::to_multiset_update(s, i, s.last());
    assert(u.drop_last() =~= u.remove(u.len() - 1));
    assert(u[u.len() - 1] == s.last());
}

proof fn lemma_count_some_bound(s: Seq<Option<(usize, usize)>>)
    ensures
        count_some(s) <= s.len(),
        (exists|i: int| 0 <= i < s.len() && #[trigger] s[i] is None) ==> count_some(s) < s.len(),
    decreases s.len(),
{
    if s.len() > 0 {
        lemma_count_some_bound(s.drop_last());
        if exists|i: int| 0 <= i < s.len() && #[trigger] s[i] is None {
            let i = choose|i: int| 0 <= i < s.len() && #[trigger] s[i] is None;
            if i < s.len() - 1 {
                assert(s.drop_last()[i] is None);
            }
        }
    }
}

proof fn lemma_count_some_update(s: Seq<Option<(usize, usize)>>, i: int, v: Option<(usize, usize)>)
    requires
        0 <= i < s.len(),
    ensures
        count_some(s.update(i, v)) + (if s[i] is Some { 1int } else { 0int }) == count_some(s) + (if v is Some {
            1int
        } else {
            0int
        }),
    decreases s.len(),
{
    if i < s.len() - 1 {
        lemma_count_some_update(s.drop_last(), i, v);
        assert(s.update(i, v).drop_last() =~= s.drop_last().update(i, v));
    } else {
        assert(s.update(i, v).drop_last() =~= s.drop_last());
    }
}

proof fn lemma_count_some_push_none(s: Seq<Option<(usize, usize)>>)
    ensures
        count_some(s.push(None)) == count_some(s),
{
    assert(s.push(None).drop_last() =~= s);
}

/// Extends the position table `v` with untracked slots up to length `len`.
fn grow_positions(v: &mut Vec<Option<(usize, usize)>>, len: usize)
    ensures
        final(v)@.len() == if len > old(v)@.len() {
            len as int
        } else {
            old(v)@.len() as int
        },
        forall|k: int|
            0 <= k < final(v)@.len() ==> #[trigger] final(v)@[k] == if k < old(v)@.len() {
                old(v)@[k]
            } else {
                None
            },
        count_some(final(v)@) == count_some(old(v)@),
{
    while v.len() < len
        invariant
            old(v)@.len() <= v@.len(),
            v@.len() <= if len > old(v)@.len() {
                len as int
            } else {
                old(v)@.len() as int
            },
            forall|k: int|
                0 <= k < v@.len() ==> #[trigger] v@[k] == if k < old(v)@.len() {
                    old(v)@[k]
                } else {
                    None
                },
            count_some(v@) == count_some(old(v)@),
        decreases len - v@.len(),
    {
        proof {
            lemma_count_some_push_none(v@);
        }
        v.push(None);
    }
}

impl RadixHeap {
    /// The entries the heap holds, as `(key, node_id)` pairs.
    pub closed spec fn view(&self) -> Multiset<(u32, usize)> {
        items_upto(self.buckets@, 33)
    }

    /// The current minimum key: the last extracted key, or 0 initially.
    pub closed spec fn last_key(&self) -> u32 {
        self.min_key
    }

    /// Whether the heap tracks an entry of node `id` (one that `decrease_key` reaches).
    pub closed spec fn contains(&self, id: usize) -> bool {
        id < self.node_positions@.len() && self.node_positions@[id as int] is Some
    }

    /// The tracked entry of node `id`, if any.
    pub closed spec fn entry_of_node(&self, id: usize) -> Option<(u32, usize)> {
        if self.contains(id) {
            let pos = self.node_positions@[id as int]->Some_0;
            Some((self.buckets@[pos.0 as int]@[pos.1 as int].key, id))
        } else {
            None
        }
    }

    /// The entry that `handle` designates, if the heap tracks one for its node.
    pub open spec fn entry_of(&self, handle: RadixHandle) -> Option<(u32, usize)> {
        self.entry_of_node(handle.id())
    }

    /// The tracked entry of a node is an entry of that node, and exists exactly when the
    /// node is tracked.
    pub proof fn lemma_entry_of_node(&self, id: usize)
        ensures
            self.entry_of_node(id) is Some == self.contains(id),
            self.entry_of_node(id) matches Some(e) ==> e.1 == id,
    {
    }

    /// The entry that a handle designates is among the entries of the heap.
    pub proof fn lemma_entries(&self)
        requires
            self.well_formed(),
        ensures
            forall|h: RadixHandle| #[trigger] self.entry_of(h) is Some ==> self@.count(self.entry_of(h)->Some_0) > 0,
    {
        assert forall|h: RadixHandle| #[trigger] self.entry_of(h) is Some implies self@.count(self.entry_of(h)->Some_0) > 0 by {
            let id = h.id();
            let pos = self.node_positions@[id as int]->Some_0;
            assert(valid_pos(self.buckets@, pos, id));
            lemma_items_has(self.buckets@, 33, pos.0 as int, pos.1 as int);
        }
    }

    /// Bucket placement relative to the minimum key, tracked positions designate entries
    /// of their node, and the size counts the entries.
    pub closed spec fn well_formed(&self) -> bool {
        &&& self.buckets@.len() == 33
        &&& placement_ok(self.buckets@, self.min_key, self.node_positions@.len())
        &&& positions_ok(self.buckets@, self.node_positions@)
        &&& self.size == self@.len()
    }

    /// The number of node ids (`0..position_slots()`) whose positions the heap has room
    /// for without growing its position table.
    pub closed spec fn position_slots(&self) -> nat {
        self.node_positions@.len()
    }

    /// Every entry is tracked at its own position (so no node has two entries).
    pub closed spec fn tracks_all(&self) -> bool {
        &&& tracked_exactly(self.buckets@, self.node_positions@)
        &&& self.size == count_some(self.node_positions@)
    }

    /// A heap that tracks all its entries has room for an entry of an untracked node.
    pub proof fn lemma_room(&self, node_id: usize)
        requires
            self.well_formed(),
            self.tracks_all(),
            !self.contains(node_id),
            node_id < usize::MAX,
        ensures
            self@.len() < usize::MAX,
    {
        lemma_count_some_bound(self.node_positions@);
        assert(self.node_positions@.len() == self.node_positions.len());
        if node_id < self.node_positions@.len() {
            assert(self.node_positions@[node_id as int] is None);
        }
    }

    fn empty_buckets() -> (r: Vec<Vec<Node>>)
        ensures
            r@.len() == 33,
            forall|b: int| 0 <= b < 33 ==> (#[trigger] r@[b])@.len() == 0,
    {
        let mut r: Vec<Vec<Node>> = Vec::new();
        let mut i: usize = 0;
        while i < 33
            invariant
                i <= 33,
                r@.len() == i,
                forall|b: int| 0 <= b < i ==> (#[trigger] r@[b])@.len() == 0,
            decreases 33 - i,
        {
            r.push(Vec::new());
            i += 1;
        }
        r
    }

    proof fn lemma_empty_items(bs: Seq<Vec<Node>>, k: nat)
        requires
            k <= bs.len(),
            forall|b: int| 0 <= b < k ==> (#[trigger] bs[b])@.len() == 0,
        ensures
            items_upto(bs, k) =~= Multiset::empty(),
        decreases k,
    {
        if k > 0 {
            Self::lemma_empty_items(bs, (k - 1) as nat);
            assert(bs[k - 1]@.map_values(|n: Node| entry(n)) =~= Seq::<(u32, usize)>::empty());
        }
    }

    /// Create a new empty radix heap.
    pub fn new() -> (r: Self)
        ensures
            r.well_formed(),
            r.tracks_all(),
            r@ =~= Multiset::empty(),
            r.last_key() == 0,
            forall|n: usize| !(#[trigger] r.contains(n)),
            r.position_slots() == 0,
    {
        let buckets = Self::empty_buckets();
        proof {
            Self::lemma_empty_items(buckets@, 33);
        }
        let r = RadixHeap { buckets, min_key: 0, size: 0, node_positions: Vec::new() };
        assert(count_some(r.node_positions@) == 0);
        r
    }

    /// Create a new empty radix heap with room for the positions of the nodes
    /// `0..=max_node_id`.
    pub fn with_capacity(max_node_id: usize) -> (r: Self)
        requires
            max_node_id < usize::MAX,
        ensures
            r.well_formed(),
            r.tracks_all(),
            r@ =~= Multiset::empty(),
            r.last_key() == 0,
            forall|n: usize| !(#[trigger] r.contains(n)),
            r.position_slots() == max_node_id + 1,
    {
        let buckets = Self::empty_buckets();
        proof {
            Self::lemma_empty_items(buckets@, 33);
        }
        let mut node_positions: Vec<Option<(usize, usize)>> = Vec::new();
        let mut i: usize = 0;
        while i < max_node_id + 1
            invariant
                i <= max_node_id + 1,
                max_node_id < usize::MAX,
                node_positions@.len() == i,
                forall|k: int| 0 <= k < i ==> (#[trigger] node_positions@[k]) is None,
                count_some(node_positions@) == 0,
            decreases max_node_id + 1 - i,
        {
            proof {
                lemma_count_some_push_none(node_positions@);
            }
            node_positions.push(None);
            i += 1;
        }
        RadixHeap { buckets, min_key: 0, size: 0, node_positions }
    }

    /// The bucket index of `key`: the number of bits of `key ^ min_key`.
    fn bucket_index(&self, key: u32) -> (r: usize)
        requires
            self.min_key <= key,
        ensures
            r == bucket_of(key, self.min_key),
            r < 33,
    {
        let delta = key ^ self.min_key;
        proof {
            lemma_bits_of_len(delta);
        }
        (32 - delta.leading_zeros()) as usize
    }

    /// Insert a node with the given key and node ID.
    pub fn insert(&mut self, key: u32, node_id: usize) -> (handle: RadixHandle)
        requires
            old(self).well_formed(),
            old(self).last_key() <= key,
            node_id < usize::MAX,
            old(self)@.len() < usize::MAX,
        ensures
            final(self).well_formed(),
            final(self)@ == old(self)@.insert((key, node_id)),
            final(self).last_key() == old(self).last_key(),
            handle.id() == node_id,
            final(self).entry_of(handle) == Some((key, node_id)),
            forall|h: RadixHandle|
                h.id() != node_id ==> #[trigger] final(self).entry_of(h) == old(self).entry_of(h),
            forall|n: usize| #[trigger] final(self).contains(n) == (old(self).contains(n) || n == node_id),
            old(self).tracks_all() && !old(self).contains(node_id) ==> final(self).tracks_all(),
    {
        let bucket_idx = self.bucket_index(key);
        let pos = self.buckets[bucket_idx].len();
        let ghost bs0 = self.buckets@;
        self.buckets[bucket_idx].push(Node { key, node_id });
        proof {
            let n = Node { key, node_id };
            lemma_bucket_push(bs0[bucket_idx as int]@, n);
            lemma_items_update(bs0, bucket_idx as int, self.buckets@[bucket_idx as int], 33);
            assert(self.buckets@ =~= bs0.update(bucket_idx as int, self.buckets@[bucket_idx as int]));
            lemma_cancel_insert(
                items_upto(self.buckets@, 33),
                items_upto(bs0, 33),
                bucket_items(bs0[bucket_idx as int]@),
                entry(n),
            );
        }
        if node_id >= self.node_positions.len() {
            grow_positions(&mut self.node_positions, node_id + 1);
        }
        let ghost np0 = self.node_positions@;
        proof {
            lemma_count_some_update(np0, node_id as int, Some((bucket_idx, pos)));
        }
        self.node_positions.set(node_id, Some((bucket_idx, pos)));
        self.size += 1;
        proof {
            assert forall|b: int, p: int|
                0 <= b < 33 && 0 <= p < self.buckets@[b]@.len() implies {
                let n = #[trigger] self.buckets@[b]@[p];
                &&& n.key >= self.min_key
                &&& bucket_of(n.key, self.min_key) == b
                &&& n.node_id < self.node_positions@.len()
            } by {
                if b != bucket_idx || p < pos {
                    assert(self.buckets@[b]@[p] == bs0[b]@[p]);
                }
            }
            assert forall|id: int|
                0 <= id < self.node_positions@.len() && (#[trigger] self.node_positions@[id]) is Some
                    implies valid_pos(self.buckets@, self.node_positions@[id]->Some_0, id as usize) by {
                if id != node_id {
                    let q = self.node_positions@[id]->Some_0;
                    assert(np0[id] == old(self).node_positions@[id]);
                    assert(self.buckets@[q.0 as int]@[q.1 as int] == bs0[q.0 as int]@[q.1 as int]);
                }
            }
            assert forall|h: RadixHandle| h.id() != node_id implies #[trigger] self.entry_of(h) == old(self).entry_of(
                h,
            ) by {
                if old(self).contains(h.node_id) {
                    let q = old(self).node_positions@[h.node_id as int]->Some_0;
                    assert(self.buckets@[q.0 as int]@[q.1 as int] == bs0[q.0 as int]@[q.1 as int]);
                }
            }
            if old(self).tracks_all() && !old(self).contains(node_id) {
                assert forall|b: int, p: int|
                    0 <= b < 33 && 0 <= p < self.buckets@[b]@.len() implies self.node_positions@[(
                #[trigger] self.buckets@[b]@[p]).node_id as int] == Some((b as usize, p as usize)) by {
                    if b != bucket_idx || p < pos {
                        assert(self.buckets@[b]@[p] == bs0[b]@[p]);
                        let id = bs0[b]@[p].node_id;
                        assert(old(self).node_positions@[id as int] == Some((b as usize, p as usize)));
                    }
                }
            }
        }
        RadixHandle { node_id }
    }

    /// Check if the heap is empty.
    pub fn is_empty(&self) -> (r: bool)
        requires
            self.well_formed(),
        ensures
            r == (self@.len() == 0),
    {
        self.size == 0
    }

    /// Get the number of elements in the heap.
    pub fn len(&self) -> (r: usize)
        requires
            self.well_formed(),
        ensures
            r == self@.len(),
    {
        self.size
    }

    /// Removes the entry at position `p` of bucket `b`, moving the last entry of the
    /// bucket into its place, and updates the positions of both.
    fn take_entry(&mut self, b: usize, p: usize) -> (n: Node)
        requires
            old(self).buckets@.len() == 33,
            b < 33,
            p < old(self).buckets@[b as int]@.len(),
            placement_ok(old(self).buckets@, old(self).min_key, old(self).node_positions@.len()),
            positions_ok(old(self).buckets@, old(self).node_positions@),
        ensures
            n == old(self).buckets@[b as int]@[p as int],
            final(self).min_key == old(self).min_key,
            final(self).size == old(self).size,
            final(self).buckets@.len() == 33,
            final(self).node_positions@.len() == old(self).node_positions@.len(),
            forall|c: int| 0 <= c < 33 && c != b ==> #[trigger] final(self).buckets@[c] == old(self).buckets@[c],
            final(self).buckets@[b as int]@ == old(self).buckets@[b as int]@.update(
                p as int,
                old(self).buckets@[b as int]@.last(),
            ).drop_last(),
            items_upto(final(self).buckets@, 33) == items_upto(old(self).buckets@, 33).remove(entry(n)),
            placement_ok(final(self).buckets@, final(self).min_key, final(self).node_positions@.len()),
            positions_ok(final(self).buckets@, final(self).node_positions@),
            tracked_exactly(old(self).buckets@, old(self).node_positions@) ==> {
                &&& tracked_exactly(final(self).buckets@, final(self).node_positions@)
                &&& count_some(final(self).node_positions@) + 1 == count_some(old(self).node_positions@)
                &&& final(self).node_positions@[n.node_id as int] is None
                &&& forall|id: int|
                    0 <= id < old(self).node_positions@.len() && id != n.node_id ==> {
                        &&& (#[trigger] final(self).node_positions@[id] is Some) == old(
                            self,
                        ).node_positions@[id] is Some
                        &&& old(self).node_positions@[id] is Some ==> key_at(
                            final(self).buckets@,
                            final(self).node_positions@[id]->Some_0,
                        ) == key_at(old(self).buckets@, old(self).node_positions@[id]->Some_0)
                    }
            },
    {
        let ghost bs0 = self.buckets@;
        let ghost np0 = self.node_positions@;
        let ghost last = bs0[b as int]@.len() - 1;
        proof {
            assert(np0.len() == old(self).node_positions.len());
        }
        let n = self.buckets[b].swap_remove(p);
        proof {
            let es = bs0[b as int]@.map_values(|m: Node| entry(m));
            assert(es[p as int] == entry(n));
            assert(es.contains(entry(n)));
            lemma_bucket_swap_remove(bs0[b as int]@, p as int);
            lemma_items_update(bs0, b as int, self.buckets@[b as int], 33);
            assert(self.buckets@ =~= bs0.update(b as int, self.buckets@[b as int]));
            lemma_cancel_remove(
                items_upto(self.buckets@, 33),
                items_upto(bs0, 33),
                bucket_items(bs0[b as int]@),
                entry(n),
            );
            lemma_count_some_update(np0, n.node_id as int, None);
        }
        self.node_positions.set(n.node_id, None);
        let bucket_len = self.buckets[b].len();
        let ghost np1 = self.node_positions@;
        if p < bucket_len {
            // A swap occurred: the last entry moved to position `p`
            let swapped_id = self.buckets[b][p].node_id;
            proof {
                lemma_count_some_update(np1, swapped_id as int, Some((b, p)));
            }
            self.node_positions.set(swapped_id, Some((b, p)));
        }
        proof {
            let bs1 = self.buckets@;
            assert forall|c: int, q: int| 0 <= c < bs1.len() && 0 <= q < bs1[c]@.len() implies {
                let m = #[trigger] bs1[c]@[q];
                &&& m.key >= self.min_key
                &&& bucket_of(m.key, self.min_key) == c
                &&& m.node_id < self.node_positions@.len()
            } by {
                if c != b {
                    assert(bs1[c]@[q] == bs0[c]@[q]);
                } else if q == p {
                    assert(bs1[c]@[q] == bs0[c]@[last]);
                } else {
                    assert(bs1[c]@[q] == bs0[c]@[q]);
                }
            }
            assert forall|id: int|
                0 <= id < self.node_positions@.len() && (#[trigger] self.node_positions@[id]) is Some
                    implies valid_pos(bs1, self.node_positions@[id]->Some_0, id as usize) by {
                let q = self.node_positions@[id]->Some_0;
                if p < bucket_len && id == bs1[b as int]@[p as int].node_id {
                } else {
                    assert(id != n.node_id);
                    assert(np0[id] == self.node_positions@[id]);
                    assert(np0[id] is Some);
                    assert(valid_pos(bs0, np0[id]->Some_0, id as usize));
                    if q.0 == b {
                        if q.1 as int == last {
                            assert(bs0[b as int]@[last].node_id == id);
                            assert(p < bucket_len);
                            assert(bs1[b as int]@[p as int] == bs0[b as int]@[last]);
                            assert(false);
                        } else if q.1 == p {
                            assert(bs0[b as int]@[p as int].node_id == id);
                            assert(false);
                        } else {
                            assert(bs1[b as int]@[q.1 as int] == bs0[b as int]@[q.1 as int]);
                        }
                    } else {
                        assert(bs1[q.0 as int] == bs0[q.0 as int]);
                    }
                }
            }
            if tracked_exactly(bs0, np0) {
                assert(np0[n.node_id as int] == Some((b, p)));
                assert forall|c: int, q: int| 0 <= c < bs1.len() && 0 <= q < bs1[c]@.len() implies self.node_positions@[(
                #[trigger] bs1[c]@[q]).node_id as int] == Some((c as usize, q as usize)) by {
                    if c != b {
                        assert(bs1[c]@[q] == bs0[c]@[q]);
                        assert(np0[bs0[c]@[q].node_id as int] == Some((c as usize, q as usize)));
                    } else if q == p {
                        assert(bs1[c]@[q] == bs0[c]@[last]);
                    } else {
                        assert(bs1[c]@[q] == bs0[c]@[q]);
                        assert(np0[bs0[c]@[q].node_id as int] == Some((c as usize, q as usize)));
                    }
                }
                if p < bucket_len {
                    assert(np0[bs0[b as int]@[last].node_id as int] == Some((b, last as usize)));
                    assert(bs0[b as int]@[last].node_id != n.node_id);
                }
                assert forall|id: int|
                    0 <= id < np0.len() && id != n.node_id implies {
                        &&& (#[trigger] self.node_positions@[id] is Some) == np0[id] is Some
                        &&& np0[id] is Some ==> key_at(bs1, self.node_positions@[id]->Some_0) == key_at(
                            bs0,
                            np0[id]->Some_0,
                        )
                    } by {
                    if np0[id] is Some {
                        let q = np0[id]->Some_0;
                        assert(valid_pos(bs0, q, id as usize));
                        if p < bucket_len && id == bs0[b as int]@[last].node_id {
                            assert(np0[id] == Some((b, last as usize)));
                        } else if q.0 == b {
                            assert(q.1 != p);
                            assert(q.1 as int != last);
                            assert(bs1[b as int]@[q.1 as int] == bs0[b as int]@[q.1 as int]);
                        }
                    }
                }
            }
        }
        n
    }

    /// Places the entries `nodes`, taken out of bucket `i`, into the buckets of their
    /// keys relative to the current minimum key.
    fn redistribute(&mut self, nodes: Vec<Node>, Ghost(i): Ghost<usize>, Ghost(exact): Ghost<bool>)
        requires
            old(self).buckets@.len() == 33,
            i < 33,
            old(self).buckets@[i as int]@.len() == 0,
            placement_ok(old(self).buckets@, old(self).min_key, old(self).node_positions@.len()),
            forall|p: int|
                0 <= p < nodes@.len() ==> (#[trigger] nodes@[p]).key >= old(self).min_key
                    && nodes@[p].node_id < old(self).node_positions@.len(),
            forall|id: int|
                0 <= id < old(self).node_positions@.len() && (#[trigger] old(self).node_positions@[id]) is Some
                    ==> {
                    let q = old(self).node_positions@[id]->Some_0;
                    ||| (q.0 == i && q.1 < nodes@.len() && nodes@[q.1 as int].node_id == id)
                    ||| valid_pos(old(self).buckets@, q, id as usize)
                },
            exact ==> tracked_exactly(old(self).buckets@, old(self).node_positions@),
            exact ==> forall|p: int|
                0 <= p < nodes@.len() ==> old(self).node_positions@[(#[trigger] nodes@[p]).node_id as int] == Some(
                    (i, p as usize),
                ),
        ensures
            final(self).buckets@.len() == 33,
            final(self).min_key == old(self).min_key,
            final(self).size == old(self).size,
            final(self).node_positions@.len() == old(self).node_positions@.len(),
            placement_ok(final(self).buckets@, final(self).min_key, final(self).node_positions@.len()),
            positions_ok(final(self).buckets@, final(self).node_positions@),
            items_upto(final(self).buckets@, 33) == items_upto(old(self).buckets@, 33).add(bucket_items(nodes@)),
            exact ==> {
                &&& tracked_exactly(final(self).buckets@, final(self).node_positions@)
                &&& count_some(final(self).node_positions@) == count_some(old(self).node_positions@)
                &&& forall|id: int|
                    0 <= id < old(self).node_positions@.len() ==> {
                        &&& (#[trigger] final(self).node_positions@[id] is Some) == old(
                            self,
                        ).node_positions@[id] is Some
                        &&& old(self).node_positions@[id] is Some ==> key_at(
                            final(self).buckets@,
                            final(self).node_positions@[id]->Some_0,
                        ) == pending_key(old(self).buckets@, nodes@, i, 0, old(self).node_positions@[id]->Some_0)
                    }
            },
    {
        let ghost bs0 = self.buckets@;
        let ghost np0 = self.node_positions@;
        let mut j: usize = 0;
        proof {
            assert(nodes@.subrange(0, nodes@.len() as int) =~= nodes@);
            assert(items_upto(self.buckets@, 33) =~= items_upto(bs0, 33).add(bucket_items(nodes@.subrange(0, 0))))
                by {
                assert(nodes@.subrange(0, 0).map_values(|m: Node| entry(m)) =~= Seq::<(u32, usize)>::empty());
            }
        }
        while j < nodes.len()
            invariant
                j <= nodes@.len(),
                i < 33,
                self.buckets@.len() == 33,
                self.min_key == old(self).min_key,
                self.size == old(self).size,
                self.node_positions@.len() == np0.len(),
                np0 == old(self).node_positions@,
                bs0 == old(self).buckets@,
                self.buckets@[i as int]@.len() <= j,
                placement_ok(self.buckets@, self.min_key, self.node_positions@.len()),
                forall|p: int|
                    0 <= p < nodes@.len() ==> (#[trigger] nodes@[p]).key >= self.min_key
                        && nodes@[p].node_id < self.node_positions@.len(),
                forall|id: int|
                    0 <= id < self.node_positions@.len() && (#[trigger] self.node_positions@[id]) is Some ==> {
                        let q = self.node_positions@[id]->Some_0;
                        ||| (q.0 == i && j <= q.1 < nodes@.len() && nodes@[q.1 as int].node_id == id)
                        ||| valid_pos(self.buckets@, q, id as usize)
                    },
                items_upto(self.buckets@, 33) == items_upto(bs0, 33).add(
                    bucket_items(nodes@.subrange(0, j as int)),
                ),
                exact ==> tracked_exactly(self.buckets@, self.node_positions@),
                exact ==> forall|p: int|
                    j <= p < nodes@.len() ==> self.node_positions@[(#[trigger] nodes@[p]).node_id as int] == Some(
                        (i, p as usize),
                    ),
                exact ==> count_some(self.node_positions@) == count_some(np0),
                exact ==> forall|id: int|
                    0 <= id < np0.len() ==> {
                        &&& (#[trigger] self.node_positions@[id] is Some) == np0[id] is Some
                        &&& np0[id] is Some ==> pending_key(
                            self.buckets@,
                            nodes@,
                            i,
                            j as int,
                            self.node_positions@[id]->Some_0,
                        ) == pending_key(bs0, nodes@, i, 0, np0[id]->Some_0)
                    },
            decreases nodes@.len() - j,
        {
            let node = nodes[j];
            let node_id = node.node_id;
            let new_bucket_idx = self.bucket_index(node.key);
            let pos = self.buckets[new_bucket_idx].len();
            let ghost bs1 = self.buckets@;
            let ghost np1 = self.node_positions@;
            self.buckets[new_bucket_idx].push(node);
            proof {
                lemma_bucket_push(bs1[new_bucket_idx as int]@, node);
                lemma_items_update(bs1, new_bucket_idx as int, self.buckets@[new_bucket_idx as int], 33);
                assert(self.buckets@ =~= bs1.update(new_bucket_idx as int, self.buckets@[new_bucket_idx as int]));
                lemma_cancel_insert(
                    items_upto(self.buckets@, 33),
                    items_upto(bs1, 33),
                    bucket_items(bs1[new_bucket_idx as int]@),
                    entry(node),
                );
                let s0 = nodes@.subrange(0, j as int);
                assert(nodes@.subrange(0, j + 1) =~= s0.push(node));
                lemma_bucket_push(s0, node);
                lemma_count_some_update(np1, node_id as int, Some((new_bucket_idx, pos)));
            }
            self.node_positions.set(node_id, Some((new_bucket_idx, pos)));
            proof {
                let bs2 = self.buckets@;
                let np2 = self.node_positions@;
                assert forall|c: int, q: int| 0 <= c < bs2.len() && 0 <= q < bs2[c]@.len() implies {
                    let m = #[trigger] bs2[c]@[q];
                    &&& m.key >= self.min_key
                    &&& bucket_of(m.key, self.min_key) == c
                    &&& m.node_id < np2.len()
                } by {
                    if c != new_bucket_idx || q < pos {
                        assert(bs2[c]@[q] == bs1[c]@[q]);
                    }
                }
                assert forall|id: int| 0 <= id < np2.len() && (#[trigger] np2[id]) is Some implies {
                    let q = np2[id]->Some_0;
                    ||| (q.0 == i && j + 1 <= q.1 < nodes@.len() && nodes@[q.1 as int].node_id == id)
                    ||| valid_pos(bs2, q, id as usize)
                } by {
                    if id != node_id {
                        let q = np1[id]->Some_0;
                        assert(np1[id] == np2[id]);
                        if q.0 == i && j <= q.1 < nodes@.len() && nodes@[q.1 as int].node_id == id {
                            assert(q.1 != j);
                        } else {
                            assert(valid_pos(bs1, q, id as usize));
                            assert(bs2[q.0 as int]@[q.1 as int] == bs1[q.0 as int]@[q.1 as int]);
                        }
                    }
                }
                if exact {
                    assert(np1[node_id as int] == Some((i, j)));
                    assert forall|c: int, q: int| 0 <= c < bs2.len() && 0 <= q < bs2[c]@.len() implies np2[(
                    #[trigger] bs2[c]@[q]).node_id as int] == Some((c as usize, q as usize)) by {
                        if c != new_bucket_idx || q < pos {
                            assert(bs2[c]@[q] == bs1[c]@[q]);
                            assert(np1[bs1[c]@[q].node_id as int] == Some((c as usize, q as usize)));
                            if bs1[c]@[q].node_id == node_id {
                                // node_id is pending at (i, j), so it has no placed entry
                                assert(c == i && q == j);
                                assert(bs1[i as int]@.len() <= j);
                                assert(false);
                            }
                        }
                    }
                    assert forall|p: int| j + 1 <= p < nodes@.len() implies np2[(
                    #[trigger] nodes@[p]).node_id as int] == Some((i, p as usize)) by {
                        assert(np1[nodes@[p].node_id as int] == Some((i, p as usize)));
                        if nodes@[p].node_id == node_id {
                            assert(false);
                        }
                    }
                    assert forall|id: int| 0 <= id < np0.len() implies {
                        &&& (#[trigger] np2[id] is Some) == np0[id] is Some
                        &&& np0[id] is Some ==> pending_key(bs2, nodes@, i, j + 1, np2[id]->Some_0) == pending_key(
                            bs0,
                            nodes@,
                            i,
                            0,
                            np0[id]->Some_0,
                        )
                    } by {
                        assert(np1[id] is Some == np0[id] is Some);
                        if np0[id] is Some {
                            let q = np1[id]->Some_0;
                            assert(pending_key(bs1, nodes@, i, j as int, q) == pending_key(bs0, nodes@, i, 0, np0[id]->Some_0));
                            if id == node_id {
                                assert(q == (i, j));
                                assert(bs2[new_bucket_idx as int]@[pos as int] == node);
                                if new_bucket_idx == i {
                                    assert(pos < j + 1);
                                }
                            } else {
                                assert(np2[id] == np1[id]);
                                if q.0 == i && q.1 >= j {
                                    assert(q.1 != j);
                                } else {
                                    assert(valid_pos(bs1, q, id as usize));
                                    assert(bs2[q.0 as int]@[q.1 as int] == bs1[q.0 as int]@[q.1 as int]);
                                    if q.0 == i {
                                        assert(q.1 < bs1[i as int]@.len());
                                    }
                                }
                            }
                        }
                    }
                }
            }
            j += 1;
        }
        proof {
            assert forall|id: int|
                0 <= id < self.node_positions@.len() && (#[trigger] self.node_positions@[id]) is Some implies valid_pos(
                self.buckets@,
                self.node_positions@[id]->Some_0,
                id as usize,
            ) by {}
            if exact {
                assert forall|id: int| 0 <= id < np0.len() implies {
                    &&& (#[trigger] self.node_positions@[id] is Some) == np0[id] is Some
                    &&& np0[id] is Some ==> key_at(self.buckets@, self.node_positions@[id]->Some_0) == pending_key(
                        bs0,
                        nodes@,
                        i,
                        0,
                        np0[id]->Some_0,
                    )
                } by {
                    if np0[id] is Some {
                        let q = self.node_positions@[id]->Some_0;
                        assert(pending_key(self.buckets@, nodes@, i, nodes@.len() as int, q) == pending_key(
                            bs0,
                            nodes@,
                            i,
                            0,
                            np0[id]->Some_0,
                        ));
                        assert(valid_pos(self.buckets@, q, id as usize));
                        if q.0 == i {
                            assert(q.1 < self.buckets@[i as int]@.len());
                        }
                    }
                }
            }
        }
    }

    /// Extract and return an entry of least key, or `None` when the heap is empty.
    ///
    /// The entries left in the bucket of the extracted one are placed again relative to
    /// its key, which becomes the minimum key.
    pub fn extract_min(&mut self) -> (r: Option<(u32, usize)>)
        requires
            old(self).well_formed(),
        ensures
            final(self).well_formed(),
            match r {
                None => old(self)@.len() == 0 && final(self)@ == old(self)@ && final(self).last_key() == old(
                    self,
                ).last_key(),
                Some(x) => {
                    &&& old(self)@.count(x) > 0
                    &&& final(self)@ == old(self)@.remove(x)
                    &&& forall|y: (u32, usize)| #[trigger] old(self)@.count(y) > 0 ==> x.0 <= y.0
                    &&& final(self).last_key() == x.0
                },
            },
            old(self).tracks_all() ==> {
                &&& final(self).tracks_all()
                &&& r matches Some(x) ==> old(self).entry_of_node(x.1) == Some(x)
                &&& forall|n: usize|
                    #[trigger] final(self).contains(n) == (old(self).contains(n) && !(r matches Some(x) && x.1
                        == n))
                &&& forall|h: RadixHandle|
                    !(r matches Some(x) && x.1 == h.id()) ==> #[trigger] final(self).entry_of(h) == old(
                        self,
                    ).entry_of(h)
            },
    {
        if self.size == 0 {
            return None;
        }
        // Find the first non-empty bucket
        let mut bucket_idx: usize = 0;
        while bucket_idx < 33 && self.buckets[bucket_idx].len() == 0
            invariant
                self.well_formed(),
                bucket_idx <= 33,
                forall|b: int| 0 <= b < bucket_idx ==> (#[trigger] self.buckets@[b])@.len() == 0,
            decreases 33 - bucket_idx,
        {
            bucket_idx += 1;
        }
        if bucket_idx == 33 {
            proof {
                let y = self@.choose();
                assert(self@.count(y) > 0);
                lemma_items_member(self.buckets@, 33, y);
            }
            return None;
        }
        // Find the (first) minimum in this bucket
        let ghost bs0 = self.buckets@;
        let ghost np0 = self.node_positions@;
        let ghost base0 = self.min_key;
        let blen = self.buckets[bucket_idx].len();
        let mut min_pos: usize = 0;
        let mut min_key = self.buckets[bucket_idx][0].key;
        let mut q: usize = 1;
        while q < blen
            invariant
                bucket_idx < 33,
                bs0.len() == 33,
                self.buckets@ == bs0,
                blen == bs0[bucket_idx as int]@.len(),
                1 <= q <= blen,
                min_pos < q,
                min_key == bs0[bucket_idx as int]@[min_pos as int].key,
                forall|k: int| 0 <= k < q ==> min_key <= (#[trigger] bs0[bucket_idx as int]@[k]).key,
            decreases blen - q,
        {
            if self.buckets[bucket_idx][q].key < min_key {
                min_pos = q;
                min_key = self.buckets[bucket_idx][q].key;
            }
            q += 1;
        }
        proof {
            lemma_items_has(bs0, 33, bucket_idx as int, min_pos as int);
            assert forall|y: (u32, usize)| #[trigger] old(self)@.count(y) > 0 implies min_key <= y.0 by {
                lemma_items_member(bs0, 33, y);
                let (b, p) = choose|b: int, p: int|
                    0 <= b < 33 && 0 <= p < bs0[b]@.len() && entry(#[trigger] bs0[b]@[p]) == y;
                if b > bucket_idx {
                    lemma_bucket_order(base0, min_key, y.0);
                } else {
                    assert(b == bucket_idx);
                }
            }
        }
        // Remove the minimum node from the bucket
        let extracted_node = self.take_entry(bucket_idx, min_pos);
        self.size -= 1;
        let ghost bs1 = self.buckets@;
        let ghost np1 = self.node_positions@;
        let ghost exact = tracked_exactly(bs0, np0);
        // Update min_key
        self.min_key = min_key;
        // Redistribute all remaining nodes from this bucket into lower buckets
        let mut nodes: Vec<Node> = Vec::new();
        self.buckets.set_and_swap(bucket_idx, &mut nodes);
        let ghost bs2 = self.buckets@;
        let ghost nodes_v = nodes@;
        proof {
            assert(np1.len() == self.node_positions.len());
            assert(nodes@ == bs1[bucket_idx as int]@);
            lemma_items_update(bs1, bucket_idx as int, bs2[bucket_idx as int], 33);
            assert(bs2 =~= bs1.update(bucket_idx as int, bs2[bucket_idx as int]));
            assert(bs2[bucket_idx as int]@.map_values(|m: Node| entry(m)) =~= Seq::<(u32, usize)>::empty());
            assert(items_upto(bs2, 33).add(bucket_items(nodes@)) =~= items_upto(bs1, 33));
            assert forall|b: int, p: int| 0 <= b < bs2.len() && 0 <= p < bs2[b]@.len() implies {
                let m = #[trigger] bs2[b]@[p];
                &&& m.key >= self.min_key
                &&& bucket_of(m.key, self.min_key) == b
                &&& m.node_id < self.node_positions@.len()
            } by {
                assert(b != bucket_idx);
                assert(bs2[b] == bs1[b]);
                assert(bs1[b] == bs0[b]);
                if b < bucket_idx {
                    assert(bs0[b]@.len() == 0);
                }
                lemma_bucket_shift(base0, min_key, bs2[b]@[p].key);
            }
            assert forall|p: int| 0 <= p < nodes@.len() implies (#[trigger] nodes@[p]).key >= self.min_key
                && nodes@[p].node_id < self.node_positions@.len() by {
                let last = bs0[bucket_idx as int]@.len() - 1;
                if p == min_pos {
                    assert(nodes@[p] == bs0[bucket_idx as int]@[last]);
                } else {
                    assert(nodes@[p] == bs0[bucket_idx as int]@[p]);
                }
            }
            assert forall|id: int| 0 <= id < np1.len() && (#[trigger] np1[id]) is Some implies {
                let q = np1[id]->Some_0;
                ||| (q.0 == bucket_idx && q.1 < nodes@.len() && nodes@[q.1 as int].node_id == id)
                ||| valid_pos(bs2, q, id as usize)
            } by {
                let q = np1[id]->Some_0;
                assert(valid_pos(bs1, q, id as usize));
                if q.0 != bucket_idx {
                    assert(bs2[q.0 as int] == bs1[q.0 as int]);
                } else {
                    assert(nodes@[q.1 as int] == bs1[bucket_idx as int]@[q.1 as int]);
                }
            }
            if exact {
                assert forall|b: int, p: int| 0 <= b < bs2.len() && 0 <= p < bs2[b]@.len() implies np1[(
                #[trigger] bs2[b]@[p]).node_id as int] == Some((b as usize, p as usize)) by {
                    assert(bs2[b] == bs1[b]);
                    assert(np1[bs1[b]@[p].node_id as int] == Some((b as usize, p as usize)));
                }
                assert forall|p: int| 0 <= p < nodes@.len() implies np1[(#[trigger] nodes@[p]).node_id as int]
                    == Some((bucket_idx, p as usize)) by {
                    assert(np1[bs1[bucket_idx as int]@[p].node_id as int] == Some((bucket_idx, p as usize)));
                }
            }
        }
        self.redistribute(nodes, Ghost(bucket_idx), Ghost(exact));
        proof {
            let bs3 = self.buckets@;
            let np3 = self.node_positions@;
            let x = (min_key, extracted_node.node_id);
            assert(items_upto(bs3, 33) == old(self)@.remove(x));
            if old(self).tracks_all() {
                assert(count_some(np3) == self.size);
                assert(np0[extracted_node.node_id as int] == Some((bucket_idx, min_pos)));
                assert forall|n: usize| #[trigger] self.contains(n) == (old(self).contains(n) && n != x.1) by {
                    if n < np0.len() && n != x.1 {
                        assert(np3[n as int] is Some == np1[n as int] is Some);
                    }
                }
                assert forall|h: RadixHandle| h.id() != x.1 implies #[trigger] self.entry_of(h) == old(self).entry_of(h)
                    by {
                    let id = h.node_id;
                    if id < np0.len() && np0[id as int] is Some {
                        let q1 = np1[id as int]->Some_0;
                        assert(key_at(bs1, q1) == key_at(bs0, np0[id as int]->Some_0));
                        assert(key_at(bs3, np3[id as int]->Some_0) == pending_key(bs2, nodes_v, bucket_idx, 0, q1));
                        if q1.0 != bucket_idx {
                            assert(bs2[q1.0 as int] == bs1[q1.0 as int]);
                        }
                    }
                }
            }
        }
        Some((min_key, extracted_node.node_id))
    }

    /// Decrease the key of the entry that `handle` designates to `new_key`, moving it to
    /// the bucket of the new key.  Nothing changes when the heap tracks no entry of the
    /// handle's node or when `new_key` is not below its key.
    pub fn decrease_key(&mut self, handle: &RadixHandle, new_key: u32)
        requires
            old(self).well_formed(),
            old(self).entry_of(*handle) matches Some(e) && new_key < e.0 ==> old(self).last_key() <= new_key,
        ensures
            final(self).well_formed(),
            final(self).last_key() == old(self).last_key(),
            ({
                let e = old(self).entry_of(*handle)->Some_0;
                old(self).entry_of(*handle) is Some && new_key < e.0 ==> {
                    &&& final(self)@ == old(self)@.remove(e).insert((new_key, e.1))
                    &&& final(self).entry_of(*handle) == Some((new_key, e.1))
                    &&& final(self)@.len() == old(self)@.len()
                }
            }),
            !(old(self).entry_of(*handle) matches Some(e) && new_key < e.0) ==> {
                &&& final(self)@ == old(self)@
                &&& forall|h: RadixHandle| #[trigger] final(self).entry_of(h) == old(self).entry_of(h)
                &&& forall|n: usize| #[trigger] final(self).contains(n) == old(self).contains(n)
                &&& old(self).tracks_all() ==> final(self).tracks_all()
            },
            old(self).tracks_all() ==> {
                &&& final(self).tracks_all()
                &&& forall|n: usize| #[trigger] final(self).contains(n) == old(self).contains(n)
                &&& forall|h: RadixHandle|
                    h.id() != handle.id() ==> #[trigger] final(self).entry_of(h) == old(self).entry_of(h)
            },
    {
        proof {
            use_type_invariant(handle);
            self.lemma_entries();
            assert(self.entry_of(*handle) is Some ==> self@.count(self.entry_of(*handle)->Some_0) > 0);
        }
        let node_id = handle.node_id;
        // Find the node's current position
        if node_id >= self.node_positions.len() {
            grow_positions(&mut self.node_positions, node_id + 1);
            proof {
                assert forall|h: RadixHandle| #[trigger] self.entry_of(h) == old(self).entry_of(h) by {
                    if self.contains(h.node_id) {
                        assert(self.node_positions@[h.node_id as int] == old(self).node_positions@[h.node_id as int]);
                    }
                }
                assert forall|n: usize| #[trigger] self.contains(n) == old(self).contains(n) by {}
            }
        }
        let (old_bucket_idx, old_pos) = match self.node_positions[node_id] {
            Some(pos) => pos,
            None => {
                proof {
                    assert forall|h: RadixHandle| #[trigger] self.entry_of(h) == old(self).entry_of(h) by {
                        if self.contains(h.node_id) {
                            assert(self.node_positions@[h.node_id as int] == old(self).node_positions@[
                                h.node_id as int
                            ]);
                        }
                    }
                    assert forall|n: usize| #[trigger] self.contains(n) == old(self).contains(n) by {}
                }
                return ;
            },
        };
        proof {
            assert(valid_pos(self.buckets@, (old_bucket_idx, old_pos), node_id));
        }
        // Validate that new_key is actually smaller
        let current_key = self.buckets[old_bucket_idx][old_pos].key;
        if new_key >= current_key {
            proof {
                assert forall|h: RadixHandle| #[trigger] self.entry_of(h) == old(self).entry_of(h) by {
                    if self.contains(h.node_id) {
                        assert(self.node_positions@[h.node_id as int] == old(self).node_positions@[h.node_id as int]);
                    }
                }
                assert forall|n: usize| #[trigger] self.contains(n) == old(self).contains(n) by {}
            }
            return ;
        }
        let ghost bs0 = self.buckets@;
        let ghost np0 = self.node_positions@;
        let ghost e = (current_key, node_id);
        proof {
            assert(old(self).entry_of(*handle) == Some(e));
            lemma_items_has(bs0, 33, old_bucket_idx as int, old_pos as int);
            assert(entry(bs0[old_bucket_idx as int]@[old_pos as int]) == e);
        }
        // Remove the node, moving the bucket's last node into its place
        let mut node = self.take_entry(old_bucket_idx, old_pos);
        let ghost bs1 = self.buckets@;
        let ghost np1 = self.node_positions@;
        // Update the node's key and insert it into the bucket of the new key
        node.key = new_key;
        let new_bucket_idx = self.bucket_index(new_key);
        let new_pos = self.buckets[new_bucket_idx].len();
        self.buckets[new_bucket_idx].push(node);
        proof {
            lemma_bucket_push(bs1[new_bucket_idx as int]@, node);
            lemma_items_update(bs1, new_bucket_idx as int, self.buckets@[new_bucket_idx as int], 33);
            assert(self.buckets@ =~= bs1.update(new_bucket_idx as int, self.buckets@[new_bucket_idx as int]));
            lemma_cancel_insert(
                items_upto(self.buckets@, 33),
                items_upto(bs1, 33),
                bucket_items(bs1[new_bucket_idx as int]@),
                entry(node),
            );
            lemma_count_some_update(np1, node_id as int, Some((new_bucket_idx, new_pos)));
        }
        self.node_positions.set(node_id, Some((new_bucket_idx, new_pos)));
        proof {
            let bs2 = self.buckets@;
            let np2 = self.node_positions@;
            assert(np1.len() == self.node_positions.len());
            assert(self@ == old(self)@.remove(e).insert((new_key, node_id)));
            assert(self@.len() == old(self)@.len());
            assert forall|c: int, q: int| 0 <= c < bs2.len() && 0 <= q < bs2[c]@.len() implies {
                let m = #[trigger] bs2[c]@[q];
                &&& m.key >= self.min_key
                &&& bucket_of(m.key, self.min_key) == c
                &&& m.node_id < np2.len()
            } by {
                if c != new_bucket_idx || q < new_pos {
                    assert(bs2[c]@[q] == bs1[c]@[q]);
                }
            }
            assert forall|id: int| 0 <= id < np2.len() && (#[trigger] np2[id]) is Some implies valid_pos(
                bs2,
                np2[id]->Some_0,
                id as usize,
            ) by {
                if id != node_id {
                    let q = np1[id]->Some_0;
                    assert(np1[id] == np2[id]);
                    assert(valid_pos(bs1, q, id as usize));
                    assert(bs2[q.0 as int]@[q.1 as int] == bs1[q.0 as int]@[q.1 as int]);
                }
            }
            if tracked_exactly(bs0, np0) {
                assert forall|c: int, q: int| 0 <= c < bs2.len() && 0 <= q < bs2[c]@.len() implies np2[(
                #[trigger] bs2[c]@[q]).node_id as int] == Some((c as usize, q as usize)) by {
                    if c != new_bucket_idx || q < new_pos {
                        assert(bs2[c]@[q] == bs1[c]@[q]);
                        assert(np1[bs1[c]@[q].node_id as int] == Some((c as usize, q as usize)));
                    }
                }
                assert forall|n: usize| #[trigger] self.contains(n) == old(self).contains(n) by {
                    if n < np0.len() && n != node_id {
                        assert(np2[n as int] == np1[n as int]);
                    }
                }
                assert forall|h: RadixHandle| h.id() != handle.id() implies #[trigger] self.entry_of(h) == old(
                    self,
                ).entry_of(h) by {
                    let id = h.node_id;
                    if id < np0.len() && np0[id as int] is Some {
                        let q = np1[id as int]->Some_0;
                        assert(np2[id as int] == np1[id as int]);
                        assert(valid_pos(bs1, q, id));
                        assert(bs2[q.0 as int]@[q.1 as int] == bs1[q.0 as int]@[q.1 as int]);
                    }
                }
            }
        }
    }
}

impl Default for RadixHeap {
    fn default() -> (r: Self)
        ensures
            r.well_formed(),
            r.tracks_all(),
            r@ =~= Multiset::empty(),
            r.last_key() == 0,
            forall|n: usize| !(#[trigger] r.contains(n)),
    {
        Self::new()
    }
}

} // verus!
