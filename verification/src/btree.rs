//! The ordered map: a B-tree whose nodes live in a chunk of cached cells and
//! name each other by handle.

use crate::balance::{lemma_merged, lemma_recut, lemma_trio_apart, loose, trio};
use crate::chunk::{Cell, SyncChunk};
use crate::grow::{
    cut, grown, grown_total, landing, led, lemma_bag_gone, lemma_below_same, lemma_below_split,
    lemma_below_start, lemma_frame_same, lemma_grown_up, lemma_grown_whole, lemma_insert_deep,
    lemma_leaf_fits, lemma_led_here, lemma_placed_up, place_of, placed, reworked_bag,
    reworked_flat, sits, split_off, CUT, Grown,
};
use crate::node::{
    key_gap, scan_stop, search_node, KVHandle, Node, NodeHandle, SearchResult, CAPACITY, MIN_FILL,
};
use crate::order::SortKey;
use crate::search::{search_answer, search_path, search_route, search_tree};
use crate::seqs::{
    as_map, ascending, lacks, lemma_as_map_at, lemma_fits_lacks, lemma_insert_fits,
    lemma_remove_at, lemma_update_value,
};
use crate::shrink::{
    lemma_below_loose, lemma_below_pre, lemma_fixed_joined, lemma_fixed_moved, lemma_fixed_same,
    lemma_lacks_map, lemma_lacks_within, lemma_reseated, lemma_root_lowered, lemma_same_shrunk,
    lemma_shrunk_done, lemma_shrunk_twice, lemma_shrunk_up, lemma_shrunk_whole, lemma_swap_last,
    lemma_value_deep, rebuilt, shrunk, shrunk_frame,
};
use crate::tree::{
    after_kid, bag, before_kid, distinct, flat, kept_outside, lemma_absorb, lemma_absorb_bag,
    lemma_around_kid, lemma_descend, lemma_fits_within, lemma_halve, lemma_kept_but_one,
    lemma_node_bag_exists, lemma_node_kept, lemma_revalue, lemma_sizes, lemma_slot_place,
    lemma_stored, lemma_two_kids, node_bag, node_flat, node_shaped, shaped, slot_place,
    subtrees_kept, values_only,
};
use vstd::multiset::Multiset;
use vstd::prelude::*;

verus! {

/// Most entries that a map holds: node handles are 32 bits wide, and a map
/// this size never runs out of them.
pub const MAX_ENTRIES: u64 = 0x7fff_fff0;

/// The bookkeeping of a map.
#[derive(Clone, Copy, Debug, PartialEq, Eq, Structural)]
pub struct Header {
    /// The top node; none while the map is empty.
    pub root: Option<u32>,
    /// Number of entries.
    pub len: u64,
    /// Number of nodes in use.
    pub node_count: u32,
    /// The node slot that the next allocation reuses, if any was given back.
    pub free_list_head: Option<u32>,
}

/// An ordered map from keys to values.
pub struct BTreeMap<K, V> {
    header: Header,
    nodes: SyncChunk<Node<K, V>>,
    free: Vec<u32>,
    extent: u32,
    height: Ghost<nat>,
}

impl<K: SortKey, V> View for BTreeMap<K, V> {
    type V = Map<K::V, V>;

    /// The map from each key's view to its value.
    open spec fn view(&self) -> Map<K::V, V> {
        as_map::<K, V>(self.entries())
    }
}

impl<K: SortKey, V> BTreeMap<K, V> {
    /// The nodes in use, by handle.
    pub closed spec fn arena(&self) -> Map<u32, Node<K, V>> {
        Map::new(
            |h: u32| self.nodes.slot(h).value() is Some,
            |h: u32| self.nodes.slot(h).value()->Some_0,
        )
    }

    /// The bookkeeping of the map.
    pub closed spec fn header_view(&self) -> Header {
        self.header
    }

    /// Number of levels below the root.
    pub closed spec fn height(&self) -> nat {
        self.height@
    }

    /// The backing store's counters and content, through the chunk of nodes.
    pub closed spec fn chunk(&self) -> SyncChunk<Node<K, V>> {
        self.nodes
    }

    /// The extent of the chunk of nodes: every node in use lies below it.
    pub closed spec fn extent_view(&self) -> u32 {
        self.extent
    }

    /// The entries by in-order traversal from the root.
    pub closed spec fn entries(&self) -> Seq<(K::V, V)> {
        match self.header.root {
            None => Seq::empty(),
            Some(r) => flat(self.arena(), r, self.height@),
        }
    }

    /// The node allocator is consistent: every node in use lies below the
    /// extent of the chunk and is not on the free list, no slot is on the
    /// free list twice, and the header names the top of the free list.
    pub closed spec fn alloc_wf(&self) -> bool {
        &&& self.nodes.wf()
        &&& self.free@.no_duplicates()
        &&& forall|i: int| 0 <= i < self.free@.len() ==> #[trigger] self.free@[i] < self.extent
        &&& forall|h: u32| #[trigger]
            self.arena().contains_key(h) ==> h < self.extent && !self.free@.contains(h)
        &&& self.extent <= self.header.node_count + self.free@.len()
        &&& self.header.free_list_head == if self.free@.len() > 0 {
            Some(self.free@.last())
        } else {
            None
        }
    }

    /// The map is a B-tree: keys ascend through the in-order traversal, all
    /// leaves lie at one depth, every node but the root is at least half
    /// full, no node is reached twice, the nodes in use are those of the
    /// tree, and the header counts entries and nodes.
    pub closed spec fn wf(&self) -> bool {
        &&& self.alloc_wf()
        &&& match self.header.root {
            None => {
                &&& self.header.len == 0
                &&& self.header.node_count == 0
                &&& forall|h: u32| !#[trigger] self.arena().contains_key(h)
            },
            Some(r) => {
                &&& shaped(self.arena(), r, self.height@, 1)
                &&& ascending::<K, V>(self.entries())
                &&& distinct(bag(self.arena(), r, self.height@))
                &&& forall|h: u32| #[trigger]
                    self.arena().contains_key(h) <==> bag(self.arena(), r, self.height@).count(h) > 0
                &&& self.header.node_count == bag(self.arena(), r, self.height@).len()
                &&& self.header.len == self.entries().len()
            },
        }
    }

    /// An empty map whose nodes will live at `base` in a store of its own.
    pub fn new(base: u64) -> (map: Self)
        ensures
            map.wf(),
            map@ == Map::<K::V, V>::empty(),
            map.entries().len() == 0,
            map.header_view() == (Header { root: None, len: 0, node_count: 0, free_list_head: None }),
            map.extent_view() == 0,
            map.chunk().base() == base,
            map.chunk().backend()@ == Map::<u64, Node<K, V>>::empty(),
            map.chunk().backend().reads() == 0,
            map.chunk().backend().writes() == 0,
            map.chunk().pending() == 0,
    {
        let map = BTreeMap {
            header: Header { root: None, len: 0, node_count: 0, free_list_head: None },
            nodes: SyncChunk::new(base),
            free: Vec::new(),
            extent: 0,
            height: Ghost(0),
        };
        proof {
            assert(map@ =~= Map::<K::V, V>::empty());
        }
        map
    }

    /// The bookkeeping of the map.
    pub fn header(&self) -> (h: Header)
        ensures
            h == self.header_view(),
    {
        self.header
    }

    /// The extent of the chunk of nodes: no slot from it on was ever used.
    pub fn extent(&self) -> (n: u32)
        ensures
            n == self.extent_view(),
    {
        self.extent
    }

    /// Number of entries.
    pub fn len(&self) -> (n: u64)
        requires
            self.wf(),
        ensures
            n == self.entries().len(),
            n == self.header_view().len,
    {
        self.header.len
    }

    /// Whether the map holds no entry.
    pub fn is_empty(&self) -> (b: bool)
        requires
            self.wf(),
        ensures
            b == (self.entries().len() == 0),
    {
        self.header.len == 0
    }

    /// The node that `handle` names; none where the slot is empty or was never used.
    pub fn get_node(&self, handle: &NodeHandle) -> (r: Option<&Node<K, V>>)
        ensures
            match r {
                Some(n) => self.arena().contains_key(handle@) && self.arena()[handle@] == *n,
                None => !self.arena().contains_key(handle@),
            },
    {
        self.nodes.cached(handle.index())
    }

    /// The node at `h`, which is in use.
    pub(crate) fn node_ref(&self, h: u32) -> (n: &Node<K, V>)
        requires
            self.arena().contains_key(h),
        ensures
            *n == self.arena()[h],
    {
        match self.nodes.cached(h) {
            Some(n) => n,
            None => {
                proof {
                    assert(false);
                }
                vstd::pervasive::unreached()
            },
        }
    }
}

impl<K: SortKey, V> BTreeMap<K, V> {
    /// The value of `key`, if the map holds the key.
    pub fn get(&self, key: &K) -> (r: Option<&V>)
        requires
            self.wf(),
        ensures
            match r {
                Some(v) => self@.contains_key(key@) && self@[key@] == *v,
                None => !self@.contains_key(key@),
            },
    {
        match search_tree(self, key) {
            SearchResult::Found(kv) => Some(&self.node_ref(kv.node()).vals[kv.idx() as usize]),
            SearchResult::NotFound(_) => None,
        }
    }

    /// Whether the map holds `key`.
    pub fn contains_key(&self, key: &K) -> (b: bool)
        requires
            self.wf(),
        ensures
            b == self@.contains_key(key@),
    {
        match search_tree(self, key) {
            SearchResult::Found(_) => true,
            SearchResult::NotFound(_) => false,
        }
    }

    /// The stored key equal to `key` and its value, if the map holds the key.
    pub fn get_key_value(&self, key: &K) -> (r: Option<(&K, &V)>)
        requires
            self.wf(),
        ensures
            match r {
                Some((k, v)) => k@ == key@ && self@.contains_key(key@) && self@[key@] == *v,
                None => !self@.contains_key(key@),
            },
    {
        match search_tree(self, key) {
            SearchResult::Found(kv) => {
                let node = self.node_ref(kv.node());
                Some((&node.keys[kv.idx() as usize], &node.vals[kv.idx() as usize]))
            },
            SearchResult::NotFound(_) => None,
        }
    }
}

impl<K: SortKey, V: Clone> BTreeMap<K, V> {
    /// Root, number of entries and height are the same in `other`.
    pub closed spec fn steady(&self, other: &Self) -> bool {
        &&& other.header.root == self.header.root
        &&& other.header.len == self.header.len
        &&& other.height@ == self.height@
        &&& self.untouched(other)
    }

    /// Header, free list, extent and height are the same in `other`.
    pub closed spec fn books_kept(&self, other: &Self) -> bool {
        &&& other.header == self.header
        &&& other.free@ == self.free@
        &&& other.extent == self.extent
        &&& other.height@ == self.height@
    }

    /// The backing store and its counters are the same in `other`: nothing was read or written.
    pub open spec fn untouched(&self, other: &Self) -> bool {
        &&& other.chunk().base() == self.chunk().base()
        &&& other.chunk().backend()@ == self.chunk().backend()@
        &&& other.chunk().backend().reads() == self.chunk().backend().reads()
        &&& other.chunk().backend().writes() == self.chunk().backend().writes()
    }

    /// Takes the node at `h` out for rework and leaves an empty record in its place.
    fn swap_out(&mut self, h: u32) -> (n: Node<K, V>)
        requires
            old(self).alloc_wf(),
            old(self).arena().contains_key(h),
        ensures
            final(self).alloc_wf(),
            old(self).steady(final(self)),
            final(self).header.node_count == old(self).header.node_count,
            n == old(self).arena()[h],
            final(self).arena().dom() == old(self).arena().dom(),
            forall|x: u32| #[trigger]
                old(self).arena().contains_key(x) && x != h ==> final(self).arena()[x] == old(self).arena()[x],
            subtrees_kept(old(self).arena(), final(self).arena(), h),
            old(self).books_kept(final(self)),
    {
        let got = self.nodes.put(h, Node::new());
        proof {
            assert(final(self).arena().dom() =~= old(self).arena().dom());
            lemma_kept_but_one(old(self).arena(), self.arena(), h);
        }
        match got {
            Some(n) => n,
            None => {
                proof {
                    assert(false);
                }
                vstd::pervasive::unreached()
            },
        }
    }

    /// Puts `node` at `h`, a slot in use.
    fn store(&mut self, h: u32, node: Node<K, V>)
        requires
            old(self).alloc_wf(),
            old(self).arena().contains_key(h),
        ensures
            final(self).alloc_wf(),
            old(self).steady(final(self)),
            final(self).header.node_count == old(self).header.node_count,
            final(self).arena() == old(self).arena().insert(h, node),
            subtrees_kept(old(self).arena(), final(self).arena(), h),
            old(self).books_kept(final(self)),
    {
        self.nodes.set(h, node);
        proof {
            assert(self.arena() =~= old(self).arena().insert(h, node));
            lemma_kept_but_one(old(self).arena(), self.arena(), h);
        }
    }

    /// Hands out a slot for `node`: the one given back last, or else the
    /// first beyond the chunk's extent. No node in use has the handle returned.
    fn allocate(&mut self, node: Node<K, V>) -> (h: u32)
        requires
            old(self).alloc_wf(),
            old(self).header.node_count < u32::MAX,
        ensures
            final(self).alloc_wf(),
            old(self).steady(final(self)),
            final(self).header.node_count == old(self).header.node_count + 1,
            !old(self).arena().contains_key(h),
            final(self).arena() == old(self).arena().insert(h, node),
            subtrees_kept(old(self).arena(), final(self).arena(), h),
            match old(self).header.free_list_head {
                Some(top) => h == top && final(self).free@ == old(self).free@.drop_last()
                    && final(self).extent == old(self).extent,
                None => h == old(self).extent && final(self).free@ == old(self).free@
                    && final(self).extent == old(self).extent + 1,
            },
    {
        let h = if self.free.len() > 0 {
            let ghost before = self.free@;
            let top = self.free.pop();
            proof {
                assert(before.contains(before[before.len() - 1]));
                assert(self.free@ == before.drop_last());
                assert forall|x: u32| self.free@.contains(x) implies before.contains(x) by {
                    let i = choose|i: int| 0 <= i < self.free@.len() && self.free@[i] == x;
                    assert(before[i] == x);
                }
                if self.free@.contains(before.last()) {
                    let i = choose|i: int| 0 <= i < self.free@.len() && self.free@[i] == before.last();
                    assert(before[i] == before[before.len() - 1]);
                }
            }
            match top {
                Some(h) => h,
                None => {
                    proof {
                        assert(false);
                    }
                    vstd::pervasive::unreached()
                },
            }
        } else {
            let h = self.extent;
            self.extent = self.extent + 1;
            h
        };
        self.header.free_list_head = if self.free.len() > 0 {
            Some(self.free[self.free.len() - 1])
        } else {
            None
        };
        self.nodes.set(h, node);
        self.header.node_count = self.header.node_count + 1;
        proof {
            assert(self.arena() =~= old(self).arena().insert(h, node));
            lemma_kept_but_one(old(self).arena(), self.arena(), h);
        }
        h
    }

    /// Gives the slot at `h` back: the node there is discarded and the
    /// handle is the next to be handed out.
    fn deallocate(&mut self, h: u32)
        requires
            old(self).alloc_wf(),
            old(self).arena().contains_key(h),
            old(self).header.node_count >= 1,
        ensures
            final(self).alloc_wf(),
            old(self).steady(final(self)),
            final(self).header.node_count == old(self).header.node_count - 1,
            final(self).arena() == old(self).arena().remove(h),
            subtrees_kept(old(self).arena(), final(self).arena(), h),
            final(self).free@ == old(self).free@.push(h),
            final(self).header.free_list_head == Some(h),
            final(self).extent == old(self).extent,
    {
        self.nodes.clear(h);
        self.free.push(h);
        self.header.free_list_head = Some(h);
        self.header.node_count = self.header.node_count - 1;
        proof {
            assert(self.arena() =~= old(self).arena().remove(h));
            lemma_kept_but_one(old(self).arena(), self.arena(), h);
            assert forall|x: u32| #[trigger] self.arena().contains_key(x) implies x < self.extent
                && !self.free@.contains(x) by {
                assert(old(self).arena().contains_key(x));
                if self.free@.contains(x) {
                    let i = choose|i: int| 0 <= i < self.free@.len() && self.free@[i] == x;
                    if i < old(self).free@.len() {
                        assert(old(self).free@[i] == x);
                    }
                }
            }
            assert(self.free@.no_duplicates()) by {
                assert forall|i: int, j: int|
                    0 <= i < self.free@.len() && 0 <= j < self.free@.len() && i != j implies self.free@[i]
                    != self.free@[j] by {
                    if i < old(self).free@.len() {
                        assert(old(self).free@[i] == self.free@[i]);
                    }
                    if j < old(self).free@.len() {
                        assert(old(self).free@[j] == self.free@[j]);
                    }
                }
            }
        }
    }
}

impl<K: SortKey, V: Clone> BTreeMap<K, V> {
    /// Puts the reworked record `n` back at `h`; where it holds more keys
    /// than a node may, it is cut in two first and the right half gets a
    /// node of its own.
    fn settle(&mut self, h: u32, n: Node<K, V>, Ghost(t): Ghost<nat>, Ghost(min): Ghost<nat>) -> (out:
        Option<(K, V, u32)>)
        requires
            old(self).alloc_wf(),
            old(self).arena().contains_key(h),
            old(self).header.node_count < u32::MAX,
            min <= MIN_FILL,
            node_shaped(old(self).arena(), n, t, min, (CAPACITY + 1) as nat),
            node_bag(old(self).arena(), n, t).count(h) == 0,
        ensures
            final(self).alloc_wf(),
            old(self).steady(final(self)),
            final(self).arena().contains_key(h),
            forall|x: u32| #[trigger]
                old(self).arena().contains_key(x) && x != h ==> final(self).arena().contains_key(x)
                    && final(self).arena()[x] == old(self).arena()[x],
            match out {
                None => {
                    &&& n.keys@.len() <= CAPACITY
                    &&& final(self).arena().dom() == old(self).arena().dom()
                    &&& final(self).header.node_count == old(self).header.node_count
                    &&& shaped(final(self).arena(), h, t, min)
                    &&& flat(final(self).arena(), h, t) == node_flat(old(self).arena(), n, t)
                    &&& bag(final(self).arena(), h, t) == Multiset::singleton(h).add(
                        node_bag(old(self).arena(), n, t),
                    )
                    &&& final(self).arena()[h] == n
                },
                Some((mk, mv, r)) => {
                    &&& n.keys@.len() == CAPACITY + 1
                    &&& r != h
                    &&& mk == n.keys@[CUT as int]
                    &&& mv == n.vals@[CUT as int]
                    &&& final(self).arena()[h].keys@ == n.keys@.take(CUT as int)
                    &&& final(self).arena()[h].vals@ == n.vals@.take(CUT as int)
                    &&& final(self).arena()[r].keys@ == n.keys@.skip(CUT + 1)
                    &&& final(self).arena()[r].vals@ == n.vals@.skip(CUT + 1)
                    &&& !old(self).arena().contains_key(r)
                    &&& final(self).arena().dom() == old(self).arena().dom().insert(r)
                    &&& final(self).header.node_count == old(self).header.node_count + 1
                    &&& shaped(final(self).arena(), h, t, MIN_FILL as nat)
                    &&& shaped(final(self).arena(), r, t, MIN_FILL as nat)
                    &&& flat(final(self).arena(), h, t) + seq![(mk@, mv)] + flat(
                        final(self).arena(),
                        r,
                        t,
                    ) == node_flat(old(self).arena(), n, t)
                    &&& bag(final(self).arena(), h, t).add(bag(final(self).arena(), r, t))
                        == Multiset::singleton(h).add(Multiset::singleton(r)).add(
                        node_bag(old(self).arena(), n, t),
                    )
                },
            },
    {
        let ghost a0 = self.arena();
        if n.keys.len() <= CAPACITY {
            self.store(h, n);
            proof {
                let a1 = self.arena();
                lemma_node_kept(a0, a1, n, t, min, (CAPACITY + 1) as nat, h);
                lemma_stored(a1, h, t, min);
                assert(a1.dom() =~= a0.dom());
            }
            None
        } else {
            let ghost whole = n;
            let mut left = n;
            let (mk, mv, right) = cut(&mut left);
            let r = self.allocate(right);
            let ghost a1 = self.arena();
            self.store(h, left);
            proof {
                let a2 = self.arena();
                let cap = (CAPACITY + 1) as nat;
                if node_bag(a0, whole, t).count(r) > 0 {
                    lemma_node_bag_exists(a0, whole, t, min, cap, r);
                }
                lemma_node_kept(a0, a1, whole, t, min, cap, r);
                lemma_node_kept(a1, a2, whole, t, min, cap, h);
                lemma_halve(a2, whole, left, right, t, CUT as int);
                assert(whole.pairs()[CUT as int] == (mk@, mv));
                lemma_stored(a2, h, t, MIN_FILL as nat);
                lemma_stored(a2, r, t, MIN_FILL as nat);
                assert(a2[h] == left);
                assert(a2[r] == right);
                assert(node_shaped(a2, left, t, MIN_FILL as nat, CAPACITY as nat)) by {
                    if t > 0 {
                        assert forall|i: int| 0 <= i < left.edges@.len() implies shaped(
                            a2,
                            #[trigger] left.edges@[i],
                            (t - 1) as nat,
                            MIN_FILL as nat,
                        ) by {
                            assert(left.edges@[i] == whole.edges@[i]);
                        }
                    }
                }
                assert(node_shaped(a2, right, t, MIN_FILL as nat, CAPACITY as nat)) by {
                    if t > 0 {
                        assert forall|i: int| 0 <= i < right.edges@.len() implies shaped(
                            a2,
                            #[trigger] right.edges@[i],
                            (t - 1) as nat,
                            MIN_FILL as nat,
                        ) by {
                            assert(right.edges@[i] == whole.edges@[i + CUT + 1]);
                        }
                    }
                }
                assert(a2.dom() =~= a0.dom().insert(r));
                assert(bag(a2, h, t).add(bag(a2, r, t)) =~= Multiset::singleton(h).add(
                    Multiset::singleton(r),
                ).add(node_bag(a0, whole, t)));
            }
            Some((mk, mv, r))
        }
    }
}

impl<K: SortKey, V: Clone> BTreeMap<K, V> {
    /// Replaces the value of key `p` of the node at `h` and hands out the old one.
    fn revalue(&mut self, h: u32, Ghost(t): Ghost<nat>, Ghost(min): Ghost<nat>, p: usize, val: V) -> (r: (
        V,
        Ghost<int>,
    ))
        requires
            old(self).alloc_wf(),
            shaped(old(self).arena(), h, t, min),
            distinct(bag(old(self).arena(), h, t)),
            p < old(self).arena()[h].keys@.len(),
        ensures
            final(self).alloc_wf(),
            old(self).steady(final(self)),
            final(self).header.node_count == old(self).header.node_count,
            final(self).arena().dom() == old(self).arena().dom(),
            forall|x: u32| #[trigger]
                old(self).arena().contains_key(x) && x != h ==> final(self).arena()[x] == old(self).arena()[x],
            0 <= r.1@ < flat(old(self).arena(), h, t).len(),
            flat(old(self).arena(), h, t)[r.1@] == (old(self).arena()[h].keys@[p as int]@, r.0),
            flat(final(self).arena(), h, t) == flat(old(self).arena(), h, t).update(
                r.1@,
                (old(self).arena()[h].keys@[p as int]@, val),
            ),
            shaped(final(self).arena(), h, t, min),
            bag(final(self).arena(), h, t) == bag(old(self).arena(), h, t),
            values_only(old(self).arena(), final(self).arena()),
            old(self).books_kept(final(self)),
            sits(final(self).arena(), h, p as int, old(self).arena()[h].keys@[p as int]@, val),
            bag(final(self).arena(), h, t).count(h) > 0,
    {
        let ghost a0 = self.arena();
        let ghost n0 = a0[h];
        proof {
            lemma_stored(a0, h, t, min);
            assert(bag(a0, h, t).count(h) <= 1);
        }
        let mut n = self.swap_out(h);
        let ghost ah = self.arena();
        n.vals.push(val);
        let old_val = n.vals.swap_remove(p);
        proof {
            assert(n.vals@ =~= n0.vals@.update(p as int, val));
            assert(n.pairs() =~= n0.pairs().update(p as int, (n0.keys@[p as int]@, val)));
        }
        self.store(h, n);
        let ghost a2 = self.arena();
        let ghost at = slot_place(a2, n0, t, p as int);
        proof {
            lemma_node_kept(a0, ah, n0, t, min, CAPACITY as nat, h);
            lemma_node_kept(ah, a2, n0, t, min, CAPACITY as nat, h);
            lemma_revalue(a2, n0, n, t, p as int);
            lemma_slot_place(a2, n0, t, p as int);
            lemma_stored(a2, h, t, min);
            assert(node_shaped(a2, n, t, min, CAPACITY as nat)) by {
                if t > 0 {
                    assert forall|i: int| 0 <= i < n.edges@.len() implies shaped(
                        a2,
                        #[trigger] n.edges@[i],
                        (t - 1) as nat,
                        MIN_FILL as nat,
                    ) by {
                        assert(n.edges@[i] == n0.edges@[i]);
                    }
                }
            }
            assert(a2.dom() =~= a0.dom());
        }
        (old_val, Ghost(at))
    }

    /// Puts `key` and `val` at position `p` of the node at `h`, and `edge`
    /// right of child `p` where the node is internal; cuts the node in two
    /// where that is one key too many.
    fn rework(
        &mut self,
        h: u32,
        Ghost(t): Ghost<nat>,
        Ghost(min): Ghost<nat>,
        p: usize,
        key: K,
        val: V,
        edge: Option<u32>,
    ) -> (out: Option<(K, V, u32)>)
        requires
            old(self).alloc_wf(),
            old(self).arena().contains_key(h),
            old(self).header.node_count < u32::MAX,
            min <= MIN_FILL,
            node_shaped(old(self).arena(), old(self).arena()[h], t, min, CAPACITY as nat),
            node_bag(old(self).arena(), old(self).arena()[h], t).count(h) == 0,
            p <= old(self).arena()[h].keys@.len(),
            (t == 0) == (edge is None),
            match edge {
                Some(r) => shaped(old(self).arena(), r, (t - 1) as nat, MIN_FILL as nat) && bag(
                    old(self).arena(),
                    r,
                    (t - 1) as nat,
                ).count(h) == 0,
                None => true,
            },
        ensures
            final(self).alloc_wf(),
            old(self).steady(final(self)),
            final(self).arena().contains_key(h),
            forall|x: u32| #[trigger]
                old(self).arena().contains_key(x) && x != h ==> final(self).arena().contains_key(x)
                    && final(self).arena()[x] == old(self).arena()[x],
            match landing(
                h,
                p as int,
                match out {
                    Some((_, _, r)) => Some(r),
                    None => None,
                },
            ) {
                Some(at) => sits(final(self).arena(), at.node, at.idx as int, key@, val),
                None => out is Some && out->Some_0.0@ == key@ && out->Some_0.1 == val,
            },
            out is Some ==> out->Some_0.2 != h,
            match out {
                None => {
                    &&& final(self).arena().dom() == old(self).arena().dom()
                    &&& final(self).header.node_count == old(self).header.node_count
                    &&& shaped(final(self).arena(), h, t, min)
                    &&& flat(final(self).arena(), h, t) == reworked_flat(
                        old(self).arena(),
                        old(self).arena()[h],
                        t,
                        p as int,
                        (key@, val),
                        edge,
                    )
                    &&& bag(final(self).arena(), h, t) == Multiset::singleton(h).add(
                        reworked_bag(old(self).arena(), old(self).arena()[h], t, edge),
                    )
                },
                Some((mk, mv, r)) => {
                    &&& !old(self).arena().contains_key(r)
                    &&& final(self).arena().dom() == old(self).arena().dom().insert(r)
                    &&& final(self).header.node_count == old(self).header.node_count + 1
                    &&& shaped(final(self).arena(), h, t, MIN_FILL as nat)
                    &&& shaped(final(self).arena(), r, t, MIN_FILL as nat)
                    &&& flat(final(self).arena(), h, t) + seq![(mk@, mv)] + flat(
                        final(self).arena(),
                        r,
                        t,
                    ) == reworked_flat(
                        old(self).arena(),
                        old(self).arena()[h],
                        t,
                        p as int,
                        (key@, val),
                        edge,
                    )
                    &&& bag(final(self).arena(), h, t).add(bag(final(self).arena(), r, t))
                        == Multiset::singleton(h).add(Multiset::singleton(r)).add(
                        reworked_bag(old(self).arena(), old(self).arena()[h], t, edge),
                    )
                },
            },
    {
        let ghost a0 = self.arena();
        let ghost n0 = a0[h];
        let ghost x = (key@, val);
        let mut n = self.swap_out(h);
        let ghost ah = self.arena();
        n.keys.insert(p, key);
        n.vals.insert(p, val);
        proof {
            assert(n.pairs() =~= n0.pairs().insert(p as int, x));
            assert(n.pairs()[p as int] == x);
        }
        match edge {
            None => {
                proof {
                    assert(node_bag(ah, n, t) =~= Multiset::empty());
                }
            },
            Some(rc) => {
                n.edges.insert(p + 1, rc);
                proof {
                    let s = (t - 1) as nat;
                    let big = (CAPACITY + 1) as nat;
                    lemma_absorb(a0, n0, n, t, p as int, rc);
                    lemma_absorb_bag(a0, n0, n, t, p as int, rc);
                    assert(node_shaped(a0, n, t, min, big)) by {
                        assert forall|i: int| 0 <= i < n.edges@.len() implies shaped(
                            a0,
                            #[trigger] n.edges@[i],
                            s,
                            MIN_FILL as nat,
                        ) by {
                            if i <= p as int {
                                assert(n.edges@[i] == n0.edges@[i]);
                            } else if i > p + 1 {
                                assert(n.edges@[i] == n0.edges@[i - 1]);
                            }
                        }
                    }
                    lemma_node_kept(a0, ah, n, t, min, big, h);
                }
            },
        }
        self.settle(h, n, Ghost(t), Ghost(min))
    }

    /// Inserts into the subtree of height `t` at `h`, from its top node
    /// down, and says where the entry is afterwards. Where the insertion
    /// is led by the slot and the route of a search that went before, no
    /// key is compared: the positions are those of the route.
    fn insert_rec(
        &mut self,
        h: u32,
        Ghost(t): Ghost<nat>,
        Ghost(min): Ghost<nat>,
        key: K,
        val: V,
        way: &Vec<u32>,
        depth: usize,
        leaf: Option<KVHandle>,
    ) -> (r: (Grown<K, V>, Ghost<int>, Option<KVHandle>))
        requires
            old(self).alloc_wf(),
            min <= MIN_FILL,
            shaped(old(self).arena(), h, t, min),
            ascending::<K, V>(flat(old(self).arena(), h, t)),
            distinct(bag(old(self).arena(), h, t)),
            old(self).header.node_count + t + 1 <= u32::MAX,
            led(old(self).arena(), h, t, key@, way@, depth as int, leaf),
        ensures
            placed(final(self).arena(), h, t, r.0, r.2, key@, val),
            leaf is Some ==> !(r.0 is Replaced),
            final(self).alloc_wf(),
            old(self).steady(final(self)),
            grown(old(self).arena(), final(self).arena(), h, t, min, key@, val, r.0, r.1@),
            final(self).header.node_count + bag(old(self).arena(), h, t).len()
                == old(self).header.node_count + grown_total(final(self).arena(), h, t, r.0).len(),
            final(self).header.node_count <= old(self).header.node_count + t + 1,
            r.0 is Replaced ==> final(self).header.node_count == old(self).header.node_count,
            r.0 is Replaced ==> old(self).books_kept(final(self)),
        decreases t, 1nat,
    {
        let ghost a0 = self.arena();
        proof {
            lemma_stored(a0, h, t, min);
        }
        let node = self.node_ref(h);
        let is_leaf = node.edges.len() == 0;
        let found = match leaf {
            Some(at) => {
                proof {
                    lemma_led_here(a0, h, t, min, key@, way@, depth as int, at);
                }
                let p = if is_leaf {
                    at.idx()
                } else {
                    way[depth]
                };
                SearchResult::NotFound(KVHandle::new(h, p))
            },
            None => search_node(node, h, &key),
        };
        match found {
            SearchResult::Found(kv) => {
                let p = kv.idx() as usize;
                let (old_val, Ghost(at)) = self.revalue(h, Ghost(t), Ghost(min), p, val);
                proof {
                    lemma_frame_same(a0, self.arena(), h, t, min);
                }
                (Grown::Replaced(old_val), Ghost(at), Some(KVHandle::new(h, kv.idx())))
            },
            SearchResult::NotFound(kv) => {
                if is_leaf {
                    let p = kv.idx() as usize;
                    let (out, at) = self.insert_leaf(h, Ghost(min), p, key, val);
                    let place = place_of(
                        h,
                        p,
                        match &out {
                            Grown::Split(_, _, r) => Some(*r),
                            _ => None,
                        },
                    );
                    (out, at, place)
                } else {
                    proof {
                        crate::node::lemma_gap_scan(a0[h].keys@, key@, kv@.1 as int);
                    }
                    self.insert_below(h, Ghost(t), Ghost(min), kv.idx() as usize, key, val, way, depth, leaf)
                }
            },
        }
    }

    /// Inserts a key that the leaf at `h` lacks at position `p` of it.
    fn insert_leaf(&mut self, h: u32, Ghost(min): Ghost<nat>, p: usize, key: K, val: V) -> (r: (
        Grown<K, V>,
        Ghost<int>,
    ))
        requires
            old(self).alloc_wf(),
            min <= MIN_FILL,
            shaped(old(self).arena(), h, 0, min),
            ascending::<K, V>(flat(old(self).arena(), h, 0)),
            old(self).header.node_count + 1 <= u32::MAX,
            key_gap::<K>(old(self).arena()[h].keys@, key@, p as int),
        ensures
            final(self).alloc_wf(),
            old(self).steady(final(self)),
            grown(old(self).arena(), final(self).arena(), h, 0, min, key@, val, r.0, r.1@),
            final(self).header.node_count + bag(old(self).arena(), h, 0).len()
                == old(self).header.node_count + grown_total(final(self).arena(), h, 0, r.0).len(),
            final(self).header.node_count <= old(self).header.node_count + 1,
            !(r.0 is Replaced),
            p <= CAPACITY,
            placed(
                final(self).arena(),
                h,
                0,
                r.0,
                landing(h, p as int, split_off(r.0)),
                key@,
                val,
            ),
    {
        let ghost a0 = self.arena();
        let ghost b0 = bag(a0, h, 0);
        proof {
            lemma_leaf_fits(a0[h], p as int, key@);
            assert(node_bag(a0, a0[h], 0) =~= Multiset::empty());
        }
        let out = self.rework(h, Ghost(0), Ghost(min), p, key, val, None);
        let ghost a2 = self.arena();
        match out {
            None => {
                proof {
                    assert(bag(a2, h, 0) =~= b0);
                }
                (Grown::Added, Ghost(p as int))
            },
            Some((mk, mv, r)) => {
                proof {
                    assert(bag(a2, h, 0).add(bag(a2, r, 0)) =~= b0.add(Multiset::singleton(r)));
                }
                (Grown::Split(mk, mv, r), Ghost(p as int))
            },
        }
    }

    /// Inserts a key that the internal node at `h` lacks into child `p`,
    /// and takes in what the child hands up.
    fn insert_below(
        &mut self,
        h: u32,
        Ghost(t): Ghost<nat>,
        Ghost(min): Ghost<nat>,
        p: usize,
        key: K,
        val: V,
        way: &Vec<u32>,
        depth: usize,
        leaf: Option<KVHandle>,
    ) -> (r: (Grown<K, V>, Ghost<int>, Option<KVHandle>))
        requires
            old(self).alloc_wf(),
            min <= MIN_FILL,
            t > 0,
            shaped(old(self).arena(), h, t, min),
            ascending::<K, V>(flat(old(self).arena(), h, t)),
            distinct(bag(old(self).arena(), h, t)),
            old(self).header.node_count + t + 1 <= u32::MAX,
            key_gap::<K>(old(self).arena()[h].keys@, key@, p as int),
            p == scan_stop::<K>(old(self).arena()[h].keys@, key@),
            led(old(self).arena(), h, t, key@, way@, depth as int, leaf),
        ensures
            placed(final(self).arena(), h, t, r.0, r.2, key@, val),
            leaf is Some ==> !(r.0 is Replaced),
            final(self).alloc_wf(),
            old(self).steady(final(self)),
            grown(old(self).arena(), final(self).arena(), h, t, min, key@, val, r.0, r.1@),
            final(self).header.node_count + bag(old(self).arena(), h, t).len()
                == old(self).header.node_count + grown_total(final(self).arena(), h, t, r.0).len(),
            final(self).header.node_count <= old(self).header.node_count + t + 1,
            r.0 is Replaced ==> final(self).header.node_count == old(self).header.node_count,
            r.0 is Replaced ==> old(self).books_kept(final(self)),
        decreases t, 0nat,
    {
        let ghost a0 = self.arena();
        let ghost b0 = bag(a0, h, t);
        let ghost kview = key@;
        let ghost s = (t - 1) as nat;
        proof {
            lemma_below_start(a0, h, t, min, p as int, kview);
        }
        let child = self.node_ref(h).edges[p];
        let ghost bc0 = bag(a0, child, s);
        proof {
            match leaf {
                Some(slot) => {
                    lemma_led_here(a0, h, t, min, kview, way@, depth as int, slot);
                },
                None => {},
            }
        }
        let next = if leaf.is_some() && depth < way.len() {
            depth + 1
        } else {
            depth
        };
        let (out, Ghost(at_c), place_c) = self.insert_rec(
            child,
            Ghost(s),
            Ghost(MIN_FILL as nat),
            key,
            val,
            way,
            next,
            leaf,
        );
        let ghost a1 = self.arena();
        let ghost totc = grown_total(a1, child, s, out);
        let ghost at = before_kid(a0, a0[h], t, p as int).len() + at_c;
        let ghost rest = Multiset::<u32>::empty();
        proof {
            if out is Split {
                rest = lemma_below_split(a0, a1, h, t, min, p as int, kview, val, out, at_c);
            } else {
                lemma_below_same(a0, a1, h, t, min, p as int, kview, val, out, at_c);
            }
        }
        match out {
            Grown::Replaced(v) => (Grown::Replaced(v), Ghost(at), place_c),
            Grown::Added => (Grown::Added, Ghost(at), place_c),
            Grown::Split(mk, mv, rc) => {
                let ghost up = (mk@, mv);
                let out2 = self.rework(h, Ghost(t), Ghost(min), p, mk, mv, Some(rc));
                let ghost a2 = self.arena();
                let place = match place_c {
                    Some(slot) => Some(slot),
                    None => place_of(
                        h,
                        p,
                        match &out2 {
                            Some((_, _, r)) => Some(*r),
                            None => None,
                        },
                    ),
                };
                match out2 {
                    None => {
                        proof {
                            lemma_grown_up(a0, a1, a2, h, b0, bc0, totc, rest, bag(a2, h, t), None);
                            lemma_stored(a2, h, t, 0);
                            assert(totc.subset_of(bag(a2, h, t)));
                            lemma_placed_up(
                                a1,
                                a2,
                                h,
                                t,
                                p as int,
                                kview,
                                val,
                                place_c,
                                totc,
                                up,
                                Grown::<K, V>::Added,
                            );
                        }
                        (Grown::Added, Ghost(at), place)
                    },
                    Some((mk2, mv2, r2)) => {
                        proof {
                            lemma_grown_up(
                                a0,
                                a1,
                                a2,
                                h,
                                b0,
                                bc0,
                                totc,
                                rest,
                                bag(a2, h, t).add(bag(a2, r2, t)),
                                Some(r2),
                            );
                            lemma_stored(a2, h, t, 0);
                            lemma_stored(a2, r2, t, 0);
                            assert(totc.subset_of(bag(a2, h, t).add(bag(a2, r2, t))));
                            lemma_placed_up(
                                a1,
                                a2,
                                h,
                                t,
                                p as int,
                                kview,
                                val,
                                place_c,
                                totc,
                                up,
                                Grown::Split(mk2, mv2, r2),
                            );
                        }
                        (Grown::Split(mk2, mv2, r2), Ghost(at), place)
                    },
                }
            },
        }
    }
}

impl<K: SortKey, V: Clone> BTreeMap<K, V> {
    /// Puts `val` under `key`. Returns the value that the key had, if the
    /// map held it; the number of entries grows by one if it did not.
    /// Where only a value is replaced, no node gains, loses or moves a key
    /// or an edge. The backing store is neither read nor written.
    pub fn insert(&mut self, key: K, val: V) -> (r: Option<V>)
        requires
            old(self).wf(),
            old(self).entries().len() < MAX_ENTRIES,
        ensures
            final(self).wf(),
            final(self)@ == old(self)@.insert(key@, val),
            match r {
                Some(v) => old(self)@.contains_key(key@) && old(self)@[key@] == v,
                None => !old(self)@.contains_key(key@),
            },
            final(self).entries().len() == old(self).entries().len() + if r is None {
                1nat
            } else {
                0nat
            },
            old(self).untouched(final(self)),
            r is Some ==> {
                &&& final(self).header_view() == old(self).header_view()
                &&& final(self).extent_view() == old(self).extent_view()
                &&& final(self).height() == old(self).height()
                &&& values_only(old(self).arena(), final(self).arena())
            },
    {
        let unled: Vec<u32> = Vec::new();
        self.insert_from_root(key, val, &unled, None).0
    }

    /// Puts `val` under `key`, which the map lacks, led by a search that
    /// went before: `leaf` is the slot at which it ended and `way` its
    /// route. No key is compared on the way down; nodes that are full are
    /// split from the leaf up. Returns the slot that holds the entry
    /// afterwards.
    pub fn insert_led(&mut self, way: &Vec<u32>, leaf: KVHandle, key: K, val: V) -> (at: KVHandle)
        requires
            old(self).wf(),
            old(self).entries().len() < MAX_ENTRIES,
            search_path(old(self), key@) == SearchResult::NotFound(leaf),
            search_route(old(self), key@) == way@,
        ensures
            final(self).wf(),
            !old(self)@.contains_key(key@),
            final(self)@ == old(self)@.insert(key@, val),
            final(self).entries().len() == old(self).entries().len() + 1,
            final(self).holds(at),
            final(self).key_at(at) == key@,
            final(self).value_at(at) == val,
            old(self).untouched(final(self)),
    {
        self.insert_from_root(key, val, way, Some(leaf)).1
    }

    /// The insertion behind `insert` and `insert_led`: from the root
    /// down, by comparing keys or led by `leaf` and `way`, then up again
    /// as far as nodes have to be split. Returns the value that the key
    /// had, if any, and the slot that holds the entry afterwards.
    fn insert_from_root(&mut self, key: K, val: V, way: &Vec<u32>, leaf: Option<KVHandle>) -> (r: (
        Option<V>,
        KVHandle,
    ))
        requires
            old(self).wf(),
            old(self).entries().len() < MAX_ENTRIES,
            match leaf {
                Some(slot) => search_path(old(self), key@) == SearchResult::NotFound(slot)
                    && search_route(old(self), key@) == way@,
                None => true,
            },
        ensures
            final(self).wf(),
            final(self)@ == old(self)@.insert(key@, val),
            match r.0 {
                Some(v) => old(self)@.contains_key(key@) && old(self)@[key@] == v,
                None => !old(self)@.contains_key(key@),
            },
            leaf is Some ==> r.0 is None,
            final(self).entries().len() == old(self).entries().len() + if r.0 is None {
                1nat
            } else {
                0nat
            },
            old(self).untouched(final(self)),
            r.0 is Some ==> {
                &&& final(self).header_view() == old(self).header_view()
                &&& final(self).extent_view() == old(self).extent_view()
                &&& final(self).height() == old(self).height()
                &&& values_only(old(self).arena(), final(self).arena())
            },
            sits(final(self).arena(), r.1.node, r.1.idx as int, key@, val),
    {
        let ghost a0 = self.arena();
        let ghost e0 = self.entries();
        let ghost kview = key@;
        let ghost t = self.height@;
        match self.header.root {
            None => {
                let mut n = Node::new();
                n.keys.push(key);
                n.vals.push(val);
                let h = self.allocate(n);
                self.header.root = Some(h);
                self.header.len = 1;
                self.height = Ghost(0);
                proof {
                    let a1 = self.arena();
                    assert(n.pairs() =~= seq![(kview, val)]);
                    assert(e0.insert(0, (kview, val)) =~= seq![(kview, val)]);
                    lemma_insert_fits::<K, V>(e0, 0, kview, val);
                    lemma_fits_lacks::<K, V>(e0, 0, kview);
                    lemma_stored(a1, h, 0, 1);
                    assert(bag(a1, h, 0) =~= Multiset::singleton(h));
                    assert forall|x: u32| #[trigger] a1.contains_key(x) <==> bag(a1, h, 0).count(x) > 0 by {
                        assert(!a0.contains_key(x));
                    }
                }
                (None, KVHandle::new(h, 0))
            },
            Some(root) => {
                proof {
                    lemma_sizes::<K, V>(a0, root, t, 1);
                    assert(way@.skip(0) =~= way@);
                }
                let (out, Ghost(at), place) = self.insert_rec(
                    root,
                    Ghost(t),
                    Ghost(1),
                    key,
                    val,
                    way,
                    0,
                    leaf,
                );
                let ghost a1 = self.arena();
                proof {
                    lemma_grown_whole(a0, a1, bag(a0, root, t), grown_total(a1, root, t, out));
                }
                match out {
                    Grown::Replaced(v) => {
                        proof {
                            lemma_update_value::<K, V>(e0, at, val);
                            lemma_as_map_at::<K, V>(e0, at);
                        }
                        match place {
                            Some(slot) => (Some(v), slot),
                            None => {
                                proof {
                                    assert(false);
                                }
                                vstd::pervasive::unreached()
                            },
                        }
                    },
                    Grown::Added => {
                        self.header.len = self.header.len + 1;
                        proof {
                            lemma_insert_fits::<K, V>(e0, at, kview, val);
                            lemma_fits_lacks::<K, V>(e0, at, kview);
                        }
                        match place {
                            Some(slot) => (None, slot),
                            None => {
                                proof {
                                    assert(false);
                                }
                                vstd::pervasive::unreached()
                            },
                        }
                    },
                    Grown::Split(mk, mv, right) => {
                        let mut n = Node::new();
                        n.keys.push(mk);
                        n.vals.push(mv);
                        n.edges.push(root);
                        n.edges.push(right);
                        let top = self.allocate(n);
                        self.header.root = Some(top);
                        self.header.len = self.header.len + 1;
                        self.height = Ghost(t + 1);
                        proof {
                            let a2 = self.arena();
                            let up = (t + 1) as nat;
                            lemma_insert_fits::<K, V>(e0, at, kview, val);
                            lemma_fits_lacks::<K, V>(e0, at, kview);
                            lemma_bag_gone(a1, root, t, MIN_FILL as nat, top);
                            lemma_bag_gone(a1, right, t, MIN_FILL as nat, top);
                            assert(n.pairs()[0] == (mk@, mv));
                            lemma_two_kids(a2, n, up);
                            lemma_stored(a2, top, up, 1);
                            assert(node_shaped(a2, n, up, 1, CAPACITY as nat)) by {
                                assert forall|i: int| 0 <= i < n.edges@.len() implies shaped(
                                    a2,
                                    #[trigger] n.edges@[i],
                                    t,
                                    MIN_FILL as nat,
                                ) by {
                                    assert(i == 0 || i == 1);
                                }
                            }
                            let total = bag(a1, root, t).add(bag(a1, right, t));
                            assert(bag(a2, top, up) =~= Multiset::singleton(top).add(total));
                            assert forall|x: u32| #[trigger] bag(a2, top, up).count(x) <= 1 by {
                                if x == top {
                                    assert(!a1.contains_key(top));
                                    assert(total.count(top) == 0);
                                } else {
                                    assert(total.count(x) <= 1);
                                }
                            }
                            assert forall|x: u32| #[trigger]
                                a2.contains_key(x) <==> bag(a2, top, up).count(x) > 0 by {
                                if x != top {
                                    assert(a2.contains_key(x) == a1.contains_key(x));
                                    assert(a1.contains_key(x) <==> total.count(x) > 0);
                                }
                            }
                        }
                        match place {
                            Some(slot) => (None, slot),
                            None => (None, KVHandle::new(top, 0)),
                        }
                    },
                }
            },
        }
    }
}

impl<K: SortKey, V: Clone> BTreeMap<K, V> {
    /// Takes out the node at `h` and its children `j` and `j + 1` for rework.
    fn open_trio(&mut self, h: u32, Ghost(t): Ghost<nat>, Ghost(min): Ghost<nat>, j: usize) -> (r: (
        Node<K, V>,
        u32,
        Node<K, V>,
        u32,
        Node<K, V>,
    ))
        requires
            old(self).alloc_wf(),
            loose(old(self).arena(), h, t, min),
            distinct(bag(old(self).arena(), h, t)),
            j < old(self).arena()[h].keys@.len(),
        ensures
            final(self).alloc_wf(),
            old(self).steady(final(self)),
            final(self).header.node_count == old(self).header.node_count,
            final(self).arena().dom() == old(self).arena().dom(),
            kept_outside(old(self).arena(), final(self).arena(), trio(old(self).arena(), h, j as int)),
            r.0 == old(self).arena()[h],
            r.1 == old(self).arena()[h].edges@[j as int],
            r.2 == old(self).arena()[r.1],
            r.3 == old(self).arena()[h].edges@[j + 1],
            r.4 == old(self).arena()[r.3],
            r.1 != r.3,
            r.1 != h,
            r.3 != h,
            final(self).arena().contains_key(h),
            final(self).arena().contains_key(r.1),
            final(self).arena().contains_key(r.3),
    {
        let ghost a0 = self.arena();
        proof {
            lemma_trio_apart(a0, h, t, min, j as int);
        }
        let n = self.swap_out(h);
        let l = n.edges[j];
        let c = n.edges[j + 1];
        let left = self.swap_out(l);
        let right = self.swap_out(c);
        proof {
            assert(self.arena().dom().contains(h));
            assert(self.arena().dom().contains(l));
            assert(self.arena().dom().contains(c));
        }
        (n, l, left, c, right)
    }

    /// Puts back the three records that `open_trio` took out.
    fn close_trio(&mut self, h: u32, n: Node<K, V>, l: u32, left: Node<K, V>, c: u32, right: Node<K, V>)
        requires
            old(self).alloc_wf(),
            old(self).arena().contains_key(h),
            old(self).arena().contains_key(l),
            old(self).arena().contains_key(c),
            l != c,
            l != h,
            c != h,
        ensures
            final(self).alloc_wf(),
            old(self).steady(final(self)),
            final(self).header.node_count == old(self).header.node_count,
            final(self).arena().dom() == old(self).arena().dom(),
            forall|x: u32| #[trigger]
                old(self).arena().contains_key(x) && x != h && x != l && x != c ==> final(self).arena()[x]
                    == old(self).arena()[x],
            final(self).arena()[h] == n,
            final(self).arena()[l] == left,
            final(self).arena()[c] == right,
    {
        self.store(c, right);
        self.store(l, left);
        self.store(h, n);
        proof {
            assert(final(self).arena().dom() =~= old(self).arena().dom());
        }
    }

    /// Moves the last key of child `j` up into key `j` of the node at `h`,
    /// and the old key `j` down to the front of child `j + 1`; the last
    /// child of child `j`, if it has children, goes along.
    fn rotate_right(&mut self, h: u32, Ghost(t): Ghost<nat>, Ghost(min): Ghost<nat>, j: usize)
        requires
            old(self).alloc_wf(),
            loose(old(self).arena(), h, t, min),
            distinct(bag(old(self).arena(), h, t)),
            j < old(self).arena()[h].keys@.len(),
            old(self).arena()[old(self).arena()[h].edges@[j as int]].keys@.len() > MIN_FILL,
            old(self).arena()[old(self).arena()[h].edges@[j + 1]].keys@.len() < CAPACITY,
        ensures
            final(self).alloc_wf(),
            old(self).steady(final(self)),
            final(self).header.node_count == old(self).header.node_count,
            final(self).arena().dom() == old(self).arena().dom(),
            kept_outside(old(self).arena(), final(self).arena(), trio(old(self).arena(), h, j as int)),
            rebuilt(old(self).arena(), final(self).arena(), h, t, min, j as int),
            final(self).arena()[h].edges@ == old(self).arena()[h].edges@,
            bag(final(self).arena(), h, t) == bag(old(self).arena(), h, t),
    {
        let ghost a0 = self.arena();
        let ghost s = (t - 1) as nat;
        let (mut n, l, mut left, c, mut right) = self.open_trio(h, Ghost(t), Ghost(min), j);
        let ghost n0 = n;
        let ghost l0 = left;
        let ghost c0 = right;
        proof {
            assert(shaped(a0, n0.edges@[j as int], s, (MIN_FILL - 1) as nat));
            assert(shaped(a0, n0.edges@[j + 1], s, (MIN_FILL - 1) as nat));
        }
        let up_key = left.keys.pop();
        let up_val = left.vals.pop();
        match (up_key, up_val) {
            (Some(k), Some(v)) => {
                n.keys.push(k);
                let down_key = n.keys.swap_remove(j);
                n.vals.push(v);
                let down_val = n.vals.swap_remove(j);
                right.keys.insert(0, down_key);
                right.vals.insert(0, down_val);
            },
            _ => {
                proof {
                    assert(false);
                }
            },
        }
        if left.edges.len() > 0 {
            let moved = left.edges.pop();
            match moved {
                Some(e) => {
                    right.edges.insert(0, e);
                },
                None => {},
            }
        }
        proof {
            assert(n.keys@ =~= n0.keys@.update(j as int, l0.keys@.last()));
            assert(n.vals@ =~= n0.vals@.update(j as int, l0.vals@.last()));
            assert(n.pairs() =~= n0.pairs().update(j as int, l0.pairs().last()));
            assert(left.pairs() =~= l0.pairs().drop_last());
            assert(right.pairs() =~= seq![n0.pairs()[j as int]] + c0.pairs());
            assert(left.pairs() + seq![n.pairs()[j as int]] + right.pairs() =~= l0.pairs()
                + seq![n0.pairs()[j as int]] + c0.pairs());
            assert(left.edges@ + right.edges@ =~= l0.edges@ + c0.edges@);
        }
        self.close_trio(h, n, l, left, c, right);
        proof {
            lemma_recut(a0, self.arena(), h, t, min, j as int);
        }
    }

    /// Moves the first key of child `j + 1` up into key `j` of the node at
    /// `h`, and the old key `j` down to the end of child `j`; the first
    /// child of child `j + 1`, if it has children, goes along.
    fn rotate_left(&mut self, h: u32, Ghost(t): Ghost<nat>, Ghost(min): Ghost<nat>, j: usize)
        requires
            old(self).alloc_wf(),
            loose(old(self).arena(), h, t, min),
            distinct(bag(old(self).arena(), h, t)),
            j < old(self).arena()[h].keys@.len(),
            old(self).arena()[old(self).arena()[h].edges@[j + 1]].keys@.len() > MIN_FILL,
            old(self).arena()[old(self).arena()[h].edges@[j as int]].keys@.len() < CAPACITY,
        ensures
            final(self).alloc_wf(),
            old(self).steady(final(self)),
            final(self).header.node_count == old(self).header.node_count,
            final(self).arena().dom() == old(self).arena().dom(),
            kept_outside(old(self).arena(), final(self).arena(), trio(old(self).arena(), h, j as int)),
            rebuilt(old(self).arena(), final(self).arena(), h, t, min, j as int),
            final(self).arena()[h].edges@ == old(self).arena()[h].edges@,
            bag(final(self).arena(), h, t) == bag(old(self).arena(), h, t),
    {
        let ghost a0 = self.arena();
        let ghost s = (t - 1) as nat;
        let (mut n, l, mut left, c, mut right) = self.open_trio(h, Ghost(t), Ghost(min), j);
        let ghost n0 = n;
        let ghost l0 = left;
        let ghost c0 = right;
        proof {
            assert(shaped(a0, n0.edges@[j as int], s, (MIN_FILL - 1) as nat));
            assert(shaped(a0, n0.edges@[j + 1], s, (MIN_FILL - 1) as nat));
        }
        let up_key = right.keys.remove(0);
        let up_val = right.vals.remove(0);
        n.keys.push(up_key);
        let down_key = n.keys.swap_remove(j);
        n.vals.push(up_val);
        let down_val = n.vals.swap_remove(j);
        left.keys.push(down_key);
        left.vals.push(down_val);
        if right.edges.len() > 0 {
            let e = right.edges.remove(0);
            left.edges.push(e);
        }
        proof {
            assert(n.keys@ =~= n0.keys@.update(j as int, c0.keys@[0]));
            assert(n.vals@ =~= n0.vals@.update(j as int, c0.vals@[0]));
            assert(n.pairs() =~= n0.pairs().update(j as int, c0.pairs()[0]));
            assert(right.pairs() =~= c0.pairs().skip(1));
            assert(left.pairs() =~= l0.pairs() + seq![n0.pairs()[j as int]]);
            assert(left.pairs() + seq![n.pairs()[j as int]] + right.pairs() =~= l0.pairs()
                + seq![n0.pairs()[j as int]] + c0.pairs());
            assert(left.edges@ + right.edges@ =~= l0.edges@ + c0.edges@);
        }
        self.close_trio(h, n, l, left, c, right);
        proof {
            lemma_recut(a0, self.arena(), h, t, min, j as int);
        }
    }

    /// Joins child `j + 1` of the node at `h` and key `j` of that node
    /// onto child `j`, and gives the node of child `j + 1` back.
    fn merge(&mut self, h: u32, Ghost(t): Ghost<nat>, Ghost(min): Ghost<nat>, j: usize)
        requires
            old(self).alloc_wf(),
            loose(old(self).arena(), h, t, min),
            min >= 1,
            distinct(bag(old(self).arena(), h, t)),
            j < old(self).arena()[h].keys@.len(),
            old(self).arena()[old(self).arena()[h].edges@[j as int]].keys@.len()
                + old(self).arena()[old(self).arena()[h].edges@[j + 1]].keys@.len() + 1 <= CAPACITY,
            old(self).header.node_count >= 1,
        ensures
            final(self).alloc_wf(),
            old(self).steady(final(self)),
            final(self).header.node_count == old(self).header.node_count - 1,
            final(self).arena().dom() == old(self).arena().dom().remove(
                old(self).arena()[h].edges@[j + 1],
            ),
            kept_outside(old(self).arena(), final(self).arena(), trio(old(self).arena(), h, j as int)),
            flat(final(self).arena(), h, t) == flat(old(self).arena(), h, t),
            bag(old(self).arena(), h, t) == bag(final(self).arena(), h, t).add(
                Multiset::singleton(old(self).arena()[h].edges@[j + 1]),
            ),
            final(self).arena().contains_key(h),
            final(self).arena()[h].fits(false, (min - 1) as nat, CAPACITY as nat),
            final(self).arena()[h].edges@ == old(self).arena()[h].edges@.remove(j + 1),
            shaped(
                final(self).arena(),
                old(self).arena()[h].edges@[j as int],
                (t - 1) as nat,
                MIN_FILL as nat,
            ),
            forall|i: int, m: nat|
                0 <= i < old(self).arena()[h].edges@.len() && i != j && i != j + 1 && #[trigger] shaped(
                    old(self).arena(),
                    old(self).arena()[h].edges@[i],
                    (t - 1) as nat,
                    m,
                ) ==> shaped(final(self).arena(), old(self).arena()[h].edges@[i], (t - 1) as nat, m),
    {
        let ghost a0 = self.arena();
        let ghost s = (t - 1) as nat;
        let (mut n, l, mut left, c, mut right) = self.open_trio(h, Ghost(t), Ghost(min), j);
        let ghost n0 = n;
        let ghost l0 = left;
        let ghost c0 = right;
        proof {
            assert(shaped(a0, n0.edges@[j as int], s, (MIN_FILL - 1) as nat));
            assert(shaped(a0, n0.edges@[j + 1], s, (MIN_FILL - 1) as nat));
        }
        let down_key = n.keys.remove(j);
        let down_val = n.vals.remove(j);
        n.edges.remove(j + 1);
        left.keys.push(down_key);
        left.keys.append(&mut right.keys);
        left.vals.push(down_val);
        left.vals.append(&mut right.vals);
        left.edges.append(&mut right.edges);
        proof {
            assert(n.pairs() =~= n0.pairs().remove(j as int));
            assert(left.pairs() =~= l0.pairs() + seq![n0.pairs()[j as int]] + c0.pairs());
        }
        self.store(l, left);
        self.store(h, n);
        self.deallocate(c);
        proof {
            let a1 = self.arena();
            assert(a1.dom() =~= a0.dom().remove(c));
            assert(a1[h] == n);
            assert(a1[l] == left);
            lemma_merged(a0, a1, h, t, min, j as int);
        }
    }
}

impl<K: SortKey, V: Clone> BTreeMap<K, V> {
    /// Brings child `p` of the node at `h` back to the minimum fill where
    /// it is one key short: by a key from a neighbour that can spare one,
    /// or else by joining it with a neighbour.
    fn fix_child(&mut self, h: u32, Ghost(t): Ghost<nat>, Ghost(min): Ghost<nat>, p: usize)
        requires
            old(self).alloc_wf(),
            loose(old(self).arena(), h, t, min),
            min >= 1,
            forall|i: int|
                0 <= i < old(self).arena()[h].edges@.len() && i != p ==> shaped(
                    old(self).arena(),
                    #[trigger] old(self).arena()[h].edges@[i],
                    (t - 1) as nat,
                    MIN_FILL as nat,
                ),
            distinct(bag(old(self).arena(), h, t)),
            p < old(self).arena()[h].edges@.len(),
            old(self).header.node_count >= bag(old(self).arena(), h, t).len(),
        ensures
            final(self).alloc_wf(),
            old(self).steady(final(self)),
            flat(final(self).arena(), h, t) == flat(old(self).arena(), h, t),
            shaped(final(self).arena(), h, t, (min - 1) as nat),
            shrunk_frame(
                old(self).arena(),
                final(self).arena(),
                bag(old(self).arena(), h, t),
                bag(final(self).arena(), h, t),
            ),
            final(self).header.node_count + bag(old(self).arena(), h, t).len()
                == old(self).header.node_count + bag(final(self).arena(), h, t).len(),
    {
        let ghost a0 = self.arena();
        let ghost n0 = a0[h];
        let ghost s = (t - 1) as nat;
        let ghost b0 = bag(a0, h, t);
        let node = self.node_ref(h);
        let m = node.keys.len();
        let child = node.edges[p];
        proof {
            assert(shaped(a0, n0.edges@[p as int], s, (MIN_FILL - 1) as nat));
            assert(bag(a0, h, t).count(h) >= 1);
        }
        let fill = self.node_ref(child).keys.len();
        if fill >= MIN_FILL {
            proof {
                lemma_fixed_same(a0, h, t, min);
            }
            return ;
        }
        let left_fill = if p > 0 {
            proof {
                assert(shaped(a0, n0.edges@[p - 1], s, (MIN_FILL - 1) as nat));
            }
            self.node_ref(self.node_ref(h).edges[p - 1]).keys.len()
        } else {
            0
        };
        let right_fill = if p < m {
            proof {
                assert(shaped(a0, n0.edges@[p + 1], s, (MIN_FILL - 1) as nat));
            }
            self.node_ref(self.node_ref(h).edges[p + 1]).keys.len()
        } else {
            0
        };
        if p > 0 && left_fill > MIN_FILL {
            self.rotate_right(h, Ghost(t), Ghost(min), p - 1);
            proof {
                lemma_fixed_moved(a0, self.arena(), h, t, min, p as int, p - 1);
            }
        } else if p < m && right_fill > MIN_FILL {
            self.rotate_left(h, Ghost(t), Ghost(min), p);
            proof {
                lemma_fixed_moved(a0, self.arena(), h, t, min, p as int, p as int);
            }
        } else if p > 0 {
            proof {
                assert(shaped(a0, n0.edges@[p - 1], s, MIN_FILL as nat));
            }
            self.merge(h, Ghost(t), Ghost(min), p - 1);
            proof {
                lemma_fixed_joined(a0, self.arena(), h, t, min, p as int, p - 1);
            }
        } else {
            proof {
                assert(shaped(a0, n0.edges@[p + 1], s, MIN_FILL as nat));
            }
            self.merge(h, Ghost(t), Ghost(min), p);
            proof {
                lemma_fixed_joined(a0, self.arena(), h, t, min, p as int, p as int);
            }
        }
    }
}

impl<K: SortKey, V: Clone> BTreeMap<K, V> {
    /// Removes the last entry of the subtree of height `t` at `h` and hands it out.
    fn remove_max(&mut self, h: u32, Ghost(t): Ghost<nat>, Ghost(min): Ghost<nat>) -> (r: (K, V))
        requires
            old(self).alloc_wf(),
            shaped(old(self).arena(), h, t, min),
            min >= 1,
            distinct(bag(old(self).arena(), h, t)),
            old(self).header.node_count >= bag(old(self).arena(), h, t).len(),
        ensures
            final(self).alloc_wf(),
            old(self).steady(final(self)),
            flat(old(self).arena(), h, t).len() > 0,
            flat(old(self).arena(), h, t).last() == (r.0@, r.1),
            flat(final(self).arena(), h, t) == flat(old(self).arena(), h, t).drop_last(),
            shrunk(old(self).arena(), final(self).arena(), h, t, min),
            final(self).header.node_count + bag(old(self).arena(), h, t).len()
                == old(self).header.node_count + bag(final(self).arena(), h, t).len(),
        decreases t,
    {
        let ghost a0 = self.arena();
        let ghost n0 = a0[h];
        proof {
            lemma_stored(a0, h, t, min);
        }
        let node = self.node_ref(h);
        let m = node.keys.len();
        if node.edges.len() == 0 {
            let mut n = self.swap_out(h);
            let last_key = n.keys.pop();
            let last_val = n.vals.pop();
            proof {
                assert(n.pairs() =~= n0.pairs().drop_last());
            }
            self.store(h, n);
            proof {
                let a2 = self.arena();
                lemma_stored(a2, h, t, (min - 1) as nat);
                assert(a2.dom() =~= a0.dom());
                lemma_frame_same(a0, a2, h, t, min);
                lemma_same_shrunk(a0, a2, bag(a0, h, t));
            }
            match (last_key, last_val) {
                (Some(k), Some(v)) => (k, v),
                _ => {
                    proof {
                        assert(false);
                    }
                    vstd::pervasive::unreached()
                },
            }
        } else {
            let child = node.edges[m];
            let ghost s = (t - 1) as nat;
            proof {
                lemma_below_pre(a0, h, t, min, m as int);
            }
            let r = self.remove_max(child, Ghost(s), Ghost(MIN_FILL as nat));
            let ghost a1 = self.arena();
            let ghost rest = Multiset::<u32>::empty();
            proof {
                rest = lemma_below_loose(a0, a1, h, t, min, m as int);
                lemma_around_kid(a0, n0, t, m as int);
                let f = before_kid(a0, n0, t, m as int);
                assert(f + flat(a0, child, s) + Seq::<(K::V, V)>::empty() =~= f + flat(a0, child, s));
                assert(f + flat(a1, child, s) + Seq::<(K::V, V)>::empty() =~= (f + flat(
                    a0,
                    child,
                    s,
                )).drop_last());
                lemma_shrunk_up(
                    a0,
                    a1,
                    h,
                    bag(a0, h, t),
                    bag(a0, child, s),
                    bag(a1, child, s),
                    rest,
                    bag(a1, h, t),
                );
                assert forall|x: u32| #[trigger] bag(a1, h, t).count(x) <= 1 by {
                    assert(bag(a0, h, t).count(x) <= 1);
                }
            }
            self.fix_child(h, Ghost(t), Ghost(min), m);
            proof {
                lemma_shrunk_done(a0, a1, self.arena(), h, t, min, m as int, rest);
            }
            r
        }
    }
}

impl<K: SortKey, V: Clone> BTreeMap<K, V> {
    /// Puts `key` and `val` in place of entry `p` of the node at `h` and hands out the old value.
    fn reseat(&mut self, h: u32, p: usize, key: K, val: V) -> (old_val: V)
        requires
            old(self).alloc_wf(),
            old(self).arena().contains_key(h),
            p < old(self).arena()[h].keys@.len(),
            old(self).arena()[h].keys@.len() == old(self).arena()[h].vals@.len(),
        ensures
            final(self).alloc_wf(),
            old(self).steady(final(self)),
            final(self).header.node_count == old(self).header.node_count,
            final(self).arena().dom() == old(self).arena().dom(),
            forall|x: u32| #[trigger]
                old(self).arena().contains_key(x) && x != h ==> final(self).arena()[x] == old(self).arena()[x],
            old_val == old(self).arena()[h].vals@[p as int],
            final(self).arena()[h].keys@.len() == final(self).arena()[h].vals@.len(),
            final(self).arena()[h].keys@.len() == old(self).arena()[h].keys@.len(),
            final(self).arena()[h].edges@ == old(self).arena()[h].edges@,
            final(self).arena()[h].pairs() == old(self).arena()[h].pairs().update(
                p as int,
                (key@, val),
            ),
    {
        let ghost n0 = self.arena()[h];
        let mut n = self.swap_out(h);
        n.keys.push(key);
        let _ = n.keys.swap_remove(p);
        n.vals.push(val);
        let old_val = n.vals.swap_remove(p);
        proof {
            assert(n.keys@ =~= n0.keys@.update(p as int, key));
            assert(n.vals@ =~= n0.vals@.update(p as int, val));
            assert(n.pairs() =~= n0.pairs().update(p as int, (key@, val)));
        }
        self.store(h, n);
        proof {
            assert(final(self).arena().dom() =~= old(self).arena().dom());
        }
        old_val
    }

    /// Removes `key` from the leaf at `h`, where it is entry `p`.
    fn remove_here(&mut self, h: u32, Ghost(min): Ghost<nat>, p: usize) -> (v: V)
        requires
            old(self).alloc_wf(),
            shaped(old(self).arena(), h, 0, min),
            min >= 1,
            p < old(self).arena()[h].keys@.len(),
        ensures
            final(self).alloc_wf(),
            old(self).steady(final(self)),
            final(self).header.node_count == old(self).header.node_count,
            flat(old(self).arena(), h, 0)[p as int] == (old(self).arena()[h].keys@[p as int]@, v),
            flat(final(self).arena(), h, 0) == flat(old(self).arena(), h, 0).remove(p as int),
            shrunk(old(self).arena(), final(self).arena(), h, 0, min),
            bag(final(self).arena(), h, 0) == bag(old(self).arena(), h, 0),
    {
        let ghost a0 = self.arena();
        let ghost n0 = a0[h];
        let mut n = self.swap_out(h);
        let _ = n.keys.remove(p);
        let v = n.vals.remove(p);
        proof {
            assert(n.pairs() =~= n0.pairs().remove(p as int));
        }
        self.store(h, n);
        proof {
            let a2 = self.arena();
            lemma_stored(a0, h, 0, min);
            lemma_stored(a2, h, 0, (min - 1) as nat);
            assert(a2.dom() =~= a0.dom());
            lemma_frame_same(a0, a2, h, 0, min);
            lemma_same_shrunk(a0, a2, bag(a0, h, 0));
        }
        v
    }

    /// Removes entry `p` of the internal node at `h`: the last entry of
    /// the subtree of child `p`, which comes just before it in order,
    /// takes its place.
    fn remove_inner(&mut self, h: u32, Ghost(t): Ghost<nat>, Ghost(min): Ghost<nat>, p: usize) -> (r: (
        V,
        Ghost<int>,
    ))
        requires
            old(self).alloc_wf(),
            t > 0,
            shaped(old(self).arena(), h, t, min),
            min >= 1,
            distinct(bag(old(self).arena(), h, t)),
            old(self).header.node_count >= bag(old(self).arena(), h, t).len(),
            p < old(self).arena()[h].keys@.len(),
        ensures
            final(self).alloc_wf(),
            old(self).steady(final(self)),
            0 <= r.1@ < flat(old(self).arena(), h, t).len(),
            flat(old(self).arena(), h, t)[r.1@] == (old(self).arena()[h].keys@[p as int]@, r.0),
            flat(final(self).arena(), h, t) == flat(old(self).arena(), h, t).remove(r.1@),
            shrunk(old(self).arena(), final(self).arena(), h, t, min),
            final(self).header.node_count + bag(old(self).arena(), h, t).len()
                == old(self).header.node_count + bag(final(self).arena(), h, t).len(),
        decreases t, 0nat,
    {
        let ghost a0 = self.arena();
        let ghost n0 = a0[h];
        let ghost s = (t - 1) as nat;
        proof {
            lemma_stored(a0, h, t, min);
            lemma_below_pre(a0, h, t, min, p as int);
        }
        let child = self.node_ref(h).edges[p];
        let ghost f = before_kid(a0, n0, t, p as int);
        let ghost b = after_kid(a0, n0, t, p as int);
        let ghost c0 = flat(a0, child, s);
        let (up_key, up_val) = self.remove_max(child, Ghost(s), Ghost(MIN_FILL as nat));
        let ghost a1 = self.arena();
        let ghost rest = Multiset::<u32>::empty();
        proof {
            rest = lemma_below_loose(a0, a1, h, t, min, p as int);
            lemma_around_kid(a0, n0, t, p as int);
            lemma_around_kid(a1, n0, t, p as int);
            lemma_shrunk_up(
                a0,
                a1,
                h,
                bag(a0, h, t),
                bag(a0, child, s),
                bag(a1, child, s),
                rest,
                bag(a1, h, t),
            );
            assert forall|x: u32| #[trigger] bag(a1, h, t).count(x) <= 1 by {
                assert(bag(a0, h, t).count(x) <= 1);
            }
            lemma_swap_last(f, c0, b);
        }
        let old_val = self.reseat(h, p, up_key, up_val);
        let ghost a2 = self.arena();
        proof {
            lemma_reseated(a1, a2, h, t, min, p as int);
            assert(slot_place(a1, n0, t, p as int) == f.len() + c0.len() - 1);
            assert(a2[h].pairs()[p as int] == c0.last());
            assert(flat(a1, h, t) == f + c0.drop_last() + b);
            assert(b[0] == n0.pairs()[p as int]);
            lemma_shrunk_twice(a0, a1, a2, bag(a0, h, t), bag(a1, h, t), bag(a2, h, t));
            assert forall|i: int| 0 <= i < a2[h].edges@.len() && i != p implies shaped(
                a2,
                #[trigger] a2[h].edges@[i],
                s,
                MIN_FILL as nat,
            ) by {
                assert(shaped(a1, n0.edges@[i], s, MIN_FILL as nat));
            }
        }
        self.fix_child(h, Ghost(t), Ghost(min), p);
        proof {
            lemma_shrunk_twice(a0, a2, self.arena(), bag(a0, h, t), bag(a2, h, t), bag(self.arena(), h, t));
        }
        (old_val, Ghost((f.len() + c0.len()) as int))
    }

    /// Removes `key` from the subtree of height `t` at `h`, from its top node down.
    fn remove_rec(&mut self, h: u32, Ghost(t): Ghost<nat>, Ghost(min): Ghost<nat>, key: &K) -> (r: (
        Option<V>,
        Ghost<int>,
    ))
        requires
            old(self).alloc_wf(),
            shaped(old(self).arena(), h, t, min),
            min >= 1,
            ascending::<K, V>(flat(old(self).arena(), h, t)),
            distinct(bag(old(self).arena(), h, t)),
            old(self).header.node_count >= bag(old(self).arena(), h, t).len(),
        ensures
            final(self).alloc_wf(),
            old(self).steady(final(self)),
            match r.0 {
                None => *final(self) == *old(self) && lacks::<K, V>(
                    flat(old(self).arena(), h, t),
                    key@,
                ),
                Some(v) => {
                    &&& 0 <= r.1@ < flat(old(self).arena(), h, t).len()
                    &&& flat(old(self).arena(), h, t)[r.1@] == (key@, v)
                    &&& flat(final(self).arena(), h, t) == flat(old(self).arena(), h, t).remove(r.1@)
                    &&& shrunk(old(self).arena(), final(self).arena(), h, t, min)
                    &&& final(self).header.node_count + bag(old(self).arena(), h, t).len()
                        == old(self).header.node_count + bag(final(self).arena(), h, t).len()
                },
            },
        decreases t, 1nat,
    {
        let ghost a0 = self.arena();
        let ghost n0 = a0[h];
        proof {
            lemma_stored(a0, h, t, min);
        }
        let node = self.node_ref(h);
        let found = search_node(node, h, key);
        let leaf = node.edges.len() == 0;
        match found {
            SearchResult::Found(kv) => {
                let p = kv.idx() as usize;
                if leaf {
                    let v = self.remove_here(h, Ghost(min), p);
                    (Some(v), Ghost(p as int))
                } else {
                    let (v, Ghost(at)) = self.remove_inner(h, Ghost(t), Ghost(min), p);
                    (Some(v), Ghost(at))
                }
            },
            SearchResult::NotFound(kv) => {
                let p = kv.idx() as usize;
                if leaf {
                    proof {
                        lemma_leaf_fits(n0, p as int, key@);
                        lemma_fits_lacks::<K, V>(n0.pairs(), p as int, key@);
                    }
                    (None, Ghost(0))
                } else {
                    let child = node.edges[p];
                    let ghost s = (t - 1) as nat;
                    let ghost f = before_kid(a0, n0, t, p as int);
                    let ghost b = after_kid(a0, n0, t, p as int);
                    let ghost c0 = flat(a0, child, s);
                    proof {
                        lemma_below_pre(a0, h, t, min, p as int);
                        lemma_around_kid(a0, n0, t, p as int);
                        lemma_descend(a0, n0, t, p as int, key@);
                    }
                    let (got, Ghost(at_c)) = self.remove_rec(child, Ghost(s), Ghost(MIN_FILL as nat), key);
                    match got {
                        None => {
                            proof {
                                lemma_lacks_within::<K, V>(f, c0, b, key@);
                            }
                            (None, Ghost(0))
                        },
                        Some(v) => {
                            let ghost a1 = self.arena();
                            let ghost rest = Multiset::<u32>::empty();
                            proof {
                                rest = lemma_below_loose(a0, a1, h, t, min, p as int);
                                lemma_fits_within::<K, V>(f, c0, b, at_c, (key@, v));
                                lemma_shrunk_up(
                                    a0,
                                    a1,
                                    h,
                                    bag(a0, h, t),
                                    bag(a0, child, s),
                                    bag(a1, child, s),
                                    rest,
                                    bag(a1, h, t),
                                );
                                assert forall|x: u32| #[trigger] bag(a1, h, t).count(x) <= 1 by {
                                    assert(bag(a0, h, t).count(x) <= 1);
                                }
                            }
                            self.fix_child(h, Ghost(t), Ghost(min), p);
                            proof {
                                lemma_shrunk_done(a0, a1, self.arena(), h, t, min, p as int, rest);
                            }
                            (Some(v), Ghost(f.len() + at_c))
                        },
                    }
                }
            },
        }
    }
}

impl<K: SortKey, V: Clone> BTreeMap<K, V> {
    /// Removes `key`. Returns the value that the key had, if the map held
    /// it; the number of entries falls by one if it did. Nodes that the
    /// removal empties are given back for reuse. The backing store is
    /// neither read nor written.
    pub fn remove(&mut self, key: &K) -> (r: Option<V>)
        requires
            old(self).wf(),
        ensures
            final(self).wf(),
            final(self)@ == old(self)@.remove(key@),
            match r {
                Some(v) => old(self)@.contains_key(key@) && old(self)@[key@] == v,
                None => !old(self)@.contains_key(key@),
            },
            old(self).entries().len() == final(self).entries().len() + if r is Some {
                1nat
            } else {
                0nat
            },
            old(self).untouched(final(self)),
            r is None ==> *final(self) == *old(self),
    {
        let ghost a0 = self.arena();
        let ghost e0 = self.entries();
        let ghost t = self.height@;
        match self.header.root {
            None => {
                proof {
                    lemma_lacks_map::<K, V>(e0, key@);
                }
                None
            },
            Some(root) => {
                let (got, Ghost(at)) = self.remove_rec(root, Ghost(t), Ghost(1), key);
                let ghost a1 = self.arena();
                match got {
                    None => {
                        proof {
                            lemma_lacks_map::<K, V>(e0, key@);
                        }
                        None
                    },
                    Some(v) => {
                        proof {
                            lemma_remove_at::<K, V>(e0, at);
                            lemma_as_map_at::<K, V>(e0, at);
                            lemma_shrunk_whole(a0, a1, bag(a0, root, t), bag(a1, root, t));
                            lemma_stored(a1, root, t, 0);
                            assert(bag(a1, root, t).count(root) >= 1);
                        }
                        self.header.len = self.header.len - 1;
                        let node = self.node_ref(root);
                        if node.keys.len() == 0 {
                            if node.edges.len() == 0 {
                                self.deallocate(root);
                                self.header.root = None;
                                self.height = Ghost(0);
                                proof {
                                    let a2 = self.arena();
                                    assert(bag(a1, root, t) =~= Multiset::singleton(root));
                                    assert forall|x: u32| !#[trigger] a2.contains_key(x) by {
                                        if x != root && a1.contains_key(x) {
                                            assert(bag(a1, root, t).count(x) > 0);
                                        }
                                    }
                                    assert(flat(a1, root, t) =~= Seq::<(K::V, V)>::empty());
                                }
                            } else {
                                let kid = node.edges[0];
                                self.deallocate(root);
                                self.header.root = Some(kid);
                                self.height = Ghost((t - 1) as nat);
                                proof {
                                    let a2 = self.arena();
                                    lemma_root_lowered(a1, a2, root, t);
                                    let b2 = bag(a2, kid, (t - 1) as nat);
                                    assert forall|x: u32| #[trigger] b2.count(x) <= 1 by {
                                        assert(bag(a1, root, t).count(x) <= 1);
                                    }
                                    assert forall|x: u32| #[trigger] a2.contains_key(x) <==> b2.count(x) > 0 by {
                                        assert(a1.contains_key(x) <==> bag(a1, root, t).count(x) > 0);
                                    }
                                }
                            }
                        } else {
                            proof {
                                lemma_stored(a1, root, t, 1);
                            }
                        }
                        Some(v)
                    },
                }
            },
        }
    }
}

/// A key is found right after it was inserted, with the value it was inserted with.
pub proof fn lemma_insert_then_get<K: SortKey, V>(
    before: &BTreeMap<K, V>,
    after: &BTreeMap<K, V>,
    key: K::V,
    value: V,
)
    requires
        after@ == before@.insert(key, value),
    ensures
        after@.contains_key(key),
        after@[key] == value,
{
}

/// A key is not found right after it was removed.
pub proof fn lemma_remove_then_get<K: SortKey, V>(before: &BTreeMap<K, V>, after: &BTreeMap<K, V>, key: K::V)
    requires
        after@ == before@.remove(key),
    ensures
        !after@.contains_key(key),
{
}

/// A map without entries has no node: its root is none, it counts no
/// node, and no handle names one. A map is without entries once every
/// key that was inserted is removed again.
pub proof fn lemma_empty_has_no_node<K: SortKey, V>(map: &BTreeMap<K, V>)
    requires
        map.wf(),
        map.entries().len() == 0 || forall|k: K::V| !map@.contains_key(k),
    ensures
        map.header_view().root is None,
        map.header_view().node_count == 0,
        map.header_view().len == 0,
        map.entries().len() == 0,
        forall|h: u32| !#[trigger] map.arena().contains_key(h),
{
    match map.header.root {
        None => {},
        Some(r) => {
            lemma_sizes::<K, V>(map.arena(), r, map.height@, 1);
            let e = map.entries();
            assert(e.len() > 0);
            lemma_as_map_at::<K, V>(e, 0);
            assert(map@.contains_key(e[0].0));
        },
    }
}

/// The number of entries is the number of keys that the in-order traversal
/// from the root reaches, and the map holds exactly those keys.
pub proof fn lemma_len_counts_keys<K: SortKey, V>(map: &BTreeMap<K, V>)
    requires
        map.wf(),
    ensures
        map.header_view().len == map.entries().len(),
        ascending::<K, V>(map.entries()),
        forall|i: int, j: int|
            0 <= i < j < map.entries().len() ==> K::precedes(
                #[trigger] map.entries()[i].0,
                #[trigger] map.entries()[j].0,
            ),
        forall|i: int|
            0 <= i < map.entries().len() ==> map@.contains_key((#[trigger] map.entries()[i]).0) && map@[map.entries()[i].0]
                == map.entries()[i].1,
        forall|k: K::V|
            map@.contains_key(k) ==> exists|i: int|
                0 <= i < map.entries().len() && (#[trigger] map.entries()[i]).0 == k,
{
    let e = map.entries();
    match map.header.root {
        None => {},
        Some(r) => {},
    }
    assert forall|i: int| 0 <= i < e.len() implies map@.contains_key((#[trigger] e[i]).0) && map@[e[i].0]
        == e[i].1 by {
        lemma_as_map_at::<K, V>(e, i);
    }
}

/// The nodes in use are exactly the nodes of one tree below the root, each
/// reached once: every handle reachable from the root names a node in use,
/// every node in use is reached, none twice, and every node lies below
/// the chunk's extent.
pub proof fn lemma_nodes_form_tree<K: SortKey, V>(map: &BTreeMap<K, V>)
    requires
        map.wf(),
    ensures
        forall|h: u32| #[trigger] map.arena().contains_key(h) ==> h < map.extent_view(),
        match map.header_view().root {
            None => map.entries().len() == 0 && forall|h: u32| !#[trigger] map.arena().contains_key(h),
            Some(r) => {
                &&& shaped(map.arena(), r, map.height(), 1)
                &&& distinct(bag(map.arena(), r, map.height()))
                &&& forall|h: u32| #[trigger]
                    map.arena().contains_key(h) <==> bag(map.arena(), r, map.height()).count(h) > 0
                &&& map.header_view().node_count == bag(map.arena(), r, map.height()).len()
                &&& map.entries() == flat(map.arena(), r, map.height())
            },
        },
{
}

impl<K: SortKey, V: Clone> BTreeMap<K, V> {
    /// The slot `at` holds an entry of the map.
    pub open spec fn holds(&self, at: KVHandle) -> bool {
        &&& self.arena().contains_key(at@.0)
        &&& at@.1 < self.arena()[at@.0].keys@.len()
        &&& self.arena()[at@.0].keys@.len() == self.arena()[at@.0].vals@.len()
    }

    /// The view of the key in slot `at`.
    pub open spec fn key_at(&self, at: KVHandle) -> K::V {
        self.arena()[at@.0].keys@[at@.1 as int]@
    }

    /// The value in slot `at`.
    pub open spec fn value_at(&self, at: KVHandle) -> V {
        self.arena()[at@.0].vals@[at@.1 as int]
    }

    /// The value in slot `at`, without a search.
    pub fn value_ref(&self, at: KVHandle) -> (r: &V)
        requires
            self.holds(at),
        ensures
            *r == self.value_at(at),
    {
        &self.node_ref(at.node()).vals[at.idx() as usize]
    }

    /// The key in slot `at`, without a search.
    pub fn key_ref(&self, at: KVHandle) -> (r: &K)
        requires
            self.holds(at),
        ensures
            r@ == self.key_at(at),
    {
        &self.node_ref(at.node()).keys[at.idx() as usize]
    }

    /// Puts `val` under `key` at the slot `at` where a search for the key
    /// ended: a leaf that has room. Nothing is searched and no node is
    /// split; the entry is at `at` afterwards.
    pub fn insert_at(&mut self, at: KVHandle, key: K, val: V)
        requires
            old(self).wf(),
            old(self).header_view().root is Some,
            search_answer(old(self), key@, SearchResult::NotFound(at)),
            search_path(old(self), key@) == SearchResult::NotFound(at),
            old(self).arena()[at@.0].keys@.len() < CAPACITY,
            old(self).entries().len() < MAX_ENTRIES,
        ensures
            final(self).wf(),
            !old(self)@.contains_key(key@),
            final(self)@ == old(self)@.insert(key@, val),
            final(self).entries().len() == old(self).entries().len() + 1,
            final(self).holds(at),
            final(self).key_at(at) == key@,
            final(self).value_at(at) == val,
            old(self).untouched(final(self)),
    {
        let ghost a0 = self.arena();
        let ghost e0 = self.entries();
        let ghost kview = key@;
        let h = at.node();
        let p = at.idx() as usize;
        let mut n = self.swap_out(h);
        let ghost n0 = n;
        n.keys.insert(p, key);
        n.vals.insert(p, val);
        proof {
            assert(n.pairs() =~= n0.pairs().insert(p as int, (kview, val)));
        }
        self.store(h, n);
        self.header.len = self.header.len + 1;
        proof {
            let a1 = self.arena();
            assert(a1.dom() =~= a0.dom());
            match old(self).header.root {
                None => {},
                Some(root) => {
                    let t = old(self).height@;
                    let i = lemma_insert_deep(a0, a1, root, t, 1, kview, h, p as int);
                    lemma_insert_fits::<K, V>(e0, i, kview, val);
                    lemma_fits_lacks::<K, V>(e0, i, kview);
                },
            }
        }
    }

    /// Writes every node that changed since the last flush to the backing
    /// store, one write each; the map itself is as before.
    pub fn flush(&mut self)
        requires
            old(self).wf(),
        ensures
            final(self).wf(),
            final(self)@ == old(self)@,
            final(self).entries() == old(self).entries(),
            final(self).arena() == old(self).arena(),
            final(self).header_view() == old(self).header_view(),
            final(self).chunk().backend().reads() == old(self).chunk().backend().reads(),
            final(self).chunk().backend().writes() == crate::backend::bump_by(
                old(self).chunk().backend().writes(),
                old(self).chunk().pending(),
            ),
            final(self).chunk().pending() == 0,
            old(self).chunk().after_flush(&final(self).chunk()),
            forall|a: u64|
                #[trigger] crate::chunk::written_back(
                    old(self).chunk().backend()@,
                    final(self).chunk().backend()@,
                    old(self).chunk().touched(),
                    old(self).chunk().touched().len() as int,
                    old(self).chunk().base(),
                    a,
                ),
    {
        self.nodes.flush();
        proof {
            assert(self.arena() =~= old(self).arena());
        }
    }

    /// The address of the node that `handle` names in the backing store.
    pub fn address_of(&self, handle: &NodeHandle) -> (a: u64)
        ensures
            a == crate::chunk::slot_address(self.chunk().base(), handle@),
    {
        self.nodes.address_of(handle.index())
    }

    /// Total number of reads of the backing store.
    pub fn total_reads(&self) -> (n: u64)
        ensures
            n == self.chunk().backend().reads(),
    {
        self.nodes.total_reads()
    }

    /// Total number of writes to the backing store.
    pub fn total_writes(&self) -> (n: u64)
        ensures
            n == self.chunk().backend().writes(),
    {
        self.nodes.total_writes()
    }

    /// The value of `key`, for change in place, if the map holds the key:
    /// afterwards the map holds what was written under the key.
    pub fn get_mut(&mut self, key: &K) -> (r: Option<&mut V>)
        requires
            old(self).wf(),
        ensures
            match r {
                Some(v) => {
                    &&& old(self)@.contains_key(key@)
                    &&& *v == old(self)@[key@]
                    &&& final(self).wf()
                    &&& final(self)@ == old(self)@.insert(key@, *final(v))
                    &&& final(self).entries().len() == old(self).entries().len()
                },
                None => !old(self)@.contains_key(key@) && *final(self) == *old(self),
            },
    {
        match search_tree(self, key) {
            SearchResult::Found(at) => Some(self.value_mut(at)),
            SearchResult::NotFound(_) => None,
        }
    }

    /// `after` is `self` with the record `n` at `h` and nothing else changed.
    pub closed spec fn with_node(&self, after: &Self, h: u32, n: Node<K, V>) -> bool {
        &&& after.header == self.header
        &&& after.free == self.free
        &&& after.extent == self.extent
        &&& after.height == self.height
        &&& after.nodes.wf()
        &&& self.nodes.same_but(&after.nodes, h)
        &&& after.nodes.slot(h) == Cell::Dirty(Some(n))
        &&& after.nodes.backend().reads() == self.nodes.backend().reads()
    }

    /// The value in slot `at`, for change in place, without a search.
    /// Whatever is written there, the map stays well formed: it maps the
    /// key of the slot to the new value and is otherwise as before.
    pub fn value_mut(&mut self, at: KVHandle) -> (r: &mut V)
        requires
            old(self).wf(),
            old(self).holds(at),
        ensures
            *r == old(self).value_at(at),
            final(self).wf(),
            final(self).holds(at),
            final(self).key_at(at) == old(self).key_at(at),
            final(self).value_at(at) == *final(r),
            final(self)@ == old(self)@.insert(old(self).key_at(at), *final(r)),
            final(self).entries().len() == old(self).entries().len(),
            old(self).untouched(final(self)),
    {
        let ghost a0 = self.arena();
        let h = at.node();
        let p = at.idx() as usize;
        let node = match self.nodes.get_mut(h) {
            Some(node) => node,
            None => {
                proof {
                    assert(false);
                }
                vstd::pervasive::unreached()
            },
        };
        let ghost n0 = *node;
        let r = &mut node.vals[p];
        proof {
            let v = *final(r);
            assert forall|after: Self|
                #![trigger after.wf()]
                changed_value(old(self), &after, h, n0, p as int, v) implies after.wf()
                && after.holds(at) && after.key_at(at) == old(self).key_at(at)
                && after.value_at(at) == v
                && after@ == old(self)@.insert(old(self).key_at(at), v)
                && after.entries().len() == old(self).entries().len()
                && old(self).untouched(&after) by {
                lemma_with_value(old(self), &after, h, after.arena()[h], p as int, v);
            }
        }
        r
    }
}

/// `after` is `before` with the value `v` in place of value `p` of the
/// record `n0` at `h`, and nothing else changed.
spec fn changed_value<K: SortKey, V: Clone>(
    before: &BTreeMap<K, V>,
    after: &BTreeMap<K, V>,
    h: u32,
    n0: Node<K, V>,
    p: int,
    v: V,
) -> bool {
    let n1 = after.nodes.slot(h).value()->Some_0;
    &&& n1.keys == n0.keys
    &&& n1.edges == n0.edges
    &&& n1.vals@ == n0.vals@.update(p, v)
    &&& before.with_node(after, h, n1)
}

/// A map with the value of one entry replaced is well formed, maps the
/// entry's key to the new value, and is otherwise as before.
proof fn lemma_with_value<K: SortKey, V: Clone>(
    before: &BTreeMap<K, V>,
    after: &BTreeMap<K, V>,
    h: u32,
    n1: Node<K, V>,
    p: int,
    v: V,
)
    requires
        before.wf(),
        before.arena().contains_key(h),
        0 <= p < before.arena()[h].keys@.len(),
        before.arena()[h].keys@.len() == before.arena()[h].vals@.len(),
        n1.keys == before.arena()[h].keys,
        n1.edges == before.arena()[h].edges,
        n1.vals@ == before.arena()[h].vals@.update(p, v),
        before.with_node(after, h, n1),
    ensures
        after.wf(),
        after.arena() == before.arena().insert(h, n1),
        after@ == before@.insert(before.arena()[h].keys@[p]@, v),
        after.entries().len() == before.entries().len(),
        before.untouched(after),
{
    let a0 = before.arena();
    let a1 = after.arena();
    let n0 = a0[h];
    let e0 = before.entries();
    assert(a1 =~= a0.insert(h, n1));
    assert(a1.dom() =~= a0.dom());
    assert(n1.pairs() =~= n0.pairs().update(p, (n0.keys@[p]@, v)));
    match before.header.root {
        None => {
            assert(false);
        },
        Some(root) => {
            let t = before.height@;
            let i = lemma_value_deep(a0, a1, root, t, 1, h, p);
            lemma_update_value::<K, V>(e0, i, v);
        },
    }
}

} // verus!
