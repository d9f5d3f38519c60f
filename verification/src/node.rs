//! Nodes of the tree, the handles that name them, and the search within one node.

use crate::order::{Side, SortKey};
use vstd::prelude::*;

verus! {

/// Most keys that a node holds.
pub const CAPACITY: usize = 11;

/// Fewest keys that a node other than the root holds.
pub const MIN_FILL: usize = 5;

/// Stable integer name of a node: an index into the chunk of nodes.
#[derive(Clone, Copy, Debug, PartialEq, Eq, Structural)]
pub struct NodeHandle {
    index: u32,
}

impl NodeHandle {
    /// The index this handle stands for.
    pub closed spec fn view(&self) -> u32 {
        self.index
    }

    /// The handle of the node at `index`.
    pub fn new(index: u32) -> (h: Self)
        ensures
            h@ == index,
    {
        NodeHandle { index }
    }

    /// The index of the node.
    pub fn index(&self) -> (i: u32)
        ensures
            i == self@,
    {
        self.index
    }
}

/// A key, value or edge slot inside a node: the node and the position in it.
#[derive(Clone, Copy, Debug, PartialEq, Eq, Structural)]
pub struct KVHandle {
    /// The node.
    pub node: u32,
    /// The position in the node.
    pub idx: u32,
}

impl KVHandle {
    /// The node and the position, as a pair.
    pub open spec fn view(&self) -> (u32, u32) {
        (self.node, self.idx)
    }

    /// The slot at position `idx` of node `node`.
    pub fn new(node: u32, idx: u32) -> (h: Self)
        ensures
            h@ == (node, idx),
    {
        KVHandle { node, idx }
    }

    /// The node of the slot.
    pub fn node(&self) -> (n: u32)
        ensures
            n == self@.0,
    {
        self.node
    }

    /// The position of the slot in its node.
    pub fn idx(&self) -> (i: u32)
        ensures
            i == self@.1,
    {
        self.idx
    }
}

/// Whether a node has children.
#[derive(Clone, Copy, Debug, PartialEq, Eq, Structural)]
pub enum HandleType {
    /// No children.
    Leaf,
    /// One child more than keys.
    Internal,
}

/// A record of ascending keys with their values and, in an internal node,
/// the edges to the children between and around them.
///
/// Key slot `i` is `Some` for `i < len` and `None` from there to the capacity.
#[derive(Clone, Debug)]
pub struct Node<K, V> {
    /// The keys in use, ascending.
    pub keys: Vec<K>,
    /// The value of each key, at the key's position.
    pub vals: Vec<V>,
    /// The children; empty in a leaf.
    pub edges: Vec<u32>,
}

impl<K: View, V> Node<K, V> {
    /// The entries of the node itself, in order, each key by its view.
    pub open spec fn pairs(&self) -> Seq<(K::V, V)> {
        Seq::new(self.keys@.len(), |i: int| (self.keys@[i]@, self.vals@[i]))
    }
}

impl<K, V> Node<K, V> {
    /// The node holds between `min` and `max` keys, a value for each, and
    /// edges as its kind demands.
    pub open spec fn fits(&self, leaf: bool, min: nat, max: nat) -> bool {
        &&& self.keys@.len() == self.vals@.len()
        &&& min <= self.keys@.len() <= max
        &&& self.edges@.len() == if leaf {
            0
        } else {
            self.keys@.len() + 1
        }
    }

    /// Key slot `i`: the key at `i` while `i` is below the number of keys.
    pub open spec fn key_slot(&self, i: int) -> Option<K> {
        if 0 <= i < self.keys@.len() {
            Some(self.keys@[i])
        } else {
            None
        }
    }

    /// Edge slot `i`: the child at `i` while there is one.
    pub open spec fn edge_slot(&self, i: int) -> Option<u32> {
        if 0 <= i < self.edges@.len() {
            Some(self.edges@[i])
        } else {
            None
        }
    }

    /// A node without keys.
    pub fn new() -> (n: Self)
        ensures
            n.keys@.len() == 0,
            n.vals@.len() == 0,
            n.edges@.len() == 0,
    {
        Node { keys: Vec::new(), vals: Vec::new(), edges: Vec::new() }
    }

    /// Number of keys in use.
    pub fn len(&self) -> (n: usize)
        ensures
            n == self.keys@.len(),
    {
        self.keys.len()
    }

    /// The kind of the node: a leaf exactly when it has no edges.
    pub fn kind(&self) -> (k: HandleType)
        ensures
            k == if self.edges@.len() == 0 {
                HandleType::Leaf
            } else {
                HandleType::Internal
            },
    {
        if self.edges.len() == 0 {
            HandleType::Leaf
        } else {
            HandleType::Internal
        }
    }
}

/// Result of a search.
#[derive(Clone, Copy, Debug, PartialEq, Eq, Structural)]
pub enum SearchResult {
    /// The key is at this slot.
    Found(KVHandle),
    /// The key is absent; this is the slot where it belongs.
    NotFound(KVHandle),
}

/// What `search_node` answers for `key` in a node with the keys `keys`:
/// the first position whose key does not come before `key`, found if that key is `key`.
pub open spec fn search_outcome<K: SortKey>(
    keys: Seq<K>,
    node_index: u32,
    key: K::V,
    result: SearchResult,
) -> bool {
    let at = match result {
        SearchResult::Found(h) => h@,
        SearchResult::NotFound(h) => h@,
    };
    &&& at.0 == node_index
    &&& at.1 <= keys.len()
    &&& forall|i: int| 0 <= i < at.1 ==> K::precedes(#[trigger] keys[i]@, key)
    &&& match result {
        SearchResult::Found(_) => at.1 < keys.len() && keys[at.1 as int]@ == key,
        SearchResult::NotFound(_) => at.1 < keys.len() ==> K::precedes(key, keys[at.1 as int]@),
    }
}

/// The number of keys at the front of `keys` that come before `key`: the
/// position that an ascending scan for `key` stops at.
pub open spec fn scan_stop<K: SortKey>(keys: Seq<K>, key: K::V) -> nat
    decreases keys.len(),
{
    if keys.len() > 0 && K::precedes(keys[0]@, key) {
        1 + scan_stop(keys.skip(1), key)
    } else {
        0
    }
}

/// Where the scan stops: every key before that position comes before
/// `key`, and the key at it, if there is one, does not.
pub proof fn lemma_scan_gap<K: SortKey>(keys: Seq<K>, key: K::V)
    ensures
        scan_stop::<K>(keys, key) <= keys.len(),
        forall|i: int| 0 <= i < scan_stop::<K>(keys, key) ==> K::precedes(#[trigger] keys[i]@, key),
        scan_stop::<K>(keys, key) < keys.len() ==> !K::precedes(
            keys[scan_stop::<K>(keys, key) as int]@,
            key,
        ),
    decreases keys.len(),
{
    if keys.len() > 0 && K::precedes(keys[0]@, key) {
        let rest = keys.skip(1);
        lemma_scan_gap::<K>(rest, key);
        let p = scan_stop::<K>(rest, key);
        assert forall|i: int| 0 <= i < p + 1 implies K::precedes(#[trigger] keys[i]@, key) by {
            if i > 0 {
                assert(rest[i - 1] == keys[i]);
            }
        }
        if p < rest.len() {
            assert(rest[p as int] == keys[p as int + 1]);
        }
    }
}

/// Where a scan for `key` finds nothing, `key` belongs at the position where it stops.
pub proof fn lemma_scan_misses<K: SortKey>(keys: Seq<K>, node_index: u32, key: K::V)
    requires
        scan_answer::<K>(keys, node_index, key) is NotFound,
    ensures
        key_gap::<K>(keys, key, scan_stop::<K>(keys, key) as int),
{
    lemma_scan_gap::<K>(keys, key);
    let p = scan_stop::<K>(keys, key) as int;
    if p < keys.len() {
        K::precedes_total(keys[p]@, key);
    }
}

/// What a scan of `keys` for `key` answers: found where it stops at `key`
/// itself, else not found, with the position where it stops either way.
pub open spec fn scan_answer<K: SortKey>(keys: Seq<K>, node_index: u32, key: K::V) -> SearchResult {
    let p = scan_stop(keys, key);
    if p < keys.len() && keys[p as int]@ == key {
        SearchResult::Found(KVHandle { node: node_index, idx: p as u32 })
    } else {
        SearchResult::NotFound(KVHandle { node: node_index, idx: p as u32 })
    }
}

/// The scan stops at the one position that has only smaller keys before
/// it and no smaller key at it.
pub proof fn lemma_scan_stop<K: SortKey>(keys: Seq<K>, key: K::V, p: int)
    requires
        0 <= p <= keys.len(),
        forall|i: int| 0 <= i < p ==> K::precedes(#[trigger] keys[i]@, key),
        p < keys.len() ==> !K::precedes(keys[p]@, key),
    ensures
        scan_stop(keys, key) == p,
    decreases keys.len(),
{
    if p > 0 {
        assert(K::precedes(keys[0]@, key));
        let rest = keys.skip(1);
        assert forall|i: int| 0 <= i < p - 1 implies K::precedes(#[trigger] rest[i]@, key) by {
            assert(rest[i] == keys[i + 1]);
        }
        lemma_scan_stop(rest, key, p - 1);
    }
}

/// `key` is none of `keys` and belongs at position `p` among them: every
/// key before `p` comes before it, and the key at `p`, if there is one, after it.
pub open spec fn key_gap<K: SortKey>(keys: Seq<K>, key: K::V, p: int) -> bool {
    &&& 0 <= p <= keys.len()
    &&& forall|i: int| 0 <= i < p ==> K::precedes(#[trigger] keys[i]@, key)
    &&& p < keys.len() ==> K::precedes(key, keys[p]@)
}

/// Where `key` belongs at position `p` among `keys`, the scan stops at `p` and finds nothing.
pub proof fn lemma_gap_scan<K: SortKey>(keys: Seq<K>, key: K::V, p: int)
    requires
        key_gap::<K>(keys, key, p),
    ensures
        scan_stop::<K>(keys, key) == p,
        p < keys.len() ==> keys[p]@ != key,
{
    if p < keys.len() {
        if K::precedes(keys[p]@, key) {
            K::precedes_transitive(key, keys[p]@, key);
        }
        K::precedes_irreflexive(key);
    }
    lemma_scan_stop(keys, key, p);
}

/// Scans the keys of `node` in ascending order for `key`.
///
/// Answers `Found` with the position of `key`, or `NotFound` with the
/// position of the first greater key, which is the number of keys where
/// there is none.
pub fn search_node<K: SortKey, V>(node: &Node<K, V>, node_index: u32, key: &K) -> (result:
    SearchResult)
    requires
        node.keys@.len() <= u32::MAX,
    ensures
        search_outcome::<K>(node.keys@, node_index, key@, result),
        result == scan_answer::<K>(node.keys@, node_index, key@),
{
    let n = node.keys.len();
    let mut i: usize = 0;
    while i < n
        invariant
            n == node.keys@.len(),
            n <= u32::MAX,
            i <= n,
            forall|j: int| 0 <= j < i ==> K::precedes(#[trigger] node.keys@[j]@, key@),
        decreases n - i,
    {
        match key.side_of(&node.keys[i]) {
            Side::Above => {},
            Side::Same => {
                proof {
                    K::precedes_irreflexive(key@);
                    lemma_scan_stop(node.keys@, key@, i as int);
                }
                return SearchResult::Found(KVHandle::new(node_index, i as u32));
            },
            Side::Below => {
                proof {
                    if K::precedes(node.keys@[i as int]@, key@) {
                        K::precedes_transitive(key@, node.keys@[i as int]@, key@);
                        K::precedes_irreflexive(key@);
                    }
                    if node.keys@[i as int]@ == key@ {
                        K::precedes_irreflexive(key@);
                    }
                    lemma_scan_stop(node.keys@, key@, i as int);
                }
                return SearchResult::NotFound(KVHandle::new(node_index, i as u32));
            },
        }
        i += 1;
    }
    proof {
        lemma_scan_stop(node.keys@, key@, n as int);
    }
    SearchResult::NotFound(KVHandle::new(node_index, n as u32))
}

} // verus!
