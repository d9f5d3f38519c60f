//! The search for a key: the scan within one node, from the root down.

use crate::btree::{BTreeMap, lemma_len_counts_keys, lemma_nodes_form_tree};
use crate::node::{
    CAPACITY, HandleType, KVHandle, MIN_FILL, Node, scan_answer, scan_stop, search_node,
    search_outcome, SearchResult,
};
use crate::order::SortKey;
use crate::seqs::{ascending, fits_at, lacks, lemma_as_map_at, lemma_fits_lacks};
use crate::tree::{
    after_kid, before_kid, flat, lemma_around_kid, lemma_descend, lemma_shaped_weaken, shaped,
};
use vstd::prelude::*;

verus! {

/// What a search of `tree` for `key` answers.
///
/// `Found` names the slot that holds the key, and the map holds the value
/// in that slot. `NotFound` says that the map lacks the key, and names the
/// slot where it belongs: slot 0 of node 0 in a map without a root, else the
/// leaf and the position in it that the descent from the root ends at.
pub open spec fn search_answer<K: SortKey, V>(tree: &BTreeMap<K, V>, key: K::V, result: SearchResult) -> bool {
    match result {
        SearchResult::Found(kv) => {
            let n = tree.arena()[kv@.0];
            &&& tree.arena().contains_key(kv@.0)
            &&& kv@.1 < n.keys@.len() == n.vals@.len()
            &&& n.keys@[kv@.1 as int]@ == key
            &&& tree@.contains_key(key)
            &&& tree@[key] == n.vals@[kv@.1 as int]
        },
        SearchResult::NotFound(kv) => {
            &&& !tree@.contains_key(key)
            &&& match tree.header_view().root {
                None => kv@ == (0u32, 0u32),
                Some(_) => {
                    &&& tree.arena().contains_key(kv@.0)
                    &&& tree.arena()[kv@.0].edges@.len() == 0
                    &&& tree.arena()[kv@.0].keys@.len() == tree.arena()[kv@.0].vals@.len()
                    &&& search_outcome::<K>(tree.arena()[kv@.0].keys@, kv@.0, key, result)
                },
            }
        },
    }
}

/// What the descent from the node at `h` answers for `key`: the answer of
/// the scan of the node's keys where that finds the key or the node is a
/// leaf, else the answer of the descent from the child at the position
/// where the scan stops.
pub open spec fn descent<K: SortKey, V>(nodes: Map<u32, Node<K, V>>, h: u32, t: nat, key: K::V) -> SearchResult
    decreases t,
{
    let here = scan_answer::<K>(nodes[h].keys@, h, key);
    if t == 0 || here is Found {
        here
    } else {
        descent(nodes, nodes[h].edges@[scan_stop::<K>(nodes[h].keys@, key) as int], (t - 1) as nat, key)
    }
}

/// What a search of `tree` for `key` answers: slot 0 of node 0 where the
/// tree has no root, else what the descent from the root answers.
pub open spec fn search_path<K: SortKey, V>(tree: &BTreeMap<K, V>, key: K::V) -> SearchResult {
    match tree.header_view().root {
        None => SearchResult::NotFound(KVHandle { node: 0, idx: 0 }),
        Some(r) => descent(tree.arena(), r, tree.height(), key),
    }
}

/// The positions at which a descent that finds nothing leaves the
/// internal nodes on its way, from the node at `h` down to the leaf.
pub open spec fn route<K: SortKey, V>(nodes: Map<u32, Node<K, V>>, h: u32, t: nat, key: K::V) -> Seq<u32>
    decreases t,
{
    if t == 0 || scan_answer::<K>(nodes[h].keys@, h, key) is Found {
        Seq::empty()
    } else {
        let p = scan_stop::<K>(nodes[h].keys@, key);
        seq![p as u32] + route(nodes, nodes[h].edges@[p as int], (t - 1) as nat, key)
    }
}

/// The route of a search of `tree` for `key`, from the root.
pub open spec fn search_route<K: SortKey, V>(tree: &BTreeMap<K, V>, key: K::V) -> Seq<u32> {
    match tree.header_view().root {
        None => Seq::empty(),
        Some(r) => route(tree.arena(), r, tree.height(), key),
    }
}

/// The entries of the subtree at `cur` are the window of `all` that starts
/// at `off`, and `key` lies neither before nor after that window.
pub open spec fn window<K: SortKey, V>(
    all: Seq<(K::V, V)>,
    part: Seq<(K::V, V)>,
    off: int,
    key: K::V,
) -> bool {
    &&& 0 <= off
    &&& off + part.len() <= all.len()
    &&& all.subrange(off, off + part.len()) == part
    &&& forall|i: int| 0 <= i < off ==> K::precedes((#[trigger] all[i]).0, key)
    &&& forall|i: int| off + part.len() <= i < all.len() ==> K::precedes(key, (#[trigger] all[i]).0)
}

/// A window on a node narrows to a window on the child that the key's place among the node's keys points to.
pub proof fn lemma_window_down<K: SortKey, V>(
    nodes: Map<u32, Node<K, V>>,
    h: u32,
    t: nat,
    p: int,
    key: K::V,
    all: Seq<(K::V, V)>,
    off: int,
)
    requires
        t > 0,
        nodes[h].edges@.len() == nodes[h].keys@.len() + 1,
        nodes[h].keys@.len() == nodes[h].vals@.len(),
        0 <= p <= nodes[h].keys@.len(),
        ascending::<K, V>(flat(nodes, h, t)),
        p > 0 ==> K::precedes(nodes[h].keys@[p - 1]@, key),
        p < nodes[h].keys@.len() ==> K::precedes(key, nodes[h].keys@[p]@),
        window::<K, V>(all, flat(nodes, h, t), off, key),
    ensures
        ascending::<K, V>(flat(nodes, nodes[h].edges@[p], (t - 1) as nat)),
        window::<K, V>(
            all,
            flat(nodes, nodes[h].edges@[p], (t - 1) as nat),
            off + before_kid(nodes, nodes[h], t, p).len(),
            key,
        ),
{
    let f = before_kid(nodes, nodes[h], t, p);
    let k = flat(nodes, nodes[h].edges@[p], (t - 1) as nat);
    let b = after_kid(nodes, nodes[h], t, p);
    let whole = flat(nodes, h, t);
    lemma_around_kid(nodes, nodes[h], t, p);
    lemma_descend(nodes, nodes[h], t, p, key);
    let off2 = off + f.len();
    assert(whole == f + k + b);
    assert(all.subrange(off2, off2 + k.len()) =~= k) by {
        assert forall|i: int| 0 <= i < k.len() implies all.subrange(off2, off2 + k.len())[i] == k[i] by {
            assert(all.subrange(off, off + whole.len())[f.len() + i] == whole[f.len() + i]);
        }
    }
    assert forall|i: int| 0 <= i < off2 implies K::precedes((#[trigger] all[i]).0, key) by {
        if i >= off {
            assert(all.subrange(off, off + whole.len())[i - off] == whole[i - off]);
            assert(whole[i - off] == f[i - off]);
        }
    }
    assert forall|i: int| off2 + k.len() <= i < all.len() implies K::precedes(
        key,
        (#[trigger] all[i]).0,
    ) by {
        if i < off + whole.len() {
            assert(all.subrange(off, off + whole.len())[i - off] == whole[i - off]);
            assert(whole[i - off] == b[i - off - f.len() - k.len()]);
        }
    }
}

/// The slot of a key found in a node is an entry of the window on that node.
pub proof fn lemma_window_found<K: SortKey, V>(
    nodes: Map<u32, Node<K, V>>,
    h: u32,
    t: nat,
    p: int,
    all: Seq<(K::V, V)>,
    off: int,
    key: K::V,
) -> (at: int)
    requires
        nodes[h].fits(t == 0, 0, CAPACITY as nat),
        0 <= p < nodes[h].keys@.len(),
        window::<K, V>(all, flat(nodes, h, t), off, key),
    ensures
        0 <= at < all.len(),
        all[at] == (nodes[h].keys@[p]@, nodes[h].vals@[p]),
{
    let whole = flat(nodes, h, t);
    let pos = if t == 0 {
        p
    } else {
        lemma_around_kid(nodes, nodes[h], t, p);
        (before_kid(nodes, nodes[h], t, p).len() + flat(nodes, nodes[h].edges@[p], (t - 1) as nat).len()) as int
    };
    assert(whole[pos] == nodes[h].pairs()[p]);
    assert(all.subrange(off, off + whole.len())[pos] == whole[pos]);
    off + pos
}

/// A key that a leaf lacks, at the place where it belongs among the leaf's keys, fits into the whole at that place.
pub proof fn lemma_window_leaf<K: SortKey, V>(
    nodes: Map<u32, Node<K, V>>,
    h: u32,
    p: int,
    all: Seq<(K::V, V)>,
    off: int,
    key: K::V,
)
    requires
        nodes[h].fits(true, 0, CAPACITY as nat),
        0 <= p <= nodes[h].keys@.len(),
        ascending::<K, V>(flat(nodes, h, 0)),
        forall|i: int| 0 <= i < p ==> K::precedes(#[trigger] nodes[h].keys@[i]@, key),
        p < nodes[h].keys@.len() ==> K::precedes(key, nodes[h].keys@[p]@),
        window::<K, V>(all, flat(nodes, h, 0), off, key),
    ensures
        fits_at::<K, V>(all, off + p, key),
        fits_at::<K, V>(flat(nodes, h, 0), p, key),
{
    let whole = flat(nodes, h, 0);
    assert forall|i: int| p <= i < whole.len() implies K::precedes(key, (#[trigger] whole[i]).0) by {
        if i > p {
            K::precedes_transitive(key, whole[p].0, whole[i].0);
        }
    }
    assert forall|i: int| 0 <= i < p implies K::precedes((#[trigger] whole[i]).0, key) by {
        assert(whole[i].0 == nodes[h].keys@[i]@);
    }
    assert forall|i: int| 0 <= i < off + p implies K::precedes((#[trigger] all[i]).0, key) by {
        if i >= off {
            assert(all.subrange(off, off + whole.len())[i - off] == whole[i - off]);
        }
    }
    assert forall|i: int| off + p <= i < all.len() implies K::precedes(key, (#[trigger] all[i]).0) by {
        if i < off + whole.len() {
            assert(all.subrange(off, off + whole.len())[i - off] == whole[i - off]);
        }
    }
}

/// Searches the tree for `key`, from the root down: at each node the scan
/// of its keys either finds the key or names the child to go on with.
pub fn search_tree<K: SortKey, V>(tree: &BTreeMap<K, V>, key: &K) -> (result: SearchResult)
    requires
        tree.wf(),
    ensures
        search_answer(tree, key@, result),
        result == search_path(tree, key@),
{
    let mut unused: Vec<u32> = Vec::new();
    walk(tree, key, &mut unused, false)
}

/// Searches the tree for `key` as `search_tree` does, and hands out with
/// the result the route of the search: the position at which it left
/// each internal node on the way to the leaf where it found nothing.
pub fn search_with_route<K: SortKey, V>(tree: &BTreeMap<K, V>, key: &K) -> (r: (SearchResult, Vec<u32>))
    requires
        tree.wf(),
    ensures
        search_answer(tree, key@, r.0),
        r.0 == search_path(tree, key@),
        r.0 is NotFound ==> r.1@ == search_route(tree, key@),
{
    let mut way: Vec<u32> = Vec::new();
    let result = walk(tree, key, &mut way, true);
    (result, way)
}

/// The search itself; it notes the route in `way` where `noting` says so.
fn walk<K: SortKey, V>(tree: &BTreeMap<K, V>, key: &K, way: &mut Vec<u32>, noting: bool) -> (result:
    SearchResult)
    requires
        tree.wf(),
        old(way)@.len() == 0,
    ensures
        search_answer(tree, key@, result),
        result == search_path(tree, key@),
        noting && result is NotFound ==> final(way)@ == search_route(tree, key@),
{
    proof {
        lemma_nodes_form_tree(tree);
        lemma_len_counts_keys(tree);
    }
    let root = match tree.header().root {
        None => {
            return SearchResult::NotFound(KVHandle::new(0, 0));
        },
        Some(r) => r,
    };
    proof {
        lemma_shaped_weaken(tree.arena(), root, tree.height(), 1, 0);
        assert(way@ + route(tree.arena(), root, tree.height(), key@) =~= route(
            tree.arena(),
            root,
            tree.height(),
            key@,
        ));
    }
    let mut cur = root;
    let ghost mut t = tree.height();
    let ghost mut off = 0int;
    let ghost all = tree.entries();
    proof {
        assert(all.subrange(0, all.len() as int) =~= all);
    }
    loop
        invariant
            tree.wf(),
            tree.header_view().root is Some,
            all == tree.entries(),
            ascending::<K, V>(all),
            shaped(tree.arena(), cur, t, 0),
            ascending::<K, V>(flat(tree.arena(), cur, t)),
            window::<K, V>(all, flat(tree.arena(), cur, t), off, key@),
            search_path(tree, key@) == descent(tree.arena(), cur, t, key@),
            noting && search_path(tree, key@) is NotFound ==> search_route(tree, key@) == way@ + route(
                tree.arena(),
                cur,
                t,
                key@,
            ),
        decreases t,
    {
        let node = tree.node_ref(cur);
        let found = search_node(node, cur, key);
        match found {
            SearchResult::Found(kv) => {
                proof {
                    let at = lemma_window_found(tree.arena(), cur, t, kv@.1 as int, all, off, key@);
                    lemma_as_map_at::<K, V>(all, at);
                }
                return found;
            },
            SearchResult::NotFound(kv) => {
                match node.kind() {
                    HandleType::Leaf => {
                        proof {
                            lemma_window_leaf(tree.arena(), cur, kv@.1 as int, all, off, key@);
                            lemma_fits_lacks::<K, V>(all, off + kv@.1, key@);
                            assert(way@ + Seq::<u32>::empty() =~= way@);
                        }
                        return found;
                    },
                    HandleType::Internal => {
                        proof {
                            crate::node::lemma_gap_scan(node.keys@, key@, kv@.1 as int);
                            assert(shaped(
                                tree.arena(),
                                tree.arena()[cur].edges@[kv@.1 as int],
                                (t - 1) as nat,
                                MIN_FILL as nat,
                            ));
                            lemma_shaped_weaken(
                                tree.arena(),
                                node.edges@[kv@.1 as int],
                                (t - 1) as nat,
                                MIN_FILL as nat,
                                0,
                            );
                            lemma_window_down(tree.arena(), cur, t, kv@.1 as int, key@, all, off);
                            off = off + before_kid(tree.arena(), tree.arena()[cur], t, kv@.1 as int).len();
                            let rest = route(tree.arena(), node.edges@[kv@.1 as int], (t - 1) as nat, key@);
                            assert(way@ + (seq![kv@.1] + rest) =~= way@.push(kv@.1) + rest);
                            t = (t - 1) as nat;
                        }
                        if noting {
                            way.push(kv.idx());
                        }
                        cur = node.edges[kv.idx() as usize];
                    },
                }
            },
        }
    }
}

} // verus!
