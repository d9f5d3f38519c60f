//! The edges of a tree, listed node by node: no edge occurs twice.

use crate::btree::{lemma_nodes_form_tree, BTreeMap};
use crate::node::{Node, NodeHandle, MIN_FILL};
use crate::order::SortKey;
use crate::seqs::{bag_sum, lemma_bag_sum_at};
use crate::tree::{bag, distinct, kid_bags, shaped};
use itertools::Itertools;
use std::hash::Hash;
use vstd::multiset::Multiset;
use vstd::prelude::*;
use vstd::seq_lib::lemma_multiset_commutative;
use vstd::std_specs::hash::obeys_key_model;

verus! {

broadcast use vstd::std_specs::hash::group_hash_axioms;

/// The edges of the nodes in use below handle `n`, node by node in the order of the handles.
pub open spec fn edges_below<K, V>(nodes: Map<u32, Node<K, V>>, n: nat) -> Seq<u32>
    decreases n,
{
    if n == 0 {
        Seq::empty()
    } else {
        edges_below(nodes, (n - 1) as nat) + if nodes.contains_key((n - 1) as u32) {
            nodes[(n - 1) as u32].edges@
        } else {
            Seq::empty()
        }
    }
}

/// The edges of the nodes below handle `n` that `b` names, as a multiset.
pub open spec fn edges_of<K, V>(nodes: Map<u32, Node<K, V>>, b: Multiset<u32>, n: nat) -> Multiset<u32>
    decreases n,
{
    if n == 0 {
        Multiset::empty()
    } else {
        edges_of(nodes, b, (n - 1) as nat).add(
            if b.count((n - 1) as u32) > 0 {
                nodes[(n - 1) as u32].edges@.to_multiset()
            } else {
                Multiset::empty()
            },
        )
    }
}

/// A sequence without items has no items as a multiset either.
proof fn lemma_no_items()
    ensures
        Seq::<u32>::empty().to_multiset() =~= Multiset::empty(),
{
    Seq::<u32>::empty().to_multiset_ensures();
    vstd::multiset::lemma_multiset_empty_len(Seq::<u32>::empty().to_multiset());
}

/// The edges of the nodes that two bags name are those of the one and those of the other, where no node is in both.
proof fn lemma_edges_of_add<K, V>(nodes: Map<u32, Node<K, V>>, a: Multiset<u32>, b: Multiset<u32>, n: nat)
    requires
        distinct(a.add(b)),
    ensures
        edges_of(nodes, a.add(b), n) =~= edges_of(nodes, a, n).add(edges_of(nodes, b, n)),
    decreases n,
{
    if n > 0 {
        lemma_edges_of_add(nodes, a, b, (n - 1) as nat);
        let x = (n - 1) as u32;
        assert(a.add(b).count(x) <= 1);
    }
}

/// The edges of the one node that a bag of one handle names.
proof fn lemma_edges_of_one<K, V>(nodes: Map<u32, Node<K, V>>, h: u32, n: nat)
    requires
        n <= u32::MAX,
    ensures
        edges_of(nodes, Multiset::singleton(h), n) =~= if h < n {
            nodes[h].edges@.to_multiset()
        } else {
            Multiset::empty()
        },
    decreases n,
{
    if n > 0 {
        lemma_edges_of_one(nodes, h, (n - 1) as nat);
    }
}

/// Where a bag names exactly the nodes in use, its nodes' edges are all the edges.
proof fn lemma_edges_of_all<K, V>(nodes: Map<u32, Node<K, V>>, b: Multiset<u32>, n: nat)
    requires
        n <= u32::MAX,
        forall|h: u32| #[trigger] nodes.contains_key(h) <==> b.count(h) > 0,
    ensures
        edges_below(nodes, n).to_multiset() =~= edges_of(nodes, b, n),
    decreases n,
{
    if n > 0 {
        lemma_edges_of_all(nodes, b, (n - 1) as nat);
        let x = (n - 1) as u32;
        let own = if nodes.contains_key(x) {
            nodes[x].edges@
        } else {
            Seq::empty()
        };
        lemma_multiset_commutative(edges_below(nodes, (n - 1) as nat), own);
        lemma_no_items();
    } else {
        lemma_no_items();
    }
}

/// The edges of the nodes of the first `j` children's subtrees, with those
/// children's own handles, are the handles of those subtrees.
proof fn lemma_kids_edges<K, V>(nodes: Map<u32, Node<K, V>>, edges: Seq<u32>, s: nat, n: nat, j: int)
    requires
        0 <= j <= edges.len(),
        forall|i: int| 0 <= i < edges.len() ==> shaped(nodes, #[trigger] edges[i], s, MIN_FILL as nat),
        distinct(bag_sum(kid_bags(nodes, edges, s))),
        n <= u32::MAX,
        forall|x: u32| #[trigger] nodes.contains_key(x) ==> x < n,
    ensures
        edges_of(nodes, bag_sum(kid_bags(nodes, edges, s).take(j)), n).add(edges.take(j).to_multiset())
            =~= bag_sum(kid_bags(nodes, edges, s).take(j)),
    decreases s, j,
{
    let kb = kid_bags(nodes, edges, s);
    if j == 0 {
        assert(kb.take(0) =~= Seq::<Multiset<u32>>::empty());
        assert(edges.take(0) =~= Seq::<u32>::empty());
        lemma_no_items();
        lemma_edges_of_none(nodes, n);
    } else {
        let i = j - 1;
        lemma_kids_edges(nodes, edges, s, n, i);
        lemma_bag_sum_at(kb, i);
        assert forall|x: u32| #[trigger] kb[i].count(x) <= 1 by {
            assert(bag_sum(kb).count(x) <= 1);
        }
        lemma_tree_edges(nodes, edges[i], s, MIN_FILL as nat, n);
        assert(kb.take(j).drop_last() =~= kb.take(i));
        assert(kb.take(j).last() == kb[i]);
        let front = bag_sum(kb.take(i));
        assert(kb.take(j) =~= kb.take(i) + seq![kb[i]]);
        assert forall|x: u32| #[trigger] front.add(kb[i]).count(x) <= 1 by {
            assert(bag_sum(kb).count(x) <= 1);
        }
        lemma_edges_of_add(nodes, front, kb[i], n);
        assert(edges.take(j) =~= edges.take(i).push(edges[i]));
        vstd::seq_lib::to_multiset_build(edges.take(i), edges[i]);
    }
}

/// No node's edges are the edges of the nodes that an empty bag names.
proof fn lemma_edges_of_none<K, V>(nodes: Map<u32, Node<K, V>>, n: nat)
    ensures
        edges_of(nodes, Multiset::empty(), n) =~= Multiset::empty(),
    decreases n,
{
    if n > 0 {
        lemma_edges_of_none(nodes, (n - 1) as nat);
    }
}

/// The edges of all nodes of a subtree, with the handle of its top node,
/// are the handles of the subtree: every node but the top one is the
/// target of one edge.
proof fn lemma_tree_edges<K, V>(nodes: Map<u32, Node<K, V>>, h: u32, t: nat, min: nat, n: nat)
    requires
        shaped(nodes, h, t, min),
        distinct(bag(nodes, h, t)),
        n <= u32::MAX,
        forall|x: u32| #[trigger] nodes.contains_key(x) ==> x < n,
    ensures
        edges_of(nodes, bag(nodes, h, t), n).add(Multiset::singleton(h)) =~= bag(nodes, h, t),
    decreases t, 0int,
{
    lemma_edges_of_one(nodes, h, n);
    if t == 0 {
        assert(nodes[h].edges@ =~= Seq::<u32>::empty());
        lemma_no_items();
    } else {
        let s = (t - 1) as nat;
        let edges = nodes[h].edges@;
        let kb = kid_bags(nodes, edges, s);
        assert forall|x: u32| #[trigger] bag_sum(kb).count(x) <= 1 by {
            assert(bag(nodes, h, t).count(x) <= 1);
        }
        lemma_kids_edges(nodes, edges, s, n, edges.len() as int);
        assert(kb.take(edges.len() as int) =~= kb);
        assert(edges.take(edges.len() as int) =~= edges);
        lemma_edges_of_add(nodes, Multiset::singleton(h), bag_sum(kb), n);
    }
}

/// No edge occurs twice among the edges of all nodes in use: each is in
/// one node and at one position of it.
pub proof fn lemma_edges_unique<K: SortKey, V>(map: &BTreeMap<K, V>)
    requires
        map.wf(),
    ensures
        edges_below(map.arena(), map.extent_view() as nat).no_duplicates(),
{
    let nodes = map.arena();
    let n = map.extent_view() as nat;
    let all = edges_below(nodes, n);
    lemma_nodes_form_tree(map);
    match map.header_view().root {
        None => {
            lemma_edges_of_all(nodes, Multiset::empty(), n);
            lemma_edges_of_none(nodes, n);
        },
        Some(r) => {
            let b = bag(nodes, r, map.height());
            lemma_edges_of_all(nodes, b, n);
            lemma_tree_edges(nodes, r, map.height(), 1, n);
            assert forall|x: u32| all.to_multiset().contains(x) implies all.to_multiset().count(x) == 1 by {
                assert(b.count(x) <= 1);
                assert(edges_of(nodes, b, n).add(Multiset::singleton(r)).count(x) == b.count(x));
            }
        },
    }
    all.lemma_multiset_has_no_duplicates_conv();
}

/// The items of `s` in the order of their first occurrence, each once.
pub open spec fn first_seen<T>(s: Seq<T>) -> Seq<T>
    decreases s.len(),
{
    if s.len() == 0 {
        Seq::empty()
    } else if first_seen(s.drop_last()).contains(s.last()) {
        first_seen(s.drop_last())
    } else {
        first_seen(s.drop_last()).push(s.last())
    }
}

/// What `first_seen` keeps: the same items, none twice; it drops nothing exactly if no item occurs twice.
pub proof fn lemma_first_seen<T>(s: Seq<T>)
    ensures
        first_seen(s).no_duplicates(),
        forall|x: T| #[trigger] first_seen(s).contains(x) <==> s.contains(x),
        first_seen(s).len() <= s.len(),
        first_seen(s).len() == s.len() <==> s.no_duplicates(),
        s.no_duplicates() ==> first_seen(s) == s,
    decreases s.len(),
{
    if s.len() > 0 {
        let front = s.drop_last();
        let last = s.last();
        lemma_first_seen(front);
        let kept = first_seen(front);
        assert forall|x: T| #[trigger] first_seen(s).contains(x) <==> s.contains(x) by {
            if s.contains(x) {
                let i = choose|i: int| 0 <= i < s.len() && s[i] == x;
                if i < front.len() {
                    assert(front[i] == x);
                    assert(front.contains(x));
                    assert(kept.contains(x));
                    let k = choose|k: int| 0 <= k < kept.len() && kept[k] == x;
                    assert(first_seen(s)[k] == x);
                } else {
                    if kept.contains(last) {
                    } else {
                        assert(first_seen(s)[kept.len() as int] == last);
                    }
                }
            }
            if first_seen(s).contains(x) {
                let k = choose|k: int| 0 <= k < first_seen(s).len() && first_seen(s)[k] == x;
                if k < kept.len() {
                    assert(kept[k] == x);
                    assert(kept.contains(x));
                    let i = choose|i: int| 0 <= i < front.len() && front[i] == x;
                    assert(s[i] == x);
                } else {
                    assert(s[s.len() - 1] == x);
                }
            }
        }
        if kept.contains(last) {
            let i = choose|i: int| 0 <= i < front.len() && front[i] == last;
            assert(s[i] == s[s.len() - 1]);
        } else {
            assert forall|i: int, j: int|
                0 <= i < first_seen(s).len() && 0 <= j < first_seen(s).len() && i != j implies first_seen(
                s,
            )[i] != first_seen(s)[j] by {
                if i < kept.len() {
                    assert(kept.contains(kept[i]));
                }
                if j < kept.len() {
                    assert(kept.contains(kept[j]));
                }
            }
            if front.no_duplicates() {
                assert forall|i: int, j: int| 0 <= i < s.len() && 0 <= j < s.len() && i != j implies s[i]
                    != s[j] by {
                    if i < front.len() && j < front.len() {
                        assert(front[i] != front[j]);
                    } else if i < front.len() {
                        assert(front.contains(front[i]));
                    } else {
                        assert(front.contains(front[j]));
                    }
                }
                assert(first_seen(s) =~= s);
            }
        }
        if s.no_duplicates() {
            assert forall|i: int, j: int|
                0 <= i < front.len() && 0 <= j < front.len() && i != j implies front[i] != front[j] by {
                assert(s[i] != s[j]);
            }
            if kept.contains(last) {
                let i = choose|i: int| 0 <= i < front.len() && front[i] == last;
                assert(s[i] == s[s.len() - 1]);
            }
        }
    } else {
        assert(first_seen(s) =~= s);
    }
}

/// The items of `v` without repetitions, in the order of their first
/// occurrence: what `itertools::Itertools::unique` yields, which hands on
/// a clone of each item the first time it sees it and skips it from then
/// on. It tells items apart by hash and `==`. The claim is made of types
/// that meet vstd's key model, which asks that hash and `==` agree with
/// equality and that a clone is the item itself.
#[verifier::external_body]
pub(crate) fn unique<T: Clone + Eq + Hash>(v: Vec<T>) -> (r: Vec<T>)
    requires
        obeys_key_model::<T>(),
    ensures
        r@ == first_seen(v@),
{
    v.into_iter().unique().collect()
}

/// All edges of the tree in one vector: the edges of every node in use, in the order of the handles.
pub fn all_edges<K: SortKey, V>(map: &BTreeMap<K, V>) -> (v: Vec<u32>)
    ensures
        v@ == edges_below(map.arena(), map.extent_view() as nat),
{
    let mut v: Vec<u32> = Vec::new();
    let extent = map.extent();
    let mut cnt: u32 = 0;
    while cnt < extent
        invariant
            cnt <= extent,
            extent == map.extent_view(),
            v@ == edges_below(map.arena(), cnt as nat),
        decreases extent - cnt,
    {
        let handle = NodeHandle::new(cnt);
        match map.get_node(&handle) {
            Some(node) => {
                let mut i: usize = 0;
                let ghost before = v@;
                while i < node.edges.len()
                    invariant
                        i <= node.edges@.len(),
                        v@ == before + node.edges@.take(i as int),
                    decreases node.edges@.len() - i,
                {
                    v.push(node.edges[i]);
                    proof {
                        assert(node.edges@.take(i + 1) =~= node.edges@.take(i as int).push(
                            node.edges@[i as int],
                        ));
                    }
                    i += 1;
                }
                proof {
                    assert(node.edges@.take(i as int) =~= node.edges@);
                }
            },
            None => {
                proof {
                    assert(v@ + Seq::<u32>::empty() =~= v@);
                }
            },
        }
        cnt += 1;
    }
    v
}

/// Whether no edge occurs twice among the edges of all nodes: as many
/// edges are left when repetitions are dropped as there were.
pub fn every_edge_exists_only_once<K: SortKey, V>(map: &BTreeMap<K, V>) -> (once: bool)
    ensures
        once == edges_below(map.arena(), map.extent_view() as nat).no_duplicates(),
        map.wf() ==> once,
{
    let edges = all_edges(map);
    let count = edges.len();
    let uniqued = unique(edges);
    proof {
        lemma_first_seen(edges_below(map.arena(), map.extent_view() as nat));
        if map.wf() {
            lemma_edges_unique(map);
        }
    }
    count == uniqued.len()
}

} // verus!
