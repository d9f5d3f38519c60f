//! Moving keys between two neighbouring children of a node, and joining
//! the two: the entries stay the same, in the same order.

use crate::node::{CAPACITY, MIN_FILL, Node};
use crate::order::SortKey;
use crate::seqs::{lemma_bag_sum_at, lemma_bag_sum_concat, lemma_bag_sum_one};
use crate::tree::{
    after_kid, bag, before_kid, distinct, flat, kept_outside, kid_bags, kid_flats,
    lemma_around_kid, lemma_cut_span, lemma_edges_kept, lemma_kid_within, lemma_kids_apart,
    lemma_shaped_weaken, lemma_stored, node_bag, node_flat, node_shaped, shaped, span_bag,
    span_flat,
};
use vstd::multiset::Multiset;
use vstd::prelude::*;

verus! {

/// The node at `h` is internal and holds at least `min` keys; each child's
/// subtree is well shaped but that its top node may hold one key less than
/// the minimum fill.
pub open spec fn loose<K, V>(nodes: Map<u32, Node<K, V>>, h: u32, t: nat, min: nat) -> bool {
    &&& t > 0
    &&& nodes.contains_key(h)
    &&& nodes[h].fits(false, min, CAPACITY as nat)
    &&& forall|i: int|
        0 <= i < nodes[h].edges@.len() ==> shaped(
            nodes,
            #[trigger] nodes[h].edges@[i],
            (t - 1) as nat,
            (MIN_FILL - 1) as nat,
        )
}

/// The three handles that work on the children `j` and `j + 1` of the node at `h` touches.
pub open spec fn trio<K, V>(nodes: Map<u32, Node<K, V>>, h: u32, j: int) -> Multiset<u32> {
    Multiset::singleton(h).add(Multiset::singleton(nodes[h].edges@[j])).add(
        Multiset::singleton(nodes[h].edges@[j + 1]),
    )
}

/// The handles below a loosely shaped node, as those of its children's subtrees.
pub proof fn lemma_loose_bag<K, V>(nodes: Map<u32, Node<K, V>>, h: u32, t: nat, min: nat, i: int)
    requires
        loose(nodes, h, t, min),
        0 <= i < nodes[h].edges@.len(),
    ensures
        bag(nodes, h, t) == Multiset::singleton(h).add(node_bag(nodes, nodes[h], t)),
        bag(nodes, nodes[h].edges@[i], (t - 1) as nat).subset_of(node_bag(nodes, nodes[h], t)),
        bag(nodes, nodes[h].edges@[i], (t - 1) as nat).count(nodes[h].edges@[i]) >= 1,
        nodes.contains_key(nodes[h].edges@[i]),
{
    lemma_kid_within(nodes, nodes[h], t, i);
    let kid = nodes[h].edges@[i];
    assert(shaped(nodes, kid, (t - 1) as nat, (MIN_FILL - 1) as nat));
    if t - 1 > 0 {
    }
}

/// The two neighbouring children and the node itself are three different nodes.
pub proof fn lemma_trio_apart<K, V>(nodes: Map<u32, Node<K, V>>, h: u32, t: nat, min: nat, j: int)
    requires
        loose(nodes, h, t, min),
        distinct(bag(nodes, h, t)),
        0 <= j < nodes[h].keys@.len(),
    ensures
        nodes[h].edges@[j] != nodes[h].edges@[j + 1],
        nodes[h].edges@[j] != h,
        nodes[h].edges@[j + 1] != h,
        nodes.contains_key(nodes[h].edges@[j]),
        nodes.contains_key(nodes[h].edges@[j + 1]),
        bag(nodes, nodes[h].edges@[j], (t - 1) as nat).count(nodes[h].edges@[j + 1]) == 0,
        bag(nodes, nodes[h].edges@[j + 1], (t - 1) as nat).count(nodes[h].edges@[j]) == 0,
{
    let n = nodes[h];
    let s = (t - 1) as nat;
    let l = n.edges@[j];
    let c = n.edges@[j + 1];
    lemma_loose_bag(nodes, h, t, min, j);
    lemma_loose_bag(nodes, h, t, min, j + 1);
    lemma_kids_apart(nodes, n, t, j, j + 1);
    let both = bag(nodes, l, s).add(bag(nodes, c, s));
    assert(both.count(l) <= node_bag(nodes, n, t).count(l));
    assert(both.count(c) <= node_bag(nodes, n, t).count(c));
    assert(bag(nodes, h, t).count(l) <= 1);
    assert(bag(nodes, h, t).count(c) <= 1);
    assert(bag(nodes, h, t).count(h) <= 1);
    assert(bag(nodes, l, s).count(h) <= node_bag(nodes, n, t).count(h));
    assert(bag(nodes, c, s).count(h) <= node_bag(nodes, n, t).count(h));
}

/// The subtree of a child other than `j` and `j + 1` uses none of the three handles.
pub proof fn lemma_other_kid_clear<K, V>(
    nodes: Map<u32, Node<K, V>>,
    h: u32,
    t: nat,
    min: nat,
    j: int,
    i: int,
    x: u32,
)
    requires
        loose(nodes, h, t, min),
        distinct(bag(nodes, h, t)),
        0 <= j < nodes[h].keys@.len(),
        0 <= i < nodes[h].edges@.len(),
        i != j,
        i != j + 1,
        bag(nodes, nodes[h].edges@[i], (t - 1) as nat).count(x) > 0,
    ensures
        trio(nodes, h, j).count(x) == 0,
{
    let n = nodes[h];
    let s = (t - 1) as nat;
    lemma_loose_bag(nodes, h, t, min, i);
    lemma_loose_bag(nodes, h, t, min, j);
    lemma_loose_bag(nodes, h, t, min, j + 1);
    if i < j {
        lemma_kids_apart(nodes, n, t, i, j);
        lemma_kids_apart(nodes, n, t, i, j + 1);
    } else {
        lemma_kids_apart(nodes, n, t, j, i);
        lemma_kids_apart(nodes, n, t, j + 1, i);
    }
    let bi = bag(nodes, n.edges@[i], s);
    let bl = bag(nodes, n.edges@[j], s);
    let bc = bag(nodes, n.edges@[j + 1], s);
    let nb = node_bag(nodes, n, t);
    assert(bag(nodes, h, t).count(x) <= 1);
    assert(bi.count(x) <= nb.count(x));
    assert(bi.add(bl).count(x) <= nb.count(x));
    assert(bl.add(bi).count(x) <= nb.count(x));
    assert(bi.add(bc).count(x) <= nb.count(x));
    assert(bc.add(bi).count(x) <= nb.count(x));
}

/// The subtree of a child of child `k` of the node, `k` being `j` or `j + 1`, uses none of the three handles.
pub proof fn lemma_grandkid_clear<K: SortKey, V>(
    nodes: Map<u32, Node<K, V>>,
    h: u32,
    t: nat,
    min: nat,
    j: int,
    k: int,
    i: int,
    x: u32,
)
    requires
        t > 1,
        loose(nodes, h, t, min),
        distinct(bag(nodes, h, t)),
        0 <= j < nodes[h].keys@.len(),
        k == j || k == j + 1,
        0 <= i < nodes[nodes[h].edges@[k]].edges@.len(),
        bag(nodes, nodes[nodes[h].edges@[k]].edges@[i], (t - 2) as nat).count(x) > 0,
    ensures
        trio(nodes, h, j).count(x) == 0,
        shaped(nodes, nodes[nodes[h].edges@[k]].edges@[i], (t - 2) as nat, 0),
{
    let n = nodes[h];
    let s = (t - 1) as nat;
    let kid = n.edges@[k];
    let other = n.edges@[if k == j {
        j + 1
    } else {
        j
    }];
    let g = nodes[kid].edges@[i];
    lemma_trio_apart(nodes, h, t, min, j);
    lemma_loose_bag(nodes, h, t, min, k);
    assert(shaped(nodes, kid, s, (MIN_FILL - 1) as nat));
    assert(shaped(nodes, g, (t - 2) as nat, MIN_FILL as nat));
    lemma_stored(nodes, kid, s, 0);
    lemma_kid_within(nodes, nodes[kid], s, i);
    lemma_kids_apart(nodes, n, t, j, j + 1);
    let bg = bag(nodes, g, (t - 2) as nat);
    let bk = bag(nodes, kid, s);
    let nb = node_bag(nodes, n, t);
    assert(bg.count(x) <= node_bag(nodes, nodes[kid], s).count(x));
    assert(bk.count(x) >= 1);
    assert(bk.count(x) <= nb.count(x));
    assert(bag(nodes, h, t).count(x) <= 1);
    assert(bk.add(bag(nodes, other, s)).count(x) <= nb.count(x));
    assert(bag(nodes, other, s).add(bk).count(x) <= nb.count(x));
    assert(bag(nodes, other, s).count(other) >= 1);
}

/// The entries of an internal node around two neighbouring children:
/// what comes before child `j`, that child's, the key between the two,
/// the entries of child `j + 1`, and what comes after it. Likewise the
/// handles.
pub proof fn lemma_adjacent<K: SortKey, V>(nodes: Map<u32, Node<K, V>>, n: Node<K, V>, t: nat, j: int)
    requires
        t > 0,
        n.edges@.len() == n.keys@.len() + 1,
        n.keys@.len() == n.vals@.len(),
        0 <= j < n.keys@.len(),
    ensures
        node_flat(nodes, n, t) == before_kid(nodes, n, t, j) + flat(nodes, n.edges@[j], (t - 1) as nat)
            + seq![n.pairs()[j]] + flat(nodes, n.edges@[j + 1], (t - 1) as nat) + after_kid(
            nodes,
            n,
            t,
            j + 1,
        ),
        node_bag(nodes, n, t) =~= span_bag(nodes, n.edges@.take(j), t).add(
            bag(nodes, n.edges@[j], (t - 1) as nat),
        ).add(bag(nodes, n.edges@[j + 1], (t - 1) as nat)).add(
            span_bag(nodes, n.edges@.skip(j + 2), t),
        ),
{
    let s = (t - 1) as nat;
    let kf = kid_flats(nodes, n.edges@, s);
    let p = n.pairs();
    lemma_around_kid(nodes, n, t, j);
    let f = before_kid(nodes, n, t, j);
    let a = after_kid(nodes, n, t, j + 1);
    assert(p.skip(j).skip(1) == p.skip(j + 1)) by {
        assert(p.skip(j).skip(1) =~= p.skip(j + 1));
    }
    assert(kf.skip(j + 1).skip(1) == kf.skip(j + 2)) by {
        assert(kf.skip(j + 1).skip(1) =~= kf.skip(j + 2));
    }
    assert(after_kid(nodes, n, t, j) == seq![p[j]] + kf[j + 1] + a);
    assert(f + kf[j] + (seq![p[j]] + kf[j + 1] + a) == f + kf[j] + seq![p[j]] + kf[j + 1] + a) by {
        assert(f + kf[j] + (seq![p[j]] + kf[j + 1] + a) =~= f + kf[j] + seq![p[j]] + kf[j + 1] + a);
    }
    let kb = kid_bags(nodes, n.edges@, s);
    assert(kb == kb.take(j) + seq![kb[j]] + seq![kb[j + 1]] + kb.skip(j + 2)) by {
        assert(kb =~= kb.take(j) + seq![kb[j]] + seq![kb[j + 1]] + kb.skip(j + 2));
    }
    lemma_bag_sum_concat(kb.take(j) + seq![kb[j]] + seq![kb[j + 1]], kb.skip(j + 2));
    lemma_bag_sum_concat(kb.take(j) + seq![kb[j]], seq![kb[j + 1]]);
    lemma_bag_sum_concat(kb.take(j), seq![kb[j]]);
    lemma_bag_sum_one(kb[j]);
    lemma_bag_sum_one(kb[j + 1]);
    assert(kid_bags(nodes, n.edges@.take(j), s) =~= kb.take(j));
    assert(kid_bags(nodes, n.edges@.skip(j + 2), s) =~= kb.skip(j + 2));
}

/// After work on the node at `h` and its children `j` and `j + 1` alone,
/// the other children's subtrees and the subtrees of the two children's
/// own children are as they were.
pub proof fn lemma_around_pair_kept<K: SortKey, V>(
    a0: Map<u32, Node<K, V>>,
    a1: Map<u32, Node<K, V>>,
    h: u32,
    t: nat,
    min: nat,
    j: int,
)
    requires
        loose(a0, h, t, min),
        distinct(bag(a0, h, t)),
        0 <= j < a0[h].keys@.len(),
        kept_outside(a0, a1, trio(a0, h, j)),
    ensures
        kid_flats(a1, a0[h].edges@.take(j), (t - 1) as nat) == kid_flats(
            a0,
            a0[h].edges@.take(j),
            (t - 1) as nat,
        ),
        kid_flats(a1, a0[h].edges@.skip(j + 2), (t - 1) as nat) == kid_flats(
            a0,
            a0[h].edges@.skip(j + 2),
            (t - 1) as nat,
        ),
        kid_bags(a1, a0[h].edges@.take(j), (t - 1) as nat) == kid_bags(
            a0,
            a0[h].edges@.take(j),
            (t - 1) as nat,
        ),
        kid_bags(a1, a0[h].edges@.skip(j + 2), (t - 1) as nat) == kid_bags(
            a0,
            a0[h].edges@.skip(j + 2),
            (t - 1) as nat,
        ),
        forall|i: int, m: nat|
            0 <= i < a0[h].edges@.len() && i != j && i != j + 1 && #[trigger] shaped(
                a0,
                a0[h].edges@[i],
                (t - 1) as nat,
                m,
            ) ==> shaped(a1, a0[h].edges@[i], (t - 1) as nat, m),
        t > 1 ==> {
            let all = a0[a0[h].edges@[j]].edges@ + a0[a0[h].edges@[j + 1]].edges@;
            &&& kid_flats(a1, all, (t - 2) as nat) == kid_flats(a0, all, (t - 2) as nat)
            &&& kid_bags(a1, all, (t - 2) as nat) == kid_bags(a0, all, (t - 2) as nat)
            &&& forall|i: int|
                0 <= i < all.len() ==> shaped(a1, #[trigger] all[i], (t - 2) as nat, MIN_FILL as nat)
        },
{
    let n = a0[h];
    let s = (t - 1) as nat;
    let touched = trio(a0, h, j);
    let low = (MIN_FILL - 1) as nat;
    let left = n.edges@.take(j);
    let right = n.edges@.skip(j + 2);
    assert forall|i: int| 0 <= i < left.len() implies shaped(a0, #[trigger] left[i], s, 0) by {
        assert(shaped(a0, n.edges@[i], s, low));
    }
    assert forall|i: int, x: u32|
        0 <= i < left.len() && #[trigger] bag(a0, left[i], s).count(x) > 0 implies touched.count(x)
        == 0 by {
        lemma_other_kid_clear(a0, h, t, min, j, i, x);
    }
    lemma_edges_kept(a0, a1, left, s, touched);
    assert forall|i: int| 0 <= i < right.len() implies shaped(a0, #[trigger] right[i], s, 0) by {
        assert(shaped(a0, n.edges@[i + j + 2], s, low));
    }
    assert forall|i: int, x: u32|
        0 <= i < right.len() && #[trigger] bag(a0, right[i], s).count(x) > 0 implies touched.count(x)
        == 0 by {
        lemma_other_kid_clear(a0, h, t, min, j, i + j + 2, x);
    }
    lemma_edges_kept(a0, a1, right, s, touched);
    assert forall|i: int, m: nat|
        0 <= i < n.edges@.len() && i != j && i != j + 1 && #[trigger] shaped(
            a0,
            n.edges@[i],
            s,
            m,
        ) implies shaped(a1, n.edges@[i], s, m) by {
        if i < j {
            assert(left[i] == n.edges@[i]);
            assert(shaped(a0, left[i], s, m));
        } else {
            assert(right[i - j - 2] == n.edges@[i]);
            assert(shaped(a0, right[i - j - 2], s, m));
        }
    }
    if t > 1 {
        let l = n.edges@[j];
        let c = n.edges@[j + 1];
        let all = a0[l].edges@ + a0[c].edges@;
        let u = (t - 2) as nat;
        assert(shaped(a0, l, s, low));
        assert(shaped(a0, c, s, low));
        assert forall|i: int| 0 <= i < all.len() implies shaped(a0, #[trigger] all[i], u, MIN_FILL as nat)
            && shaped(a0, all[i], u, 0) by {
            if i < a0[l].edges@.len() {
                assert(all[i] == a0[l].edges@[i]);
                assert(shaped(a0, a0[l].edges@[i], u, MIN_FILL as nat));
            } else {
                let k = i - a0[l].edges@.len();
                assert(all[i] == a0[c].edges@[k]);
                assert(shaped(a0, a0[c].edges@[k], u, MIN_FILL as nat));
            }
            lemma_shaped_weaken(a0, all[i], u, MIN_FILL as nat, 0);
        }
        assert forall|i: int, x: u32|
            0 <= i < all.len() && #[trigger] bag(a0, all[i], u).count(x) > 0 implies touched.count(x)
            == 0 by {
            if i < a0[l].edges@.len() {
                assert(all[i] == a0[l].edges@[i]);
                lemma_grandkid_clear(a0, h, t, min, j, j, i, x);
            } else {
                assert(all[i] == a0[c].edges@[i - a0[l].edges@.len()]);
                lemma_grandkid_clear(a0, h, t, min, j, j + 1, i - a0[l].edges@.len(), x);
            }
        }
        lemma_edges_kept(a0, a1, all, u, touched);
        assert forall|i: int| 0 <= i < all.len() implies shaped(a1, #[trigger] all[i], u, MIN_FILL as nat) by {
            assert(shaped(a0, all[i], u, MIN_FILL as nat));
        }
    }
}

/// The keys of two neighbouring children with the key between them, as one run.
pub open spec fn pair_run<K: SortKey, V>(nodes: Map<u32, Node<K, V>>, h: u32, j: int) -> Seq<(K::V, V)> {
    nodes[nodes[h].edges@[j]].pairs() + seq![nodes[h].pairs()[j]] + nodes[nodes[h].edges@[j
        + 1]].pairs()
}

/// The edges of two neighbouring children, as one run.
pub open spec fn pair_edges<K, V>(nodes: Map<u32, Node<K, V>>, h: u32, j: int) -> Seq<u32> {
    nodes[nodes[h].edges@[j]].edges@ + nodes[nodes[h].edges@[j + 1]].edges@
}

/// The entries of two stored neighbours and the key between them are the
/// entries of their keys and edges taken as one run.
pub proof fn lemma_pair_span<K: SortKey, V>(
    nodes: Map<u32, Node<K, V>>,
    left: Node<K, V>,
    sep: (K::V, V),
    right: Node<K, V>,
    s: nat,
)
    requires
        left.fits(s == 0, 0, (CAPACITY + 1) as nat),
        right.fits(s == 0, 0, (CAPACITY + 1) as nat),
    ensures
        node_flat(nodes, left, s) + seq![sep] + node_flat(nodes, right, s) == span_flat(
            nodes,
            left.pairs() + seq![sep] + right.pairs(),
            left.edges@ + right.edges@,
            s,
        ),
        node_bag(nodes, left, s).add(node_bag(nodes, right, s)) =~= span_bag(
            nodes,
            left.edges@ + right.edges@,
            s,
        ),
{
    let run = left.pairs() + seq![sep] + right.pairs();
    let edges = left.edges@ + right.edges@;
    let q = left.pairs().len() as int;
    lemma_cut_span(nodes, run, edges, s, q);
    assert(run.take(q) =~= left.pairs());
    assert(run.skip(q + 1) =~= right.pairs());
    assert(run[q] == sep);
    if s > 0 {
        assert(edges.take(q + 1) =~= left.edges@);
        assert(edges.skip(q + 1) =~= right.edges@);
    } else {
        assert(edges =~= left.edges@);
        assert(edges =~= right.edges@);
    }
}

/// The two neighbouring children after their keys and edges were dealt
/// anew between them: their entries with the new key between them are the
/// entries they had with the old key between them, their handles are the
/// same, and both are well shaped.
pub proof fn lemma_kids_recut<K: SortKey, V>(
    a0: Map<u32, Node<K, V>>,
    a1: Map<u32, Node<K, V>>,
    h: u32,
    t: nat,
    min: nat,
    j: int,
    sep: (K::V, V),
)
    requires
        loose(a0, h, t, min),
        distinct(bag(a0, h, t)),
        0 <= j < a0[h].keys@.len(),
        kept_outside(a0, a1, trio(a0, h, j)),
        a1.contains_key(a0[h].edges@[j]),
        a1.contains_key(a0[h].edges@[j + 1]),
        a1[a0[h].edges@[j]].fits(t == 1, MIN_FILL as nat, CAPACITY as nat),
        a1[a0[h].edges@[j + 1]].fits(t == 1, MIN_FILL as nat, CAPACITY as nat),
        a1[a0[h].edges@[j]].pairs() + seq![sep] + a1[a0[h].edges@[j + 1]].pairs() == pair_run(a0, h, j),
        a1[a0[h].edges@[j]].edges@ + a1[a0[h].edges@[j + 1]].edges@ == pair_edges(a0, h, j),
    ensures
        flat(a1, a0[h].edges@[j], (t - 1) as nat) + seq![sep] + flat(
            a1,
            a0[h].edges@[j + 1],
            (t - 1) as nat,
        ) == flat(a0, a0[h].edges@[j], (t - 1) as nat) + seq![a0[h].pairs()[j]] + flat(
            a0,
            a0[h].edges@[j + 1],
            (t - 1) as nat,
        ),
        bag(a1, a0[h].edges@[j], (t - 1) as nat).add(bag(a1, a0[h].edges@[j + 1], (t - 1) as nat))
            =~= bag(a0, a0[h].edges@[j], (t - 1) as nat).add(
            bag(a0, a0[h].edges@[j + 1], (t - 1) as nat),
        ),
        shaped(a1, a0[h].edges@[j], (t - 1) as nat, MIN_FILL as nat),
        shaped(a1, a0[h].edges@[j + 1], (t - 1) as nat, MIN_FILL as nat),
{
    let n0 = a0[h];
    let s = (t - 1) as nat;
    let l = n0.edges@[j];
    let c = n0.edges@[j + 1];
    let run = pair_run(a0, h, j);
    let all = pair_edges(a0, h, j);
    lemma_around_pair_kept(a0, a1, h, t, min, j);
    assert(shaped(a0, l, s, (MIN_FILL - 1) as nat));
    assert(shaped(a0, c, s, (MIN_FILL - 1) as nat));
    lemma_pair_span(a0, a0[l], n0.pairs()[j], a0[c], s);
    lemma_pair_span(a1, a1[l], sep, a1[c], s);
    assert(span_flat(a1, run, all, s) == span_flat(a0, run, all, s));
    assert(span_bag(a1, all, s) == span_bag(a0, all, s));
    lemma_stored(a0, l, s, 0);
    lemma_stored(a0, c, s, 0);
    lemma_stored(a1, l, s, MIN_FILL as nat);
    lemma_stored(a1, c, s, MIN_FILL as nat);
    assert(node_shaped(a1, a1[l], s, MIN_FILL as nat, CAPACITY as nat)) by {
        if s > 0 {
            assert forall|i: int| 0 <= i < a1[l].edges@.len() implies shaped(
                a1,
                #[trigger] a1[l].edges@[i],
                (s - 1) as nat,
                MIN_FILL as nat,
            ) by {
                assert((a1[l].edges@ + a1[c].edges@)[i] == a1[l].edges@[i]);
                assert(shaped(a1, all[i], (s - 1) as nat, MIN_FILL as nat));
            }
        }
    }
    assert(node_shaped(a1, a1[c], s, MIN_FILL as nat, CAPACITY as nat)) by {
        if s > 0 {
            assert forall|i: int| 0 <= i < a1[c].edges@.len() implies shaped(
                a1,
                #[trigger] a1[c].edges@[i],
                (s - 1) as nat,
                MIN_FILL as nat,
            ) by {
                let k = a1[l].edges@.len() + i;
                assert((a1[l].edges@ + a1[c].edges@)[k] == a1[c].edges@[i]);
                assert(shaped(a1, all[k], (s - 1) as nat, MIN_FILL as nat));
            }
        }
    }
    let x0 = node_bag(a0, a0[l], s);
    let y0 = node_bag(a0, a0[c], s);
    let x1 = node_bag(a1, a1[l], s);
    let y1 = node_bag(a1, a1[c], s);
    assert(x1.add(y1) =~= x0.add(y0));
    assert forall|x: u32|
        bag(a1, l, s).add(bag(a1, c, s)).count(x) == bag(a0, l, s).add(bag(a0, c, s)).count(x) by {
        assert(x1.add(y1).count(x) == x0.add(y0).count(x));
    }
}

/// The left one of two neighbouring children after it took in the key
/// between them and all of the right one: its entries are those the two
/// had with the key between them, its handles are those of the two but
/// for the right one's own, and it is well shaped.
pub proof fn lemma_kids_merged<K: SortKey, V>(
    a0: Map<u32, Node<K, V>>,
    a1: Map<u32, Node<K, V>>,
    h: u32,
    t: nat,
    min: nat,
    j: int,
)
    requires
        loose(a0, h, t, min),
        distinct(bag(a0, h, t)),
        0 <= j < a0[h].keys@.len(),
        kept_outside(a0, a1, trio(a0, h, j)),
        a1.contains_key(a0[h].edges@[j]),
        a1[a0[h].edges@[j]].fits(t == 1, MIN_FILL as nat, CAPACITY as nat),
        a1[a0[h].edges@[j]].pairs() == pair_run(a0, h, j),
        a1[a0[h].edges@[j]].edges@ == pair_edges(a0, h, j),
    ensures
        flat(a1, a0[h].edges@[j], (t - 1) as nat) == flat(a0, a0[h].edges@[j], (t - 1) as nat)
            + seq![a0[h].pairs()[j]] + flat(a0, a0[h].edges@[j + 1], (t - 1) as nat),
        bag(a1, a0[h].edges@[j], (t - 1) as nat).add(Multiset::singleton(a0[h].edges@[j + 1]))
            =~= bag(a0, a0[h].edges@[j], (t - 1) as nat).add(
            bag(a0, a0[h].edges@[j + 1], (t - 1) as nat),
        ),
        shaped(a1, a0[h].edges@[j], (t - 1) as nat, MIN_FILL as nat),
{
    let n0 = a0[h];
    let s = (t - 1) as nat;
    let l = n0.edges@[j];
    let c = n0.edges@[j + 1];
    let run = pair_run(a0, h, j);
    let all = pair_edges(a0, h, j);
    lemma_around_pair_kept(a0, a1, h, t, min, j);
    assert(shaped(a0, l, s, (MIN_FILL - 1) as nat));
    assert(shaped(a0, c, s, (MIN_FILL - 1) as nat));
    lemma_pair_span(a0, a0[l], n0.pairs()[j], a0[c], s);
    assert(span_flat(a1, run, all, s) == span_flat(a0, run, all, s));
    assert(span_bag(a1, all, s) == span_bag(a0, all, s));
    lemma_stored(a0, l, s, 0);
    lemma_stored(a0, c, s, 0);
    lemma_stored(a1, l, s, MIN_FILL as nat);
    assert(node_flat(a1, a1[l], s) == span_flat(a1, run, all, s));
    assert(node_bag(a1, a1[l], s) == span_bag(a1, all, s));
    assert(node_shaped(a1, a1[l], s, MIN_FILL as nat, CAPACITY as nat));
    let x0 = node_bag(a0, a0[l], s);
    let y0 = node_bag(a0, a0[c], s);
    let x1 = node_bag(a1, a1[l], s);
    assert(x1 =~= x0.add(y0));
    assert forall|x: u32|
        bag(a1, l, s).add(Multiset::singleton(c)).count(x) == bag(a0, l, s).add(bag(a0, c, s)).count(
            x,
        ) by {
        assert(x1.count(x) == x0.add(y0).count(x));
    }
}

/// Keys moved between two neighbouring children through the key between
/// them: where the two children's keys with the key between them are the
/// same run as before, and their edges too, the entries of the node are
/// the same, and so are its handles.
pub proof fn lemma_recut<K: SortKey, V>(
    a0: Map<u32, Node<K, V>>,
    a1: Map<u32, Node<K, V>>,
    h: u32,
    t: nat,
    min: nat,
    j: int,
)
    requires
        loose(a0, h, t, min),
        distinct(bag(a0, h, t)),
        0 <= j < a0[h].keys@.len(),
        kept_outside(a0, a1, trio(a0, h, j)),
        a1.dom() == a0.dom(),
        a1[h].keys@.len() == a1[h].vals@.len(),
        a1[h].keys@.len() == a0[h].keys@.len(),
        a1[h].edges@ == a0[h].edges@,
        a1[h].pairs() == a0[h].pairs().update(j, a1[h].pairs()[j]),
        a1[a0[h].edges@[j]].fits(t == 1, MIN_FILL as nat, CAPACITY as nat),
        a1[a0[h].edges@[j + 1]].fits(t == 1, MIN_FILL as nat, CAPACITY as nat),
        pair_run(a1, h, j) == pair_run(a0, h, j),
        pair_edges(a1, h, j) == pair_edges(a0, h, j),
    ensures
        flat(a1, h, t) == flat(a0, h, t),
        bag(a1, h, t) == bag(a0, h, t),
        a1.contains_key(h),
        a1[h].fits(false, min, CAPACITY as nat),
        shaped(a1, a0[h].edges@[j], (t - 1) as nat, MIN_FILL as nat),
        shaped(a1, a0[h].edges@[j + 1], (t - 1) as nat, MIN_FILL as nat),
        forall|i: int, m: nat|
            0 <= i < a0[h].edges@.len() && i != j && i != j + 1 && #[trigger] shaped(
                a0,
                a0[h].edges@[i],
                (t - 1) as nat,
                m,
            ) ==> shaped(a1, a0[h].edges@[i], (t - 1) as nat, m),
{
    let n0 = a0[h];
    let n1 = a1[h];
    let s = (t - 1) as nat;
    let l = n0.edges@[j];
    let c = n0.edges@[j + 1];
    lemma_trio_apart(a0, h, t, min, j);
    assert(a1.dom().contains(h) && a1.dom().contains(l) && a1.dom().contains(c));
    lemma_around_pair_kept(a0, a1, h, t, min, j);
    lemma_kids_recut(a0, a1, h, t, min, j, n1.pairs()[j]);
    lemma_adjacent(a0, n0, t, j);
    lemma_adjacent(a1, n1, t, j);
    let own0 = n0.pairs();
    let own1 = n1.pairs();
    assert(before_kid(a1, n1, t, j) == before_kid(a0, n0, t, j)) by {
        assert(kid_flats(a1, n1.edges@, s).take(j) =~= kid_flats(a1, n0.edges@.take(j), s));
        assert(kid_flats(a0, n0.edges@, s).take(j) =~= kid_flats(a0, n0.edges@.take(j), s));
        assert(own1.take(j) =~= own0.take(j));
    }
    assert(after_kid(a1, n1, t, j + 1) == after_kid(a0, n0, t, j + 1)) by {
        assert(kid_flats(a1, n1.edges@, s).skip(j + 2) =~= kid_flats(a1, n0.edges@.skip(j + 2), s));
        assert(kid_flats(a0, n0.edges@, s).skip(j + 2) =~= kid_flats(a0, n0.edges@.skip(j + 2), s));
        assert(own1.skip(j + 1) =~= own0.skip(j + 1));
    }
    lemma_same_around(
        before_kid(a0, n0, t, j),
        flat(a0, l, s),
        own0[j],
        flat(a0, c, s),
        flat(a1, l, s),
        own1[j],
        flat(a1, c, s),
        after_kid(a0, n0, t, j + 1),
    );
    lemma_stored(a0, h, t, min);
    lemma_stored(a1, h, t, min);
    assert(span_bag(a1, n0.edges@.take(j), t) == span_bag(a0, n0.edges@.take(j), t));
    assert(span_bag(a1, n0.edges@.skip(j + 2), t) == span_bag(a0, n0.edges@.skip(j + 2), t));
    let x = span_bag(a0, n0.edges@.take(j), t);
    let y = span_bag(a0, n0.edges@.skip(j + 2), t);
    let m0 = bag(a0, l, s).add(bag(a0, c, s));
    let m1 = bag(a1, l, s).add(bag(a1, c, s));
    assert(m0 =~= m1);
    assert(node_bag(a0, n0, t) =~= x.add(m0).add(y));
    assert(node_bag(a1, n1, t) =~= x.add(m1).add(y));
    assert(bag(a1, h, t) =~= bag(a0, h, t));
}

/// Two middle parts that are equal make equal wholes.
pub proof fn lemma_same_around<A>(
    f: Seq<A>,
    l0: Seq<A>,
    s0: A,
    c0: Seq<A>,
    l1: Seq<A>,
    s1: A,
    c1: Seq<A>,
    a: Seq<A>,
)
    requires
        l1 + seq![s1] + c1 == l0 + seq![s0] + c0,
    ensures
        f + l1 + seq![s1] + c1 + a == f + l0 + seq![s0] + c0 + a,
{
    assert(f + l1 + seq![s1] + c1 + a =~= f + (l1 + seq![s1] + c1) + a);
    assert(f + l0 + seq![s0] + c0 + a =~= f + (l0 + seq![s0] + c0) + a);
}

/// The entries of a node whose children `j` and `j + 1` were joined.
proof fn lemma_merged_flat<K: SortKey, V>(
    a0: Map<u32, Node<K, V>>,
    a1: Map<u32, Node<K, V>>,
    n0: Node<K, V>,
    n1: Node<K, V>,
    t: nat,
    j: int,
)
    requires
        t > 0,
        n0.fits(false, 1, CAPACITY as nat),
        0 <= j < n0.keys@.len(),
        n1.keys@.len() == n1.vals@.len(),
        n1.keys@.len() == n0.keys@.len() - 1,
        n1.edges@ == n0.edges@.remove(j + 1),
        n1.pairs() == n0.pairs().remove(j),
        kid_flats(a1, n0.edges@.take(j), (t - 1) as nat) == kid_flats(
            a0,
            n0.edges@.take(j),
            (t - 1) as nat,
        ),
        kid_flats(a1, n0.edges@.skip(j + 2), (t - 1) as nat) == kid_flats(
            a0,
            n0.edges@.skip(j + 2),
            (t - 1) as nat,
        ),
        flat(a1, n0.edges@[j], (t - 1) as nat) == flat(a0, n0.edges@[j], (t - 1) as nat)
            + seq![n0.pairs()[j]] + flat(a0, n0.edges@[j + 1], (t - 1) as nat),
    ensures
        node_flat(a1, n1, t) == node_flat(a0, n0, t),
{
    let s = (t - 1) as nat;
    let l = n0.edges@[j];
    let c = n0.edges@[j + 1];
    lemma_adjacent(a0, n0, t, j);
    lemma_around_kid(a1, n1, t, j);
    let own0 = n0.pairs();
    let own1 = n1.pairs();
    assert(n1.edges@[j] == l);
    assert(before_kid(a1, n1, t, j) == before_kid(a0, n0, t, j)) by {
        assert(kid_flats(a1, n1.edges@, s).take(j) =~= kid_flats(a1, n0.edges@.take(j), s));
        assert(kid_flats(a0, n0.edges@, s).take(j) =~= kid_flats(a0, n0.edges@.take(j), s));
        assert(own1.take(j) =~= own0.take(j));
    }
    assert(after_kid(a1, n1, t, j) == after_kid(a0, n0, t, j + 1)) by {
        assert(kid_flats(a1, n1.edges@, s).skip(j + 1) =~= kid_flats(a1, n0.edges@.skip(j + 2), s));
        assert(kid_flats(a0, n0.edges@, s).skip(j + 2) =~= kid_flats(a0, n0.edges@.skip(j + 2), s));
        assert(own1.skip(j) =~= own0.skip(j + 1));
    }
    let f = before_kid(a0, n0, t, j);
    let a = after_kid(a0, n0, t, j + 1);
    assert(f + flat(a0, l, s) + seq![own0[j]] + flat(a0, c, s) + a == f + flat(a1, l, s) + a) by {
        assert(f + flat(a0, l, s) + seq![own0[j]] + flat(a0, c, s) + a =~= f + (flat(a0, l, s)
            + seq![own0[j]] + flat(a0, c, s)) + a);
    }
}

/// The handles below a node whose children `j` and `j + 1` were joined.
proof fn lemma_merged_bag<K: SortKey, V>(
    a0: Map<u32, Node<K, V>>,
    a1: Map<u32, Node<K, V>>,
    n0: Node<K, V>,
    n1: Node<K, V>,
    t: nat,
    j: int,
)
    requires
        t > 0,
        n0.fits(false, 1, CAPACITY as nat),
        0 <= j < n0.keys@.len(),
        n1.edges@ == n0.edges@.remove(j + 1),
        kid_bags(a1, n0.edges@.take(j), (t - 1) as nat) == kid_bags(
            a0,
            n0.edges@.take(j),
            (t - 1) as nat,
        ),
        kid_bags(a1, n0.edges@.skip(j + 2), (t - 1) as nat) == kid_bags(
            a0,
            n0.edges@.skip(j + 2),
            (t - 1) as nat,
        ),
        bag(a1, n0.edges@[j], (t - 1) as nat).add(Multiset::singleton(n0.edges@[j + 1])) =~= bag(
            a0,
            n0.edges@[j],
            (t - 1) as nat,
        ).add(bag(a0, n0.edges@[j + 1], (t - 1) as nat)),
    ensures
        node_bag(a0, n0, t) =~= node_bag(a1, n1, t).add(Multiset::singleton(n0.edges@[j + 1])),
{
    let s = (t - 1) as nat;
    let l = n0.edges@[j];
    let c = n0.edges@[j + 1];
    lemma_adjacent(a0, n0, t, j);
    let kb1 = kid_bags(a1, n1.edges@, s);
    lemma_bag_sum_at(kb1, j);
    assert(n1.edges@[j] == l);
    assert(kb1.take(j) =~= kid_bags(a1, n0.edges@.take(j), s));
    assert(kb1.skip(j + 1) =~= kid_bags(a1, n0.edges@.skip(j + 2), s));
    let x = span_bag(a0, n0.edges@.take(j), t);
    let y = span_bag(a0, n0.edges@.skip(j + 2), t);
    let m0 = bag(a0, l, s).add(bag(a0, c, s));
    let m1 = bag(a1, l, s).add(Multiset::singleton(c));
    assert(m0 =~= m1);
    assert(node_bag(a0, n0, t) =~= x.add(m0).add(y));
    assert(node_bag(a1, n1, t) =~= x.add(bag(a1, l, s)).add(y));
}

/// Two neighbouring children joined into the left one, with the key
/// between them: the entries of the node are the same, and its handles
/// are the same but for the right child's.
pub proof fn lemma_merged<K: SortKey, V>(
    a0: Map<u32, Node<K, V>>,
    a1: Map<u32, Node<K, V>>,
    h: u32,
    t: nat,
    min: nat,
    j: int,
)
    requires
        loose(a0, h, t, min),
        min >= 1,
        distinct(bag(a0, h, t)),
        0 <= j < a0[h].keys@.len(),
        kept_outside(a0, a1, trio(a0, h, j)),
        a1.dom() == a0.dom().remove(a0[h].edges@[j + 1]),
        a1[h].keys@.len() == a1[h].vals@.len(),
        a1[h].keys@.len() == a0[h].keys@.len() - 1,
        a1[h].edges@ == a0[h].edges@.remove(j + 1),
        a1[h].pairs() == a0[h].pairs().remove(j),
        a1[a0[h].edges@[j]].fits(t == 1, MIN_FILL as nat, CAPACITY as nat),
        a1[a0[h].edges@[j]].pairs() == pair_run(a0, h, j),
        a1[a0[h].edges@[j]].edges@ == pair_edges(a0, h, j),
    ensures
        flat(a1, h, t) == flat(a0, h, t),
        bag(a0, h, t) == bag(a1, h, t).add(Multiset::singleton(a0[h].edges@[j + 1])),
        a1.contains_key(h),
        a1[h].fits(false, (min - 1) as nat, CAPACITY as nat),
        shaped(a1, a0[h].edges@[j], (t - 1) as nat, MIN_FILL as nat),
        forall|i: int, m: nat|
            0 <= i < a0[h].edges@.len() && i != j && i != j + 1 && #[trigger] shaped(
                a0,
                a0[h].edges@[i],
                (t - 1) as nat,
                m,
            ) ==> shaped(a1, a0[h].edges@[i], (t - 1) as nat, m),
{
    let n0 = a0[h];
    let n1 = a1[h];
    let l = n0.edges@[j];
    lemma_trio_apart(a0, h, t, min, j);
    assert(a1.dom().contains(h) && a1.dom().contains(l));
    lemma_around_pair_kept(a0, a1, h, t, min, j);
    lemma_kids_merged(a0, a1, h, t, min, j);
    lemma_merged_flat(a0, a1, n0, n1, t, j);
    lemma_merged_bag(a0, a1, n0, n1, t, j);
    lemma_stored(a0, h, t, min);
    lemma_stored(a1, h, t, (min - 1) as nat);
    assert(bag(a0, h, t) =~= bag(a1, h, t).add(Multiset::singleton(n0.edges@[j + 1])));
}

} // verus!
