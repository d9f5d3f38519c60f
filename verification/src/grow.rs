//! What an insertion does to a subtree, and why the tree stays a tree.

use crate::node::{
    key_gap, lemma_scan_gap, lemma_scan_misses, scan_answer, scan_stop, KVHandle, Node,
    SearchResult, CAPACITY, MIN_FILL,
};
use crate::search::{descent, route};
use crate::order::SortKey;
use crate::seqs::{ascending, fits_at, lacks};
use crate::tree::{
    after_kid, bag, before_kid, distinct, flat, kept_outside, lemma_around_kid, lemma_descend,
    lemma_fits_within, lemma_kid_reworked, lemma_kid_within, lemma_shaped_weaken, lemma_stored,
    node_bag, node_shaped, shaped, values_only,
};
use vstd::multiset::Multiset;
use vstd::prelude::*;

verus! {

/// The key at which a node over its capacity is cut in two.
pub const CUT: usize = 6;

/// What an insertion did to the subtree it went into.
pub enum Grown<K, V> {
    /// The key was there; its value was replaced, and this is the old one.
    Replaced(V),
    /// The key was added and the subtree kept its top node.
    Added,
    /// The key was added and the top node was cut in two: the key and
    /// value that go up, and the new node to the right of them.
    Split(K, V, u32),
}

/// Cuts a node that holds one key more than the capacity at key `CUT`:
/// the node keeps what lies left of it, the key and its value are handed
/// out, and a new record takes what lies right of it.
pub fn cut<K, V>(n: &mut Node<K, V>) -> (r: (K, V, Node<K, V>))
    requires
        old(n).keys@.len() == CAPACITY + 1,
        old(n).vals@.len() == CAPACITY + 1,
        old(n).edges@.len() == 0 || old(n).edges@.len() == CAPACITY + 2,
    ensures
        final(n).keys@ == old(n).keys@.take(CUT as int),
        final(n).vals@ == old(n).vals@.take(CUT as int),
        r.0 == old(n).keys@[CUT as int],
        r.1 == old(n).vals@[CUT as int],
        r.2.keys@ == old(n).keys@.skip(CUT + 1),
        r.2.vals@ == old(n).vals@.skip(CUT + 1),
        old(n).edges@.len() == 0 ==> final(n).edges@.len() == 0 && r.2.edges@.len() == 0,
        old(n).edges@.len() > 0 ==> final(n).edges@ == old(n).edges@.take(CUT + 1) && r.2.edges@ == old(
            n,
        ).edges@.skip(CUT + 1),
{
    let right_keys = n.keys.split_off(CUT + 1);
    let mid_key = n.keys.pop();
    let right_vals = n.vals.split_off(CUT + 1);
    let mid_val = n.vals.pop();
    let right_edges = if n.edges.len() > 0 {
        n.edges.split_off(CUT + 1)
    } else {
        Vec::new()
    };
    proof {
        assert(n.keys@ =~= old(n).keys@.take(CUT as int));
        assert(n.vals@ =~= old(n).vals@.take(CUT as int));
        assert(right_keys@ =~= old(n).keys@.skip(CUT + 1));
        assert(right_vals@ =~= old(n).vals@.skip(CUT + 1));
        if old(n).edges@.len() > 0 {
            assert(n.edges@ =~= old(n).edges@.take(CUT + 1));
            assert(right_edges@ =~= old(n).edges@.skip(CUT + 1));
        }
    }
    let right = Node { keys: right_keys, vals: right_vals, edges: right_edges };
    match (mid_key, mid_val) {
        (Some(k), Some(v)) => (k, v, right),
        _ => {
            proof {
                assert(false);
            }
            vstd::pervasive::unreached()
        },
    }
}

/// Every node that `before` holds, `after` holds; a handle that `before`
/// lacks is in `total` once if `after` holds it and not at all otherwise;
/// and what lies outside `sub` is as it was.
pub open spec fn grown_frame<K, V>(
    before: Map<u32, Node<K, V>>,
    after: Map<u32, Node<K, V>>,
    sub: Multiset<u32>,
    total: Multiset<u32>,
) -> bool {
    &&& kept_outside(before, after, sub)
    &&& forall|x: u32| #[trigger]
        before.contains_key(x) ==> after.contains_key(x) && total.count(x) == sub.count(x)
    &&& forall|x: u32|
        !#[trigger] before.contains_key(x) ==> total.count(x) == if after.contains_key(x) {
            1nat
        } else {
            0nat
        }
}

/// The handles of the subtree at `h` after an insertion, with those of the node split off, if any.
pub open spec fn grown_total<K: SortKey, V>(after: Map<u32, Node<K, V>>, h: u32, t: nat, out: Grown<K, V>) -> Multiset<
    u32,
> {
    match out {
        Grown::Split(_, _, r) => bag(after, h, t).add(bag(after, r, t)),
        _ => bag(after, h, t),
    }
}

/// What an insertion of `key` with `value` into the subtree at `h` leaves behind.
///
/// `Replaced`: the entry at index `at` had the key, and now has the new value.
/// `Added`: the key fitted at index `at`, and the entry is there now.
/// `Split`: as `Added`, but the entries are now those of the subtree at `h`,
/// the entry that goes up, and those of the new subtree to its right.
pub open spec fn grown<K: SortKey, V>(
    before: Map<u32, Node<K, V>>,
    after: Map<u32, Node<K, V>>,
    h: u32,
    t: nat,
    min: nat,
    key: K::V,
    value: V,
    out: Grown<K, V>,
    at: int,
) -> bool {
    let was = flat(before, h, t);
    let now = flat(after, h, t);
    &&& grown_frame(before, after, bag(before, h, t), grown_total(after, h, t, out))
    &&& match out {
        Grown::Replaced(v) => {
            &&& 0 <= at < was.len()
            &&& was[at] == (key, v)
            &&& now == was.update(at, (key, value))
            &&& shaped(after, h, t, min)
            &&& values_only(before, after)
        },
        Grown::Added => {
            &&& fits_at::<K, V>(was, at, key)
            &&& now == was.insert(at, (key, value))
            &&& shaped(after, h, t, min)
        },
        Grown::Split(mk, mv, r) => {
            &&& fits_at::<K, V>(was, at, key)
            &&& now + seq![(mk@, mv)] + flat(after, r, t) == was.insert(at, (key, value))
            &&& shaped(after, h, t, MIN_FILL as nat)
            &&& shaped(after, r, t, MIN_FILL as nat)
        },
    }
}

/// A key that a leaf lacks fits among the leaf's entries where the scan of its keys places it.
pub proof fn lemma_leaf_fits<K: SortKey, V>(n: Node<K, V>, p: int, key: K::V)
    requires
        n.keys@.len() == n.vals@.len(),
        0 <= p <= n.keys@.len(),
        ascending::<K, V>(n.pairs()),
        forall|i: int| 0 <= i < p ==> K::precedes(#[trigger] n.keys@[i]@, key),
        p < n.keys@.len() ==> K::precedes(key, n.keys@[p]@),
    ensures
        fits_at::<K, V>(n.pairs(), p, key),
{
    let s = n.pairs();
    assert forall|i: int| 0 <= i < p implies K::precedes((#[trigger] s[i]).0, key) by {
        assert(s[i].0 == n.keys@[i]@);
    }
    assert forall|i: int| p <= i < s.len() implies K::precedes(key, (#[trigger] s[i]).0) by {
        assert(s[p].0 == n.keys@[p]@);
        if i > p {
            K::precedes_transitive(key, s[p].0, s[i].0);
        }
    }
}

/// The entries of a node that took in the entry `x` at position `p`: in a
/// leaf among its own entries, in an internal node between child `p` and
/// the new child `r` to its right.
pub open spec fn reworked_flat<K: SortKey, V>(
    nodes: Map<u32, Node<K, V>>,
    n: Node<K, V>,
    t: nat,
    p: int,
    x: (K::V, V),
    edge: Option<u32>,
) -> Seq<(K::V, V)> {
    match edge {
        None => n.pairs().insert(p, x),
        Some(r) => before_kid(nodes, n, t, p) + flat(nodes, n.edges@[p], (t - 1) as nat) + seq![x]
            + flat(nodes, r, (t - 1) as nat) + after_kid(nodes, n, t, p),
    }
}

/// The handles below a node that took in the child `edge`, if any.
pub open spec fn reworked_bag<K: SortKey, V>(nodes: Map<u32, Node<K, V>>, n: Node<K, V>, t: nat, edge: Option<u32>) -> Multiset<
    u32,
> {
    match edge {
        None => Multiset::empty(),
        Some(r) => node_bag(nodes, n, t).add(bag(nodes, r, (t - 1) as nat)),
    }
}

/// Before an insertion goes from a node into its child `p`: the child's
/// subtree is well shaped, ascending and free of repeated handles.
pub proof fn lemma_below_start<K: SortKey, V>(
    nodes: Map<u32, Node<K, V>>,
    h: u32,
    t: nat,
    min: nat,
    p: int,
    key: K::V,
)
    requires
        t > 0,
        shaped(nodes, h, t, min),
        ascending::<K, V>(flat(nodes, h, t)),
        distinct(bag(nodes, h, t)),
        key_gap::<K>(nodes[h].keys@, key, p),
    ensures
        0 <= p < nodes[h].edges@.len(),
        shaped(nodes, nodes[h].edges@[p], (t - 1) as nat, MIN_FILL as nat),
        ascending::<K, V>(flat(nodes, nodes[h].edges@[p], (t - 1) as nat)),
        distinct(bag(nodes, nodes[h].edges@[p], (t - 1) as nat)),
{
    let n0 = nodes[h];
    let s = (t - 1) as nat;
    lemma_stored(nodes, h, t, min);
    lemma_around_kid(nodes, n0, t, p);
    lemma_descend(nodes, n0, t, p, key);
    lemma_kid_within(nodes, n0, t, p);
    assert(shaped(nodes, n0.edges@[p], s, MIN_FILL as nat));
    assert forall|x: u32| #[trigger] bag(nodes, n0.edges@[p], s).count(x) <= 1 by {
        assert(bag(nodes, n0.edges@[p], s).count(x) <= node_bag(nodes, n0, t).count(x));
        assert(bag(nodes, h, t).count(x) <= 1);
    }
}

/// After work inside the subtree of child `p` of the node at `h` that
/// left the child well shaped: the node is as it was, its entries are those
/// before the child, the child's new ones and those after, and its handles
/// are its own, those of the other children, which are returned, and the
/// child's new ones.
pub proof fn lemma_below_common<K: SortKey, V>(
    a0: Map<u32, Node<K, V>>,
    a1: Map<u32, Node<K, V>>,
    h: u32,
    t: nat,
    min: nat,
    p: int,
) -> (rest: Multiset<u32>)
    requires
        t > 0,
        shaped(a0, h, t, min),
        distinct(bag(a0, h, t)),
        0 <= p < a0[h].edges@.len(),
        kept_outside(a0, a1, bag(a0, a0[h].edges@[p], (t - 1) as nat)),
        shaped(a1, a0[h].edges@[p], (t - 1) as nat, MIN_FILL as nat),
    ensures
        a1.contains_key(h),
        a1[h] == a0[h],
        node_shaped(a1, a0[h], t, min, CAPACITY as nat),
        shaped(a1, h, t, min),
        flat(a0, h, t) == before_kid(a0, a0[h], t, p) + flat(a0, a0[h].edges@[p], (t - 1) as nat)
            + after_kid(a0, a0[h], t, p),
        flat(a1, h, t) == before_kid(a0, a0[h], t, p) + flat(a1, a0[h].edges@[p], (t - 1) as nat)
            + after_kid(a0, a0[h], t, p),
        before_kid(a1, a0[h], t, p) == before_kid(a0, a0[h], t, p),
        after_kid(a1, a0[h], t, p) == after_kid(a0, a0[h], t, p),
        bag(a0, h, t) =~= Multiset::singleton(h).add(
            rest.add(bag(a0, a0[h].edges@[p], (t - 1) as nat)),
        ),
        bag(a1, h, t) =~= Multiset::singleton(h).add(
            rest.add(bag(a1, a0[h].edges@[p], (t - 1) as nat)),
        ),
        node_bag(a1, a0[h], t) =~= rest.add(bag(a1, a0[h].edges@[p], (t - 1) as nat)),
        forall|x: u32| #[trigger] rest.count(x) > 0 ==> a0.contains_key(x),
        rest.count(h) == 0,
        bag(a0, a0[h].edges@[p], (t - 1) as nat).count(h) == 0,
{
    let n0 = a0[h];
    let s = (t - 1) as nat;
    let child = n0.edges@[p];
    lemma_stored(a0, h, t, min);
    lemma_around_kid(a0, n0, t, p);
    let rest = lemma_kid_reworked(a0, a1, h, n0, t, min, CAPACITY as nat, p);
    assert(a0.contains_key(h));
    assert(bag(a0, child, s).count(h) == 0);
    assert(a1.contains_key(h) && a1[h] == n0);
    assert(node_shaped(a1, n0, t, min, CAPACITY as nat)) by {
        assert forall|i: int| 0 <= i < n0.edges@.len() implies shaped(
            a1,
            #[trigger] n0.edges@[i],
            s,
            MIN_FILL as nat,
        ) by {
            if i == p {
                lemma_shaped_weaken(a1, child, s, MIN_FILL as nat, MIN_FILL as nat);
            }
        }
    }
    lemma_stored(a1, h, t, min);
    lemma_around_kid(a1, n0, t, p);
    assert(bag(a0, h, t).count(h) <= 1);
    rest
}

/// After an insertion into child `p` of the node at `h` that kept the
/// child's top node, the insertion into the subtree at `h` is done.
pub proof fn lemma_below_same<K: SortKey, V>(
    a0: Map<u32, Node<K, V>>,
    a1: Map<u32, Node<K, V>>,
    h: u32,
    t: nat,
    min: nat,
    p: int,
    key: K::V,
    val: V,
    out: Grown<K, V>,
    at_c: int,
)
    requires
        t > 0,
        shaped(a0, h, t, min),
        ascending::<K, V>(flat(a0, h, t)),
        distinct(bag(a0, h, t)),
        key_gap::<K>(a0[h].keys@, key, p),
        0 <= p < a0[h].edges@.len(),
        grown(a0, a1, a0[h].edges@[p], (t - 1) as nat, MIN_FILL as nat, key, val, out, at_c),
        !(out is Split),
    ensures
        grown(a0, a1, h, t, min, key, val, out, before_kid(a0, a0[h], t, p).len() + at_c),
        bag(a1, h, t).len() + bag(a0, a0[h].edges@[p], (t - 1) as nat).len() == bag(a0, h, t).len()
            + bag(a1, a0[h].edges@[p], (t - 1) as nat).len(),
        bag(a1, a0[h].edges@[p], (t - 1) as nat).subset_of(bag(a1, h, t)),
{
    let n0 = a0[h];
    let s = (t - 1) as nat;
    let child = n0.edges@[p];
    let f = before_kid(a0, n0, t, p);
    let b = after_kid(a0, n0, t, p);
    let c0 = flat(a0, child, s);
    let c1 = flat(a1, child, s);
    let bc0 = bag(a0, child, s);
    let bc1 = bag(a1, child, s);
    let at = f.len() + at_c;
    assert(shaped(a1, child, s, MIN_FILL as nat));
    assert(grown_frame(a0, a1, bc0, bc1));
    let rest = lemma_below_common(a0, a1, h, t, min, p);
    lemma_stored(a0, h, t, min);
    lemma_descend(a0, n0, t, p, key);
    lemma_fits_within::<K, V>(f, c0, b, at_c, (key, val));
    lemma_grown_up(a0, a1, a1, h, bag(a0, h, t), bc0, bc1, rest, bag(a1, h, t), None);
    let was = flat(a0, h, t);
    let now = flat(a1, h, t);
    assert(was == f + c0 + b);
    assert(now == f + c1 + b);
    match out {
        Grown::Replaced(v) => {
            assert(c1 == c0.update(at_c, (key, val)));
            assert(was[at] == c0[at_c]);
            assert(now == was.update(at, (key, val)));
        },
        Grown::Added => {
            assert(c1 == c0.insert(at_c, (key, val)));
            assert(fits_at::<K, V>(c0, at_c, key));
            assert(fits_at::<K, V>(was, at, key));
            assert(now == was.insert(at, (key, val)));
        },
        Grown::Split(_, _, _) => {},
    }
}

/// After an insertion into child `p` of the node at `h` that split the
/// child, the node is ready to take in what came up. Returns the handles
/// of the other children.
pub proof fn lemma_below_split<K: SortKey, V>(
    a0: Map<u32, Node<K, V>>,
    a1: Map<u32, Node<K, V>>,
    h: u32,
    t: nat,
    min: nat,
    p: int,
    key: K::V,
    val: V,
    out: Grown<K, V>,
    at_c: int,
) -> (rest: Multiset<u32>)
    requires
        t > 0,
        shaped(a0, h, t, min),
        ascending::<K, V>(flat(a0, h, t)),
        distinct(bag(a0, h, t)),
        key_gap::<K>(a0[h].keys@, key, p),
        0 <= p < a0[h].edges@.len(),
        grown(a0, a1, a0[h].edges@[p], (t - 1) as nat, MIN_FILL as nat, key, val, out, at_c),
        out is Split,
    ensures
        a1.contains_key(h),
        a1[h] == a0[h],
        bag(a0, h, t) =~= Multiset::singleton(h).add(
            rest.add(bag(a0, a0[h].edges@[p], (t - 1) as nat)),
        ),
        forall|x: u32| #[trigger] rest.count(x) > 0 ==> a0.contains_key(x),
        node_shaped(a1, a1[h], t, min, CAPACITY as nat),
        node_bag(a1, a1[h], t).count(h) == 0,
        shaped(a1, out->Split_2, (t - 1) as nat, MIN_FILL as nat),
        bag(a1, out->Split_2, (t - 1) as nat).count(h) == 0,
        fits_at::<K, V>(flat(a0, h, t), before_kid(a0, a0[h], t, p).len() + at_c, key),
        reworked_flat(a1, a1[h], t, p, (out->Split_0@, out->Split_1), Some(out->Split_2)) == flat(
            a0,
            h,
            t,
        ).insert(before_kid(a0, a0[h], t, p).len() + at_c, (key, val)),
        reworked_bag(a1, a1[h], t, Some(out->Split_2)) =~= rest.add(
            grown_total(a1, a0[h].edges@[p], (t - 1) as nat, out),
        ),
        grown_total(a1, a0[h].edges@[p], (t - 1) as nat, out).count(h) == 0,
{
    let n0 = a0[h];
    let s = (t - 1) as nat;
    let child = n0.edges@[p];
    let f = before_kid(a0, n0, t, p);
    let b = after_kid(a0, n0, t, p);
    let c0 = flat(a0, child, s);
    let c1 = flat(a1, child, s);
    let bc0 = bag(a0, child, s);
    let rc = out->Split_2;
    let m = (out->Split_0@, out->Split_1);
    let cr = flat(a1, rc, s);
    let totc = bag(a1, child, s).add(bag(a1, rc, s));
    let x = (key, val);
    assert(shaped(a1, child, s, MIN_FILL as nat));
    assert(grown_frame(a0, a1, bc0, totc));
    let rest = lemma_below_common(a0, a1, h, t, min, p);
    assert(fits_at::<K, V>(flat(a0, h, t), f.len() + at_c, key)) by {
        lemma_stored(a0, h, t, min);
        lemma_descend(a0, n0, t, p, key);
        lemma_fits_within::<K, V>(f, c0, b, at_c, x);
    }
    assert(f + c1 + seq![m] + cr + b == flat(a0, h, t).insert(f.len() + at_c, x)) by {
        lemma_split_within(f, c0, c1, m, cr, b, at_c, x);
    }
    assert(node_bag(a1, n0, t).count(h) == 0 && bag(a1, rc, s).count(h) == 0) by {
        assert(a0.contains_key(h));
        assert(totc.count(h) == bc0.count(h));
    }
    assert(reworked_bag(a1, n0, t, Some(rc)) =~= rest.add(totc));
    rest
}

/// Where the middle one of three parts, with an item inserted, is cut in
/// two around a separator, the three parts with the two halves and the
/// separator in the middle are the whole with the item inserted.
pub proof fn lemma_split_within<A>(
    f: Seq<A>,
    c0: Seq<A>,
    c1: Seq<A>,
    m: A,
    cr: Seq<A>,
    b: Seq<A>,
    at: int,
    x: A,
)
    requires
        0 <= at <= c0.len(),
        c1 + seq![m] + cr == c0.insert(at, x),
    ensures
        f + c1 + seq![m] + cr + b == (f + c0 + b).insert(f.len() + at, x),
{
    assert(f + c1 + seq![m] + cr + b =~= f + (c1 + seq![m] + cr) + b);
    assert((f + c0 + b).insert(f.len() + at, x) =~= f + c0.insert(at, x) + b);
}

/// Work on the node at `h` alone that keeps the handles of its subtree adds and drops no node.
pub proof fn lemma_frame_same<K, V>(
    before: Map<u32, Node<K, V>>,
    after: Map<u32, Node<K, V>>,
    h: u32,
    t: nat,
    min: nat,
)
    requires
        shaped(before, h, t, min),
        after.dom() == before.dom(),
        forall|x: u32| #[trigger] before.contains_key(x) && x != h ==> after[x] == before[x],
    ensures
        grown_frame(before, after, bag(before, h, t), bag(before, h, t)),
{
    let b = bag(before, h, t);
    assert(b.count(h) >= 1) by {
        if t > 0 {
        }
    }
    assert forall|x: u32| #[trigger] before.contains_key(x) && b.count(x) == 0 implies after.contains_key(
        x,
    ) && after[x] == before[x] by {
        assert(after.dom().contains(x));
    }
    assert forall|x: u32| #[trigger] before.contains_key(x) implies after.contains_key(x) by {
        assert(after.dom().contains(x));
    }
    assert forall|x: u32| !#[trigger] before.contains_key(x) implies b.count(x) == if after.contains_key(
        x,
    ) {
        1nat
    } else {
        0nat
    } by {
        assert(!after.dom().contains(x));
        lemma_bag_gone(before, h, t, min, x);
    }
}

/// A handle that names no node is in no well-shaped subtree.
pub proof fn lemma_bag_gone<K, V>(nodes: Map<u32, Node<K, V>>, h: u32, t: nat, min: nat, x: u32)
    requires
        shaped(nodes, h, t, min),
        !nodes.contains_key(x),
    ensures
        bag(nodes, h, t).count(x) == 0,
{
    if bag(nodes, h, t).count(x) > 0 {
        crate::tree::lemma_bag_exists(nodes, h, t, min, x);
    }
}

/// The frame of an insertion below a node, from the frame of the
/// insertion into one of its children: `rest` are the handles of the
/// other children, `mid` is the state after the child's work and `last`
/// the state after the node's own, which changed the node itself and
/// added the node `extra`, if any.
pub proof fn lemma_grown_up<K, V>(
    first: Map<u32, Node<K, V>>,
    mid: Map<u32, Node<K, V>>,
    last: Map<u32, Node<K, V>>,
    h: u32,
    whole: Multiset<u32>,
    part: Multiset<u32>,
    part_total: Multiset<u32>,
    rest: Multiset<u32>,
    total: Multiset<u32>,
    extra: Option<u32>,
)
    requires
        first.contains_key(h),
        whole =~= Multiset::singleton(h).add(rest.add(part)),
        distinct(whole),
        forall|x: u32| #[trigger] rest.count(x) > 0 ==> first.contains_key(x),
        grown_frame(first, mid, part, part_total),
        forall|x: u32| #[trigger]
            mid.contains_key(x) && x != h ==> last.contains_key(x) && last[x] == mid[x],
        last.contains_key(h),
        match extra {
            None => last.dom() =~= mid.dom() && total =~= Multiset::singleton(h).add(
                rest.add(part_total),
            ),
            Some(r) => !mid.contains_key(r) && last.dom() =~= mid.dom().insert(r) && total
                =~= Multiset::singleton(h).add(Multiset::singleton(r)).add(rest.add(part_total)),
        },
    ensures
        grown_frame(first, last, whole, total),
        total.len() + part.len() == whole.len() + part_total.len() + if extra is Some {
            1nat
        } else {
            0nat
        },
{
    assert forall|x: u32| #[trigger] first.contains_key(x) && whole.count(x) == 0 implies last.contains_key(
        x,
    ) && last[x] == first[x] by {
        assert(part.count(x) == 0);
        assert(x != h);
        assert(mid.contains_key(x));
    }
    assert forall|x: u32| #[trigger] first.contains_key(x) implies last.contains_key(x) && total.count(x)
        == whole.count(x) by {
        assert(mid.contains_key(x));
    }
    assert forall|x: u32| !#[trigger] first.contains_key(x) implies total.count(x) == if last.contains_key(
        x,
    ) {
        1nat
    } else {
        0nat
    } by {
        assert(rest.count(x) == 0);
        assert(x != h);
        assert(last.dom().contains(x) == last.contains_key(x));
        assert(mid.dom().contains(x) == mid.contains_key(x));
    }
}

/// The state of the nodes after an insertion into the tree at `root`
/// holds exactly the nodes of the grown tree, each once.
pub proof fn lemma_grown_whole<K, V>(
    before: Map<u32, Node<K, V>>,
    after: Map<u32, Node<K, V>>,
    whole: Multiset<u32>,
    total: Multiset<u32>,
)
    requires
        distinct(whole),
        forall|x: u32| #[trigger] before.contains_key(x) <==> whole.count(x) > 0,
        grown_frame(before, after, whole, total),
    ensures
        distinct(total),
        forall|x: u32| #[trigger] after.contains_key(x) <==> total.count(x) > 0,
{
    assert forall|x: u32| #[trigger] total.count(x) <= 1 by {
        if before.contains_key(x) {
            assert(whole.count(x) <= 1);
        }
    }
    assert forall|x: u32| #[trigger] after.contains_key(x) <==> total.count(x) > 0 by {
        if before.contains_key(x) {
            assert(whole.count(x) > 0);
        }
    }
}

/// The slot that a descent ends at lies in a node of the subtree it started from.
pub proof fn lemma_descent_within<K: SortKey, V>(
    nodes: Map<u32, Node<K, V>>,
    r: u32,
    t: nat,
    min: nat,
    key: K::V,
)
    requires
        shaped(nodes, r, t, min),
    ensures
        bag(nodes, r, t).count(slot_of(descent(nodes, r, t, key)).node) > 0,
    decreases t,
{
    let keys = nodes[r].keys@;
    lemma_scan_gap::<K>(keys, key);
    let here = scan_answer::<K>(keys, r, key);
    if t == 0 || here is Found {
    } else {
        let p = scan_stop::<K>(keys, key) as int;
        let kid = nodes[r].edges@[p];
        assert(shaped(nodes, kid, (t - 1) as nat, MIN_FILL as nat));
        lemma_descent_within(nodes, kid, (t - 1) as nat, MIN_FILL as nat, key);
        lemma_stored(nodes, r, t, min);
        lemma_kid_within(nodes, nodes[r], t, p);
        let at = slot_of(descent(nodes, kid, (t - 1) as nat, key)).node;
        assert(bag(nodes, kid, (t - 1) as nat).count(at) <= node_bag(nodes, nodes[r], t).count(at));
    }
}

/// The slot that a search result names.
pub open spec fn slot_of(result: SearchResult) -> KVHandle {
    match result {
        SearchResult::Found(at) => at,
        SearchResult::NotFound(at) => at,
    }
}

/// Where the leaf that the descent for a key ends at takes the key in at
/// the position the descent names, and nothing else changes: the subtree
/// is shaped as before, its handles are the same, and its entries are
/// the same with the new entry where the key fits, whose index is
/// returned.
pub proof fn lemma_insert_deep<K: SortKey, V>(
    a0: Map<u32, Node<K, V>>,
    a1: Map<u32, Node<K, V>>,
    r: u32,
    t: nat,
    min: nat,
    key: K::V,
    h: u32,
    p: int,
) -> (at: int)
    requires
        shaped(a0, r, t, min),
        ascending::<K, V>(flat(a0, r, t)),
        distinct(bag(a0, r, t)),
        descent(a0, r, t, key) == SearchResult::NotFound(KVHandle { node: h, idx: p as u32 }),
        0 <= p <= u32::MAX,
        a0[h].keys@.len() < CAPACITY,
        a1.dom() == a0.dom(),
        forall|x: u32| #[trigger] a0.contains_key(x) && x != h ==> a1[x] == a0[x],
        a1[h].keys@.len() == a1[h].vals@.len(),
        a1[h].edges@ == a0[h].edges@,
        0 <= p <= a0[h].keys@.len() ==> a1[h].pairs() == a0[h].pairs().insert(p, a1[h].pairs()[p])
            && a1[h].pairs()[p].0 == key,
    ensures
        shaped(a1, r, t, min),
        bag(a1, r, t) == bag(a0, r, t),
        fits_at::<K, V>(flat(a0, r, t), at, key),
        0 <= p <= a0[h].keys@.len(),
        flat(a1, r, t) == flat(a0, r, t).insert(at, a1[h].pairs()[p]),
    decreases t,
{
    let n0 = a0[r];
    let keys = n0.keys@;
    lemma_stored(a0, r, t, min);
    lemma_scan_gap::<K>(keys, key);
    let stop = scan_stop::<K>(keys, key) as int;
    lemma_scan_misses::<K>(keys, r, key);
    assert(bag(a0, r, t).count(r) <= 1);
    assert forall|x: u32| #[trigger] a0.contains_key(x) && x != h implies a1.contains_key(x) && a1[x]
        == a0[x] by {
        assert(a1.dom().contains(x));
    }
    if t == 0 {
        assert(h == r && p == stop);
        let n1 = a1[h];
        assert(a1.dom().contains(h));
        lemma_leaf_fits(n0, p, key);
        lemma_stored(a1, r, t, min);
        assert(n1.pairs().len() == n0.pairs().len() + 1);
        p
    } else {
        let s = (t - 1) as nat;
        let kid = n0.edges@[stop];
        lemma_below_start(a0, r, t, min, stop, key);
        lemma_descent_within(a0, kid, s, MIN_FILL as nat, key);
        assert(kept_outside(a0, a1, bag(a0, kid, s)));
        let at_c = lemma_insert_deep(a0, a1, kid, s, MIN_FILL as nat, key, h, p);
        let rest = lemma_below_common(a0, a1, r, t, min, stop);
        let f = before_kid(a0, n0, t, stop);
        let b = after_kid(a0, n0, t, stop);
        lemma_around_kid(a0, n0, t, stop);
        lemma_descend(a0, n0, t, stop, key);
        lemma_fits_within::<K, V>(f, flat(a0, kid, s), b, at_c, a1[h].pairs()[p]);
        assert(bag(a1, r, t) =~= bag(a0, r, t));
        f.len() + at_c
    }
}

/// Slot `idx` of the node at `node` holds `key` with `val`.
pub open spec fn sits<K: SortKey, V>(
    nodes: Map<u32, Node<K, V>>,
    node: u32,
    idx: int,
    key: K::V,
    val: V,
) -> bool {
    &&& nodes.contains_key(node)
    &&& 0 <= idx < nodes[node].keys@.len()
    &&& nodes[node].keys@.len() == nodes[node].vals@.len()
    &&& nodes[node].keys@[idx]@ == key
    &&& nodes[node].vals@[idx] == val
}

/// Where the entry that went into the node at `h` at position `p` is
/// after the node was put back: at `p` where the node was not cut or `p`
/// lies left of the cut, in the new node `up` right of the cut where `p`
/// lies right of it, and nowhere, being the entry that goes up, where
/// `p` is the cut.
pub open spec fn landing(h: u32, p: int, up: Option<u32>) -> Option<KVHandle> {
    match up {
        None => Some(KVHandle { node: h, idx: p as u32 }),
        Some(r) => if p < CUT {
            Some(KVHandle { node: h, idx: p as u32 })
        } else if p == CUT {
            None
        } else {
            Some(KVHandle { node: r, idx: (p - CUT - 1) as u32 })
        },
    }
}

/// The slot that `landing` names.
pub fn place_of(h: u32, p: usize, up: Option<u32>) -> (place: Option<KVHandle>)
    requires
        p <= CAPACITY,
    ensures
        place == landing(h, p as int, up),
{
    match up {
        None => Some(KVHandle::new(h, p as u32)),
        Some(r) => if p < CUT {
            Some(KVHandle::new(h, p as u32))
        } else if p == CUT {
            None
        } else {
            Some(KVHandle::new(r, (p - CUT - 1) as u32))
        },
    }
}

/// The new node of a split, if there was one.
pub open spec fn split_off<K, V>(out: Grown<K, V>) -> Option<u32> {
    match out {
        Grown::Split(_, _, r) => Some(r),
        _ => None,
    }
}

/// The entry `key` with `val` is where `place` says: in the slot it
/// names, which lies in a node of the grown subtree, or, where it names
/// none, in the entry that the split hands up.
pub open spec fn placed<K: SortKey, V>(
    after: Map<u32, Node<K, V>>,
    h: u32,
    t: nat,
    out: Grown<K, V>,
    place: Option<KVHandle>,
    key: K::V,
    val: V,
) -> bool {
    match place {
        Some(at) => sits(after, at.node, at.idx as int, key, val) && grown_total(after, h, t, out).count(
            at.node,
        ) > 0,
        None => out is Split && out->Split_0@ == key && out->Split_1 == val,
    }
}

/// The insertion is led: `leaf` is the slot at which a search for `key`
/// from the node at `h` ended without finding it, and `way` holds, from
/// `depth` on, the route of that search. An insertion that is not led
/// has no `leaf`.
pub open spec fn led<K: SortKey, V>(
    nodes: Map<u32, Node<K, V>>,
    h: u32,
    t: nat,
    key: K::V,
    way: Seq<u32>,
    depth: int,
    leaf: Option<KVHandle>,
) -> bool {
    match leaf {
        Some(at) => {
            &&& 0 <= depth <= way.len()
            &&& descent(nodes, h, t, key) == SearchResult::NotFound(at)
            &&& route(nodes, h, t, key) == way.skip(depth)
        },
        None => true,
    }
}

/// What a led insertion knows at the node at `h` without scanning its
/// keys: the key belongs at the position the leaf slot names, in a leaf,
/// or at the position the route names, in an internal node, and from
/// there the insertion is led into the child at that position.
pub proof fn lemma_led_here<K: SortKey, V>(
    nodes: Map<u32, Node<K, V>>,
    h: u32,
    t: nat,
    min: nat,
    key: K::V,
    way: Seq<u32>,
    depth: int,
    at: KVHandle,
)
    requires
        shaped(nodes, h, t, min),
        led(nodes, h, t, key, way, depth, Some(at)),
    ensures
        scan_stop::<K>(nodes[h].keys@, key) <= CAPACITY,
        key_gap::<K>(nodes[h].keys@, key, scan_stop::<K>(nodes[h].keys@, key) as int),
        t == 0 ==> at == (KVHandle { node: h, idx: scan_stop::<K>(nodes[h].keys@, key) as u32 }),
        t > 0 ==> depth < way.len() && way[depth] == scan_stop::<K>(nodes[h].keys@, key) && led(
            nodes,
            nodes[h].edges@[scan_stop::<K>(nodes[h].keys@, key) as int],
            (t - 1) as nat,
            key,
            way,
            depth + 1,
            Some(at),
        ),
{
    let keys = nodes[h].keys@;
    lemma_scan_gap::<K>(keys, key);
    lemma_scan_misses::<K>(keys, h, key);
    if t > 0 {
        let stop = scan_stop::<K>(keys, key);
        let rest = route(nodes, nodes[h].edges@[stop as int], (t - 1) as nat, key);
        assert(way.skip(depth) == seq![stop as u32] + rest);
        assert(way.skip(depth)[0] == stop as u32);
        assert(way.skip(depth + 1) =~= rest) by {
            assert(way.skip(depth + 1) =~= way.skip(depth).skip(1));
        }
    }
}

/// Where the entry is after the node at `h` took in what its child
/// handed up: where it was in the child's subtree, which the work on the
/// node left alone, or, where the entry itself was handed up, where it
/// landed in the node.
pub proof fn lemma_placed_up<K: SortKey, V>(
    a1: Map<u32, Node<K, V>>,
    a2: Map<u32, Node<K, V>>,
    h: u32,
    t: nat,
    p: int,
    key: K::V,
    val: V,
    below: Option<KVHandle>,
    below_total: Multiset<u32>,
    up: (K::V, V),
    out: Grown<K, V>,
)
    requires
        match below {
            Some(at) => sits(a1, at.node, at.idx as int, key, val) && below_total.count(at.node) > 0,
            None => up == (key, val),
        },
        below_total.count(h) == 0,
        forall|x: u32| #[trigger] a1.contains_key(x) && x != h ==> a2.contains_key(x) && a2[x] == a1[x],
        !(out is Replaced),
        match landing(h, p, split_off(out)) {
            Some(at) => sits(a2, at.node, at.idx as int, up.0, up.1),
            None => out is Split && out->Split_0@ == up.0 && out->Split_1 == up.1,
        },
        below_total.subset_of(grown_total(a2, h, t, out)),
        bag(a2, h, t).count(h) > 0,
        out is Split ==> bag(a2, out->Split_2, t).count(out->Split_2) > 0,
    ensures
        placed(
            a2,
            h,
            t,
            out,
            match below {
                Some(at) => Some(at),
                None => landing(h, p, split_off(out)),
            },
            key,
            val,
        ),
{
    match below {
        Some(at) => {
            assert(a1.contains_key(at.node));
            assert(below_total.count(at.node) <= grown_total(a2, h, t, out).count(at.node));
        },
        None => {},
    }
}

} // verus!
