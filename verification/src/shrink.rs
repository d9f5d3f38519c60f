//! What a removal does to a subtree, and why the tree stays a tree.

use crate::balance::{lemma_loose_bag, loose, trio};
use crate::grow::{grown_frame, lemma_below_common};
use crate::node::{CAPACITY, MIN_FILL, Node};
use crate::order::SortKey;
use crate::seqs::{as_map, lacks};
use crate::tree::{
    after_kid, bag, before_kid, distinct, flat, kept_outside, lemma_around_kid, lemma_fits_within,
    lemma_kept_but_one, lemma_kid_reworked, lemma_kid_within, lemma_node_kept, lemma_revalue,
    lemma_shaped_weaken, lemma_slot_place, lemma_stored, node_bag, node_flat, node_shaped, shaped,
    slot_place, subtrees_kept,
};
use vstd::multiset::Multiset;
use vstd::prelude::*;

verus! {

/// After keys were moved between the children `j` and `j + 1` of the node
/// at `h`: the entries of the subtree are the same, the node holds as many
/// keys as before, the two children are well shaped, and every other child
/// is shaped as before.
pub open spec fn rebuilt<K: SortKey, V>(
    a0: Map<u32, Node<K, V>>,
    a1: Map<u32, Node<K, V>>,
    h: u32,
    t: nat,
    min: nat,
    j: int,
) -> bool {
    &&& flat(a1, h, t) == flat(a0, h, t)
    &&& a1.contains_key(h)
    &&& a1[h].fits(false, min, CAPACITY as nat)
    &&& shaped(a1, a0[h].edges@[j], (t - 1) as nat, MIN_FILL as nat)
    &&& shaped(a1, a0[h].edges@[j + 1], (t - 1) as nat, MIN_FILL as nat)
    &&& forall|i: int, m: nat|
        0 <= i < a0[h].edges@.len() && i != j && i != j + 1 && #[trigger] shaped(
            a0,
            a0[h].edges@[i],
            (t - 1) as nat,
            m,
        ) ==> shaped(a1, a0[h].edges@[i], (t - 1) as nat, m)
}

/// Every node that `after` holds, `before` held; what lies outside `sub`
/// is as it was; and `left` are the handles of `sub` that `after` still holds.
pub open spec fn shrunk_frame<K, V>(
    before: Map<u32, Node<K, V>>,
    after: Map<u32, Node<K, V>>,
    sub: Multiset<u32>,
    left: Multiset<u32>,
) -> bool {
    &&& kept_outside(before, after, sub)
    &&& forall|x: u32| #[trigger] after.contains_key(x) ==> before.contains_key(x)
    &&& forall|x: u32|
        #![trigger left.count(x)]
        #![trigger sub.count(x)]
        left.count(x) == if after.contains_key(x) {
            sub.count(x)
        } else {
            0nat
        }
}

/// Two steps of shrinking, one after the other, are one.
pub proof fn lemma_shrunk_twice<K, V>(
    a0: Map<u32, Node<K, V>>,
    a1: Map<u32, Node<K, V>>,
    a2: Map<u32, Node<K, V>>,
    b0: Multiset<u32>,
    b1: Multiset<u32>,
    b2: Multiset<u32>,
)
    requires
        shrunk_frame(a0, a1, b0, b1),
        shrunk_frame(a1, a2, b1, b2),
    ensures
        shrunk_frame(a0, a2, b0, b2),
{
    assert forall|x: u32| #[trigger] a0.contains_key(x) && b0.count(x) == 0 implies a2.contains_key(x)
        && a2[x] == a0[x] by {
        assert(a1.contains_key(x));
        assert(b1.count(x) == 0);
    }
    assert forall|x: u32| #[trigger] a2.contains_key(x) implies a0.contains_key(x) by {
        assert(a1.contains_key(x));
    }
    assert forall|x: u32|
        #![trigger b2.count(x)]
        #![trigger b0.count(x)]
        b2.count(x) == if a2.contains_key(x) {
            b0.count(x)
        } else {
            0nat
        } by {
        if a2.contains_key(x) {
            assert(a1.contains_key(x));
        }
        assert(b1.count(x) == if a1.contains_key(x) {
            b0.count(x)
        } else {
            0nat
        });
    }
}

/// The frame of a removal below a node, from the frame of the removal
/// from one of its children; `rest` are the handles of the other children.
pub proof fn lemma_shrunk_up<K, V>(
    a0: Map<u32, Node<K, V>>,
    a1: Map<u32, Node<K, V>>,
    h: u32,
    whole: Multiset<u32>,
    part: Multiset<u32>,
    part_left: Multiset<u32>,
    rest: Multiset<u32>,
    left: Multiset<u32>,
)
    requires
        a0.contains_key(h),
        a1.contains_key(h),
        whole =~= Multiset::singleton(h).add(rest.add(part)),
        left =~= Multiset::singleton(h).add(rest.add(part_left)),
        distinct(whole),
        forall|x: u32| #[trigger] rest.count(x) > 0 ==> a0.contains_key(x),
        shrunk_frame(a0, a1, part, part_left),
    ensures
        shrunk_frame(a0, a1, whole, left),
        left.len() + part.len() == whole.len() + part_left.len(),
{
    assert forall|x: u32| #[trigger] a0.contains_key(x) && whole.count(x) == 0 implies a1.contains_key(x)
        && a1[x] == a0[x] by {
        assert(part.count(x) == 0);
    }
    assert forall|x: u32|
        #![trigger left.count(x)]
        #![trigger whole.count(x)]
        left.count(x) == if a1.contains_key(x) {
            whole.count(x)
        } else {
            0nat
        } by {
        assert(part_left.count(x) == if a1.contains_key(x) {
            part.count(x)
        } else {
            0nat
        });
        if !a1.contains_key(x) {
            assert(x != h);
            if a0.contains_key(x) {
                assert(part.count(x) > 0);
                assert(whole.count(x) <= 1);
            } else {
                assert(rest.count(x) == 0);
            }
        }
    }
}

/// Every handle of a loosely shaped subtree names a node that exists.
pub proof fn lemma_loose_exists<K, V>(nodes: Map<u32, Node<K, V>>, h: u32, t: nat, min: nat, x: u32)
    requires
        loose(nodes, h, t, min),
        !nodes.contains_key(x),
    ensures
        bag(nodes, h, t).count(x) == 0,
{
    if bag(nodes, h, t).count(x) > 0 {
        let kb = crate::tree::kid_bags(nodes, nodes[h].edges@, (t - 1) as nat);
        crate::tree::lemma_bag_sum_hit(kb, x);
        let i = choose|i: int| 0 <= i < kb.len() && kb[i].count(x) > 0;
        assert(shaped(nodes, nodes[h].edges@[i], (t - 1) as nat, (MIN_FILL - 1) as nat));
        crate::tree::lemma_bag_exists(nodes, nodes[h].edges@[i], (t - 1) as nat, (MIN_FILL - 1) as nat, x);
    }
}

/// After work inside the subtree of child `p` of the node at `h` that may
/// have left the child one key short: the node is as it was and its other
/// children are well shaped; its entries are those before the child, the
/// child's new ones and those after; its handles are its own, those of
/// the other children, which are returned, and the child's new ones.
pub proof fn lemma_below_loose<K: SortKey, V>(
    a0: Map<u32, Node<K, V>>,
    a1: Map<u32, Node<K, V>>,
    h: u32,
    t: nat,
    min: nat,
    p: int,
) -> (rest: Multiset<u32>)
    requires
        t > 0,
        shaped(a0, h, t, min),
        distinct(bag(a0, h, t)),
        0 <= p < a0[h].edges@.len(),
        kept_outside(a0, a1, bag(a0, a0[h].edges@[p], (t - 1) as nat)),
        shaped(a1, a0[h].edges@[p], (t - 1) as nat, (MIN_FILL - 1) as nat),
    ensures
        a1.contains_key(h),
        a1[h] == a0[h],
        loose(a1, h, t, min),
        forall|i: int|
            0 <= i < a0[h].edges@.len() && i != p ==> shaped(
                a1,
                #[trigger] a0[h].edges@[i],
                (t - 1) as nat,
                MIN_FILL as nat,
            ),
        flat(a0, h, t) == before_kid(a0, a0[h], t, p) + flat(a0, a0[h].edges@[p], (t - 1) as nat)
            + after_kid(a0, a0[h], t, p),
        flat(a1, h, t) == before_kid(a0, a0[h], t, p) + flat(a1, a0[h].edges@[p], (t - 1) as nat)
            + after_kid(a0, a0[h], t, p),
        before_kid(a1, a0[h], t, p) == before_kid(a0, a0[h], t, p),
        after_kid(a1, a0[h], t, p) == after_kid(a0, a0[h], t, p),
        bag(a0, h, t) =~= Multiset::singleton(h).add(
            rest.add(bag(a0, a0[h].edges@[p], (t - 1) as nat)),
        ),
        bag(a1, h, t) =~= Multiset::singleton(h).add(
            rest.add(bag(a1, a0[h].edges@[p], (t - 1) as nat)),
        ),
        forall|x: u32| #[trigger] rest.count(x) > 0 ==> a0.contains_key(x),
{
    let n0 = a0[h];
    let s = (t - 1) as nat;
    let child = n0.edges@[p];
    lemma_stored(a0, h, t, min);
    lemma_around_kid(a0, n0, t, p);
    let rest = lemma_kid_reworked(a0, a1, h, n0, t, min, CAPACITY as nat, p);
    assert(a0.contains_key(h));
    assert(bag(a0, child, s).count(h) == 0);
    assert(a1.contains_key(h) && a1[h] == n0);
    assert forall|i: int| 0 <= i < n0.edges@.len() implies shaped(
        a1,
        #[trigger] n0.edges@[i],
        s,
        (MIN_FILL - 1) as nat,
    ) by {
        if i != p {
            lemma_shaped_weaken(a1, n0.edges@[i], s, MIN_FILL as nat, (MIN_FILL - 1) as nat);
        }
    }
    lemma_stored(a1, h, t, min);
    lemma_around_kid(a1, n0, t, p);
    rest
}

/// A loosely shaped node all of whose children are at the minimum fill is well shaped.
pub proof fn lemma_fixed_same<K: SortKey, V>(a0: Map<u32, Node<K, V>>, h: u32, t: nat, min: nat)
    requires
        loose(a0, h, t, min),
        min >= 1,
        forall|i: int|
            0 <= i < a0[h].edges@.len() ==> a0[#[trigger] a0[h].edges@[i]].keys@.len() >= MIN_FILL || shaped(
                a0,
                a0[h].edges@[i],
                (t - 1) as nat,
                MIN_FILL as nat,
            ),
    ensures
        shaped(a0, h, t, (min - 1) as nat),
        shrunk_frame(a0, a0, bag(a0, h, t), bag(a0, h, t)),
{
    let s = (t - 1) as nat;
    assert forall|i: int| 0 <= i < a0[h].edges@.len() implies shaped(
        a0,
        #[trigger] a0[h].edges@[i],
        s,
        MIN_FILL as nat,
    ) by {
        let kid = a0[h].edges@[i];
        assert(shaped(a0, kid, s, (MIN_FILL - 1) as nat));
        if a0[kid].keys@.len() >= MIN_FILL {
            lemma_stored(a0, kid, s, MIN_FILL as nat);
            lemma_stored(a0, kid, s, (MIN_FILL - 1) as nat);
        }
    }
    assert forall|x: u32|
        #![trigger bag(a0, h, t).count(x)]
        bag(a0, h, t).count(x) == if a0.contains_key(x) {
            bag(a0, h, t).count(x)
        } else {
            0nat
        } by {
        if !a0.contains_key(x) {
            lemma_loose_exists(a0, h, t, min, x);
        }
    }
}

/// After keys were moved between the children `j` and `j + 1`, one of
/// which is the child `p` that was short, the node is well shaped.
pub proof fn lemma_fixed_moved<K: SortKey, V>(
    a0: Map<u32, Node<K, V>>,
    a1: Map<u32, Node<K, V>>,
    h: u32,
    t: nat,
    min: nat,
    p: int,
    j: int,
)
    requires
        loose(a0, h, t, min),
        min >= 1,
        distinct(bag(a0, h, t)),
        0 <= j < a0[h].keys@.len(),
        p == j || p == j + 1,
        forall|i: int|
            0 <= i < a0[h].edges@.len() && i != p ==> shaped(
                a0,
                #[trigger] a0[h].edges@[i],
                (t - 1) as nat,
                MIN_FILL as nat,
            ),
        a1.dom() == a0.dom(),
        kept_outside(a0, a1, trio(a0, h, j)),
        rebuilt(a0, a1, h, t, min, j),
        a1[h].edges@ == a0[h].edges@,
        bag(a1, h, t) == bag(a0, h, t),
    ensures
        shaped(a1, h, t, (min - 1) as nat),
        shrunk_frame(a0, a1, bag(a0, h, t), bag(a1, h, t)),
{
    let s = (t - 1) as nat;
    let b0 = bag(a0, h, t);
    lemma_loose_bag(a0, h, t, min, j);
    lemma_loose_bag(a0, h, t, min, j + 1);
    assert forall|i: int| 0 <= i < a1[h].edges@.len() implies shaped(
        a1,
        #[trigger] a1[h].edges@[i],
        s,
        MIN_FILL as nat,
    ) by {
        if i != j && i != j + 1 {
            assert(shaped(a0, a0[h].edges@[i], s, MIN_FILL as nat));
        }
    }
    assert forall|x: u32| #[trigger] a0.contains_key(x) && b0.count(x) == 0 implies a1.contains_key(x)
        && a1[x] == a0[x] by {
        assert(bag(a0, a0[h].edges@[j], s).count(x) <= node_bag(a0, a0[h], t).count(x));
        assert(bag(a0, a0[h].edges@[j + 1], s).count(x) <= node_bag(a0, a0[h], t).count(x));
        assert(trio(a0, h, j).count(x) == 0);
    }
    assert forall|x: u32| #[trigger] a1.contains_key(x) implies a0.contains_key(x) by {
        assert(a1.dom().contains(x));
    }
    assert forall|x: u32|
        #![trigger b0.count(x)]
        b0.count(x) == if a1.contains_key(x) {
            b0.count(x)
        } else {
            0nat
        } by {
        if !a1.contains_key(x) {
            assert(!a0.dom().contains(x));
            lemma_loose_exists(a0, h, t, min, x);
        }
    }
}

/// After the children `j` and `j + 1` were joined, one of which is the
/// child `p` that was short, the node is well shaped but that it may be
/// one key short itself.
pub proof fn lemma_fixed_joined<K: SortKey, V>(
    a0: Map<u32, Node<K, V>>,
    a1: Map<u32, Node<K, V>>,
    h: u32,
    t: nat,
    min: nat,
    p: int,
    j: int,
)
    requires
        loose(a0, h, t, min),
        min >= 1,
        distinct(bag(a0, h, t)),
        0 <= j < a0[h].keys@.len(),
        p == j || p == j + 1,
        forall|i: int|
            0 <= i < a0[h].edges@.len() && i != p ==> shaped(
                a0,
                #[trigger] a0[h].edges@[i],
                (t - 1) as nat,
                MIN_FILL as nat,
            ),
        a1.dom() == a0.dom().remove(a0[h].edges@[j + 1]),
        kept_outside(a0, a1, trio(a0, h, j)),
        bag(a0, h, t) == bag(a1, h, t).add(Multiset::singleton(a0[h].edges@[j + 1])),
        a1.contains_key(h),
        a1[h].fits(false, (min - 1) as nat, CAPACITY as nat),
        a1[h].edges@ == a0[h].edges@.remove(j + 1),
        shaped(a1, a0[h].edges@[j], (t - 1) as nat, MIN_FILL as nat),
        forall|i: int, m: nat|
            0 <= i < a0[h].edges@.len() && i != j && i != j + 1 && #[trigger] shaped(
                a0,
                a0[h].edges@[i],
                (t - 1) as nat,
                m,
            ) ==> shaped(a1, a0[h].edges@[i], (t - 1) as nat, m),
    ensures
        shaped(a1, h, t, (min - 1) as nat),
        shrunk_frame(a0, a1, bag(a0, h, t), bag(a1, h, t)),
        bag(a0, h, t).len() == bag(a1, h, t).len() + 1,
{
    let s = (t - 1) as nat;
    let b0 = bag(a0, h, t);
    let b1 = bag(a1, h, t);
    let c = a0[h].edges@[j + 1];
    lemma_loose_bag(a0, h, t, min, j);
    lemma_loose_bag(a0, h, t, min, j + 1);
    assert forall|i: int| 0 <= i < a1[h].edges@.len() implies shaped(
        a1,
        #[trigger] a1[h].edges@[i],
        s,
        MIN_FILL as nat,
    ) by {
        if i < j {
            assert(a1[h].edges@[i] == a0[h].edges@[i]);
            assert(shaped(a0, a0[h].edges@[i], s, MIN_FILL as nat));
        } else if i > j {
            assert(a1[h].edges@[i] == a0[h].edges@[i + 1]);
            assert(shaped(a0, a0[h].edges@[i + 1], s, MIN_FILL as nat));
        } else {
            assert(a1[h].edges@[i] == a0[h].edges@[j]);
        }
    }
    assert forall|x: u32| #[trigger] a0.contains_key(x) && b0.count(x) == 0 implies a1.contains_key(x)
        && a1[x] == a0[x] by {
        assert(bag(a0, a0[h].edges@[j], s).count(x) <= node_bag(a0, a0[h], t).count(x));
        assert(bag(a0, c, s).count(x) <= node_bag(a0, a0[h], t).count(x));
        assert(trio(a0, h, j).count(x) == 0);
    }
    assert forall|x: u32| #[trigger] a1.contains_key(x) implies a0.contains_key(x) by {
        assert(a1.dom().contains(x));
    }
    assert(bag(a0, c, s).count(c) <= node_bag(a0, a0[h], t).count(c));
    assert(b0.count(c) <= 1);
    assert forall|x: u32|
        #![trigger b1.count(x)]
        #![trigger b0.count(x)]
        b1.count(x) == if a1.contains_key(x) {
            b0.count(x)
        } else {
            0nat
        } by {
        assert(a1.dom().contains(x) == a1.contains_key(x));
        if x != c && !a1.contains_key(x) {
            assert(!a0.dom().contains(x));
            lemma_loose_exists(a0, h, t, min, x);
        }
    }
}

/// What a removal from the subtree at `h` leaves behind: the subtree is
/// well shaped but that its top node may hold one key less than `min`,
/// and nodes were given back but none added or changed outside it.
pub open spec fn shrunk<K: SortKey, V>(
    before: Map<u32, Node<K, V>>,
    after: Map<u32, Node<K, V>>,
    h: u32,
    t: nat,
    min: nat,
) -> bool {
    &&& shaped(after, h, t, (min - 1) as nat)
    &&& shrunk_frame(before, after, bag(before, h, t), bag(after, h, t))
}

/// A removal from child `p` of the node at `h`, then the repair of that
/// child, is a removal from the subtree at `h`.
pub proof fn lemma_shrunk_done<K: SortKey, V>(
    a0: Map<u32, Node<K, V>>,
    a1: Map<u32, Node<K, V>>,
    a2: Map<u32, Node<K, V>>,
    h: u32,
    t: nat,
    min: nat,
    p: int,
    rest: Multiset<u32>,
)
    requires
        t > 0,
        min >= 1,
        a0.contains_key(h),
        a1.contains_key(h),
        distinct(bag(a0, h, t)),
        0 <= p < a0[h].edges@.len(),
        shrunk(a0, a1, a0[h].edges@[p], (t - 1) as nat, MIN_FILL as nat),
        bag(a0, h, t) =~= Multiset::singleton(h).add(
            rest.add(bag(a0, a0[h].edges@[p], (t - 1) as nat)),
        ),
        bag(a1, h, t) =~= Multiset::singleton(h).add(
            rest.add(bag(a1, a0[h].edges@[p], (t - 1) as nat)),
        ),
        forall|x: u32| #[trigger] rest.count(x) > 0 ==> a0.contains_key(x),
        shaped(a2, h, t, (min - 1) as nat),
        shrunk_frame(a1, a2, bag(a1, h, t), bag(a2, h, t)),
    ensures
        shrunk(a0, a2, h, t, min),
        bag(a1, h, t).len() + bag(a0, a0[h].edges@[p], (t - 1) as nat).len() == bag(a0, h, t).len()
            + bag(a1, a0[h].edges@[p], (t - 1) as nat).len(),
        distinct(bag(a1, h, t)),
{
    let s = (t - 1) as nat;
    let child = a0[h].edges@[p];
    lemma_shrunk_up(
        a0,
        a1,
        h,
        bag(a0, h, t),
        bag(a0, child, s),
        bag(a1, child, s),
        rest,
        bag(a1, h, t),
    );
    lemma_shrunk_twice(a0, a1, a2, bag(a0, h, t), bag(a1, h, t), bag(a2, h, t));
    assert forall|x: u32| #[trigger] bag(a1, h, t).count(x) <= 1 by {
        assert(bag(a0, h, t).count(x) <= 1);
    }
}

/// Before a removal goes from a node into its child `p`: the child's
/// subtree is well shaped and free of repeated handles, and holds no more
/// nodes than the subtree of the node.
pub proof fn lemma_below_pre<K: SortKey, V>(nodes: Map<u32, Node<K, V>>, h: u32, t: nat, min: nat, p: int)
    requires
        t > 0,
        shaped(nodes, h, t, min),
        distinct(bag(nodes, h, t)),
        0 <= p < nodes[h].edges@.len(),
    ensures
        shaped(nodes, nodes[h].edges@[p], (t - 1) as nat, MIN_FILL as nat),
        distinct(bag(nodes, nodes[h].edges@[p], (t - 1) as nat)),
        bag(nodes, nodes[h].edges@[p], (t - 1) as nat).len() <= bag(nodes, h, t).len(),
{
    let n0 = nodes[h];
    let s = (t - 1) as nat;
    lemma_stored(nodes, h, t, min);
    lemma_kid_within(nodes, n0, t, p);
    assert(shaped(nodes, n0.edges@[p], s, MIN_FILL as nat));
    assert forall|x: u32| #[trigger] bag(nodes, n0.edges@[p], s).count(x) <= 1 by {
        assert(bag(nodes, n0.edges@[p], s).count(x) <= node_bag(nodes, n0, t).count(x));
        assert(bag(nodes, h, t).count(x) <= 1);
    }
    let kb = crate::tree::kid_bags(nodes, n0.edges@, s);
    crate::seqs::lemma_bag_sum_at(kb, p);
}

/// Work that adds no node, drops none and keeps the handles of a subtree is a shrinking by nothing.
pub proof fn lemma_same_shrunk<K, V>(before: Map<u32, Node<K, V>>, after: Map<u32, Node<K, V>>, b: Multiset<u32>)
    requires
        grown_frame(before, after, b, b),
        after.dom() == before.dom(),
    ensures
        shrunk_frame(before, after, b, b),
{
    assert forall|x: u32| #[trigger] after.contains_key(x) implies before.contains_key(x) by {
        assert(after.dom().contains(x));
    }
    assert forall|x: u32|
        #![trigger b.count(x)]
        b.count(x) == if after.contains_key(x) {
            b.count(x)
        } else {
            0nat
        } by {
        if !after.contains_key(x) {
            assert(!before.dom().contains(x));
            assert(!before.contains_key(x));
        }
    }
}

/// Where the last entry of the middle part takes the place of the first
/// entry of the last part, that first entry is what is removed from the whole.
pub proof fn lemma_swap_last<A>(f: Seq<A>, c: Seq<A>, b: Seq<A>)
    requires
        c.len() > 0,
        b.len() > 0,
    ensures
        (f + c.drop_last() + b).update(f.len() + c.len() - 1, c.last()) == (f + c + b).remove(
            (f.len() + c.len()) as int,
        ),
        (f + c + b)[(f.len() + c.len()) as int] == b[0],
{
    assert((f + c.drop_last() + b).update(f.len() + c.len() - 1, c.last()) =~= (f + c + b).remove(
        (f.len() + c.len()) as int,
    ));
}

/// A key that lies after all of the first part and before all of the
/// last, and that the middle part lacks, the whole lacks.
pub proof fn lemma_lacks_within<K: SortKey, V>(
    f: Seq<(K::V, V)>,
    c: Seq<(K::V, V)>,
    b: Seq<(K::V, V)>,
    key: K::V,
)
    requires
        forall|i: int| 0 <= i < f.len() ==> K::precedes((#[trigger] f[i]).0, key),
        forall|i: int| 0 <= i < b.len() ==> K::precedes(key, (#[trigger] b[i]).0),
        lacks::<K, V>(c, key),
    ensures
        lacks::<K, V>(f + c + b, key),
{
    let w = f + c + b;
    K::precedes_irreflexive(key);
    assert forall|i: int| 0 <= i < w.len() implies (#[trigger] w[i]).0 != key by {
        if i < f.len() {
            assert(w[i] == f[i]);
        } else if i < f.len() + c.len() {
            assert(w[i] == c[i - f.len()]);
        } else {
            assert(w[i] == b[i - f.len() - c.len()]);
        }
    }
}

/// After the node at `h` alone got another entry in place of its entry
/// `p`: the subtree is shaped as before, its entries are the same but for
/// that one, and its handles are the same.
pub proof fn lemma_reseated<K: SortKey, V>(
    a1: Map<u32, Node<K, V>>,
    a2: Map<u32, Node<K, V>>,
    h: u32,
    t: nat,
    min: nat,
    p: int,
)
    requires
        loose(a1, h, t, min),
        distinct(bag(a1, h, t)),
        0 <= p < a1[h].keys@.len(),
        a2.dom() == a1.dom(),
        forall|x: u32| #[trigger] a1.contains_key(x) && x != h ==> a2[x] == a1[x],
        a2[h].keys@.len() == a2[h].vals@.len(),
        a2[h].keys@.len() == a1[h].keys@.len(),
        a2[h].edges@ == a1[h].edges@,
        a2[h].pairs() == a1[h].pairs().update(p, a2[h].pairs()[p]),
    ensures
        loose(a2, h, t, min),
        flat(a2, h, t) == flat(a1, h, t).update(slot_place(a1, a1[h], t, p), a2[h].pairs()[p]),
        bag(a2, h, t) == bag(a1, h, t),
        shrunk_frame(a1, a2, bag(a1, h, t), bag(a1, h, t)),
        forall|i: int, m: nat|
            0 <= i < a1[h].edges@.len() && #[trigger] shaped(a1, a1[h].edges@[i], (t - 1) as nat, m)
                ==> shaped(a2, a1[h].edges@[i], (t - 1) as nat, m),
{
    let s = (t - 1) as nat;
    let n1 = a1[h];
    let n2 = a2[h];
    let touched = Multiset::singleton(h);
    assert(a2.dom().contains(h));
    assert(kept_outside(a1, a2, touched)) by {
        assert forall|x: u32| #[trigger] a1.contains_key(x) && touched.count(x) == 0 implies a2.contains_key(
            x,
        ) && a2[x] == a1[x] by {
            assert(a2.dom().contains(x));
        }
    }
    assert forall|i: int| 0 <= i < n1.edges@.len() implies shaped(a1, #[trigger] n1.edges@[i], s, 0) by {
        assert(shaped(a1, n1.edges@[i], s, (MIN_FILL - 1) as nat));
        lemma_shaped_weaken(a1, n1.edges@[i], s, (MIN_FILL - 1) as nat, 0);
    }
    assert forall|i: int, x: u32|
        0 <= i < n1.edges@.len() && #[trigger] bag(a1, n1.edges@[i], s).count(x) > 0 implies touched.count(
        x,
    ) == 0 by {
        lemma_loose_bag(a1, h, t, min, i);
        assert(bag(a1, n1.edges@[i], s).count(x) <= node_bag(a1, n1, t).count(x));
        assert(bag(a1, h, t).count(x) <= 1);
    }
    crate::tree::lemma_edges_kept(a1, a2, n1.edges@, s, touched);
    lemma_revalue(a1, n1, n2, t, p);
    lemma_stored(a1, h, t, min);
    lemma_stored(a2, h, t, min);
    assert(node_flat(a2, n2, t) == node_flat(a1, n2, t));
    assert(node_bag(a2, n2, t) == node_bag(a1, n2, t));
    assert forall|x: u32| #[trigger] a2.contains_key(x) implies a1.contains_key(x) by {
        assert(a2.dom().contains(x));
    }
    let b1 = bag(a1, h, t);
    assert forall|x: u32|
        #![trigger b1.count(x)]
        b1.count(x) == if a2.contains_key(x) {
            b1.count(x)
        } else {
            0nat
        } by {
        if !a2.contains_key(x) {
            assert(!a1.dom().contains(x));
            lemma_loose_exists(a1, h, t, min, x);
        }
    }
    assert forall|x: u32| #[trigger] a1.contains_key(x) && b1.count(x) == 0 implies a2.contains_key(x)
        && a2[x] == a1[x] by {
        assert(a2.dom().contains(x));
    }
}

/// The state of the nodes after a removal from the tree at the root
/// holds exactly the nodes of the shrunk tree, each once.
pub proof fn lemma_shrunk_whole<K, V>(
    before: Map<u32, Node<K, V>>,
    after: Map<u32, Node<K, V>>,
    whole: Multiset<u32>,
    left: Multiset<u32>,
)
    requires
        distinct(whole),
        forall|x: u32| #[trigger] before.contains_key(x) <==> whole.count(x) > 0,
        shrunk_frame(before, after, whole, left),
    ensures
        distinct(left),
        forall|x: u32| #[trigger] after.contains_key(x) <==> left.count(x) > 0,
{
    assert forall|x: u32| #[trigger] left.count(x) <= 1 by {
        assert(whole.count(x) <= 1);
    }
    assert forall|x: u32| #[trigger] after.contains_key(x) <==> left.count(x) > 0 by {
        if after.contains_key(x) {
            assert(before.contains_key(x));
            assert(whole.count(x) > 0);
        }
        assert(left.count(x) == if after.contains_key(x) {
            whole.count(x)
        } else {
            0nat
        });
    }
}

/// A map lacks a key that its entries lack, and removing the key leaves it as it is.
pub proof fn lemma_lacks_map<K: SortKey, V>(s: Seq<(K::V, V)>, key: K::V)
    requires
        lacks::<K, V>(s, key),
    ensures
        !as_map::<K, V>(s).contains_key(key),
        as_map::<K, V>(s).remove(key) == as_map::<K, V>(s),
{
    assert(as_map::<K, V>(s).remove(key) =~= as_map::<K, V>(s));
}

/// A root without keys above a single child: the child's subtree has the
/// entries of the whole tree, and all its handles but the root's.
pub proof fn lemma_root_lowered<K: SortKey, V>(a1: Map<u32, Node<K, V>>, a2: Map<u32, Node<K, V>>, root: u32, t: nat)
    requires
        t > 0,
        shaped(a1, root, t, 0),
        a1[root].keys@.len() == 0,
        distinct(bag(a1, root, t)),
        a2 == a1.remove(root),
        subtrees_kept(a1, a2, root),
    ensures
        shaped(a2, a1[root].edges@[0], (t - 1) as nat, 1),
        flat(a2, a1[root].edges@[0], (t - 1) as nat) == flat(a1, root, t),
        bag(a1, root, t) =~= bag(a2, a1[root].edges@[0], (t - 1) as nat).add(
            Multiset::singleton(root),
        ),
{
    let n = a1[root];
    let s = (t - 1) as nat;
    let kid = n.edges@[0];
    lemma_stored(a1, root, t, 0);
    assert(shaped(a1, kid, s, MIN_FILL as nat));
    lemma_kid_within(a1, n, t, 0);
    assert(bag(a1, kid, s).count(root) <= node_bag(a1, n, t).count(root));
    assert(bag(a1, root, t).count(root) <= 1);
    lemma_shaped_weaken(a2, kid, s, MIN_FILL as nat, 1);
    lemma_around_kid(a1, n, t, 0);
    assert(node_flat(a1, n, t) =~= flat(a1, kid, s));
    let kb = crate::tree::kid_bags(a1, n.edges@, s);
    assert(kb =~= seq![bag(a1, kid, s)]);
    crate::seqs::lemma_bag_sum_one(bag(a1, kid, s));
}

/// Where one node of a subtree gets another entry in place of its entry
/// `p`, and nothing else changes: the subtree is shaped as before, its
/// handles are the same, and its entries are the same but for that one,
/// whose index is returned.
pub proof fn lemma_value_deep<K: SortKey, V>(
    a0: Map<u32, Node<K, V>>,
    a1: Map<u32, Node<K, V>>,
    r: u32,
    t: nat,
    min: nat,
    h: u32,
    p: int,
) -> (at: int)
    requires
        shaped(a0, r, t, min),
        distinct(bag(a0, r, t)),
        bag(a0, r, t).count(h) > 0,
        0 <= p < a0[h].keys@.len(),
        a1.dom() == a0.dom(),
        forall|x: u32| #[trigger] a0.contains_key(x) && x != h ==> a1[x] == a0[x],
        a1[h].keys@.len() == a1[h].vals@.len(),
        a1[h].keys@.len() == a0[h].keys@.len(),
        a1[h].edges@ == a0[h].edges@,
        a1[h].pairs() == a0[h].pairs().update(p, a1[h].pairs()[p]),
    ensures
        shaped(a1, r, t, min),
        bag(a1, r, t) == bag(a0, r, t),
        0 <= at < flat(a0, r, t).len(),
        flat(a0, r, t)[at] == a0[h].pairs()[p],
        flat(a1, r, t) == flat(a0, r, t).update(at, a1[h].pairs()[p]),
    decreases t,
{
    lemma_stored(a0, r, t, min);
    assert(bag(a0, r, t).count(r) <= 1);
    assert forall|x: u32| #[trigger] a0.contains_key(x) && x != h implies a1.contains_key(x) && a1[x]
        == a0[x] by {
        assert(a1.dom().contains(x));
    }
    if r == h {
        let n0 = a0[h];
        let n1 = a1[h];
        assert(a1.dom().contains(h));
        lemma_kept_but_one(a0, a1, h);
        lemma_node_kept(a0, a1, n0, t, min, CAPACITY as nat, h);
        lemma_revalue(a1, n0, n1, t, p);
        lemma_slot_place(a1, n0, t, p);
        lemma_stored(a1, h, t, min);
        assert(node_shaped(a1, n1, t, min, CAPACITY as nat)) by {
            if t > 0 {
                assert forall|i: int| 0 <= i < n1.edges@.len() implies shaped(
                    a1,
                    #[trigger] n1.edges@[i],
                    (t - 1) as nat,
                    MIN_FILL as nat,
                ) by {
                    assert(n1.edges@[i] == n0.edges@[i]);
                }
            }
        }
        slot_place(a1, n0, t, p)
    } else {
        let n0 = a0[r];
        let s = (t - 1) as nat;
        let kb = crate::tree::kid_bags(a0, n0.edges@, s);
        crate::tree::lemma_bag_sum_hit(kb, h);
        let i = choose|i: int| 0 <= i < kb.len() && kb[i].count(h) > 0;
        let kid = n0.edges@[i];
        lemma_below_pre(a0, r, t, min, i);
        assert(kept_outside(a0, a1, bag(a0, kid, s)));
        let at_c = lemma_value_deep(a0, a1, kid, s, MIN_FILL as nat, h, p);
        let rest = lemma_below_common(a0, a1, r, t, min, i);
        let f = before_kid(a0, n0, t, i);
        let b = after_kid(a0, n0, t, i);
        lemma_fits_within::<K, V>(f, flat(a0, kid, s), b, at_c, a1[h].pairs()[p]);
        assert(bag(a1, r, t) =~= bag(a0, r, t));
        f.len() + at_c
    }
}

} // verus!
