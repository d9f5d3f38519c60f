//! The tree that a set of nodes forms: its entries in order, the handles it
//! uses, and its shape.

use crate::node::{Node, CAPACITY, MIN_FILL};
use crate::order::SortKey;
use crate::seqs::{
    ascending, back, bag_sum, fits_at, front, lemma_bag_sum_at, lemma_bag_sum_concat,
    lemma_bag_sum_one, lemma_front_holds,
    lemma_weave_at, lemma_weave_join, weave,
};
use vstd::multiset::Multiset;
use vstd::prelude::*;

verus! {

/// The in-order entries of each subtree named by `edges`, all of height `t`.
pub open spec fn kid_flats<K: SortKey, V>(nodes: Map<u32, Node<K, V>>, edges: Seq<u32>, t: nat) -> Seq<
    Seq<(K::V, V)>,
>
    decreases t, 1nat,
{
    Seq::new(edges.len(), |i: int| flat(nodes, edges[i], t))
}

/// The entries of the subtree of height `t` at `h`, by in-order traversal.
pub open spec fn flat<K: SortKey, V>(nodes: Map<u32, Node<K, V>>, h: u32, t: nat) -> Seq<(K::V, V)>
    decreases t, 0nat,
{
    let n = nodes[h];
    if t == 0 {
        n.pairs()
    } else {
        weave(kid_flats(nodes, n.edges@, (t - 1) as nat), n.pairs())
    }
}

/// The handles used by each subtree named by `edges`, all of height `t`.
pub open spec fn kid_bags<K, V>(nodes: Map<u32, Node<K, V>>, edges: Seq<u32>, t: nat) -> Seq<
    Multiset<u32>,
>
    decreases t, 1nat,
{
    Seq::new(edges.len(), |i: int| bag(nodes, edges[i], t))
}

/// The handles of the nodes of the subtree of height `t` at `h`, each as often as it is reached.
pub open spec fn bag<K, V>(nodes: Map<u32, Node<K, V>>, h: u32, t: nat) -> Multiset<u32>
    decreases t, 0nat,
{
    if t == 0 {
        Multiset::singleton(h)
    } else {
        Multiset::singleton(h).add(bag_sum(kid_bags(nodes, nodes[h].edges@, (t - 1) as nat)))
    }
}

/// The subtree of height `t` at `h` exists, its top node holds at least
/// `min` keys, every other node at least the minimum fill, none more than
/// the capacity, and every leaf lies at depth `t`.
pub open spec fn shaped<K, V>(nodes: Map<u32, Node<K, V>>, h: u32, t: nat, min: nat) -> bool
    decreases t,
{
    &&& nodes.contains_key(h)
    &&& nodes[h].fits(t == 0, min, CAPACITY as nat)
    &&& t > 0 ==> forall|i: int|
        0 <= i < nodes[h].edges@.len() ==> shaped(
            nodes,
            #[trigger] nodes[h].edges@[i],
            (t - 1) as nat,
            MIN_FILL as nat,
        )
}

/// A subtree whose top node holds at least `min` keys holds at least any smaller number.
pub proof fn lemma_shaped_weaken<K, V>(nodes: Map<u32, Node<K, V>>, h: u32, t: nat, min: nat, less: nat)
    requires
        shaped(nodes, h, t, min),
        less <= min,
    ensures
        shaped(nodes, h, t, less),
{
}

/// No handle occurs twice in `b`.
pub open spec fn distinct(b: Multiset<u32>) -> bool {
    forall|x: u32| #[trigger] b.count(x) <= 1
}

/// `after` holds every node of `b` as `before` does.
pub open spec fn agree_on<K, V>(
    before: Map<u32, Node<K, V>>,
    after: Map<u32, Node<K, V>>,
    b: Multiset<u32>,
) -> bool {
    forall|x: u32| #[trigger] b.count(x) > 0 ==> after.contains_key(x) && after[x] == before[x]
}

/// Every handle of a child's subtree is a handle of the parent's subtree,
/// and the parent itself is none of them more often than once less.
pub proof fn lemma_kid_bag_within<K, V>(nodes: Map<u32, Node<K, V>>, h: u32, t: nat, i: int)
    requires
        t > 0,
        0 <= i < nodes[h].edges@.len(),
    ensures
        Multiset::singleton(h).add(bag(nodes, nodes[h].edges@[i], (t - 1) as nat)).subset_of(
            bag(nodes, h, t),
        ),
{
    let kb = kid_bags(nodes, nodes[h].edges@, (t - 1) as nat);
    lemma_bag_sum_at(kb, i);
}

/// Every node of a shaped subtree exists.
pub proof fn lemma_bag_exists<K, V>(nodes: Map<u32, Node<K, V>>, h: u32, t: nat, min: nat, x: u32)
    requires
        shaped(nodes, h, t, min),
        bag(nodes, h, t).count(x) > 0,
    ensures
        nodes.contains_key(x),
    decreases t,
{
    if t > 0 && x != h {
        let edges = nodes[h].edges@;
        let kb = kid_bags(nodes, edges, (t - 1) as nat);
        lemma_bag_sum_hit(kb, x);
        let i = choose|i: int| 0 <= i < kb.len() && kb[i].count(x) > 0;
        lemma_bag_exists(nodes, edges[i], (t - 1) as nat, MIN_FILL as nat, x);
    }
}

/// What a sum of bags holds, one of the bags holds.
pub proof fn lemma_bag_sum_hit(bags: Seq<Multiset<u32>>, x: u32)
    requires
        bag_sum(bags).count(x) > 0,
    ensures
        exists|i: int| 0 <= i < bags.len() && bags[i].count(x) > 0,
    decreases bags.len(),
{
    if bags.len() > 0 {
        if bags.last().count(x) > 0 {
            assert(bags[bags.len() - 1].count(x) > 0);
        } else {
            lemma_bag_sum_hit(bags.drop_last(), x);
            let i = choose|i: int| 0 <= i < bags.drop_last().len() && bags.drop_last()[i].count(x) > 0;
            assert(bags[i].count(x) > 0);
        }
    }
}

/// Nodes kept as they are throughout a bag are kept throughout each part of it.
pub proof fn lemma_agree_within<K, V>(
    before: Map<u32, Node<K, V>>,
    after: Map<u32, Node<K, V>>,
    whole: Multiset<u32>,
    part: Multiset<u32>,
)
    requires
        agree_on(before, after, whole),
        forall|x: u32| part.count(x) > 0 ==> #[trigger] whole.count(x) > 0,
    ensures
        agree_on(before, after, part),
{
    assert forall|x: u32| #[trigger] part.count(x) > 0 implies after.contains_key(x) && after[x]
        == before[x] by {
        assert(whole.count(x) > 0);
    }
}

/// A subtree whose nodes are all kept as they are is the same subtree.
pub proof fn lemma_frame<K: SortKey, V>(
    before: Map<u32, Node<K, V>>,
    after: Map<u32, Node<K, V>>,
    h: u32,
    t: nat,
    min: nat,
)
    requires
        shaped(before, h, t, min),
        agree_on(before, after, bag(before, h, t)),
    ensures
        shaped(after, h, t, min),
        flat(after, h, t) == flat(before, h, t),
        bag(after, h, t) == bag(before, h, t),
    decreases t,
{
    assert(bag(before, h, t).count(h) > 0);
    if t > 0 {
        let edges = before[h].edges@;
        let s = (t - 1) as nat;
        assert forall|i: int| 0 <= i < edges.len() implies shaped(
            after,
            #[trigger] edges[i],
            s,
            MIN_FILL as nat,
        ) && flat(after, edges[i], s) == flat(before, edges[i], s) && bag(after, edges[i], s) == bag(
            before,
            edges[i],
            s,
        ) by {
            lemma_kid_bag_within(before, h, t, i);
            assert forall|x: u32| bag(before, edges[i], s).count(x) > 0 implies #[trigger] bag(
                before,
                h,
                t,
            ).count(x) > 0 by {
                assert(Multiset::singleton(h).add(bag(before, edges[i], s)).count(x) <= bag(
                    before,
                    h,
                    t,
                ).count(x));
            }
            lemma_agree_within(before, after, bag(before, h, t), bag(before, edges[i], s));
            lemma_frame(before, after, edges[i], s, MIN_FILL as nat);
        }
        assert(kid_flats(after, edges, s) =~= kid_flats(before, edges, s));
        assert(kid_bags(after, edges, s) =~= kid_bags(before, edges, s));
    }
}

/// The entries of a node of height `t` with its subtrees, whether or not the node is stored.
pub open spec fn node_flat<K: SortKey, V>(nodes: Map<u32, Node<K, V>>, n: Node<K, V>, t: nat) -> Seq<
    (K::V, V),
> {
    if t == 0 {
        n.pairs()
    } else {
        weave(kid_flats(nodes, n.edges@, (t - 1) as nat), n.pairs())
    }
}

/// The handles below a node of height `t`, without the node's own.
pub open spec fn node_bag<K, V>(nodes: Map<u32, Node<K, V>>, n: Node<K, V>, t: nat) -> Multiset<u32> {
    if t == 0 {
        Multiset::empty()
    } else {
        bag_sum(kid_bags(nodes, n.edges@, (t - 1) as nat))
    }
}

/// A node of height `t` holds between `min` and `max` keys and stands on well-shaped subtrees.
pub open spec fn node_shaped<K, V>(
    nodes: Map<u32, Node<K, V>>,
    n: Node<K, V>,
    t: nat,
    min: nat,
    max: nat,
) -> bool {
    &&& n.fits(t == 0, min, max)
    &&& t > 0 ==> forall|i: int|
        0 <= i < n.edges@.len() ==> shaped(nodes, #[trigger] n.edges@[i], (t - 1) as nat, MIN_FILL as nat)
}

/// What comes before child `p` in the entries of a node: the children and keys to its left.
pub open spec fn before_kid<K: SortKey, V>(
    nodes: Map<u32, Node<K, V>>,
    n: Node<K, V>,
    t: nat,
    p: int,
) -> Seq<(K::V, V)> {
    front(kid_flats(nodes, n.edges@, (t - 1) as nat).take(p), n.pairs().take(p))
}

/// What comes after child `p` in the entries of a node: the keys and children to its right.
pub open spec fn after_kid<K: SortKey, V>(
    nodes: Map<u32, Node<K, V>>,
    n: Node<K, V>,
    t: nat,
    p: int,
) -> Seq<(K::V, V)> {
    back(n.pairs().skip(p), kid_flats(nodes, n.edges@, (t - 1) as nat).skip(p + 1))
}

/// The entries of an internal node are those before child `p`, those of
/// child `p`, and those after it; the node's own keys `p - 1` and `p` are
/// the neighbours of the child's entries.
pub proof fn lemma_around_kid<K: SortKey, V>(nodes: Map<u32, Node<K, V>>, n: Node<K, V>, t: nat, p: int)
    requires
        t > 0,
        n.edges@.len() == n.keys@.len() + 1,
        0 <= p <= n.keys@.len(),
    ensures
        node_flat(nodes, n, t) == before_kid(nodes, n, t, p) + flat(nodes, n.edges@[p], (t - 1) as nat)
            + after_kid(nodes, n, t, p),
        p > 0 ==> before_kid(nodes, n, t, p).len() > 0 && before_kid(nodes, n, t, p).last()
            == n.pairs()[p - 1],
        p == 0 ==> before_kid(nodes, n, t, p).len() == 0,
        p < n.keys@.len() ==> after_kid(nodes, n, t, p).len() > 0 && after_kid(nodes, n, t, p)[0]
            == n.pairs()[p],
        p == n.keys@.len() ==> after_kid(nodes, n, t, p).len() == 0,
{
    let kids = kid_flats(nodes, n.edges@, (t - 1) as nat);
    let seps = n.pairs();
    lemma_weave_at(kids, seps, p);
    if p > 0 {
        assert(seps.take(p).last() == seps[p - 1]);
    }
    if p < seps.len() {
        assert(seps.skip(p)[0] == seps[p]);
    }
}

/// In ascending entries every part is ascending, all before a part come
/// before each entry of it, and all after it come after.
pub proof fn lemma_ascending_parts<K: SortKey, V>(
    a: Seq<(K::V, V)>,
    b: Seq<(K::V, V)>,
    c: Seq<(K::V, V)>,
)
    requires
        ascending::<K, V>(a + b + c),
    ensures
        ascending::<K, V>(a),
        ascending::<K, V>(b),
        ascending::<K, V>(c),
        forall|i: int, j: int|
            0 <= i < a.len() && 0 <= j < b.len() ==> K::precedes(
                #[trigger] a[i].0,
                #[trigger] b[j].0,
            ),
        forall|i: int, j: int|
            0 <= i < b.len() && 0 <= j < c.len() ==> K::precedes(
                #[trigger] b[i].0,
                #[trigger] c[j].0,
            ),
        forall|i: int, j: int|
            0 <= i < a.len() && 0 <= j < c.len() ==> K::precedes(
                #[trigger] a[i].0,
                #[trigger] c[j].0,
            ),
{
    let s = a + b + c;
    assert forall|i: int, j: int| 0 <= i < j < a.len() implies K::precedes(
        #[trigger] a[i].0,
        #[trigger] a[j].0,
    ) by {
        assert(s[i] == a[i] && s[j] == a[j]);
    }
    assert forall|i: int, j: int| 0 <= i < j < b.len() implies K::precedes(
        #[trigger] b[i].0,
        #[trigger] b[j].0,
    ) by {
        assert(s[a.len() + i] == b[i] && s[a.len() + j] == b[j]);
    }
    assert forall|i: int, j: int| 0 <= i < j < c.len() implies K::precedes(
        #[trigger] c[i].0,
        #[trigger] c[j].0,
    ) by {
        assert(s[a.len() + b.len() + i] == c[i] && s[a.len() + b.len() + j] == c[j]);
    }
    assert forall|i: int, j: int| 0 <= i < a.len() && 0 <= j < b.len() implies K::precedes(
        #[trigger] a[i].0,
        #[trigger] b[j].0,
    ) by {
        assert(s[i] == a[i] && s[a.len() + j] == b[j]);
    }
    assert forall|i: int, j: int| 0 <= i < b.len() && 0 <= j < c.len() implies K::precedes(
        #[trigger] b[i].0,
        #[trigger] c[j].0,
    ) by {
        assert(s[a.len() + i] == b[i] && s[a.len() + b.len() + j] == c[j]);
    }
    assert forall|i: int, j: int| 0 <= i < a.len() && 0 <= j < c.len() implies K::precedes(
        #[trigger] a[i].0,
        #[trigger] c[j].0,
    ) by {
        assert(s[i] == a[i] && s[a.len() + b.len() + j] == c[j]);
    }
}

/// Where a key lies relative to the parts around child `p` of a node, once
/// the node's own keys place it between key `p - 1` and key `p`: after all
/// that comes before the child and before all that comes after it.
pub proof fn lemma_descend<K: SortKey, V>(
    nodes: Map<u32, Node<K, V>>,
    n: Node<K, V>,
    t: nat,
    p: int,
    key: K::V,
)
    requires
        t > 0,
        n.edges@.len() == n.keys@.len() + 1,
        n.keys@.len() == n.vals@.len(),
        0 <= p <= n.keys@.len(),
        ascending::<K, V>(node_flat(nodes, n, t)),
        p > 0 ==> K::precedes(n.keys@[p - 1]@, key),
        p < n.keys@.len() ==> K::precedes(key, n.keys@[p]@),
    ensures
        ascending::<K, V>(flat(nodes, n.edges@[p], (t - 1) as nat)),
        forall|i: int|
            0 <= i < before_kid(nodes, n, t, p).len() ==> K::precedes(
                (#[trigger] before_kid(nodes, n, t, p)[i]).0,
                key,
            ),
        forall|i: int|
            0 <= i < after_kid(nodes, n, t, p).len() ==> K::precedes(
                key,
                (#[trigger] after_kid(nodes, n, t, p)[i]).0,
            ),
{
    let f = before_kid(nodes, n, t, p);
    let k = flat(nodes, n.edges@[p], (t - 1) as nat);
    let b = after_kid(nodes, n, t, p);
    lemma_around_kid(nodes, n, t, p);
    lemma_ascending_parts::<K, V>(f, k, b);
    assert forall|i: int| 0 <= i < f.len() implies K::precedes((#[trigger] f[i]).0, key) by {
        let last = f.len() - 1;
        assert(f[last] == n.pairs()[p - 1]);
        if i < last {
            K::precedes_transitive(f[i].0, f[last].0, key);
        }
    }
    assert forall|i: int| 0 <= i < b.len() implies K::precedes(key, (#[trigger] b[i]).0) by {
        assert(b[0] == n.pairs()[p]);
        if i > 0 {
            K::precedes_transitive(key, b[0].0, b[i].0);
        }
    }
}

/// `after` has the nodes of `before`, each with the keys and edges it had:
/// values alone may differ.
pub open spec fn values_only<K, V>(before: Map<u32, Node<K, V>>, after: Map<u32, Node<K, V>>) -> bool {
    &&& after.dom() == before.dom()
    &&& forall|x: u32| #[trigger]
        before.contains_key(x) ==> after[x].keys == before[x].keys && after[x].edges
            == before[x].edges
}

/// `after` holds every node of `before` that `touched` does not name as `before` does.
pub open spec fn kept_outside<K, V>(
    before: Map<u32, Node<K, V>>,
    after: Map<u32, Node<K, V>>,
    touched: Multiset<u32>,
) -> bool {
    forall|x: u32| #[trigger]
        before.contains_key(x) && touched.count(x) == 0 ==> after.contains_key(x) && after[x]
            == before[x]
}

/// A subtree that shares no handle with what was touched is the same subtree afterwards.
pub proof fn lemma_kid_kept<K: SortKey, V>(
    before: Map<u32, Node<K, V>>,
    after: Map<u32, Node<K, V>>,
    kid: u32,
    t: nat,
    min: nat,
    touched: Multiset<u32>,
)
    requires
        shaped(before, kid, t, min),
        kept_outside(before, after, touched),
        forall|x: u32| #[trigger] bag(before, kid, t).count(x) > 0 ==> touched.count(x) == 0,
    ensures
        shaped(after, kid, t, min),
        flat(after, kid, t) == flat(before, kid, t),
        bag(after, kid, t) == bag(before, kid, t),
{
    assert forall|x: u32| #[trigger] bag(before, kid, t).count(x) > 0 implies after.contains_key(x)
        && after[x] == before[x] by {
        lemma_bag_exists(before, kid, t, min, x);
    }
    lemma_frame(before, after, kid, t, min);
}

/// The handles of one child's subtree are among those below the node.
pub proof fn lemma_kid_within<K, V>(nodes: Map<u32, Node<K, V>>, n: Node<K, V>, t: nat, i: int)
    requires
        t > 0,
        0 <= i < n.edges@.len(),
    ensures
        bag(nodes, n.edges@[i], (t - 1) as nat).subset_of(node_bag(nodes, n, t)),
{
    lemma_bag_sum_at(kid_bags(nodes, n.edges@, (t - 1) as nat), i);
}

/// The handles of two different children's subtrees are, together, among those below the node.
pub proof fn lemma_kids_apart<K, V>(nodes: Map<u32, Node<K, V>>, n: Node<K, V>, t: nat, i: int, j: int)
    requires
        t > 0,
        0 <= i < j < n.edges@.len(),
    ensures
        bag(nodes, n.edges@[i], (t - 1) as nat).add(bag(nodes, n.edges@[j], (t - 1) as nat)).subset_of(
            node_bag(nodes, n, t),
        ),
{
    let kb = kid_bags(nodes, n.edges@, (t - 1) as nat);
    lemma_bag_sum_at(kb, j);
    lemma_bag_sum_at(kb.take(j), i);
    assert(kb.take(j)[i] == kb[i]);
}

/// A node that takes in a key and, right of child `p`, a new child: its
/// entries are those before child `p`, that child's, the key, the new
/// child's, and those after.
pub proof fn lemma_absorb<K: SortKey, V>(
    nodes: Map<u32, Node<K, V>>,
    n0: Node<K, V>,
    n1: Node<K, V>,
    t: nat,
    p: int,
    r: u32,
)
    requires
        t > 0,
        n0.edges@.len() == n0.keys@.len() + 1,
        n0.keys@.len() == n0.vals@.len(),
        n1.keys@.len() == n1.vals@.len(),
        0 <= p <= n0.keys@.len(),
        n1.pairs() == n0.pairs().insert(p, n1.pairs()[p]),
        n1.edges@ == n0.edges@.insert(p + 1, r),
    ensures
        node_flat(nodes, n1, t) == before_kid(nodes, n0, t, p) + flat(
            nodes,
            n0.edges@[p],
            (t - 1) as nat,
        ) + seq![n1.pairs()[p]] + flat(nodes, r, (t - 1) as nat) + after_kid(nodes, n0, t, p),
{
    let s = (t - 1) as nat;
    let k0 = kid_flats(nodes, n0.edges@, s);
    let k1 = kid_flats(nodes, n1.edges@, s);
    let s0 = n0.pairs();
    let s1 = n1.pairs();
    let m = s1[p];
    let fr = flat(nodes, r, s);
    assert(s1.len() == s0.len() + 1);
    lemma_weave_at(k1, s1, p);
    assert(k1.take(p) == k0.take(p)) by {
        assert(k1.take(p) =~= k0.take(p));
    }
    assert(s1.take(p) == s0.take(p)) by {
        assert(s1.take(p) =~= s0.take(p));
    }
    assert(k1[p] == k0[p]);
    let sa = s1.skip(p);
    let ka = k1.skip(p + 1);
    assert(sa.len() > 0 && ka.len() > 0);
    assert(sa[0] == m);
    assert(ka[0] == fr);
    assert(sa.skip(1) == s0.skip(p)) by {
        assert(sa.skip(1) =~= s0.skip(p));
    }
    assert(ka.skip(1) == k0.skip(p + 1)) by {
        assert(ka.skip(1) =~= k0.skip(p + 1));
    }
    let f = before_kid(nodes, n0, t, p);
    let c = flat(nodes, n0.edges@[p], s);
    let b = after_kid(nodes, n0, t, p);
    assert(back(sa, ka) == seq![m] + fr + b);
    assert(node_flat(nodes, n1, t) == f + c + (seq![m] + fr + b));
    assert(f + c + (seq![m] + fr + b) == f + c + seq![m] + fr + b) by {
        assert(f + c + (seq![m] + fr + b) =~= f + c + seq![m] + fr + b);
    }
}

/// A node that takes in a new child gains the handles of that child's subtree.
pub proof fn lemma_absorb_bag<K, V>(
    nodes: Map<u32, Node<K, V>>,
    n0: Node<K, V>,
    n1: Node<K, V>,
    t: nat,
    p: int,
    r: u32,
)
    requires
        t > 0,
        0 <= p < n0.edges@.len(),
        n1.edges@ == n0.edges@.insert(p + 1, r),
    ensures
        node_bag(nodes, n1, t) == node_bag(nodes, n0, t).add(bag(nodes, r, (t - 1) as nat)),
{
    let s = (t - 1) as nat;
    let b0 = kid_bags(nodes, n0.edges@, s);
    let b1 = kid_bags(nodes, n1.edges@, s);
    let one = seq![bag(nodes, r, s)];
    assert(b1 == b0.take(p + 1) + one + b0.skip(p + 1)) by {
        assert(b1 =~= b0.take(p + 1) + one + b0.skip(p + 1));
    }
    assert(b0 == b0.take(p + 1) + b0.skip(p + 1)) by {
        assert(b0 =~= b0.take(p + 1) + b0.skip(p + 1));
    }
    lemma_bag_sum_concat(b0.take(p + 1), b0.skip(p + 1));
    lemma_bag_sum_concat(b0.take(p + 1) + one, b0.skip(p + 1));
    lemma_bag_sum_concat(b0.take(p + 1), one);
    lemma_bag_sum_one(bag(nodes, r, s));
    assert(node_bag(nodes, n1, t) =~= node_bag(nodes, n0, t).add(bag(nodes, r, s)));
}

/// A node cut at key `q` into a left and a right node: the entries of the
/// left, the key, and the entries of the right are the entries of the
/// whole, and the handles below the two are those below the whole.
pub proof fn lemma_halve<K: SortKey, V>(
    nodes: Map<u32, Node<K, V>>,
    n: Node<K, V>,
    left: Node<K, V>,
    right: Node<K, V>,
    t: nat,
    q: int,
)
    requires
        n.keys@.len() == n.vals@.len(),
        n.edges@.len() == if t == 0 {
            0
        } else {
            n.keys@.len() + 1
        },
        0 <= q < n.keys@.len(),
        left.keys@ == n.keys@.take(q),
        left.vals@ == n.vals@.take(q),
        right.keys@ == n.keys@.skip(q + 1),
        right.vals@ == n.vals@.skip(q + 1),
        t == 0 ==> left.edges@.len() == 0 && right.edges@.len() == 0,
        t > 0 ==> left.edges@ == n.edges@.take(q + 1) && right.edges@ == n.edges@.skip(q + 1),
    ensures
        node_flat(nodes, left, t) + seq![n.pairs()[q]] + node_flat(nodes, right, t) == node_flat(
            nodes,
            n,
            t,
        ),
        node_bag(nodes, left, t).add(node_bag(nodes, right, t)) == node_bag(nodes, n, t),
{
    let s0 = n.pairs();
    assert(left.pairs() =~= s0.take(q));
    assert(right.pairs() =~= s0.skip(q + 1));
    assert(s0 =~= s0.take(q) + seq![s0[q]] + s0.skip(q + 1));
    if t > 0 {
        let s = (t - 1) as nat;
        let k = kid_flats(nodes, n.edges@, s);
        let kl = kid_flats(nodes, left.edges@, s);
        let kr = kid_flats(nodes, right.edges@, s);
        assert(kl =~= k.take(q + 1));
        assert(kr =~= k.skip(q + 1));
        assert(k =~= kl + kr);
        lemma_weave_join(kl, left.pairs(), s0[q], kr, right.pairs());
        let b = kid_bags(nodes, n.edges@, s);
        let bl = kid_bags(nodes, left.edges@, s);
        let br = kid_bags(nodes, right.edges@, s);
        assert(bl =~= b.take(q + 1));
        assert(br =~= b.skip(q + 1));
        assert(b =~= bl + br);
        lemma_bag_sum_concat(bl, br);
    } else {
        assert(node_bag(nodes, left, t).add(node_bag(nodes, right, t)) =~= node_bag(nodes, n, t));
    }
}

/// Every well-shaped subtree of `before` that does not use `h` is the same subtree in `after`.
pub open spec fn subtrees_kept<K: SortKey, V>(
    before: Map<u32, Node<K, V>>,
    after: Map<u32, Node<K, V>>,
    h: u32,
) -> bool {
    forall|kid: u32, t: nat, min: nat| #[trigger]
        shaped(before, kid, t, min) && bag(before, kid, t).count(h) == 0 ==> shaped(after, kid, t, min)
            && flat(after, kid, t) == flat(before, kid, t) && bag(after, kid, t) == bag(
            before,
            kid,
            t,
        )
}

/// Where only the node at `h` changes, appears or goes, every subtree that does not use `h` stays.
pub proof fn lemma_kept_but_one<K: SortKey, V>(
    before: Map<u32, Node<K, V>>,
    after: Map<u32, Node<K, V>>,
    h: u32,
)
    requires
        forall|x: u32| #[trigger]
            before.contains_key(x) && x != h ==> after.contains_key(x) && after[x] == before[x],
    ensures
        subtrees_kept(before, after, h),
{
    assert forall|kid: u32, t: nat, min: nat| #[trigger]
        shaped(before, kid, t, min) && bag(before, kid, t).count(h) == 0 implies shaped(
        after,
        kid,
        t,
        min,
    ) && flat(after, kid, t) == flat(before, kid, t) && bag(after, kid, t) == bag(before, kid, t) by {
        assert(kept_outside(before, after, Multiset::singleton(h)));
        lemma_kid_kept(before, after, kid, t, min, Multiset::singleton(h));
    }
}

/// A node whose subtrees do not use `h` reads the same where its subtrees are kept.
pub proof fn lemma_node_kept<K: SortKey, V>(
    before: Map<u32, Node<K, V>>,
    after: Map<u32, Node<K, V>>,
    n: Node<K, V>,
    t: nat,
    min: nat,
    max: nat,
    h: u32,
)
    requires
        node_shaped(before, n, t, min, max),
        subtrees_kept(before, after, h),
        node_bag(before, n, t).count(h) == 0,
    ensures
        node_shaped(after, n, t, min, max),
        node_flat(after, n, t) == node_flat(before, n, t),
        node_bag(after, n, t) == node_bag(before, n, t),
{
    if t > 0 {
        let s = (t - 1) as nat;
        assert forall|i: int| 0 <= i < n.edges@.len() implies shaped(
            after,
            #[trigger] n.edges@[i],
            s,
            MIN_FILL as nat,
        ) && flat(after, n.edges@[i], s) == flat(before, n.edges@[i], s) && bag(
            after,
            n.edges@[i],
            s,
        ) == bag(before, n.edges@[i], s) by {
            lemma_kid_within(before, n, t, i);
            assert(bag(before, n.edges@[i], s).count(h) <= node_bag(before, n, t).count(h));
            assert(shaped(before, n.edges@[i], s, MIN_FILL as nat));
        }
        assert(kid_flats(after, n.edges@, s) =~= kid_flats(before, n.edges@, s));
        assert(kid_bags(after, n.edges@, s) =~= kid_bags(before, n.edges@, s));
    }
}

/// A stored node is what its record says.
pub proof fn lemma_stored<K: SortKey, V>(nodes: Map<u32, Node<K, V>>, h: u32, t: nat, min: nat)
    ensures
        flat(nodes, h, t) == node_flat(nodes, nodes[h], t),
        bag(nodes, h, t) == Multiset::singleton(h).add(node_bag(nodes, nodes[h], t)),
        shaped(nodes, h, t, min) == (nodes.contains_key(h) && node_shaped(
            nodes,
            nodes[h],
            t,
            min,
            CAPACITY as nat,
        )),
{
    if t == 0 {
        assert(Multiset::singleton(h) =~= Multiset::singleton(h).add(Multiset::empty()));
    }
}

/// Every handle below a well-shaped node names a node that exists.
pub proof fn lemma_node_bag_exists<K, V>(
    nodes: Map<u32, Node<K, V>>,
    n: Node<K, V>,
    t: nat,
    min: nat,
    max: nat,
    x: u32,
)
    requires
        node_shaped(nodes, n, t, min, max),
        node_bag(nodes, n, t).count(x) > 0,
    ensures
        nodes.contains_key(x),
{
    let kb = kid_bags(nodes, n.edges@, (t - 1) as nat);
    lemma_bag_sum_hit(kb, x);
    let i = choose|i: int| 0 <= i < kb.len() && kb[i].count(x) > 0;
    lemma_bag_exists(nodes, n.edges@[i], (t - 1) as nat, MIN_FILL as nat, x);
}

/// The index of a node's own key `p` among the entries of the node with its subtrees.
pub open spec fn slot_place<K: SortKey, V>(nodes: Map<u32, Node<K, V>>, n: Node<K, V>, t: nat, p: int) -> int {
    if t == 0 {
        p
    } else {
        (before_kid(nodes, n, t, p).len() + flat(nodes, n.edges@[p], (t - 1) as nat).len()) as int
    }
}

/// The entry at the place of a node's own key is that key with its value.
pub proof fn lemma_slot_place<K: SortKey, V>(nodes: Map<u32, Node<K, V>>, n: Node<K, V>, t: nat, p: int)
    requires
        n.keys@.len() == n.vals@.len(),
        t > 0 ==> n.edges@.len() == n.keys@.len() + 1,
        0 <= p < n.keys@.len(),
    ensures
        0 <= slot_place(nodes, n, t, p) < node_flat(nodes, n, t).len(),
        node_flat(nodes, n, t)[slot_place(nodes, n, t, p)] == n.pairs()[p],
{
    if t > 0 {
        lemma_around_kid(nodes, n, t, p);
    }
}

/// A node with its entry `p` replaced: its entries are the same but for
/// that one, and its handles are the same.
pub proof fn lemma_revalue<K: SortKey, V>(
    nodes: Map<u32, Node<K, V>>,
    n0: Node<K, V>,
    n1: Node<K, V>,
    t: nat,
    p: int,
)
    requires
        n0.keys@.len() == n0.vals@.len(),
        n1.keys@.len() == n1.vals@.len(),
        n1.keys@.len() == n0.keys@.len(),
        t > 0 ==> n0.edges@.len() == n0.keys@.len() + 1,
        0 <= p < n0.keys@.len(),
        n1.edges@ == n0.edges@,
        n1.pairs() == n0.pairs().update(p, n1.pairs()[p]),
    ensures
        node_flat(nodes, n1, t) == node_flat(nodes, n0, t).update(
            slot_place(nodes, n0, t, p),
            n1.pairs()[p],
        ),
        node_bag(nodes, n1, t) == node_bag(nodes, n0, t),
{
    let s0 = n0.pairs();
    let s1 = n1.pairs();
    if t > 0 {
        let s = (t - 1) as nat;
        let k = kid_flats(nodes, n0.edges@, s);
        lemma_weave_at(k, s0, p);
        lemma_weave_at(k, s1, p);
        assert(s1.take(p) =~= s0.take(p));
        assert(s1.skip(p).skip(1) =~= s0.skip(p).skip(1));
        let rest = back(s0.skip(p).skip(1), k.skip(p + 1).skip(1));
        let f = front(k.take(p), s0.take(p));
        assert(back(s0.skip(p), k.skip(p + 1)) == seq![s0[p]] + k[p + 1] + rest);
        assert(back(s1.skip(p), k.skip(p + 1)) == seq![s1[p]] + k[p + 1] + rest);
        assert(f + k[p] + (seq![s1[p]] + k[p + 1] + rest) =~= (f + k[p] + (seq![s0[p]] + k[p + 1]
            + rest)).update((f.len() + k[p].len()) as int, s1[p]));
    }
}

/// A key that fits into the middle one of three parts, with the first
/// part before it and the last part after it, fits into the whole; and
/// what is done to the middle part at an index is done to the whole at
/// that index moved by the length of the first part.
pub proof fn lemma_fits_within<K: SortKey, V>(
    f: Seq<(K::V, V)>,
    c: Seq<(K::V, V)>,
    b: Seq<(K::V, V)>,
    at: int,
    x: (K::V, V),
)
    requires
        0 <= at <= c.len(),
    ensures
        (f + c + b).insert(f.len() + at, x) == f + c.insert(at, x) + b,
        at < c.len() ==> (f + c + b).update(f.len() + at, x) == f + c.update(at, x) + b && (f + c
            + b)[f.len() + at] == c[at] && (f + c + b).remove(f.len() + at) == f + c.remove(at) + b,
        (forall|i: int| 0 <= i < f.len() ==> K::precedes((#[trigger] f[i]).0, x.0)) && (forall|i: int|
            0 <= i < b.len() ==> K::precedes(x.0, (#[trigger] b[i]).0)) && fits_at::<K, V>(c, at, x.0)
            ==> fits_at::<K, V>(f + c + b, f.len() + at, x.0),
{
    assert((f + c + b).insert(f.len() + at, x) =~= f + c.insert(at, x) + b);
    if at < c.len() {
        assert((f + c + b).update(f.len() + at, x) =~= f + c.update(at, x) + b);
        assert((f + c + b).remove(f.len() + at) =~= f + c.remove(at) + b);
    }
    if (forall|i: int| 0 <= i < f.len() ==> K::precedes((#[trigger] f[i]).0, x.0)) && (forall|i: int|
        0 <= i < b.len() ==> K::precedes(x.0, (#[trigger] b[i]).0)) && fits_at::<K, V>(c, at, x.0) {
        let w = f + c + b;
        assert forall|i: int| 0 <= i < f.len() + at implies K::precedes((#[trigger] w[i]).0, x.0) by {
            if i < f.len() {
                assert(w[i] == f[i]);
            } else {
                assert(w[i] == c[i - f.len()]);
            }
        }
        assert forall|i: int| f.len() + at <= i < w.len() implies K::precedes(x.0, (#[trigger] w[i]).0) by {
            if i < f.len() + c.len() {
                assert(w[i] == c[i - f.len()]);
            } else {
                assert(w[i] == b[i - f.len() - c.len()]);
            }
        }
    }
}

/// After work inside the subtree of child `p` alone, the other children's
/// subtrees are as they were, and so is what lies before and after child
/// `p` among the node's entries. Returns the handles below the node
/// without those of child `p`.
pub proof fn lemma_kid_reworked<K: SortKey, V>(
    before: Map<u32, Node<K, V>>,
    after: Map<u32, Node<K, V>>,
    h: u32,
    n: Node<K, V>,
    t: nat,
    min: nat,
    max: nat,
    p: int,
) -> (rest: Multiset<u32>)
    requires
        t > 0,
        node_shaped(before, n, t, min, max),
        0 <= p < n.edges@.len(),
        distinct(Multiset::singleton(h).add(node_bag(before, n, t))),
        kept_outside(before, after, bag(before, n.edges@[p], (t - 1) as nat)),
    ensures
        forall|i: int|
            0 <= i < n.edges@.len() && i != p ==> shaped(
                after,
                #[trigger] n.edges@[i],
                (t - 1) as nat,
                MIN_FILL as nat,
            ) && flat(after, n.edges@[i], (t - 1) as nat) == flat(before, n.edges@[i], (t - 1) as nat)
                && bag(after, n.edges@[i], (t - 1) as nat) == bag(
                before,
                n.edges@[i],
                (t - 1) as nat,
            ),
        before_kid(after, n, t, p) == before_kid(before, n, t, p),
        after_kid(after, n, t, p) == after_kid(before, n, t, p),
        node_bag(before, n, t) == rest.add(bag(before, n.edges@[p], (t - 1) as nat)),
        node_bag(after, n, t) == rest.add(bag(after, n.edges@[p], (t - 1) as nat)),
        bag(before, n.edges@[p], (t - 1) as nat).count(h) == 0,
        forall|x: u32| #[trigger] rest.count(x) > 0 ==> before.contains_key(x),
{
    let s = (t - 1) as nat;
    let touched = bag(before, n.edges@[p], s);
    assert forall|i: int| 0 <= i < n.edges@.len() && i != p implies shaped(
        after,
        #[trigger] n.edges@[i],
        s,
        MIN_FILL as nat,
    ) && flat(after, n.edges@[i], s) == flat(before, n.edges@[i], s) && bag(after, n.edges@[i], s)
        == bag(before, n.edges@[i], s) by {
        if i < p {
            lemma_kids_apart(before, n, t, i, p);
        } else {
            lemma_kids_apart(before, n, t, p, i);
        }
        assert forall|x: u32| #[trigger] bag(before, n.edges@[i], s).count(x) > 0 implies touched.count(x)
            == 0 by {
            assert(bag(before, n.edges@[i], s).add(touched).count(x) <= node_bag(before, n, t).count(x));
            assert(touched.add(bag(before, n.edges@[i], s)).count(x) <= node_bag(before, n, t).count(x));
            assert(Multiset::singleton(h).add(node_bag(before, n, t)).count(x) <= 1);
        }
        assert(shaped(before, n.edges@[i], s, MIN_FILL as nat));
        lemma_kid_kept(before, after, n.edges@[i], s, MIN_FILL as nat, touched);
    }
    let k0 = kid_flats(before, n.edges@, s);
    let k1 = kid_flats(after, n.edges@, s);
    assert(k1.take(p) =~= k0.take(p));
    assert(k1.skip(p + 1) =~= k0.skip(p + 1));
    let b0 = kid_bags(before, n.edges@, s);
    let b1 = kid_bags(after, n.edges@, s);
    lemma_bag_sum_at(b0, p);
    lemma_bag_sum_at(b1, p);
    assert(b1.take(p) =~= b0.take(p));
    assert(b1.skip(p + 1) =~= b0.skip(p + 1));
    let rest = bag_sum(b0.take(p)).add(bag_sum(b0.skip(p + 1)));
    assert(node_bag(before, n, t) =~= rest.add(b0[p]));
    assert(node_bag(after, n, t) =~= rest.add(b1[p]));
    lemma_kid_within(before, n, t, p);
    assert(touched.count(h) <= node_bag(before, n, t).count(h));
    assert(Multiset::singleton(h).add(node_bag(before, n, t)).count(h) <= 1);
    assert forall|x: u32| #[trigger] rest.count(x) > 0 implies before.contains_key(x) by {
        assert(node_bag(before, n, t).count(x) > 0);
        lemma_node_bag_exists(before, n, t, min, max, x);
    }
    rest
}

/// A subtree whose nodes all hold a key has at least as many entries as
/// nodes, and more nodes than it is high.
pub proof fn lemma_sizes<K: SortKey, V>(nodes: Map<u32, Node<K, V>>, h: u32, t: nat, min: nat)
    requires
        shaped(nodes, h, t, min),
        min >= 1,
    ensures
        t + 1 <= bag(nodes, h, t).len(),
        bag(nodes, h, t).len() <= flat(nodes, h, t).len(),
    decreases t,
{
    let n = nodes[h];
    if t > 0 {
        let s = (t - 1) as nat;
        let kb = kid_bags(nodes, n.edges@, s);
        let kf = kid_flats(nodes, n.edges@, s);
        assert forall|i: int| 0 <= i < kb.len() implies s + 1 <= (#[trigger] kb[i]).len() && kb[i].len()
            <= kf[i].len() by {
            assert(shaped(nodes, n.edges@[i], s, MIN_FILL as nat));
            lemma_sizes::<K, V>(nodes, n.edges@[i], s, MIN_FILL as nat);
        }
        lemma_bag_sum_at(kb, 0);
        let m = n.keys@.len() as int;
        assert(kb.drop_last() == kb.take(m));
        assert(bag_sum(kb) == bag_sum(kb.drop_last()).add(kb.last()));
        lemma_front_holds(kb.drop_last(), kf.drop_last(), n.pairs());
        assert(kb.last().len() <= kf.last().len());
    }
}

/// The subtree of a node with one key and two children: the entries of
/// the left child, the key, and the entries of the right child; and the
/// node's handle with the handles of the two.
pub proof fn lemma_two_kids<K: SortKey, V>(nodes: Map<u32, Node<K, V>>, n: Node<K, V>, t: nat)
    requires
        t > 0,
        n.keys@.len() == 1,
        n.vals@.len() == 1,
        n.edges@.len() == 2,
    ensures
        node_flat(nodes, n, t) == flat(nodes, n.edges@[0], (t - 1) as nat) + seq![n.pairs()[0]] + flat(
            nodes,
            n.edges@[1],
            (t - 1) as nat,
        ),
        node_bag(nodes, n, t) =~= bag(nodes, n.edges@[0], (t - 1) as nat).add(
            bag(nodes, n.edges@[1], (t - 1) as nat),
        ),
{
    let s = (t - 1) as nat;
    let kf = kid_flats(nodes, n.edges@, s);
    let kb = kid_bags(nodes, n.edges@, s);
    lemma_weave_at(kf, n.pairs(), 0);
    assert(kf.take(0).len() == 0);
    lemma_weave_at(kf, n.pairs(), 1);
    assert(n.pairs().skip(1).len() == 0);
    assert(front(kf.take(1), n.pairs().take(1)) =~= kf[0] + seq![n.pairs()[0]]) by {
        assert(kf.take(1).drop_last().len() == 0);
        assert(n.pairs().take(1).drop_last().len() == 0);
        assert(front(kf.take(1).drop_last(), n.pairs().take(1).drop_last()).len() == 0);
        assert(n.pairs().take(1).last() == n.pairs()[0]);
        assert(kf.take(1).last() == kf[0]);
    }
    assert(node_flat(nodes, n, t) =~= kf[0] + seq![n.pairs()[0]] + kf[1]);
    lemma_bag_sum_at(kb, 0);
    assert(kb.take(0).len() == 0);
    assert(kb.skip(1) =~= seq![kb[1]]);
    lemma_bag_sum_one(kb[1]);
}

/// The entries of a run of keys with the subtrees at `edges` between and around them.
pub open spec fn span_flat<K: SortKey, V>(
    nodes: Map<u32, Node<K, V>>,
    pairs: Seq<(K::V, V)>,
    edges: Seq<u32>,
    t: nat,
) -> Seq<(K::V, V)> {
    if t == 0 {
        pairs
    } else {
        weave(kid_flats(nodes, edges, (t - 1) as nat), pairs)
    }
}

/// The handles of the subtrees at `edges`.
pub open spec fn span_bag<K, V>(nodes: Map<u32, Node<K, V>>, edges: Seq<u32>, t: nat) -> Multiset<u32> {
    if t == 0 {
        Multiset::empty()
    } else {
        bag_sum(kid_bags(nodes, edges, (t - 1) as nat))
    }
}

/// The edges left of the cut at key `q`: one more than keys.
pub open spec fn edges_left(edges: Seq<u32>, t: nat, q: int) -> Seq<u32> {
    if t == 0 {
        edges
    } else {
        edges.take(q + 1)
    }
}

/// The edges right of the cut at key `q`.
pub open spec fn edges_right(edges: Seq<u32>, t: nat, q: int) -> Seq<u32> {
    if t == 0 {
        edges
    } else {
        edges.skip(q + 1)
    }
}

/// A run of keys and subtrees cut at key `q`: what lies left of the key,
/// the key, and what lies right of it are the whole.
pub proof fn lemma_cut_span<K: SortKey, V>(
    nodes: Map<u32, Node<K, V>>,
    pairs: Seq<(K::V, V)>,
    edges: Seq<u32>,
    t: nat,
    q: int,
)
    requires
        edges.len() == if t == 0 {
            0
        } else {
            pairs.len() + 1
        },
        0 <= q < pairs.len(),
    ensures
        span_flat(nodes, pairs.take(q), edges_left(edges, t, q), t) + seq![pairs[q]] + span_flat(
            nodes,
            pairs.skip(q + 1),
            edges_right(edges, t, q),
            t,
        ) == span_flat(nodes, pairs, edges, t),
        span_bag(nodes, edges_left(edges, t, q), t).add(span_bag(nodes, edges_right(edges, t, q), t))
            =~= span_bag(nodes, edges, t),
{
    assert(pairs =~= pairs.take(q) + seq![pairs[q]] + pairs.skip(q + 1));
    if t > 0 {
        let s = (t - 1) as nat;
        let k = kid_flats(nodes, edges, s);
        let kl = kid_flats(nodes, edges.take(q + 1), s);
        let kr = kid_flats(nodes, edges.skip(q + 1), s);
        assert(kl =~= k.take(q + 1));
        assert(kr =~= k.skip(q + 1));
        assert(k =~= kl + kr);
        lemma_weave_join(kl, pairs.take(q), pairs[q], kr, pairs.skip(q + 1));
        let b = kid_bags(nodes, edges, s);
        let bl = kid_bags(nodes, edges.take(q + 1), s);
        let br = kid_bags(nodes, edges.skip(q + 1), s);
        assert(bl =~= b.take(q + 1));
        assert(br =~= b.skip(q + 1));
        assert(b =~= bl + br);
        lemma_bag_sum_concat(bl, br);
    }
}

/// The subtrees at `edges` are the same afterwards where none of them uses a handle that was touched.
pub proof fn lemma_edges_kept<K: SortKey, V>(
    before: Map<u32, Node<K, V>>,
    after: Map<u32, Node<K, V>>,
    edges: Seq<u32>,
    t: nat,
    touched: Multiset<u32>,
)
    requires
        kept_outside(before, after, touched),
        forall|i: int| 0 <= i < edges.len() ==> shaped(before, #[trigger] edges[i], t, 0),
        forall|i: int, x: u32|
            0 <= i < edges.len() && #[trigger] bag(before, edges[i], t).count(x) > 0 ==> touched.count(x)
                == 0,
    ensures
        kid_flats(after, edges, t) == kid_flats(before, edges, t),
        kid_bags(after, edges, t) == kid_bags(before, edges, t),
        forall|i: int, m: nat|
            0 <= i < edges.len() && #[trigger] shaped(before, edges[i], t, m) ==> shaped(
                after,
                edges[i],
                t,
                m,
            ),
{
    assert forall|i: int| 0 <= i < edges.len() implies flat(after, #[trigger] edges[i], t) == flat(
        before,
        edges[i],
        t,
    ) && bag(after, edges[i], t) == bag(before, edges[i], t) by {
        lemma_kid_kept(before, after, edges[i], t, 0, touched);
    }
    assert(kid_flats(after, edges, t) =~= kid_flats(before, edges, t));
    assert(kid_bags(after, edges, t) =~= kid_bags(before, edges, t));
    assert forall|i: int, m: nat|
        0 <= i < edges.len() && #[trigger] shaped(before, edges[i], t, m) implies shaped(
        after,
        edges[i],
        t,
        m,
    ) by {
        lemma_kid_kept(before, after, edges[i], t, m, touched);
    }
}

} // verus!
