//! Sequences of entries: interleaving, order, and the map they stand for.

use crate::order::SortKey;
use vstd::multiset::Multiset;
use vstd::prelude::*;

verus! {

/// `parts[0]`, `seps[0]`, `parts[1]`, `seps[1]`, ... in one sequence:
/// each part followed by its separator.
pub open spec fn front<A>(parts: Seq<Seq<A>>, seps: Seq<A>) -> Seq<A>
    recommends
        parts.len() == seps.len(),
    decreases seps.len(),
{
    if seps.len() == 0 || parts.len() == 0 {
        Seq::empty()
    } else {
        front(parts.drop_last(), seps.drop_last()) + parts.last() + seq![seps.last()]
    }
}

/// `seps[0]`, `parts[0]`, `seps[1]`, `parts[1]`, ... in one sequence:
/// each separator followed by its part.
pub open spec fn back<A>(seps: Seq<A>, parts: Seq<Seq<A>>) -> Seq<A>
    recommends
        parts.len() == seps.len(),
    decreases seps.len(),
{
    if seps.len() == 0 || parts.len() == 0 {
        Seq::empty()
    } else {
        seq![seps[0]] + parts[0] + back(seps.skip(1), parts.skip(1))
    }
}

/// The parts in order with one separator between each two neighbours.
pub open spec fn weave<A>(parts: Seq<Seq<A>>, seps: Seq<A>) -> Seq<A>
    recommends
        parts.len() == seps.len() + 1,
{
    front(parts.drop_last(), seps) + parts.last()
}

/// A woven sequence is what comes before part `j`, then part `j`, then what comes after it.
pub proof fn lemma_weave_at<A>(parts: Seq<Seq<A>>, seps: Seq<A>, j: int)
    requires
        parts.len() == seps.len() + 1,
        0 <= j <= seps.len(),
    ensures
        weave(parts, seps) == front(parts.take(j), seps.take(j)) + parts[j] + back(
            seps.skip(j),
            parts.skip(j + 1),
        ),
    decreases seps.len() - j,
{
    let m = seps.len() as int;
    if j == m {
        assert(parts.take(j) == parts.drop_last());
        assert(seps.take(j) == seps);
        assert(seps.skip(j).len() == 0);
        assert(weave(parts, seps) == front(parts.take(j), seps.take(j)) + parts[j] + Seq::<A>::empty());
    } else {
        lemma_weave_at(parts, seps, j + 1);
        assert(parts.take(j + 1).drop_last() == parts.take(j));
        assert(seps.take(j + 1).drop_last() == seps.take(j));
        assert(seps.skip(j).skip(1) == seps.skip(j + 1));
        assert(parts.skip(j + 1).skip(1) == parts.skip(j + 2));
        let f = front(parts.take(j), seps.take(j));
        let b = back(seps.skip(j + 1), parts.skip(j + 2));
        assert(front(parts.take(j + 1), seps.take(j + 1)) == f + parts[j] + seq![seps[j]]);
        assert(back(seps.skip(j), parts.skip(j + 1)) == seq![seps[j]] + parts[j + 1] + b);
        assert(f + parts[j] + seq![seps[j]] + parts[j + 1] + b == f + parts[j] + (seq![seps[j]]
            + parts[j + 1] + b));
    }
}

/// Weaving two runs of parts with a separator between them.
pub proof fn lemma_weave_join<A>(pa: Seq<Seq<A>>, sa: Seq<A>, x: A, pb: Seq<Seq<A>>, sb: Seq<A>)
    requires
        pa.len() == sa.len() + 1,
        pb.len() == sb.len() + 1,
    ensures
        weave(pa + pb, sa + seq![x] + sb) == weave(pa, sa) + seq![x] + weave(pb, sb),
    decreases sb.len(),
{
    let parts = pa + pb;
    let seps = sa + seq![x] + sb;
    if sb.len() == 0 {
        assert(parts.drop_last() == pa);
        assert(seps.drop_last() == sa);
        assert(parts.drop_last().drop_last() == pa.drop_last());
        assert(front(parts.drop_last(), seps) == front(pa.drop_last(), sa) + pa.last() + seq![x]);
        assert(weave(pb, sb) == pb.last()) by {
            assert(front(pb.drop_last(), sb) == Seq::<A>::empty());
        }
    } else {
        lemma_weave_join(pa, sa, x, pb.drop_last(), sb.drop_last());
        assert((pa + pb).drop_last() == pa + pb.drop_last());
        assert((sa + seq![x] + sb).drop_last() == sa + seq![x] + sb.drop_last());
        assert(parts.drop_last().drop_last() == (pa + pb.drop_last()).drop_last());
        let wa = weave(pa, sa);
        let fb = front(pb.drop_last().drop_last(), sb.drop_last());
        let q = pb.drop_last().last();
        assert(front(parts.drop_last(), seps) == front(parts.drop_last().drop_last(), seps.drop_last())
            + q + seq![sb.last()]);
        assert(weave(pa + pb.drop_last(), sa + seq![x] + sb.drop_last()) == front(
            parts.drop_last().drop_last(),
            seps.drop_last(),
        ) + q);
        assert(weave(pb.drop_last(), sb.drop_last()) == fb + q);
        assert(front(pb.drop_last(), sb) == fb + q + seq![sb.last()]);
        let fr = front(parts.drop_last().drop_last(), seps.drop_last());
        assert(fr + q == wa + seq![x] + (fb + q));
        assert(fr + q + seq![sb.last()] + pb.last() == wa + seq![x] + (fb + q + seq![sb.last()]
            + pb.last()));
    }
}

/// The sum of a sequence of multisets.
pub open spec fn bag_sum<A>(bags: Seq<Multiset<A>>) -> Multiset<A>
    decreases bags.len(),
{
    if bags.len() == 0 {
        Multiset::empty()
    } else {
        bag_sum(bags.drop_last()).add(bags.last())
    }
}

/// The sum of a concatenation is the sum of the sums.
pub proof fn lemma_bag_sum_concat<A>(a: Seq<Multiset<A>>, b: Seq<Multiset<A>>)
    ensures
        bag_sum(a + b) =~= bag_sum(a).add(bag_sum(b)),
    decreases b.len(),
{
    if b.len() == 0 {
        assert(a + b == a);
    } else {
        lemma_bag_sum_concat(a, b.drop_last());
        assert((a + b).drop_last() == a + b.drop_last());
    }
}

/// The sum of one bag is that bag.
pub proof fn lemma_bag_sum_one<A>(bag: Multiset<A>)
    ensures
        bag_sum(seq![bag]) =~= bag,
{
    let one = seq![bag];
    assert(one.drop_last().len() == 0);
    assert(bag_sum(one.drop_last()) =~= Multiset::<A>::empty());
    assert(one.last() == bag);
}

/// The sum is what comes before bag `j`, bag `j`, and what comes after it.
pub proof fn lemma_bag_sum_at<A>(bags: Seq<Multiset<A>>, j: int)
    requires
        0 <= j < bags.len(),
    ensures
        bag_sum(bags) =~= bag_sum(bags.take(j)).add(bags[j]).add(bag_sum(bags.skip(j + 1))),
{
    assert(bags == bags.take(j) + seq![bags[j]] + bags.skip(j + 1));
    lemma_bag_sum_concat(bags.take(j) + seq![bags[j]], bags.skip(j + 1));
    lemma_bag_sum_concat(bags.take(j), seq![bags[j]]);
    lemma_bag_sum_one(bags[j]);
}

/// Where each bag is no larger than the part at its place, the bags together
/// with the separators are no more than what the parts and separators make.
pub proof fn lemma_front_holds<A, B>(bags: Seq<Multiset<B>>, parts: Seq<Seq<A>>, seps: Seq<A>)
    requires
        bags.len() == parts.len(),
        parts.len() == seps.len(),
        forall|i: int| 0 <= i < bags.len() ==> (#[trigger] bags[i]).len() <= parts[i].len(),
    ensures
        bag_sum(bags).len() + seps.len() <= front(parts, seps).len(),
    decreases seps.len(),
{
    if seps.len() > 0 {
        lemma_front_holds(bags.drop_last(), parts.drop_last(), seps.drop_last());
        assert(bags.last() == bags[bags.len() - 1]);
    }
}

/// The entries' keys ascend strictly.
pub open spec fn ascending<K: SortKey, V>(s: Seq<(K::V, V)>) -> bool {
    forall|i: int, j: int| 0 <= i < j < s.len() ==> K::precedes(#[trigger] s[i].0, #[trigger] s[j].0)
}

/// `key` belongs at index `at` of `s`: after all entries before it and before all from it on.
pub open spec fn fits_at<K: SortKey, V>(s: Seq<(K::V, V)>, at: int, key: K::V) -> bool {
    &&& 0 <= at <= s.len()
    &&& forall|i: int| 0 <= i < at ==> K::precedes(#[trigger] s[i].0, key)
    &&& forall|i: int| at <= i < s.len() ==> K::precedes(key, #[trigger] s[i].0)
}

/// No entry of `s` has the key `key`.
pub open spec fn lacks<K: SortKey, V>(s: Seq<(K::V, V)>, key: K::V) -> bool {
    forall|i: int| 0 <= i < s.len() ==> (#[trigger] s[i]).0 != key
}

/// The map from each key in `s` to the value of its entry.
pub open spec fn as_map<K: SortKey, V>(s: Seq<(K::V, V)>) -> Map<K::V, V> {
    Map::new(
        |k: K::V| exists|i: int| 0 <= i < s.len() && (#[trigger] s[i]).0 == k,
        |k: K::V| s[choose|i: int| 0 <= i < s.len() && (#[trigger] s[i]).0 == k].1,
    )
}

/// In an ascending sequence no key occurs twice.
pub proof fn lemma_ascending_distinct<K: SortKey, V>(s: Seq<(K::V, V)>, i: int, j: int)
    requires
        ascending::<K, V>(s),
        0 <= i < s.len(),
        0 <= j < s.len(),
        s[i].0 == s[j].0,
    ensures
        i == j,
{
    if i < j {
        K::precedes_irreflexive(s[i].0);
    } else if j < i {
        K::precedes_irreflexive(s[i].0);
    }
}

/// The entry at index `i` of an ascending sequence is what the map holds for its key.
pub proof fn lemma_as_map_at<K: SortKey, V>(s: Seq<(K::V, V)>, i: int)
    requires
        ascending::<K, V>(s),
        0 <= i < s.len(),
    ensures
        as_map::<K, V>(s).contains_key(s[i].0),
        as_map::<K, V>(s)[s[i].0] == s[i].1,
{
    let k = s[i].0;
    let j = choose|j: int| 0 <= j < s.len() && (#[trigger] s[j]).0 == k;
    lemma_ascending_distinct::<K, V>(s, i, j);
}

/// A key that fits at an index is not in the sequence.
pub proof fn lemma_fits_lacks<K: SortKey, V>(s: Seq<(K::V, V)>, at: int, key: K::V)
    requires
        fits_at::<K, V>(s, at, key),
    ensures
        lacks::<K, V>(s, key),
        !as_map::<K, V>(s).contains_key(key),
{
    K::precedes_irreflexive(key);
}

/// Inserting a key where it fits keeps the order and adds it to the map.
pub proof fn lemma_insert_fits<K: SortKey, V>(s: Seq<(K::V, V)>, at: int, key: K::V, value: V)
    requires
        ascending::<K, V>(s),
        fits_at::<K, V>(s, at, key),
    ensures
        ascending::<K, V>(s.insert(at, (key, value))),
        as_map::<K, V>(s.insert(at, (key, value))) == as_map::<K, V>(s).insert(key, value),
{
    let t = s.insert(at, (key, value));
    assert forall|i: int, j: int| 0 <= i < j < t.len() implies K::precedes(
        #[trigger] t[i].0,
        #[trigger] t[j].0,
    ) by {
        if i < at && j > at {
            assert(t[i] == s[i] && t[j] == s[j - 1]);
        } else if i < at && j < at {
            assert(t[i] == s[i] && t[j] == s[j]);
        } else if i == at {
            assert(t[j] == s[j - 1]);
        } else if j == at {
            assert(t[i] == s[i]);
        } else {
            assert(t[i] == s[i - 1] && t[j] == s[j - 1]);
        }
    }
    let m1 = as_map::<K, V>(t);
    let m2 = as_map::<K, V>(s).insert(key, value);
    assert forall|k: K::V| m1.contains_key(k) == m2.contains_key(k) by {
        if m1.contains_key(k) {
            let i = choose|i: int| 0 <= i < t.len() && (#[trigger] t[i]).0 == k;
            if i < at {
                assert(s[i].0 == k);
            } else if i > at {
                assert(s[i - 1].0 == k);
            }
        }
        if m2.contains_key(k) {
            if k == key {
                assert(t[at].0 == k);
            } else {
                let i = choose|i: int| 0 <= i < s.len() && (#[trigger] s[i]).0 == k;
                if i < at {
                    assert(t[i].0 == k);
                } else {
                    assert(t[i + 1].0 == k);
                }
            }
        }
    }
    assert forall|k: K::V| m1.contains_key(k) implies m1[k] == m2[k] by {
        if k == key {
            assert(t[at] == (key, value));
            lemma_as_map_at::<K, V>(t, at);
        } else {
            let i = choose|i: int| 0 <= i < s.len() && (#[trigger] s[i]).0 == k;
            lemma_as_map_at::<K, V>(s, i);
            if i < at {
                assert(t[i] == s[i]);
                lemma_as_map_at::<K, V>(t, i);
            } else {
                assert(t[i + 1] == s[i]);
                lemma_as_map_at::<K, V>(t, i + 1);
            }
        }
    }
    assert(m1 =~= m2);
}

/// Replacing the value of an entry keeps the order and updates the map.
pub proof fn lemma_update_value<K: SortKey, V>(s: Seq<(K::V, V)>, at: int, value: V)
    requires
        ascending::<K, V>(s),
        0 <= at < s.len(),
    ensures
        ascending::<K, V>(s.update(at, (s[at].0, value))),
        as_map::<K, V>(s.update(at, (s[at].0, value))) == as_map::<K, V>(s).insert(s[at].0, value),
{
    let key = s[at].0;
    let t = s.update(at, (key, value));
    assert forall|i: int, j: int| 0 <= i < j < t.len() implies K::precedes(
        #[trigger] t[i].0,
        #[trigger] t[j].0,
    ) by {
        assert(t[i].0 == s[i].0 && t[j].0 == s[j].0);
    }
    let m1 = as_map::<K, V>(t);
    let m2 = as_map::<K, V>(s).insert(key, value);
    assert forall|k: K::V| m1.contains_key(k) == m2.contains_key(k) by {
        if m1.contains_key(k) {
            let i = choose|i: int| 0 <= i < t.len() && (#[trigger] t[i]).0 == k;
            assert(s[i].0 == k);
        }
        if m2.contains_key(k) {
            if k == key {
                assert(t[at].0 == k);
            } else {
                let i = choose|i: int| 0 <= i < s.len() && (#[trigger] s[i]).0 == k;
                assert(t[i].0 == k);
            }
        }
    }
    assert forall|k: K::V| m1.contains_key(k) implies m1[k] == m2[k] by {
        if k == key {
            lemma_as_map_at::<K, V>(t, at);
        } else {
            let i = choose|i: int| 0 <= i < s.len() && (#[trigger] s[i]).0 == k;
            lemma_as_map_at::<K, V>(s, i);
            assert(t[i] == s[i]);
            lemma_as_map_at::<K, V>(t, i);
        }
    }
    assert(m1 =~= m2);
}

/// Removing an entry keeps the order and removes its key from the map.
pub proof fn lemma_remove_at<K: SortKey, V>(s: Seq<(K::V, V)>, at: int)
    requires
        ascending::<K, V>(s),
        0 <= at < s.len(),
    ensures
        ascending::<K, V>(s.remove(at)),
        as_map::<K, V>(s.remove(at)) == as_map::<K, V>(s).remove(s[at].0),
{
    let key = s[at].0;
    let t = s.remove(at);
    assert forall|i: int, j: int| 0 <= i < j < t.len() implies K::precedes(
        #[trigger] t[i].0,
        #[trigger] t[j].0,
    ) by {
        let i2 = if i < at { i } else { i + 1 };
        let j2 = if j < at { j } else { j + 1 };
        assert(t[i] == s[i2] && t[j] == s[j2]);
    }
    let m1 = as_map::<K, V>(t);
    let m2 = as_map::<K, V>(s).remove(key);
    assert forall|k: K::V| m1.contains_key(k) == m2.contains_key(k) by {
        if m1.contains_key(k) {
            let i = choose|i: int| 0 <= i < t.len() && (#[trigger] t[i]).0 == k;
            let i2 = if i < at { i } else { i + 1 };
            assert(t[i] == s[i2]);
            assert(s[i2].0 == k);
            if k == key {
                lemma_ascending_distinct::<K, V>(s, i2, at);
            }
        }
        if m2.contains_key(k) {
            let i = choose|i: int| 0 <= i < s.len() && (#[trigger] s[i]).0 == k;
            assert(i != at);
            if i < at {
                assert(t[i].0 == k);
            } else {
                assert(t[i - 1].0 == k);
            }
        }
    }
    assert forall|k: K::V| m1.contains_key(k) implies m1[k] == m2[k] by {
        assert(m2.contains_key(k));
        let i = choose|i: int| 0 <= i < s.len() && (#[trigger] s[i]).0 == k;
        assert(i != at);
        lemma_as_map_at::<K, V>(s, i);
        if i < at {
            assert(t[i] == s[i]);
            lemma_as_map_at::<K, V>(t, i);
        } else {
            assert(t[i - 1] == s[i]);
            lemma_as_map_at::<K, V>(t, i - 1);
        }
    }
    assert(m1 =~= m2);
}

} // verus!
