//! Routines that put a map through its paces and report whether it behaved.
//! Each is proved to report success on every input.

use crate::btree::{lemma_empty_has_no_node, BTreeMap, MAX_ENTRIES};
use crate::edges::{every_edge_exists_only_once, first_seen, lemma_first_seen, unique};
use crate::node::NodeHandle;
use vstd::prelude::*;

verus! {

broadcast use vstd::std_specs::hash::group_hash_axioms;

/// A map with the four entries 5 to 50, 42 to 420, 1337 to 13370 and 77 to 770.
pub fn filled_map() -> (map: BTreeMap<i32, i32>)
    ensures
        map.wf(),
        map@ == Map::<i32, i32>::empty().insert(5, 50).insert(42, 420).insert(1337, 13370).insert(
            77,
            770,
        ),
        map.entries().len() == 4,
{
    let mut map = BTreeMap::new(0);
    map.insert(5, 50);
    map.insert(42, 420);
    map.insert(1337, 13370);
    map.insert(77, 770);
    map
}

/// Whether ten times `x` fits into 32 bits.
pub open spec fn tenfold_fits(x: i32) -> bool {
    -214748364 <= x <= 214748364
}

/// Whether ten times `x`, and of the two numbers after `x`, fits into 32 bits.
pub open spec fn scalable(x: i32) -> bool {
    -214748364 <= x <= 214748362
}

/// Number of even items among `s`.
pub open spec fn even_items(s: Seq<i32>) -> nat
    decreases s.len(),
{
    if s.len() == 0 {
        0
    } else {
        even_items(s.drop_last()) + if s.last() % 2 == 0 {
            1nat
        } else {
            0nat
        }
    }
}

/// A sequence holds no more even items than items.
pub proof fn lemma_even_items_bound(s: Seq<i32>)
    ensures
        even_items(s) <= s.len(),
    decreases s.len(),
{
    if s.len() > 0 {
        lemma_even_items_bound(s.drop_last());
    }
}

/// The first items of a sequence hold no more even items than the whole.
pub proof fn lemma_even_items_grow(s: Seq<i32>, i: int)
    requires
        0 <= i <= s.len(),
    ensures
        even_items(s.take(i)) <= even_items(s),
        i < s.len() ==> even_items(s.take(i + 1)) == even_items(s.take(i)) + if s[i] % 2 == 0 {
            1nat
        } else {
            0nat
        },
    decreases s.len() - i,
{
    if i < s.len() {
        assert(s.take(i + 1).drop_last() =~= s.take(i));
        lemma_even_items_grow(s, i + 1);
    } else {
        assert(s.take(i) =~= s);
    }
}

/// Inserts every item of `xs` with ten times itself as its value, checks
/// that each is found, removes them all again, and checks at every step
/// that the number of entries follows, and at the end that the map is
/// empty and no node is left. Reports whether every check held.
pub fn randomized_insert_and_remove(xs: Vec<i32>) -> (ok: bool)
    requires
        xs@.len() <= MAX_ENTRIES,
        forall|i: int| 0 <= i < xs@.len() ==> tenfold_fits(#[trigger] xs@[i]),
    ensures
        ok,
{
    let mut ok = true;
    let mut map: BTreeMap<i32, i32> = BTreeMap::new(0);
    let mut len = map.len();
    let mut i: usize = 0;
    while i < xs.len()
        invariant
            ok,
            map.wf(),
            i <= xs@.len(),
            xs@.len() <= MAX_ENTRIES,
            len == map.entries().len(),
            len <= i,
            forall|j: int| 0 <= j < xs@.len() ==> tenfold_fits(#[trigger] xs@[j]),
            forall|j: int| 0 <= j < i ==> map@.contains_key(#[trigger] xs@[j]),
            forall|k: i32| #[trigger] map@.contains_key(k) ==> map@[k] == k * 10 && exists|j: int|
                0 <= j < i && xs@[j] == k,
        decreases xs@.len() - i,
    {
        let x = xs[i];
        if map.insert(x, x * 10).is_none() {
            len += 1;
        }
        ok = ok && map.len() == len;
        i += 1;
    }
    let max_node_count = map.header().node_count;
    i = 0;
    while i < xs.len()
        invariant
            ok,
            map.wf(),
            i <= xs@.len(),
            forall|j: int| 0 <= j < xs@.len() ==> tenfold_fits(#[trigger] xs@[j]),
            forall|j: int| 0 <= j < xs@.len() ==> map@.contains_key(#[trigger] xs@[j]),
            forall|k: i32| #[trigger] map@.contains_key(k) ==> map@[k] == k * 10,
        decreases xs@.len() - i,
    {
        let x = xs[i];
        let want = x * 10;
        ok = ok && map.get(&x) == Some(&want);
        i += 1;
    }
    i = 0;
    while i < xs.len()
        invariant
            ok,
            map.wf(),
            i <= xs@.len(),
            len == map.entries().len(),
            forall|j: int| 0 <= j < xs@.len() ==> tenfold_fits(#[trigger] xs@[j]),
            forall|k: i32| #[trigger] map@.contains_key(k) ==> map@[k] == k * 10 && exists|j: int|
                i <= j < xs@.len() && xs@[j] == k,
        decreases xs@.len() - i,
    {
        let x = xs[i];
        match map.remove(&x) {
            Some(v) => {
                ok = ok && v == x * 10;
                len -= 1;
            },
            None => {},
        }
        ok = ok && map.len() == len;
        i += 1;
    }
    proof {
        crate::btree::lemma_len_counts_keys(&map);
        if map.entries().len() > 0 {
            assert(map@.contains_key(map.entries()[0].0));
        }
        lemma_empty_has_no_node(&map);
    }
    ok = ok && map.len() == 0;
    ok = ok && map.header().node_count == 0;
    let mut h: u32 = 0;
    while h < max_node_count
        invariant
            ok,
            forall|x: u32| !#[trigger] map.arena().contains_key(x),
        decreases max_node_count - h,
    {
        ok = ok && map.get_node(&NodeHandle::new(h)).is_none();
        h += 1;
    }
    ok
}

/// Whether `x` is even.
fn is_even(x: i32) -> (even: bool)
    ensures
        even == (x % 2 == 0),
{
    if x >= 0 {
        (x as u32) % 2 == 0
    } else {
        let up: i64 = -(x as i64);
        (up as u64) % 2 == 0
    }
}

/// Goes through `xs`: at an even number it inserts that number and the
/// two after it, each with ten times itself as its value; at a positive
/// odd number after that it checks that those three are found, removes
/// them and checks that they are gone. At every step it checks that the
/// number of entries follows and that no edge occurs twice. Reports
/// whether every check held.
pub fn insert_and_remove(xs: Vec<i32>) -> (ok: bool)
    requires
        3 * even_items(xs@) <= MAX_ENTRIES,
        forall|i: int| 0 <= i < xs@.len() && xs@[i] % 2 == 0 ==> scalable(#[trigger] xs@[i]),
    ensures
        ok,
{
    let mut ok = true;
    let mut map: BTreeMap<i32, i32> = BTreeMap::new(0);
    let mut cnt_inserts: u64 = 0;
    let mut previous_even_x: Option<i32> = None;
    let number_inserts: i32 = 3;
    let mut i: usize = 0;
    while i < xs.len()
        invariant
            ok,
            map.wf(),
            number_inserts == 3,
            i <= xs@.len(),
            3 * even_items(xs@) <= MAX_ENTRIES,
            cnt_inserts == map.entries().len(),
            cnt_inserts <= 3 * even_items(xs@.take(i as int)),
            forall|j: int| 0 <= j < xs@.len() && xs@[j] % 2 == 0 ==> scalable(#[trigger] xs@[j]),
            forall|k: i32| #[trigger] map@.contains_key(k) ==> map@[k] == k * 10,
            match previous_even_x {
                Some(x) => scalable(x) && forall|a: i32| x <= a < x + 3 ==> #[trigger] map@.contains_key(a),
                None => true,
            },
        decreases xs@.len() - i,
    {
        let x = xs[i];
        proof {
            lemma_even_items_grow(xs@, i as int);
            lemma_even_items_grow(xs@, i + 1);
        }
        if is_even(x) {
            let mut a = x;
            while a < x + number_inserts
                invariant
                    ok,
                    map.wf(),
                    number_inserts == 3,
                    scalable(x),
                    x <= a <= x + 3,
                    i < xs@.len(),
                    3 * even_items(xs@) <= MAX_ENTRIES,
                    even_items(xs@.take(i as int)) < even_items(xs@),
                    cnt_inserts == map.entries().len(),
                    cnt_inserts <= 3 * even_items(xs@.take(i as int)) + (a - x),
                    forall|k: i32| #[trigger] map@.contains_key(k) ==> map@[k] == k * 10,
                    forall|b: i32| x <= b < a ==> #[trigger] map@.contains_key(b),
                decreases x + 3 - a,
            {
                if map.insert(a, a * 10).is_none() {
                    cnt_inserts += 1;
                }
                ok = ok && map.len() == cnt_inserts;
                a += 1;
            }
            previous_even_x = Some(x);
        } else if x > 0 && previous_even_x.is_some() {
            let x = match previous_even_x {
                Some(x) => x,
                None => 0,
            };
            let mut a = x;
            while a < x + number_inserts
                invariant
                    ok,
                    map.wf(),
                    number_inserts == 3,
                    scalable(x),
                    x <= a <= x + 3,
                    cnt_inserts == map.entries().len(),
                    cnt_inserts <= 3 * even_items(xs@.take(i as int)),
                    forall|k: i32| #[trigger] map@.contains_key(k) ==> map@[k] == k * 10,
                    forall|b: i32| a <= b < x + 3 ==> #[trigger] map@.contains_key(b),
                decreases x + 3 - a,
            {
                let want = a * 10;
                ok = ok && map.get(&a) == Some(&want);
                ok = ok && map.remove(&a) == Some(want);
                ok = ok && map.get(&a).is_none();
                cnt_inserts -= 1;
                ok = ok && map.len() == cnt_inserts;
                a += 1;
            }
            previous_even_x = None;
        }
        ok = ok && every_edge_exists_only_once(&map);
        i += 1;
    }
    ok
}

/// `insert_and_remove` on `xs`.
pub fn randomized_inserts_and_removes(xs: Vec<i32>) -> (ok: bool)
    requires
        3 * even_items(xs@) <= MAX_ENTRIES,
        forall|i: int| 0 <= i < xs@.len() && xs@[i] % 2 == 0 ==> scalable(#[trigger] xs@[i]),
    ensures
        ok,
{
    insert_and_remove(xs)
}

/// Inserts the different items of `xs`, each with ten times itself as its
/// value, removes every `xth` of them (every one where `xth` is zero),
/// and checks that the others are still found, and at every step that
/// the number of entries follows. Reports whether every check held.
pub fn randomized_removes(xs: Vec<i32>, xth: usize) -> (ok: bool)
    requires
        xs@.len() <= MAX_ENTRIES,
        forall|i: int| 0 <= i < xs@.len() ==> tenfold_fits(#[trigger] xs@[i]),
    ensures
        ok,
{
    let mut ok = true;
    let mut map: BTreeMap<i32, i32> = BTreeMap::new(0);
    let mut len = map.len();
    let xth = if xth == 0 {
        1
    } else {
        xth
    };
    let ghost given = xs@;
    let xs = unique(xs);
    proof {
        lemma_first_seen(given);
        assert forall|i: int| 0 <= i < xs@.len() implies tenfold_fits(#[trigger] xs@[i]) by {
            assert(first_seen(given).contains(xs@[i]));
            let j = choose|j: int| 0 <= j < given.len() && given[j] == xs@[i];
            assert(tenfold_fits(given[j]));
        }
    }
    let mut i: usize = 0;
    while i < xs.len()
        invariant
            ok,
            map.wf(),
            i <= xs@.len(),
            xs@.len() <= MAX_ENTRIES,
            xs@.no_duplicates(),
            len == map.entries().len(),
            len == i,
            forall|j: int| 0 <= j < xs@.len() ==> tenfold_fits(#[trigger] xs@[j]),
            forall|j: int| 0 <= j < i ==> map@.contains_key(#[trigger] xs@[j]),
            forall|k: i32| #[trigger] map@.contains_key(k) ==> map@[k] == k * 10 && exists|j: int|
                0 <= j < i && xs@[j] == k,
        decreases xs@.len() - i,
    {
        let x = xs[i];
        ok = ok && map.insert(x, x * 10).is_none();
        len += 1;
        ok = ok && map.len() == len;
        i += 1;
    }
    i = 0;
    while i < xs.len()
        invariant
            ok,
            map.wf(),
            xth > 0,
            i <= xs@.len(),
            xs@.no_duplicates(),
            len == map.entries().len(),
            forall|j: int| 0 <= j < xs@.len() ==> tenfold_fits(#[trigger] xs@[j]),
            forall|j: int|
                0 <= j < xs@.len() && (j >= i || j % (xth as int) != 0) ==> map@.contains_key(
                    #[trigger] xs@[j],
                ),
            forall|k: i32| #[trigger] map@.contains_key(k) ==> map@[k] == k * 10,
        decreases xs@.len() - i,
    {
        let x = xs[i];
        if i % xth == 0 {
            ok = ok && map.remove(&x) == Some(x * 10);
            len -= 1;
        }
        ok = ok && map.len() == len;
        i += 1;
    }
    i = 0;
    while i < xs.len()
        invariant
            ok,
            map.wf(),
            xth > 0,
            i <= xs@.len(),
            forall|j: int| 0 <= j < xs@.len() ==> tenfold_fits(#[trigger] xs@[j]),
            forall|j: int|
                0 <= j < xs@.len() && j % (xth as int) != 0 ==> map@.contains_key(#[trigger] xs@[j]),
            forall|k: i32| #[trigger] map@.contains_key(k) ==> map@[k] == k * 10,
        decreases xs@.len() - i,
    {
        let x = xs[i];
        if i % xth != 0 {
            let want = x * 10;
            ok = ok && map.get(&x) == Some(&want);
        }
        i += 1;
    }
    ok
}

} // verus!
