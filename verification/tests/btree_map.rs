use itertools::Itertools;
use storage_btree::btree::BTreeMap;
use storage_btree::checks::{
    filled_map, insert_and_remove, randomized_insert_and_remove, randomized_inserts_and_removes,
    randomized_removes,
};
use storage_btree::edges::{all_edges, every_edge_exists_only_once};
use storage_btree::entry::Entry;
use storage_btree::node::{
    search_node, HandleType, KVHandle, Node, NodeHandle, SearchResult, CAPACITY, MIN_FILL,
};
use storage_btree::order::{Side, SortKey};
use storage_btree::search::{search_tree, search_with_route};

fn empty_map() -> BTreeMap<i32, i32> {
    BTreeMap::new(0)
}

#[test]
fn empty_map_works() {
    let map = empty_map();

    // Initial invariant.
    assert_eq!(map.len(), 0);
    assert!(map.is_empty());
}

#[test]
fn putting_on_same_key_works() {
    // given
    let mut map = empty_map();

    // when
    assert_eq!(map.insert(42, 420), None);
    assert_eq!(map.len(), 1);
    assert_eq!(map.insert(42, 520), Some(420));

    // then
    assert_eq!(map.len(), 1);
    assert_eq!(map.get(&42), Some(&520));
}

#[test]
fn first_put_filled() {
    // given
    let mut map = filled_map();
    assert_eq!(map.get(&5), Some(&50));
    assert_eq!(map.get(&42), Some(&420));
    assert_eq!(map.get(&1337), Some(&13370));
    assert_eq!(map.get(&77), Some(&770));
    assert_eq!(map.get(&4), None);
    assert_eq!(map.len(), 4);

    // when
    assert_eq!(map.insert(4, 40), None);

    // then
    assert_eq!(map.get(&4), Some(&40));
    assert_eq!(map.len(), 5);
}

#[test]
fn entry_api_works() {
    let mut map = filled_map();
    assert_eq!(map.entry(5).key(), &5);
    assert_eq!(map.entry(-1).key(), &-1);
    assert_eq!(map.entry(997).or_insert(9970), &9970);
}

#[test]
fn entry_api_works_with_strings_and_multiple_calls() {
    // given
    let mut map: BTreeMap<String, i32> = BTreeMap::new(0);
    let k = String::from("poneyland");
    map.entry(k.clone()).or_insert(12);

    // when
    match map.entry(k.clone()) {
        Entry::Occupied(mut o) => {
            *o.get_mut() += 10;
            assert_eq!(*o.get(), 22);

            *o.get_mut() += 2;
        }
        _ => unreachable!(),
    };

    // then
    assert_eq!(map.get(&k).expect("must be there"), &24);
}

#[test]
fn remove_works() {
    // given
    let mut map = empty_map();

    // when
    assert_eq!(map.insert(4, 40), None);
    assert_eq!(map.get(&4), Some(&40));
    assert_eq!(map.len(), 1);

    // then
    assert_eq!(map.remove(&4), Some(40));
    assert_eq!(map.get(&4), None);
    assert_eq!(map.len(), 0);
}

#[test]
fn multiple_inserts_for_same_key_work() {
    // given
    let mut map = empty_map();
    assert_eq!(map.insert(0, 10), None);

    // when
    assert_eq!(map.insert(0, 20), Some(10));
    assert_eq!(map.get(&0), Some(&20));
    assert_eq!(map.len(), 1);

    // then
    assert_eq!(map.remove(&0), Some(20));
    assert_eq!(map.get(&0), None);
    assert_eq!(map.len(), 0);
}

#[test]
fn putting_and_removing_many_items_works() {
    // given
    let mut map = empty_map();
    let mut len = map.len();
    for i in 1..200 {
        assert_eq!(map.insert(i, i * 10), None);
        len += 1;
        assert_eq!(map.len(), len);
    }
    let max_node_count = map.header().node_count;

    // when
    for i in 1..200 {
        assert_eq!(map.get(&i), Some(&(i * 10)));
        assert_eq!(map.remove(&i), Some(i * 10));
        assert_eq!(map.get(&i), None);
        len -= 1;
        assert_eq!(map.len(), len);
    }

    // then
    assert_eq!(map.len(), 0);
    assert_eq!(map.header().node_count, 0);
    for i in 0..max_node_count {
        assert!(map.get_node(&NodeHandle::new(i)).is_none());
    }
}

#[test]
fn simple_insert_and_removal() {
    // given
    let xs = [0, 1, 2, 3, 4, 5, 6, 7, 8, 9, -1, 10];
    let mut map = empty_map();
    let mut len = 0;
    xs.iter().for_each(|i| {
        if let Some(_) = map.insert(*i, i * 10) {
            unreachable!("no element must already exist there");
        }
        len += 1;
        assert_eq!(map.len(), len);
    });
    let max_node_count = map.header().node_count;

    xs.iter().for_each(|k| {
        let v = *k * 10;
        assert_eq!(map.get(k), Some(&v));
        assert_eq!(map.contains_key(k), true);
        assert_eq!(map.get_key_value(k), Some((k, &v)));
    });

    // when
    xs.iter().for_each(|i| {
        match map.remove(&i) {
            Some(v) => {
                assert_eq!(v, i * 10);
                len -= 1;
            }
            None => unreachable!(),
        };
        assert_eq!(map.len(), len);
    });

    // then
    assert_eq!(map.len(), 0);
    assert_eq!(map.header().node_count, 0);
    for i in 0..max_node_count {
        assert!(map.get_node(&NodeHandle::new(i)).is_none());
    }
}

#[test]
fn alternating_inserts_and_remove_works() {
    // given
    let mut map = empty_map();
    let mut len = map.len();
    let ops = vec![
        200, // insert
        100, // remove
        100, // insert
        200, // remove
    ];
    let mut max_node_count = 0;

    // when
    ops.iter().enumerate().for_each(|(p, n)| {
        if p % 2 == 0 {
            // if it's an even array index we insert `n` elements
            for i in 1..*n {
                assert_eq!(map.insert(i, i * 10), None);
                len += 1;
                assert_eq!(map.len(), len);

                let nodes = map.header().node_count;
                if nodes > max_node_count {
                    max_node_count = nodes;
                }
            }
        } else {
            // on odd indices we remove `n` elements
            for i in 1..*n {
                assert_eq!(map.get(&i), Some(&(i * 10)));
                assert_eq!(map.remove(&i), Some(i * 10));
                assert_eq!(map.get(&i), None);
                len -= 1;
                assert_eq!(map.len(), len);
            }
        }
    });

    // then
    assert_eq!(map.len(), 0);
    assert_eq!(map.header().node_count, 0);
    for i in 0..max_node_count {
        assert!(map.get_node(&NodeHandle::new(i)).is_none());
    }
}

#[test]
fn sorted_insert_and_removal() {
    // given
    let mut map = empty_map();
    let mut len = map.len();

    let xs = vec![
        -95, -89, -86, -67, -54, -13, -6, -1, 4, 13, 15, 21, 31, 40, 65,
    ];
    let mut xs = xs.clone();
    xs.sort_by(|a, b| a.cmp(b));
    xs = xs.into_iter().unique().collect();
    let mut max_node_count = 0;

    // first insert in sorted order
    xs.iter().for_each(|i| {
        assert_eq!(map.insert(*i, i * 10), None);
        len += 1;
        max_node_count += map.header().node_count;
        assert_eq!(map.len(), len);
        assert!(every_edge_exists_only_once(&map));
    });

    // when
    // remove from the back
    xs.sort_by(|a, b| b.cmp(a));
    xs.iter().for_each(|i| {
        assert_eq!(map.remove(&i), Some(i * 10));
        len -= 1;
        assert_eq!(map.len(), len);
        assert!(every_edge_exists_only_once(&map));
    });

    // then
    assert_eq!(map.len(), 0);
    assert_eq!(map.header().node_count, 0);
    for i in 0..max_node_count {
        assert!(map.get_node(&NodeHandle::new(i)).is_none());
    }
}

/// These are some cases which in the past have shown to generate complex trees
/// for which the removal/insert operations touch all kinds of corner cases.
#[test]
fn complex_trees_work() {
    let xs = [
        -72, -68, 36, -30, 0, -38, -74, -60, 4, -2, 28, -34, 60, -42, -14, 32, -48, 18, -6, 24,
        -10, 40, 62, -64, 48, -56, 14, 3,
    ];
    assert!(insert_and_remove(xs.to_vec()));

    let xs = [
        2, -30, -26, 0, -34, -4, -38, -42, -8, -56, 66, 34, 16, 36, -62, -12, -20, 38, 30, -50,
        -66, 6, 70, 62, -16, 12, -70, 42, 31,
    ];
    assert!(insert_and_remove(xs.to_vec()));

    let xs = [-2, -66, -44, 34, -6, 62, 2, 6, -30, -70, 30, -62, 7, -44, 7];
    assert!(insert_and_remove(xs.to_vec()));
}

/// A small generator of numbers in `-bound..bound` for the runs below.
fn numbers(seed: u64, count: usize, bound: i32) -> Vec<i32> {
    let mut state = seed;
    let mut out = Vec::new();
    for _ in 0..count {
        state = state
            .wrapping_mul(6364136223846793005)
            .wrapping_add(1442695040888963407);
        let r = (state >> 33) as i64;
        out.push((r % (2 * bound as i64)) as i32 - bound);
    }
    out
}

#[test]
fn randomized_inserts_and_removes_hold() {
    for seed in 0..20 {
        assert!(randomized_inserts_and_removes(numbers(seed, 100, 100)));
    }
    assert!(randomized_inserts_and_removes(Vec::new()));
}

#[test]
fn randomized_insert_and_remove_holds() {
    for seed in 0..20 {
        assert!(randomized_insert_and_remove(numbers(seed, 300, 1000)));
    }
    assert!(randomized_insert_and_remove(numbers(7, 2000, 50)));
    assert!(randomized_insert_and_remove(Vec::new()));
}

#[test]
fn randomized_removes_hold() {
    for seed in 0..20 {
        for xth in 0..5 {
            assert!(randomized_removes(numbers(seed, 300, 1000), xth));
        }
    }
    assert!(randomized_removes(numbers(3, 50, 10), 1000));
    assert!(randomized_removes(Vec::new(), 3));
}

#[test]
fn routines_take_the_largest_items() {
    // ten times these still fits into 32 bits
    assert!(randomized_insert_and_remove(vec![214748364, -214748364, 214748363]));
    assert!(randomized_removes(vec![214748364, -214748364, 214748364], 2));
    // odd items are never multiplied, whatever their size
    assert!(insert_and_remove(vec![i32::MAX, 214748362, 1, -2147483647, -214748364, 3]));
    assert!(randomized_inserts_and_removes(vec![i32::MAX, -2147483647]));
}

#[test]
fn replacing_a_value_moves_nothing() {
    let mut map = empty_map();
    for i in 0..100 {
        map.insert(i, i);
    }
    let header = map.header();
    let extent = map.extent();
    let shape: Vec<Option<(Vec<i32>, Vec<u32>)>> = (0..extent)
        .map(|h| map.get_node(&NodeHandle::new(h)).map(|n| (n.keys.clone(), n.edges.clone())))
        .collect();
    for i in 0..100 {
        assert_eq!(map.insert(i, i + 1), Some(i));
    }
    assert_eq!(map.header(), header);
    assert_eq!(map.extent(), extent);
    let after: Vec<Option<(Vec<i32>, Vec<u32>)>> = (0..extent)
        .map(|h| map.get_node(&NodeHandle::new(h)).map(|n| (n.keys.clone(), n.edges.clone())))
        .collect();
    assert_eq!(shape, after);
}

#[test]
fn removing_an_absent_key_changes_nothing() {
    let mut map = empty_map();
    assert_eq!(map.remove(&1), None);
    assert_eq!(map.header().root, None);
    for i in 0..50 {
        map.insert(i * 2, i);
    }
    let header = map.header();
    let edges = all_edges(&map);
    assert_eq!(map.remove(&31), None);
    assert_eq!(map.header(), header);
    assert_eq!(all_edges(&map), edges);
    assert_eq!(map.len(), 50);
}

#[test]
fn map_agrees_with_std_on_a_long_run() {
    let mut map = empty_map();
    let mut model = std::collections::BTreeMap::new();
    let keys = numbers(42, 5000, 400);
    let mut max_nodes = 0;
    for (step, k) in keys.iter().enumerate() {
        if step % 3 == 2 {
            assert_eq!(map.remove(k), model.remove(k));
        } else {
            assert_eq!(map.insert(*k, step as i32), model.insert(*k, step as i32));
        }
        assert_eq!(map.len(), model.len() as u64);
        max_nodes = max_nodes.max(map.header().node_count);
        if step % 97 == 0 {
            assert!(every_edge_exists_only_once(&map));
            for probe in -400..400 {
                assert_eq!(map.get(&probe), model.get(&probe));
                assert_eq!(map.contains_key(&probe), model.contains_key(&probe));
            }
        }
    }
    let left: Vec<i32> = model.keys().cloned().collect();
    for k in left {
        assert_eq!(map.remove(&k), model.remove(&k));
    }
    assert!(map.is_empty());
    assert_eq!(map.header().node_count, 0);
    assert_eq!(map.header().root, None);
    for i in 0..max_nodes + 1 {
        assert!(map.get_node(&NodeHandle::new(i)).is_none());
    }
    // Nothing was read from or written to the store.
    assert_eq!(map.total_reads(), 0);
    assert_eq!(map.total_writes(), 0);
}

#[test]
fn nodes_keep_the_fill_bounds() {
    let mut map = empty_map();
    for i in 0..1000 {
        map.insert((i * 37) % 1000, i);
    }
    let root = map.header().root.expect("a filled map has a root");
    let mut keys = 0;
    let mut nodes = 0;
    for h in 0..map.extent() {
        if let Some(node) = map.get_node(&NodeHandle::new(h)) {
            nodes += 1;
            keys += node.len();
            assert!(node.len() <= CAPACITY);
            assert_eq!(node.keys.len(), node.vals.len());
            if h != root {
                assert!(node.len() >= MIN_FILL);
            }
            match node.kind() {
                HandleType::Leaf => assert!(node.edges.is_empty()),
                HandleType::Internal => assert_eq!(node.edges.len(), node.len() + 1),
            }
            assert!(node.keys.windows(2).all(|w| w[0] < w[1]));
        }
    }
    assert_eq!(keys as u64, map.len());
    assert_eq!(nodes, map.header().node_count);
    // every node but the root is the target of one edge
    let edges = all_edges(&map);
    assert_eq!(edges.len() as u32 + 1, nodes);
    assert!(!edges.contains(&root));
}

#[test]
fn freed_nodes_are_reused() {
    let mut map = empty_map();
    for i in 0..100 {
        map.insert(i, i);
    }
    let extent = map.extent();
    for i in 0..100 {
        map.remove(&i);
    }
    assert_eq!(map.header().node_count, 0);
    assert!(map.header().free_list_head.is_some());
    for i in 0..100 {
        map.insert(i, i);
    }
    assert_eq!(map.extent(), extent);
}

#[test]
fn search_node_scans_in_order() {
    let node = Node { keys: vec![10, 20, 30], vals: vec![1, 2, 3], edges: Vec::new() };
    assert_eq!(search_node(&node, 7, &20), SearchResult::Found(KVHandle::new(7, 1)));
    assert_eq!(search_node(&node, 7, &5), SearchResult::NotFound(KVHandle::new(7, 0)));
    assert_eq!(search_node(&node, 7, &25), SearchResult::NotFound(KVHandle::new(7, 2)));
    assert_eq!(search_node(&node, 7, &35), SearchResult::NotFound(KVHandle::new(7, 3)));
    let empty: Node<i32, i32> = Node::new();
    assert_eq!(search_node(&empty, 2, &1), SearchResult::NotFound(KVHandle::new(2, 0)));
    let at = KVHandle::new(7, 1);
    assert_eq!((at.node(), at.idx()), (7, 1));
    assert_eq!(NodeHandle::new(9).index(), 9);
}

#[test]
fn search_tree_names_the_slot() {
    let map = empty_map();
    assert_eq!(search_tree(&map, &1), SearchResult::NotFound(KVHandle::new(0, 0)));
    let mut map = empty_map();
    for i in 0..50 {
        map.insert(i * 2, i);
    }
    match search_tree(&map, &40) {
        SearchResult::Found(at) => {
            assert_eq!(map.key_ref(at), &40);
            assert_eq!(map.value_ref(at), &20);
            *map.value_mut(at) = 21;
        }
        SearchResult::NotFound(_) => unreachable!(),
    }
    assert_eq!(map.get(&40), Some(&21));
    match search_tree(&map, &41) {
        SearchResult::Found(_) => unreachable!(),
        SearchResult::NotFound(at) => {
            let node = map.get_node(&NodeHandle::new(at.node())).expect("a leaf");
            assert_eq!(node.kind(), HandleType::Leaf);
            let p = at.idx() as usize;
            assert!(p == 0 || node.keys[p - 1] < 41);
            assert!(p == node.len() || node.keys[p] > 41);
        }
    }
}

#[test]
fn entries_replace_and_insert() {
    let mut map = filled_map();
    match map.entry(42) {
        Entry::Occupied(mut o) => {
            assert_eq!(o.key(), &42);
            assert_eq!(o.insert(421), 420);
            assert_eq!(*o.get(), 421);
            *o.into_mut() += 1;
        }
        Entry::Vacant(_) => unreachable!(),
    }
    assert_eq!(map.get(&42), Some(&422));
    match map.entry(43) {
        Entry::Occupied(_) => unreachable!(),
        Entry::Vacant(v) => {
            assert_eq!(v.key(), &43);
            *v.insert(1) += 1;
        }
    }
    assert_eq!(map.get(&43), Some(&2));
    match map.entry(44) {
        Entry::Occupied(_) => unreachable!(),
        Entry::Vacant(v) => assert_eq!(v.into_key(), 44),
    }
    assert_eq!(map.len(), 5);
    // or_insert on a key that is there leaves its value.
    assert_eq!(map.entry(5).or_insert(0), &50);
    // many vacant inserts split nodes on the way
    for i in 100..400 {
        assert_eq!(*map.entry(i).or_insert(i), i);
    }
    assert_eq!(map.len(), 305);
    assert!(every_edge_exists_only_once(&map));
}

#[test]
fn inserting_at_the_slot_of_a_search_needs_no_other() {
    let mut map = empty_map();
    for i in 0..8 {
        map.insert(i * 10, i);
    }
    match search_tree(&map, &35) {
        SearchResult::Found(_) => unreachable!(),
        SearchResult::NotFound(at) => {
            assert_eq!(at, KVHandle::new(0, 4));
            map.insert_at(at, 35, 99);
            assert_eq!(map.key_ref(at), &35);
            assert_eq!(map.value_ref(at), &99);
        }
    }
    assert_eq!(map.len(), 9);
    assert_eq!(map.get(&35), Some(&99));
    assert_eq!(map.get(&30), Some(&3));
    assert_eq!(map.get(&40), Some(&4));
    let node = map.get_node(&NodeHandle::new(0)).expect("the root");
    assert_eq!(node.keys, vec![0, 10, 20, 30, 35, 40, 50, 60, 70]);
}

#[test]
fn a_led_insertion_splits_from_the_leaf_up() {
    let mut map = empty_map();
    let mut model = std::collections::BTreeMap::new();
    for k in numbers(5, 4000, 3000) {
        let (found, route) = search_with_route(&map, &k);
        assert_eq!(found, search_tree(&map, &k));
        match found {
            SearchResult::Found(at) => {
                assert_eq!(map.key_ref(at), &k);
                assert!(model.contains_key(&k));
            }
            SearchResult::NotFound(leaf) => {
                let at = map.insert_led(&route, leaf, k, k * 2);
                assert_eq!(map.key_ref(at), &k);
                assert_eq!(map.value_ref(at), &(k * 2));
                assert_eq!(model.insert(k, k * 2), None);
            }
        }
        assert_eq!(map.len(), model.len() as u64);
    }
    assert!(map.header().node_count > 100);
    for (k, v) in model.iter() {
        assert_eq!(map.get(k), Some(v));
    }
    assert!(every_edge_exists_only_once(&map));
    // the route names one position for each level above the leaves
    let (found, route) = search_with_route(&map, &100_000);
    assert!(matches!(found, SearchResult::NotFound(_)));
    let mut node = map.header().root.expect("a root");
    for p in route.iter() {
        node = map.get_node(&NodeHandle::new(node)).expect("a node").edges[*p as usize];
    }
    match found {
        SearchResult::NotFound(leaf) => assert_eq!(leaf.node(), node),
        SearchResult::Found(_) => unreachable!(),
    }
}

#[test]
fn vacant_entries_fill_leaves_and_split_them() {
    let mut map = empty_map();
    let mut model = std::collections::BTreeMap::new();
    for k in numbers(11, 3000, 5000) {
        let want = *model.entry(k).or_insert(k + 1);
        assert_eq!(*map.entry(k).or_insert(k + 1), want);
        *map.entry(k).or_insert(0) += 1;
        *model.entry(k).or_insert(0) += 1;
        assert_eq!(map.len(), model.len() as u64);
    }
    for (k, v) in model.iter() {
        assert_eq!(map.get(k), Some(v));
    }
    assert!(every_edge_exists_only_once(&map));
}

#[test]
fn values_change_in_place() {
    let mut map = filled_map();
    match map.get_mut(&77) {
        Some(v) => *v += 1,
        None => unreachable!(),
    }
    assert_eq!(map.get(&77), Some(&771));
    assert!(map.get_mut(&78).is_none());
    assert_eq!(map.len(), 4);
}

#[test]
fn keys_are_ordered() {
    assert_eq!(1i32.side_of(&2), Side::Below);
    assert_eq!(2i32.side_of(&2), Side::Same);
    assert_eq!((-2i32).side_of(&-3), Side::Above);
    assert_eq!(1u32.side_of(&2), Side::Below);
    assert_eq!(5u64.side_of(&2), Side::Above);
    assert_eq!((-5i64).side_of(&-5), Side::Same);
    let pairs = ["", "a", "ab", "b", "ba", "é", "z", "日本", "a\u{10FFFF}"];
    for x in pairs.iter() {
        for y in pairs.iter() {
            let want = match x.cmp(y) {
                std::cmp::Ordering::Less => Side::Below,
                std::cmp::Ordering::Equal => Side::Same,
                std::cmp::Ordering::Greater => Side::Above,
            };
            assert_eq!(x.to_string().side_of(&y.to_string()), want);
        }
    }
}

#[test]
fn string_keys_come_out_in_order() {
    let mut map: BTreeMap<String, usize> = BTreeMap::new(0);
    let words = ["pear", "apple", "fig", "plum", "kiwi", "lime", "date", "peach", "apple"];
    for (i, w) in words.iter().enumerate() {
        map.insert(w.to_string(), i);
    }
    assert_eq!(map.len(), 8);
    assert_eq!(map.get(&"apple".to_string()), Some(&8));
    assert_eq!(map.remove(&"fig".to_string()), Some(2));
    assert_eq!(map.get(&"fig".to_string()), None);
    assert_eq!(map.get_key_value(&"kiwi".to_string()), Some((&"kiwi".to_string(), &4)));
}

#[test]
fn flushing_a_map_writes_each_changed_node_once() {
    let mut map = empty_map();
    for i in 0..30 {
        map.insert(i, i);
    }
    let nodes = map.header().node_count as u64;
    assert_eq!(map.total_writes(), 0);
    map.flush();
    assert_eq!(map.total_writes(), nodes);
    assert_eq!(map.total_reads(), 0);
    map.flush();
    assert_eq!(map.total_writes(), nodes);
    assert_eq!(map.get(&7), Some(&7));
    map.insert(7, 8);
    map.flush();
    assert_eq!(map.total_writes(), nodes + 1);
}

#[test]
fn replacing_in_a_filled_map_keeps_its_size() {
    let mut map = empty_map();
    map.insert(5, 50);
    map.insert(42, 420);
    map.insert(1337, 13370);
    map.insert(77, 770);
    assert_eq!(map.len(), 4);
    assert_eq!(map.insert(42, 520), Some(420));
    assert_eq!(map.get(&42), Some(&520));
    assert_eq!(map.len(), 4);
}

#[test]
fn filled_map_has_four_entries() {
    let map = filled_map();
    assert_eq!(map.len(), 4);
    assert!(all_edges(&map).is_empty());
    assert_eq!(map.header().node_count, 1);
}
