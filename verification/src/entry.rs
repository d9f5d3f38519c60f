//! A view into one entry of a map, found by one search: the value of a
//! key that is present is read and changed in place without another.

use crate::btree::{BTreeMap, MAX_ENTRIES};
use crate::search::{search_answer, search_path, search_route, search_with_route};
use crate::node::{KVHandle, NodeHandle, SearchResult, CAPACITY};
use crate::order::SortKey;
use vstd::prelude::*;

verus! {

/// The entry of a key that the map holds.
pub struct OccupiedEntry<'a, K: SortKey, V: Clone> {
    /// The key that was searched for.
    pub key: K,
    /// The slot that holds the key.
    pub handle: KVHandle,
    /// The map.
    pub map: &'a mut BTreeMap<K, V>,
}

/// The entry of a key that the map lacks.
pub struct VacantEntry<'a, K: SortKey, V: Clone> {
    /// The key that was searched for.
    pub key: K,
    /// The slot where the key belongs.
    pub handle: KVHandle,
    /// The route of the search: the position at which it left each
    /// internal node on the way to the slot.
    pub route: Vec<u32>,
    /// The map.
    pub map: &'a mut BTreeMap<K, V>,
}

/// The result of one search for a key: the entry of the key, present or absent.
pub enum Entry<'a, K: SortKey, V: Clone> {
    /// The map lacks the key.
    Vacant(VacantEntry<'a, K, V>),
    /// The map holds the key.
    Occupied(OccupiedEntry<'a, K, V>),
}

impl<'a, K: SortKey, V: Clone> OccupiedEntry<'a, K, V> {
    /// The map as it stands.
    pub open spec fn now(&self) -> BTreeMap<K, V> {
        *self.map
    }

    /// The map is well formed and the slot holds the key with its value.
    pub open spec fn wf(&self) -> bool {
        &&& self.now().wf()
        &&& self.now().holds(self.handle)
        &&& self.now().key_at(self.handle) == self.key@
        &&& self.now()@.contains_key(self.key@)
        &&& self.now()@[self.key@] == self.now().value_at(self.handle)
    }

    /// The key of the entry.
    pub fn key(&self) -> (k: &K)
        ensures
            *k == self.key,
    {
        &self.key
    }

    /// The value of the entry.
    pub fn get(&self) -> (v: &V)
        requires
            self.wf(),
        ensures
            *v == self.now()@[self.key@],
    {
        self.map.value_ref(self.handle)
    }

    /// The value of the entry, for change in place: afterwards the map
    /// holds what was written under the key, and the entry still stands.
    pub fn get_mut(&mut self) -> (v: &mut V)
        requires
            old(self).wf(),
        ensures
            *v == old(self).now()@[old(self).key@],
            final(self).wf(),
            final(self).key == old(self).key,
            final(self).handle == old(self).handle,
            final(self).now()@ == old(self).now()@.insert(old(self).key@, *final(v)),
            final(self).now().entries().len() == old(self).now().entries().len(),
            *final(final(self).map) == *final(old(self).map),
    {
        self.map.value_mut(self.handle)
    }

    /// The value of the entry, for change in place, for as long as the map is borrowed.
    pub fn into_mut(self) -> (v: &'a mut V)
        requires
            self.wf(),
        ensures
            *v == self.now()@[self.key@],
            final(self.map).wf(),
            final(self.map)@ == self.now()@.insert(self.key@, *final(v)),
            final(self.map).entries().len() == self.now().entries().len(),
    {
        self.map.value_mut(self.handle)
    }

    /// Puts `value` in place of the value of the entry and hands out the old one.
    pub fn insert(&mut self, value: V) -> (was: V)
        requires
            old(self).wf(),
        ensures
            was == old(self).now()@[old(self).key@],
            final(self).wf(),
            final(self).key == old(self).key,
            final(self).handle == old(self).handle,
            final(self).now()@ == old(self).now()@.insert(old(self).key@, value),
            final(self).now().entries().len() == old(self).now().entries().len(),
            *final(final(self).map) == *final(old(self).map),
    {
        let mut value = value;
        let slot = self.map.value_mut(self.handle);
        std::mem::swap(slot, &mut value);
        value
    }
}

impl<'a, K: SortKey, V: Clone> VacantEntry<'a, K, V> {
    /// The map as it stands.
    pub open spec fn now(&self) -> BTreeMap<K, V> {
        *self.map
    }

    /// The map is well formed and lacks the key, and the slot is where a
    /// search for the key ends.
    pub open spec fn wf(&self) -> bool {
        &&& self.now().wf()
        &&& !self.now()@.contains_key(self.key@)
        &&& search_answer(&self.now(), self.key@, SearchResult::NotFound(self.handle))
        &&& search_path(&self.now(), self.key@) == SearchResult::NotFound(self.handle)
        &&& search_route(&self.now(), self.key@) == self.route@
    }

    /// The key of the entry.
    pub fn key(&self) -> (k: &K)
        ensures
            *k == self.key,
    {
        &self.key
    }

    /// The key of the entry, by value.
    pub fn into_key(self) -> (k: K)
        ensures
            k == self.key,
            *final(self.map) == self.now(),
    {
        self.key
    }

    /// Puts `value` under the key of the entry and hands it out for change
    /// in place, without another search. Where the leaf that the search
    /// ended at has room, the entry goes in at the slot of the entry.
    /// Where the leaf is full, the insertion follows the route of the
    /// search to the leaf, comparing no key, and splits nodes from the
    /// leaf up; it says where the entry is afterwards.
    pub fn insert(self, value: V) -> (v: &'a mut V)
        requires
            self.wf(),
            self.now().entries().len() < MAX_ENTRIES,
        ensures
            *v == value,
            final(self.map).wf(),
            final(self.map)@ == self.now()@.insert(self.key@, *final(v)),
            final(self.map).entries().len() == self.now().entries().len() + 1,
    {
        let ghost before = self.now()@;
        let ghost kview = self.key@;
        let VacantEntry { key, handle, route, map } = self;
        let roomy = match map.header().root {
            Some(_) => match map.get_node(&NodeHandle::new(handle.node())) {
                Some(leaf) => leaf.len() < CAPACITY,
                None => false,
            },
            None => false,
        };
        proof {
            assert forall|w: V| #[trigger] before.insert(kview, value).insert(kview, w) == before.insert(kview, w) by {
                assert(before.insert(kview, value).insert(kview, w) =~= before.insert(kview, w));
            }
        }
        if roomy {
            map.insert_at(handle, key, value);
            map.value_mut(handle)
        } else {
            let at = map.insert_led(&route, handle, key, value);
            map.value_mut(at)
        }
    }
}

impl<'a, K: SortKey, V: Clone> Entry<'a, K, V> {
    /// The entry stands for its key in a well-formed map.
    pub open spec fn wf(&self) -> bool {
        match self {
            Entry::Vacant(e) => e.wf(),
            Entry::Occupied(e) => e.wf(),
        }
    }

    /// The key that was searched for.
    pub open spec fn spec_key(&self) -> K {
        match self {
            Entry::Vacant(e) => e.key,
            Entry::Occupied(e) => e.key,
        }
    }

    /// The map as it stands.
    pub open spec fn spec_map(&self) -> BTreeMap<K, V> {
        match self {
            Entry::Vacant(e) => e.now(),
            Entry::Occupied(e) => e.now(),
        }
    }

    /// The key of the entry.
    pub fn key(&self) -> (k: &K)
        ensures
            *k == self.spec_key(),
    {
        match self {
            Entry::Vacant(e) => e.key(),
            Entry::Occupied(e) => e.key(),
        }
    }

    /// The value of the key, for change in place, after `default` was put
    /// under the key if the map lacked it.
    pub fn or_insert(self, default: V) -> (v: &'a mut V)
        requires
            self.wf(),
            self is Vacant ==> self.spec_map().entries().len() < MAX_ENTRIES,
        ensures
            *v == if self is Occupied {
                self.spec_map()@[self.spec_key()@]
            } else {
                default
            },
            match self {
                Entry::Vacant(e) => final(e.map).wf() && final(e.map)@ == self.spec_map()@.insert(
                    self.spec_key()@,
                    *final(v),
                ) && final(e.map).entries().len() == self.spec_map().entries().len() + 1,
                Entry::Occupied(e) => final(e.map).wf() && final(e.map)@ == self.spec_map()@.insert(
                    self.spec_key()@,
                    *final(v),
                ) && final(e.map).entries().len() == self.spec_map().entries().len(),
            },
    {
        match self {
            Entry::Vacant(e) => e.insert(default),
            Entry::Occupied(e) => e.into_mut(),
        }
    }
}

impl<K: SortKey, V: Clone> BTreeMap<K, V> {
    /// The entry of `key`, by one search.
    pub fn entry(&mut self, key: K) -> (e: Entry<'_, K, V>)
        requires
            old(self).wf(),
        ensures
            e.wf(),
            e.spec_key() == key,
            e.spec_map() == *old(self),
            e is Occupied == old(self)@.contains_key(key@),
            match e {
                Entry::Vacant(v) => *final(v.map) == *final(self),
                Entry::Occupied(o) => *final(o.map) == *final(self),
            },
    {
        let (found, route) = search_with_route(self, &key);
        match found {
            SearchResult::Found(handle) => Entry::Occupied(OccupiedEntry { key, handle, map: self }),
            SearchResult::NotFound(handle) => Entry::Vacant(VacantEntry { key, handle, route, map: self }),
        }
    }
}

} // verus!
