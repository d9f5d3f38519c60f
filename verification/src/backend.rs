//! The backing store under a chunk: a costed key-value store of typed slots.
//!
//! Every access is counted. The counters are what the cache above is
//! measured against: it must not touch the store more often than needed.

use std::collections::HashMap;
use vstd::prelude::*;

verus! {

broadcast use vstd::std_specs::hash::group_hash_axioms;

/// Fixed-width identifier of one storage location.
pub type Address = u64;

/// A counter one step further, staying at the top once it is reached.
pub open spec fn bump(n: u64) -> u64 {
    if n < u64::MAX {
        (n + 1) as u64
    } else {
        n
    }
}

/// A counter `k` steps further, staying at the top once it is reached.
pub open spec fn bump_by(n: u64, k: nat) -> u64 {
    if n + k <= u64::MAX {
        (n + k) as u64
    } else {
        u64::MAX
    }
}

/// `got` is what a read of `address` hands out: a clone of the stored value,
/// or nothing where nothing is stored.
pub open spec fn fetched<T: Clone>(store: Map<Address, T>, address: Address, got: Option<T>) -> bool {
    match got {
        Some(v) => store.contains_key(address) && cloned(store[address], v),
        None => !store.contains_key(address),
    }
}

/// An in-memory store of values by address that counts its reads and writes.
pub struct Backend<T> {
    slots: HashMap<Address, T>,
    reads: u64,
    writes: u64,
}

impl<T> View for Backend<T> {
    type V = Map<Address, T>;

    closed spec fn view(&self) -> Map<Address, T> {
        self.slots@
    }
}

impl<T> Backend<T> {
    /// Number of reads served so far.
    pub closed spec fn reads(&self) -> u64 {
        self.reads
    }

    /// Number of writes (stores and clears) performed so far.
    pub closed spec fn writes(&self) -> u64 {
        self.writes
    }

    /// An empty store with both counters at zero.
    pub fn new() -> (b: Self)
        ensures
            b@ == Map::<Address, T>::empty(),
            b.reads() == 0,
            b.writes() == 0,
    {
        Backend { slots: HashMap::new(), reads: 0, writes: 0 }
    }

    /// Stores `value` at `address`; counts one write.
    pub fn set(&mut self, address: Address, value: T)
        ensures
            final(self)@ == old(self)@.insert(address, value),
            final(self).reads() == old(self).reads(),
            final(self).writes() == bump(old(self).writes()),
    {
        self.slots.insert(address, value);
        self.writes = self.writes.saturating_add(1);
    }

    /// Empties `address`; counts one write.
    pub fn clear(&mut self, address: Address)
        ensures
            final(self)@ == old(self)@.remove(address),
            final(self).reads() == old(self).reads(),
            final(self).writes() == bump(old(self).writes()),
    {
        self.slots.remove(&address);
        self.writes = self.writes.saturating_add(1);
    }

    /// Total number of reads since the store was made.
    pub fn total_reads(&self) -> (n: u64)
        ensures
            n == self.reads(),
    {
        self.reads
    }

    /// Total number of writes since the store was made.
    pub fn total_writes(&self) -> (n: u64)
        ensures
            n == self.writes(),
    {
        self.writes
    }
}

impl<T: Clone> Backend<T> {
    /// Reads `address`; counts one read whether or not anything is stored there.
    pub fn get(&mut self, address: Address) -> (got: Option<T>)
        ensures
            fetched(old(self)@, address, got),
            final(self)@ == old(self)@,
            final(self).reads() == bump(old(self).reads()),
            final(self).writes() == old(self).writes(),
    {
        self.reads = self.reads.saturating_add(1);
        match self.slots.get(&address) {
            Some(v) => Some(v.clone()),
            None => None,
        }
    }
}

} // verus!
