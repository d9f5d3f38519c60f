//! The cell cache: a chunk of lazily loaded, dirty-tracked slots over
//! contiguous addresses of a backing store.
//!
//! A slot is read from the store at most once in the chunk's lifetime and
//! written at most once per flush, however often it is used in between.

use crate::backend::{bump, bump_by, fetched, Address, Backend};
use vstd::prelude::*;

verus! {

/// One cached slot.
pub enum Cell<T> {
    /// Never touched: what the store holds is not known yet.
    Unloaded,
    /// In step with the store.
    Clean(Option<T>),
    /// Changed since the last flush.
    Dirty(Option<T>),
}

impl<T> Cell<T> {
    /// What the cache holds for this slot; nothing while it is unloaded.
    pub open spec fn value(self) -> Option<T> {
        match self {
            Cell::Unloaded => None,
            Cell::Clean(v) => v,
            Cell::Dirty(v) => v,
        }
    }

    /// The slot after a flush.
    pub open spec fn flushed(self) -> Cell<T> {
        match self {
            Cell::Dirty(v) => Cell::Clean(v),
            c => c,
        }
    }
}

/// The address of slot `index` of the chunk that starts at `base`: `base + index`,
/// wrapping round at the end of the address space.
pub open spec fn slot_address(base: Address, index: u32) -> Address {
    if base + index <= u64::MAX {
        (base + index) as u64
    } else {
        (base + index - u64::MAX - 1) as u64
    }
}

/// The slot that `address` belongs to in the chunk that starts at `base`, if it is below 2^32.
pub open spec fn slot_index(base: Address, address: Address) -> int {
    if address >= base {
        address - base
    } else {
        address + u64::MAX + 1 - base
    }
}

/// Number of dirty cells among `cells`.
pub open spec fn dirty_count<T>(cells: Seq<Cell<T>>) -> nat
    decreases cells.len(),
{
    if cells.len() == 0 {
        0
    } else {
        dirty_count(cells.drop_last()) + if cells.last() is Dirty {
            1nat
        } else {
            0nat
        }
    }
}

/// What the store holds at `address` once the first `upto` of `cells` have been flushed.
pub open spec fn written_back<T: Clone>(
    before: Map<Address, T>,
    after: Map<Address, T>,
    cells: Seq<Cell<T>>,
    upto: int,
    base: Address,
    address: Address,
) -> bool {
    let i = slot_index(base, address);
    if 0 <= i < upto && i < cells.len() && cells[i] is Dirty {
        match cells[i]->Dirty_0 {
            Some(v) => after.contains_key(address) && cloned(v, after[address]),
            None => !after.contains_key(address),
        }
    } else {
        after.contains_key(address) == before.contains_key(address) && (before.contains_key(
            address,
        ) ==> after[address] == before[address])
    }
}

/// A fixed range of cached slots over a backing store.
pub struct SyncChunk<T> {
    base: Address,
    cells: Vec<Cell<T>>,
    backend: Backend<T>,
}

impl<T> SyncChunk<T> {
    /// The address of slot 0.
    pub closed spec fn base(&self) -> Address {
        self.base
    }

    /// The store beneath the cache.
    pub closed spec fn backend(&self) -> Backend<T> {
        self.backend
    }

    /// The cells touched so far, by slot; every slot beyond them is unloaded.
    pub closed spec fn touched(&self) -> Seq<Cell<T>> {
        self.cells@
    }

    /// The state of slot `i`.
    pub open spec fn slot(&self, i: u32) -> Cell<T> {
        if i < self.touched().len() {
            self.touched()[i as int]
        } else {
            Cell::Unloaded
        }
    }

    /// Number of dirty slots: what the next flush has to write.
    pub open spec fn pending(&self) -> nat {
        dirty_count(self.touched())
    }

    /// Number of dirty slots once slot `i` is made dirty.
    pub open spec fn pending_with(&self, i: u32) -> nat {
        if self.slot(i) is Dirty {
            self.pending()
        } else {
            self.pending() + 1
        }
    }

    /// The chunk keeps no more cells than there are slots.
    pub closed spec fn wf(&self) -> bool {
        self.cells@.len() <= u32::MAX as nat + 1
    }

    /// `other` differs from `self` in slot `i` at most, store and counters included.
    pub open spec fn same_but(&self, other: &Self, i: u32) -> bool {
        &&& other.base() == self.base()
        &&& other.backend()@ == self.backend()@
        &&& other.backend().writes() == self.backend().writes()
        &&& forall|j: u32|
            #![trigger other.slot(j)]
            #![trigger self.slot(j)]
            j != i ==> other.slot(j) == self.slot(j)
    }

    /// `after` is slot `i` once it has been read through: loaded from the
    /// store if it was unloaded, else as it was.
    pub open spec fn read_through(&self, i: u32, after: Cell<T>) -> bool where T: Clone {
        match self.slot(i) {
            Cell::Unloaded => after is Clean && fetched(
                self.backend()@,
                slot_address(self.base(), i),
                after.value(),
            ),
            c => after == c,
        }
    }

    /// `after` is the chunk after a blind write of `value` to slot `i`.
    pub open spec fn after_write(&self, after: &Self, i: u32, value: Option<T>) -> bool {
        &&& after.wf()
        &&& self.same_but(after, i)
        &&& after.slot(i) == Cell::Dirty(value)
        &&& after.backend().reads() == self.backend().reads()
        &&& after.pending() == self.pending_with(i)
    }

    /// The read counter after slot `i` has been read through.
    pub open spec fn reads_after(&self, i: u32) -> u64 {
        if self.slot(i) is Unloaded {
            bump(self.backend().reads())
        } else {
            self.backend().reads()
        }
    }

    /// A chunk at `base` over `backend`, with every slot unloaded.
    pub fn over(base: Address, backend: Backend<T>) -> (chunk: Self)
        ensures
            chunk.wf(),
            chunk.base() == base,
            chunk.backend() == backend,
            forall|i: u32| #[trigger] chunk.slot(i) is Unloaded,
            chunk.pending() == 0,
    {
        SyncChunk { base, cells: Vec::new(), backend }
    }

    /// A chunk at `base` over an empty store of its own.
    pub fn new(base: Address) -> (chunk: Self)
        ensures
            chunk.wf(),
            chunk.base() == base,
            chunk.backend()@ == Map::<Address, T>::empty(),
            chunk.backend().reads() == 0,
            chunk.backend().writes() == 0,
            forall|i: u32| #[trigger] chunk.slot(i) is Unloaded,
            chunk.pending() == 0,
    {
        SyncChunk { base, cells: Vec::new(), backend: Backend::new() }
    }

    /// Gives up the cache, flushed or not, and hands back the store.
    pub fn into_backend(self) -> (backend: Backend<T>)
        ensures
            backend == self.backend(),
    {
        self.backend
    }

    /// Total number of reads of the store.
    pub fn total_reads(&self) -> (n: u64)
        ensures
            n == self.backend().reads(),
    {
        self.backend.total_reads()
    }

    /// Total number of writes to the store.
    pub fn total_writes(&self) -> (n: u64)
        ensures
            n == self.backend().writes(),
    {
        self.backend.total_writes()
    }

    /// The address of slot `i`.
    pub fn address_of(&self, i: u32) -> (a: Address)
        ensures
            a == slot_address(self.base(), i),
    {
        let room: u64 = u64::MAX - self.base;
        if i as u64 <= room {
            self.base + i as u64
        } else {
            i as u64 - room - 1
        }
    }

    /// Makes sure that a cell exists for slot `i`, without touching the store.
    fn reach(&mut self, i: u32)
        requires
            old(self).wf(),
        ensures
            final(self).wf(),
            final(self).cells@.len() > i,
            final(self).base == old(self).base,
            final(self).backend == old(self).backend,
            forall|j: u32|
                #![trigger final(self).slot(j)]
                #![trigger old(self).slot(j)]
                final(self).slot(j) == old(self).slot(j),
            final(self).pending() == old(self).pending(),
    {
        while self.cells.len() <= i as usize
            invariant
                self.wf(),
                self.pending() == old(self).pending(),
                self.base == old(self).base,
                self.backend == old(self).backend,
                forall|j: u32|
                    #![trigger self.slot(j)]
                    #![trigger old(self).slot(j)]
                    self.slot(j) == old(self).slot(j),
            decreases i + 1 - self.cells.len(),
        {
            let ghost before = self.cells@;
            self.cells.push(Cell::Unloaded);
            proof {
                assert(self.cells@.drop_last() =~= before);
            }
        }
    }

    /// The value cached for slot `i`, without reading through: nothing where
    /// the slot is unloaded or empty. Costs nothing.
    pub fn cached(&self, i: u32) -> (r: Option<&T>)
        ensures
            match r {
                Some(v) => self.slot(i).value() == Some(*v),
                None => self.slot(i).value() is None,
            },
    {
        if (i as usize) < self.cells.len() {
            match &self.cells[i as usize] {
                Cell::Unloaded => None,
                Cell::Clean(v) => v.as_ref(),
                Cell::Dirty(v) => v.as_ref(),
            }
        } else {
            None
        }
    }

    /// Blind overwrite: slot `i` becomes dirty with `value`. The store is not read.
    pub fn set(&mut self, i: u32, value: T)
        requires
            old(self).wf(),
        ensures
            final(self).wf(),
            old(self).same_but(final(self), i),
            final(self).slot(i) == Cell::Dirty(Some(value)),
            final(self).backend().reads() == old(self).backend().reads(),
            old(self).after_write(final(self), i, Some(value)),
            final(self).pending() == old(self).pending_with(i),
    {
        self.reach(i);
        let ghost before = self.cells@;
        self.cells[i as usize] = Cell::Dirty(Some(value));
        proof {
            lemma_dirt_update(before, i as int, Cell::Dirty(Some(value)));
            assert(self.cells@ =~= before.update(i as int, Cell::Dirty(Some(value))));
        }
    }

    /// Blind overwrite with emptiness: slot `i` becomes dirty and empty. The store is not read.
    pub fn clear(&mut self, i: u32)
        requires
            old(self).wf(),
        ensures
            final(self).wf(),
            old(self).same_but(final(self), i),
            final(self).slot(i) == Cell::<T>::Dirty(None),
            final(self).backend().reads() == old(self).backend().reads(),
            old(self).after_write(final(self), i, None),
            final(self).pending() == old(self).pending_with(i),
    {
        self.reach(i);
        let ghost before = self.cells@;
        self.cells[i as usize] = Cell::Dirty(None);
        proof {
            lemma_dirt_update(before, i as int, Cell::<T>::Dirty(None));
            assert(self.cells@ =~= before.update(i as int, Cell::<T>::Dirty(None)));
        }
    }
}

impl<T: Clone> SyncChunk<T> {
    /// `got` is what a read-through of slot `i` hands out: the cached
    /// value where the slot is loaded, else what the store holds for it.
    pub open spec fn reads_as(&self, i: u32, got: Option<T>) -> bool {
        exists|c: Cell<T>| #[trigger] self.read_through(i, c) && c.value() == got
    }

    /// `after` is the chunk after a read-through of slot `i` that handed out `got`.
    pub open spec fn after_get(&self, after: &Self, i: u32, got: Option<T>) -> bool {
        &&& after.wf()
        &&& self.same_but(after, i)
        &&& self.read_through(i, after.slot(i))
        &&& after.slot(i).value() == got
        &&& after.backend().reads() == self.reads_after(i)
        &&& after.pending() == self.pending()
    }

    /// `after` is the chunk after slot `i` was read through, which handed
    /// out `got`, and then overwritten with `value`.
    pub open spec fn after_swap(&self, after: &Self, i: u32, value: Option<T>, got: Option<T>) -> bool {
        &&& after.wf()
        &&& self.same_but(after, i)
        &&& self.reads_as(i, got)
        &&& after.slot(i) == Cell::Dirty(value)
        &&& after.backend().reads() == self.reads_after(i)
        &&& after.pending() == self.pending_with(i)
    }

    /// `after` is the chunk after one access to slot `i`, of whatever kind:
    /// no other slot changed, nothing was written to the store, and the
    /// store was read at most once, and only if the slot was unloaded.
    pub open spec fn after_access(&self, after: &Self, i: u32) -> bool {
        &&& self.same_but(after, i)
        &&& !(after.slot(i) is Unloaded)
        &&& after.backend().reads() == self.backend().reads() || (self.slot(i) is Unloaded
            && after.backend().reads() == bump(self.backend().reads()))
    }

    /// `after` is the chunk after a flush.
    pub open spec fn after_flush(&self, after: &Self) -> bool {
        &&& after.wf()
        &&& after.base() == self.base()
        &&& forall|i: u32|
            #![trigger after.slot(i)]
            #![trigger self.slot(i)]
            after.slot(i) == self.slot(i).flushed()
        &&& after.backend().reads() == self.backend().reads()
        &&& after.backend().writes() == bump_by(self.backend().writes(), self.pending())
        &&& after.pending() == 0
    }

    /// Loads slot `i` from the store if it is still unloaded.
    fn load(&mut self, i: u32)
        requires
            old(self).wf(),
        ensures
            final(self).wf(),
            final(self).cells@.len() > i,
            !(final(self).slot(i) is Unloaded),
            old(self).same_but(final(self), i),
            old(self).read_through(i, final(self).slot(i)),
            final(self).backend().reads() == old(self).reads_after(i),
            final(self).pending() == old(self).pending(),
            final(self).slot(i) is Dirty == old(self).slot(i) is Dirty,
    {
        self.reach(i);
        if let Cell::Unloaded = &self.cells[i as usize] {
            let address = self.address_of(i);
            let got = self.backend.get(address);
            let ghost before = self.cells@;
            self.cells[i as usize] = Cell::Clean(got);
            proof {
                lemma_dirt_update(before, i as int, Cell::Clean(got));
                assert(self.cells@ =~= before.update(i as int, Cell::Clean(got)));
            }
        }
    }

    /// Read-through access: loads slot `i` on first use, then answers from the cache.
    pub fn get(&mut self, i: u32) -> (r: Option<&T>)
        requires
            old(self).wf(),
        ensures
            final(self).wf(),
            old(self).same_but(final(self), i),
            old(self).read_through(i, final(self).slot(i)),
            final(self).backend().reads() == old(self).reads_after(i),
            match r {
                Some(v) => final(self).slot(i).value() == Some(*v),
                None => final(self).slot(i).value() is None,
            },
            old(self).after_get(
                final(self),
                i,
                match r {
                    Some(v) => Some(*v),
                    None => None,
                },
            ),
    {
        self.load(i);
        match &self.cells[i as usize] {
            Cell::Unloaded => None,
            Cell::Clean(v) => v.as_ref(),
            Cell::Dirty(v) => v.as_ref(),
        }
    }

    /// Reads slot `i` through, then empties it: the slot becomes dirty and
    /// empty, and what it held is returned.
    pub fn take(&mut self, i: u32) -> (r: Option<T>)
        requires
            old(self).wf(),
        ensures
            final(self).wf(),
            old(self).same_but(final(self), i),
            old(self).reads_as(i, r),
            final(self).slot(i) == Cell::<T>::Dirty(None),
            final(self).backend().reads() == old(self).reads_after(i),
            old(self).after_swap(final(self), i, None, r),
    {
        self.load(i);
        let ghost loaded = self.slot(i);
        let ghost before = self.cells@;
        let mut cell = Cell::Dirty(None);
        std::mem::swap(&mut self.cells[i as usize], &mut cell);
        proof {
            lemma_dirt_update(before, i as int, Cell::<T>::Dirty(None));
            assert(self.cells@ =~= before.update(i as int, Cell::<T>::Dirty(None)));
        }
        assert(old(self).read_through(i, loaded));
        match cell {
            Cell::Unloaded => None,
            Cell::Clean(v) => v,
            Cell::Dirty(v) => v,
        }
    }

    /// Reads slot `i` through, then overwrites it: the slot becomes dirty
    /// with `value`, and what it held is returned.
    pub fn put(&mut self, i: u32, value: T) -> (r: Option<T>)
        requires
            old(self).wf(),
        ensures
            final(self).wf(),
            old(self).same_but(final(self), i),
            old(self).reads_as(i, r),
            final(self).slot(i) == Cell::Dirty(Some(value)),
            final(self).backend().reads() == old(self).reads_after(i),
            old(self).after_swap(final(self), i, Some(value), r),
    {
        self.load(i);
        let ghost loaded = self.slot(i);
        let ghost before = self.cells@;
        let mut cell = Cell::Dirty(Some(value));
        std::mem::swap(&mut self.cells[i as usize], &mut cell);
        proof {
            lemma_dirt_update(before, i as int, Cell::Dirty(Some(value)));
            assert(self.cells@ =~= before.update(i as int, Cell::Dirty(Some(value))));
        }
        assert(old(self).read_through(i, loaded));
        match cell {
            Cell::Unloaded => None,
            Cell::Clean(v) => v,
            Cell::Dirty(v) => v,
        }
    }

    /// Read-and-mutate access: reads slot `i` through, marks it dirty, and
    /// hands out its value for change in place; none where the slot is empty.
    pub fn get_mut(&mut self, i: u32) -> (r: Option<&mut T>)
        requires
            old(self).wf(),
        ensures
            final(self).wf(),
            old(self).same_but(final(self), i),
            final(self).backend().reads() == old(self).reads_after(i),
            exists|c: Cell<T>| #[trigger]
                old(self).read_through(i, c) && match r {
                    Some(v) => c.value() == Some(*v),
                    None => c.value() is None,
                },
            final(self).slot(i) == Cell::Dirty(
                match r {
                    Some(v) => Some(*final(v)),
                    None => None,
                },
            ),
            final(self).pending() == old(self).pending_with(i),
    {
        self.load(i);
        let ghost loaded = self.slot(i);
        let ghost before = self.cells@;
        let mut cell = Cell::Unloaded;
        std::mem::swap(&mut self.cells[i as usize], &mut cell);
        let value = match cell {
            Cell::Unloaded => None,
            Cell::Clean(v) => v,
            Cell::Dirty(v) => v,
        };
        self.cells[i as usize] = Cell::Dirty(value);
        proof {
            assert(old(self).read_through(i, loaded));
            assert(self.cells@ =~= before.update(i as int, Cell::Dirty(value)));
            assert forall|w: Option<T>|
                dirty_count(#[trigger] before.update(i as int, Cell::Dirty(w))) == old(
                    self,
                ).pending_with(i) by {
                lemma_dirt_update(before, i as int, Cell::Dirty(w));
            }
            assert forall|w: Option<T>| #[trigger]
                self.cells@.update(i as int, Cell::Dirty(w)) == before.update(i as int, Cell::Dirty(w)) by {
                assert(self.cells@.update(i as int, Cell::Dirty(w)) =~= before.update(
                    i as int,
                    Cell::Dirty(w),
                ));
            }
        }
        match &mut self.cells[i as usize] {
            Cell::Dirty(Some(v)) => Some(v),
            _ => None,
        }
    }

    /// Writes every dirty slot back, one write each, and marks it clean.
    /// Clean and unloaded slots cost nothing.
    pub fn flush(&mut self)
        requires
            old(self).wf(),
        ensures
            final(self).wf(),
            final(self).base() == old(self).base(),
            forall|i: u32|
                #![trigger final(self).slot(i)]
                #![trigger old(self).slot(i)]
                final(self).slot(i) == old(self).slot(i).flushed(),
            final(self).backend().reads() == old(self).backend().reads(),
            final(self).backend().writes() == bump_by(old(self).backend().writes(), old(self).pending()),
            forall|a: Address|
                #[trigger] written_back(
                    old(self).backend()@,
                    final(self).backend()@,
                    old(self).touched(),
                    old(self).touched().len() as int,
                    old(self).base(),
                    a,
                ),
            final(self).pending() == 0,
            old(self).after_flush(final(self)),
    {
        let mut i: usize = 0;
        while i < self.cells.len()
            invariant
                self.wf(),
                self.base == old(self).base,
                i <= self.cells@.len(),
                self.cells@.len() == old(self).cells@.len(),
                forall|j: int| 0 <= j < i ==> #[trigger] self.cells@[j] == old(self).cells@[j].flushed(),
                forall|j: int| i <= j < self.cells@.len() ==> #[trigger] self.cells@[j] == old(self).cells@[j],
                self.backend.reads() == old(self).backend.reads(),
                self.backend.writes() == bump_by(
                    old(self).backend.writes(),
                    dirty_count(old(self).cells@.take(i as int)),
                ),
                forall|a: Address|
                    #[trigger] written_back(
                        old(self).backend@,
                        self.backend@,
                        old(self).cells@,
                        i as int,
                        self.base,
                        a,
                    ),
            decreases self.cells@.len() - i,
        {
            let address = self.address_of(i as u32);
            let ghost before = self.backend@;
            proof {
                assert(old(self).cells@.take(i + 1).drop_last() == old(self).cells@.take(i as int));
                assert(slot_index(self.base, address) == i);
            }
            let mut cell = Cell::Unloaded;
            std::mem::swap(&mut self.cells[i], &mut cell);
            let cell = match cell {
                Cell::Dirty(Some(v)) => {
                    self.backend.set(address, v.clone());
                    Cell::Clean(Some(v))
                },
                Cell::Dirty(None) => {
                    self.backend.clear(address);
                    Cell::Clean(None)
                },
                c => c,
            };
            self.cells[i] = cell;
            proof {
                assert forall|a: Address|
                    #[trigger] written_back(
                        old(self).backend@,
                        self.backend@,
                        old(self).cells@,
                        i + 1,
                        self.base,
                        a,
                    ) by {
                    assert(written_back(
                        old(self).backend@,
                        before,
                        old(self).cells@,
                        i as int,
                        self.base,
                        a,
                    ));
                }
            }
            i += 1;
        }
        proof {
            assert(old(self).cells@.take(i as int) == old(self).cells@);
            lemma_no_dirt(self.cells@);
        }
    }
}

/// With the cell at `i` replaced by `c`, the count of dirty cells falls
/// by one if the old cell was dirty and grows by one if `c` is.
pub proof fn lemma_dirt_update<T>(cells: Seq<Cell<T>>, i: int, c: Cell<T>)
    requires
        0 <= i < cells.len(),
    ensures
        dirty_count(cells.update(i, c)) + if cells[i] is Dirty {
            1nat
        } else {
            0nat
        } == dirty_count(cells) + if c is Dirty {
            1nat
        } else {
            0nat
        },
    decreases cells.len(),
{
    if i == cells.len() - 1 {
        assert(cells.update(i, c).drop_last() =~= cells.drop_last());
    } else {
        lemma_dirt_update(cells.drop_last(), i, c);
        assert(cells.update(i, c).drop_last() =~= cells.drop_last().update(i, c));
    }
}

/// A chunk none of whose slots is dirty has nothing pending.
pub proof fn lemma_nothing_pending<T>(chunk: SyncChunk<T>)
    requires
        forall|i: u32| !(#[trigger] chunk.slot(i) is Dirty),
        chunk.wf(),
    ensures
        chunk.pending() == 0,
{
    assert forall|i: int| 0 <= i < chunk.cells@.len() implies !(#[trigger] chunk.cells@[i] is Dirty) by {
        assert(chunk.slot(i as u32) == chunk.cells@[i]);
    }
    lemma_no_dirt(chunk.cells@);
}

/// Cells of which none is dirty count no dirt.
pub proof fn lemma_no_dirt<T>(cells: Seq<Cell<T>>)
    requires
        forall|i: int| 0 <= i < cells.len() ==> !(#[trigger] cells[i] is Dirty),
    ensures
        dirty_count(cells) == 0,
    decreases cells.len(),
{
    if cells.len() > 0 {
        lemma_no_dirt(cells.drop_last());
    }
}

/// A read right after a blind write to the same slot hands out what was
/// written, and reads and writes nothing in the store.
pub proof fn lemma_get_after_set<T: Clone>(
    before: SyncChunk<T>,
    written: SyncChunk<T>,
    after: SyncChunk<T>,
    i: u32,
    value: Option<T>,
    got: Option<T>,
)
    requires
        before.after_write(&written, i, value),
        written.after_get(&after, i, got),
    ensures
        got == value,
        after.slot(i) == written.slot(i),
        after.backend().reads() == before.backend().reads(),
        after.backend().writes() == before.backend().writes(),
{
}

/// A read right after a take of the same slot hands out nothing; and the
/// take handed out what a read in its place would have: the same value
/// where the slot was loaded, else a clone of what the store holds, which
/// is that value itself where every clone is.
pub proof fn lemma_take_then_get<T: Clone>(
    before: SyncChunk<T>,
    taken: SyncChunk<T>,
    after: SyncChunk<T>,
    instead: SyncChunk<T>,
    i: u32,
    took: Option<T>,
    got: Option<T>,
    would: Option<T>,
)
    requires
        before.after_swap(&taken, i, None, took),
        taken.after_get(&after, i, got),
        before.after_get(&instead, i, would),
    ensures
        got is None,
        before.reads_as(i, took),
        before.reads_as(i, would),
        !(before.slot(i) is Unloaded) ==> took == would,
        (forall|a: T, b: T| #[trigger] cloned(a, b) ==> a == b) ==> took == would,
{
    assert(before.read_through(i, instead.slot(i)));
}

/// A put hands out what a read in its place would have, and a read
/// right after it hands out what was put.
pub proof fn lemma_put_then_get<T: Clone>(
    before: SyncChunk<T>,
    put: SyncChunk<T>,
    after: SyncChunk<T>,
    i: u32,
    value: T,
    prior: Option<T>,
    got: Option<T>,
)
    requires
        before.after_swap(&put, i, Some(value), prior),
        put.after_get(&after, i, got),
    ensures
        before.reads_as(i, prior),
        put.slot(i).value() == Some(value),
        got == Some(value),
        after.backend().reads() == put.backend().reads(),
{
}

/// Every access to one slot, of whatever kind, is an access in the sense
/// of `after_access`: it leaves the other slots alone and reads the store
/// at most once, and only for a slot that was unloaded.
pub proof fn lemma_access<T: Clone>(
    before: SyncChunk<T>,
    after: SyncChunk<T>,
    i: u32,
    value: Option<T>,
    got: Option<T>,
)
    requires
        before.after_write(&after, i, value) || before.after_get(&after, i, got) || before.after_swap(
            &after,
            i,
            value,
            got,
        ),
    ensures
        before.after_access(&after, i),
{
}

/// A slot is read from the store at most once: a slot that is loaded
/// stays loaded through every access and every flush, and neither reads
/// the store for it again.
pub proof fn lemma_loaded_stays<T: Clone>(before: SyncChunk<T>, after: SyncChunk<T>, i: u32, j: u32)
    requires
        before.after_access(&after, i) || before.after_flush(&after),
        !(before.slot(j) is Unloaded),
    ensures
        !(after.slot(j) is Unloaded),
        i == j || before.after_flush(&after) ==> after.backend().reads() == before.backend().reads(),
{
    if before.after_flush(&after) {
        assert(after.slot(j) == before.slot(j).flushed());
    }
}

/// A flush writes each dirty slot once and leaves none dirty: the next
/// flush, with nothing written to the chunk in between, writes nothing.
pub proof fn lemma_flush_twice<T: Clone>(before: SyncChunk<T>, once: SyncChunk<T>, twice: SyncChunk<T>)
    requires
        before.after_flush(&once),
        once.after_flush(&twice),
    ensures
        once.backend().writes() == bump_by(before.backend().writes(), before.pending()),
        twice.backend().writes() == once.backend().writes(),
        twice.backend().reads() == before.backend().reads(),
{
}

} // verus!
