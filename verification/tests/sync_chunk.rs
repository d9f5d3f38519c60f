use storage_btree::backend::Backend;
use storage_btree::chunk::SyncChunk;

fn dummy_chunk() -> SyncChunk<u32> {
    SyncChunk::new(0)
}

#[test]
fn simple() {
    const TEST_LEN: u32 = 5;

    let mut chunk = dummy_chunk();

    // Invariants after initialization
    for i in 0..TEST_LEN {
        assert_eq!(chunk.get(i), None);
    }

    // Store some elements
    for i in 0..TEST_LEN {
        chunk.set(i, i);
        assert_eq!(chunk.get(i), Some(&i));
    }

    // Clear all elements.
    for i in 0..TEST_LEN {
        chunk.clear(i);
        assert_eq!(chunk.get(i), None);
    }
}

#[test]
fn take_put() {
    let mut chunk = dummy_chunk();

    // Take empty cell yields `None`
    assert_eq!(chunk.take(5), None);
    // Replace into the same yields `None` again
    assert_eq!(chunk.put(5, 42), None);
    // Taking now should yield the inserted value
    assert_eq!(chunk.take(5), Some(42));
}

#[test]
fn replace() {
    let mut chunk = dummy_chunk();

    // Replace some with none.
    assert_eq!(chunk.put(0, 42), None);
    // Again will yield previous result.
    assert_eq!(chunk.put(0, 42), Some(42));

    // After clearing it will be none again.
    chunk.clear(0);
    assert_eq!(chunk.put(0, 42), None);
}

#[test]
fn take() {
    let mut chunk = dummy_chunk();

    // Remove at none.
    assert_eq!(chunk.take(0), None);
    // Again will yield none again.
    assert_eq!(chunk.take(0), None);
    // Also get will return none.
    assert_eq!(chunk.get(0), None);

    // After inserting it will yield the inserted value.
    chunk.set(0, 1337);
    // Before take returns the inserted value.
    assert_eq!(chunk.get(0), Some(&1337));
    // Remove yields the taken value.
    assert_eq!(chunk.take(0), Some(1337));
    // After take returns none again.
    assert_eq!(chunk.get(0), None);
}

#[test]
fn count_rw_get() {
    // How many times we read or write from or to cells.
    const N: u32 = 5;

    let mut chunk = dummy_chunk();

    // Assert clean read writes.
    assert_eq!(chunk.total_reads(), 0);
    assert_eq!(chunk.total_writes(), 0);

    // Loading from all cells.
    for i in 0..N {
        let _ = chunk.get(i);
        assert_eq!(chunk.total_reads(), i as u64 + 1);
        assert_eq!(chunk.total_writes(), 0);
    }
    assert_eq!(chunk.total_reads(), N as u64);
    assert_eq!(chunk.total_writes(), 0);

    // Flush and check reads and writes.
    chunk.flush();
    assert_eq!(chunk.total_reads(), N as u64);
    assert_eq!(chunk.total_writes(), 0);
}

#[test]
fn count_rw_get_repeat() {
    // How many times we repeat to read from the same cell.
    const N: u32 = 5;

    let mut chunk = dummy_chunk();

    // Assert clean read writes.
    assert_eq!(chunk.total_reads(), 0);
    assert_eq!(chunk.total_writes(), 0);

    // Loading from all cells.
    for _i in 0..N {
        let _ = chunk.get(0);
        assert_eq!(chunk.total_reads(), 1);
        assert_eq!(chunk.total_writes(), 0);
    }
    assert_eq!(chunk.total_reads(), 1);
    assert_eq!(chunk.total_writes(), 0);

    // Flush and check reads and writes.
    chunk.flush();
    assert_eq!(chunk.total_reads(), 1);
    assert_eq!(chunk.total_writes(), 0);
}

#[test]
fn count_rw_set() {
    // How many times we read or write from or to cells.
    const N: u32 = 5;

    let mut chunk = dummy_chunk();

    // Assert clean read writes.
    assert_eq!(chunk.total_reads(), 0);
    assert_eq!(chunk.total_writes(), 0);

    // Writing to all cells.
    for i in 0..N {
        chunk.set(i, 42);
    }
    assert_eq!(chunk.total_reads(), 0);
    assert_eq!(chunk.total_writes(), 0);

    // Flush and check reads and writes.
    chunk.flush();
    assert_eq!(chunk.total_reads(), 0);
    assert_eq!(chunk.total_writes(), N as u64);
}

#[test]
fn count_rw_set_repeat() {
    // How many times we write to the same cell.
    const N: u32 = 5;

    let mut chunk = dummy_chunk();

    // Assert clean read writes.
    assert_eq!(chunk.total_reads(), 0);
    assert_eq!(chunk.total_writes(), 0);

    // Writing to all cells.
    for _i in 0..N {
        chunk.set(0, 42);
    }
    assert_eq!(chunk.total_reads(), 0);
    assert_eq!(chunk.total_writes(), 0);

    // Flush and check reads and writes.
    chunk.flush();
    assert_eq!(chunk.total_reads(), 0);
    assert_eq!(chunk.total_writes(), 1);
}

#[test]
fn count_rw_put() {
    // How many times we read or write from or to cells.
    const N: u32 = 5;

    let mut chunk = dummy_chunk();

    // Assert clean read writes.
    assert_eq!(chunk.total_reads(), 0);
    assert_eq!(chunk.total_writes(), 0);

    // Writing to all cells.
    for i in 0..N {
        let _ = chunk.put(i, 42);
        assert_eq!(chunk.total_reads(), i as u64 + 1);
        assert_eq!(chunk.total_writes(), 0);
    }
    assert_eq!(chunk.total_reads(), N as u64);
    assert_eq!(chunk.total_writes(), 0);

    // Flush and check reads and writes.
    chunk.flush();
    assert_eq!(chunk.total_reads(), N as u64);
    assert_eq!(chunk.total_writes(), N as u64);
}

#[test]
fn count_rw_put_repeat() {
    // How many times we put into the same cell.
    const N: u32 = 5;

    let mut chunk = dummy_chunk();

    // Assert clean read writes.
    assert_eq!(chunk.total_reads(), 0);
    assert_eq!(chunk.total_writes(), 0);

    // Writing to all cells.
    for _i in 0..N {
        let _ = chunk.put(0, 42);
        assert_eq!(chunk.total_reads(), 1);
        assert_eq!(chunk.total_writes(), 0);
    }
    assert_eq!(chunk.total_reads(), 1);
    assert_eq!(chunk.total_writes(), 0);

    // Flush and check reads and writes.
    chunk.flush();
    assert_eq!(chunk.total_reads(), 1);
    assert_eq!(chunk.total_writes(), 1);
}

#[test]
fn count_rw_take() {
    // How many times we take from cells.
    const N: u32 = 5;

    let mut chunk = dummy_chunk();

    // Assert clean read writes.
    assert_eq!(chunk.total_reads(), 0);
    assert_eq!(chunk.total_writes(), 0);

    // Writing to all cells.
    for i in 0..N {
        let _ = chunk.take(i);
        assert_eq!(chunk.total_reads(), i as u64 + 1);
        assert_eq!(chunk.total_writes(), 0);
    }
    assert_eq!(chunk.total_reads(), N as u64);
    assert_eq!(chunk.total_writes(), 0);

    // Flush and check reads and writes.
    chunk.flush();
    assert_eq!(chunk.total_reads(), N as u64);
    assert_eq!(chunk.total_writes(), N as u64);
}

#[test]
fn count_rw_take_repeat() {
    // How many times we take from the same cell.
    const N: u32 = 5;

    let mut chunk = dummy_chunk();

    // Assert clean read writes.
    assert_eq!(chunk.total_reads(), 0);
    assert_eq!(chunk.total_writes(), 0);

    // Writing to all cells.
    for _i in 0..N {
        let _ = chunk.take(0);
        assert_eq!(chunk.total_reads(), 1);
        assert_eq!(chunk.total_writes(), 0);
    }
    assert_eq!(chunk.total_reads(), 1);
    assert_eq!(chunk.total_writes(), 0);

    // Flush and check reads and writes.
    chunk.flush();
    assert_eq!(chunk.total_reads(), 1);
    assert_eq!(chunk.total_writes(), 1);
}

#[test]
fn flushing_twice_writes_once() {
    let mut chunk = dummy_chunk();
    chunk.set(3, 7);
    chunk.clear(4);
    chunk.flush();
    assert_eq!(chunk.total_writes(), 2);
    chunk.flush();
    assert_eq!(chunk.total_writes(), 2);
    chunk.set(3, 8);
    chunk.flush();
    assert_eq!(chunk.total_writes(), 3);
    assert_eq!(chunk.total_reads(), 0);
}

#[test]
fn chunk_over_a_filled_store_reads_each_slot_once() {
    let mut backend: Backend<u32> = Backend::new();
    backend.set(100, 11);
    backend.set(102, 13);
    assert_eq!(backend.total_writes(), 2);

    let mut chunk = SyncChunk::over(100, backend);
    assert_eq!(chunk.address_of(2), 102);
    assert_eq!(chunk.cached(0), None);
    assert_eq!(chunk.get(0), Some(&11));
    assert_eq!(chunk.cached(0), Some(&11));
    assert_eq!(chunk.get(1), None);
    assert_eq!(chunk.get(0), Some(&11));
    assert_eq!(chunk.total_reads(), 2);

    // A blind write needs no read; a read-through take needs one.
    chunk.set(1, 12);
    assert_eq!(chunk.take(2), Some(13));
    assert_eq!(chunk.total_reads(), 3);
    assert_eq!(chunk.get(2), None);
    assert_eq!(chunk.total_reads(), 3);

    // Change in place marks the slot dirty.
    match chunk.get_mut(0) {
        Some(v) => *v += 1,
        None => unreachable!(),
    }
    assert_eq!(chunk.get_mut(5), None);
    assert_eq!(chunk.total_reads(), 4);

    chunk.flush();
    // Slots 0, 1, 2 and 5 were dirty.
    assert_eq!(chunk.total_writes(), 6);
    let mut backend = chunk.into_backend();
    assert_eq!(backend.get(100), Some(12));
    assert_eq!(backend.get(101), Some(12));
    assert_eq!(backend.get(102), None);
    assert_eq!(backend.total_reads(), 7);
    backend.clear(100);
    assert_eq!(backend.get(100), None);
}

#[test]
fn addresses_wrap_round_at_the_end() {
    let chunk: SyncChunk<u32> = SyncChunk::new(u64::MAX - 1);
    assert_eq!(chunk.address_of(0), u64::MAX - 1);
    assert_eq!(chunk.address_of(1), u64::MAX);
    assert_eq!(chunk.address_of(2), 0);
    assert_eq!(chunk.address_of(5), 3);
}

#[test]
fn a_flush_writes_each_dirty_slot_once() {
    let mut chunk = dummy_chunk();
    chunk.set(0, 1);
    chunk.set(0, 2);
    chunk.clear(1);
    let _ = chunk.take(2);
    let _ = chunk.put(2, 3);
    let _ = chunk.get(3);
    let _ = chunk.get_mut(4);
    chunk.flush();
    // slots 0, 1, 2 and 4 were dirty, slot 3 was only read
    assert_eq!(chunk.total_writes(), 4);
    assert_eq!(chunk.total_reads(), 3);
}
