use parrot::pool::{BufferPool, PoolError};
use parrot::sequence_buffer::SequenceBuffer;

#[test]
fn test() {}

#[test]
fn pool_acquire_release_cycle() {
    let mut pool = BufferPool::new(64, 2);
    assert_eq!(pool.capacity_remaining(), 2);
    let a = pool.acquire().unwrap();
    let b = pool.acquire().unwrap();
    assert_eq!(pool.capacity_remaining(), 0);
    assert!(matches!(pool.acquire(), Err(PoolError::Exhausted)));
    pool.release(a).unwrap();
    assert_eq!(pool.capacity_remaining(), 1);
    pool.release(b).unwrap();
    assert_eq!(pool.capacity_remaining(), 2);
}

#[test]
fn pool_stale_handle_returns_none() {
    let mut pool = BufferPool::new(16, 1);
    let h1 = pool.acquire().unwrap();
    assert!(pool.get(h1).is_some());
    pool.release(h1).unwrap();
    assert!(pool.get(h1).is_none());
    // Re-acquiring reuses the slot under a bumped generation: the old handle
    // stays dead while the new one works.
    let h2 = pool.acquire().unwrap();
    assert_eq!(h1.index, h2.index);
    assert_ne!(h1.generation, h2.generation);
    assert!(pool.get(h1).is_none());
    assert!(pool.get(h2).is_some());
}

#[test]
fn pool_double_release_is_refused() {
    let mut pool = BufferPool::new(16, 2);
    let h = pool.acquire().unwrap();
    pool.release(h).unwrap();
    assert!(matches!(pool.release(h), Err(PoolError::StaleHandle)));
    assert_eq!(pool.capacity_remaining(), 2);
}

#[test]
fn pool_put_and_get() {
    let mut pool = BufferPool::new(4, 1);
    let h = pool.acquire().unwrap();
    pool.put(h, vec![1, 2, 3, 4]).unwrap();
    assert_eq!(pool.get(h).unwrap().as_slice(), &[1, 2, 3, 4]);
    assert!(matches!(pool.put(h, vec![1]), Err(PoolError::StaleHandle)));
}

#[test]
fn sequence_buffer_wraparound_evicts_oldest() {
    let capacity: usize = 8;
    let mut buf: SequenceBuffer<u32> = SequenceBuffer::with_capacity(capacity);
    for seq in 0..(capacity as u64 + 5) {
        let _ = buf.insert(seq, seq as u32);
    }
    // The oldest five entries were evicted by their successors sharing slots.
    for seq in 0..5u64 {
        assert!(buf.get(seq).is_none());
    }
    for seq in 5..(capacity as u64 + 5) {
        assert_eq!(*buf.get(seq).unwrap(), Some(seq as u32));
    }
}

#[test]
fn sequence_buffer_basic_ops() {
    let mut buf: SequenceBuffer<&str> = SequenceBuffer::with_capacity(4);
    assert_eq!(buf.capacity(), 4);
    assert_eq!(buf.index_of(10), 2);
    assert!(!buf.contains(10));
    let _ = buf.insert(10, "ten");
    assert!(buf.contains(10));
    // Sequence 6 maps to the same slot but is not stored there.
    assert!(buf.get(6).is_none());
    assert_eq!(buf.remove(10), Some("ten"));
    assert!(buf.get(10).is_none());
}

#[test]
fn sequence_buffer_get_or_insert() {
    let mut buf: SequenceBuffer<u8> = SequenceBuffer::with_capacity(4);
    assert_eq!(*buf.get_or_insert(3, 7), 7);
    assert_eq!(*buf.get_or_insert(3, 9), 7);
    assert_eq!(*buf.get_or_insert_with(5, || 11), 11);
    assert_eq!(*buf.get_or_insert_with(5, || 13), 11);
}

#[test]
fn sequence_buffer_remove_index_and_get_index() {
    let mut buf: SequenceBuffer<u8> = SequenceBuffer::with_capacity(4);
    let _ = buf.insert(6, 66);
    let idx = buf.index_of(6);
    {
        let (s, d) = buf.get_index(idx);
        assert_eq!(*s, Some(6));
        assert_eq!(*d, Some(66));
    }
    let (s, d) = buf.remove_index(idx);
    assert_eq!(s, Some(6));
    assert_eq!(d, Some(66));
    assert!(!buf.contains(6));
}

#[test]
fn sequence_buffer_remove_range_wraps() {
    let mut buf: SequenceBuffer<u8> = SequenceBuffer::with_capacity(4);
    for seq in 4..8u64 {
        let _ = buf.insert(seq, seq as u8);
    }
    // Clearing from sequence 7 (slot 3) to sequence 9 (slot 1) wraps past
    // the end: slots 3 and 0 are cleared, slots 1 and 2 stay.
    buf.remove_range(7, 9);
    assert!(buf.get(7).is_none());
    assert!(buf.get(4).is_none());
    assert_eq!(*buf.get(5).unwrap(), Some(5));
    assert_eq!(*buf.get(6).unwrap(), Some(6));
}

#[test]
fn sequence_buffer_get_mut_updates() {
    let mut buf: SequenceBuffer<u8> = SequenceBuffer::with_capacity(4);
    let _ = buf.insert(1, 10);
    if let Some(slot) = buf.get_mut(1) {
        if let Some(v) = slot.as_mut() {
            *v = 20;
        }
    }
    assert_eq!(*buf.get(1).unwrap(), Some(20));
    let (s, d) = buf.get_index_mut(1);
    assert_eq!(s, Some(1));
    assert_eq!(*d, Some(20));
}
