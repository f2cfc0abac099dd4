use ring_buffer::RingBuffer;

#[test]
fn retain_keeps_matching_elements_in_order() {
    let mut q = RingBuffer::new(vec![0u32; 8]);
    for v in [1u32, 2, 3, 4, 5, 6, 7] {
        assert!(q.enqueue(v));
    }
    q.retain(|x| *x % 2 == 0);
    assert_eq!(q.len(), 3);
    assert_eq!(q.dequeue(), Some(2));
    assert_eq!(q.dequeue(), Some(4));
    assert_eq!(q.dequeue(), Some(6));
    assert_eq!(q.dequeue(), None);
}

#[test]
fn retain_all_is_a_no_op() {
    let mut q = RingBuffer::new(vec![0u32; 5]);
    for v in [9u32, 8, 7, 6] {
        assert!(q.enqueue(v));
    }
    q.retain(|_| true);
    assert_eq!(q.len(), 4);
    assert_eq!(q.dequeue(), Some(9));
    assert_eq!(q.dequeue(), Some(8));
    assert_eq!(q.dequeue(), Some(7));
    assert_eq!(q.dequeue(), Some(6));
    assert_eq!(q.dequeue(), None);
}

#[test]
fn retain_none_empties_the_queue() {
    let mut q = RingBuffer::new(vec![0u32; 5]);
    for v in [1u32, 2, 3] {
        assert!(q.enqueue(v));
    }
    q.retain(|_| false);
    assert_eq!(q.len(), 0);
    assert!(!q.has_elements());
    assert_eq!(q.dequeue(), None);
    // The compacted queue keeps working.
    assert!(q.enqueue(42));
    assert_eq!(q.dequeue(), Some(42));
}

#[test]
fn retain_on_empty_queue_is_harmless() {
    let mut q = RingBuffer::new(vec![0u32; 4]);
    q.retain(|_| true);
    assert_eq!(q.len(), 0);
    q.retain(|_| false);
    assert_eq!(q.len(), 0);
}

#[test]
fn retain_keeps_duplicates() {
    let mut q = RingBuffer::new(vec![0u32; 8]);
    for v in [5u32, 1, 5, 2, 5, 3] {
        assert!(q.enqueue(v));
    }
    q.retain(|x| *x == 5);
    assert_eq!(q.len(), 3);
    assert_eq!(q.dequeue(), Some(5));
    assert_eq!(q.dequeue(), Some(5));
    assert_eq!(q.dequeue(), Some(5));
    assert_eq!(q.dequeue(), None);
}

#[test]
fn retain_over_a_wrapped_window() {
    // Drive the occupied window across the end of storage, then compact it.
    let mut q = RingBuffer::new(vec![0u32; 5]);
    for v in [1u32, 2, 3, 4] {
        assert!(q.enqueue(v));
    }
    assert_eq!(q.dequeue(), Some(1));
    assert_eq!(q.dequeue(), Some(2));
    assert_eq!(q.dequeue(), Some(3));
    // Window now starts near the end; these enqueues wrap around.
    assert!(q.enqueue(10));
    assert!(q.enqueue(11));
    assert!(q.enqueue(12));
    assert_eq!(q.len(), 4);
    q.retain(|x| *x % 2 == 0);
    assert_eq!(q.len(), 3);
    assert_eq!(q.dequeue(), Some(4));
    assert_eq!(q.dequeue(), Some(10));
    assert_eq!(q.dequeue(), Some(12));
    assert_eq!(q.dequeue(), None);
}

#[test]
fn retain_then_enqueue_uses_reclaimed_room() {
    let mut q = RingBuffer::new(vec![0u32; 4]);
    assert!(q.enqueue(1));
    assert!(q.enqueue(2));
    assert!(q.enqueue(3));
    assert!(q.is_full());
    q.retain(|x| *x == 2);
    assert_eq!(q.len(), 1);
    assert!(!q.is_full());
    assert!(q.enqueue(8));
    assert!(q.enqueue(9));
    assert_eq!(q.dequeue(), Some(2));
    assert_eq!(q.dequeue(), Some(8));
    assert_eq!(q.dequeue(), Some(9));
    assert_eq!(q.dequeue(), None);
}
