use mesh_control::ring_buffer::RingBuffer;

fn contents(buffer: &RingBuffer<u32>) -> Vec<u32> {
    buffer.oldest_first().into_iter().copied().collect()
}

#[test]
fn ring_buffer_keeps_last_capacity_writes_in_order() {
    let mut buffer = RingBuffer::new(3);
    let writes = [1u32, 2, 3, 4, 5, 6, 7];
    for (i, w) in writes.iter().enumerate() {
        buffer.write(*w);
        let n = i + 1;
        let start = n.saturating_sub(3);
        assert_eq!(contents(&buffer), writes[start..n].to_vec());
    }
    assert_eq!(buffer.len(), 3);
    assert_eq!(*buffer.get(0), 5);
    assert_eq!(*buffer.get(2), 7);
}

#[test]
fn ring_buffer_below_capacity_keeps_everything() {
    let mut buffer = RingBuffer::new(5);
    assert_eq!(buffer.len(), 0);
    buffer.write(10);
    buffer.write(20);
    assert_eq!(contents(&buffer), vec![10, 20]);
    assert_eq!(buffer.capacity(), 5);
}

#[test]
fn ring_buffer_capacity_one_holds_latest() {
    let mut buffer = RingBuffer::new(1);
    assert!(contents(&buffer).is_empty());
    for w in [4u32, 8, 15, 16] {
        buffer.write(w);
        assert_eq!(contents(&buffer), vec![w]);
    }
}

#[test]
fn ring_buffer_capacity_zero_holds_nothing() {
    let mut buffer = RingBuffer::new(0);
    buffer.write(1u32);
    buffer.write(2);
    assert_eq!(buffer.len(), 0);
    assert!(contents(&buffer).is_empty());
}

#[test]
fn live_cache_of_four_after_three_and_one_more() {
    let mut buffer = RingBuffer::new(4);
    for t in [1u32, 2, 3] {
        buffer.write(t);
    }
    assert_eq!(contents(&buffer), vec![1, 2, 3]);
    buffer.write(4);
    assert_eq!(contents(&buffer), vec![1, 2, 3, 4]);
    buffer.write(5);
    assert_eq!(contents(&buffer), vec![2, 3, 4, 5]);
}
