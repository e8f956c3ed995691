use xtables::ring_buffer::RingBuffer;

#[test]
fn creation() {
    let buffer: RingBuffer<i32> = RingBuffer::new(3);
    assert_eq!(buffer.len(), 0);
    assert_eq!(buffer.capacity(), 3);
}

#[test]
fn push() {
    let mut buffer: RingBuffer<i32> = RingBuffer::new(3);

    buffer.push(1);
    buffer.push(2);
    buffer.push(3);

    assert_eq!(buffer.len(), 3);

    buffer.push(4);

    assert_eq!(buffer.len(), 3);
    assert_eq!(*buffer.get(2), 4);
}

#[test]
fn pop() {
    let mut buffer: RingBuffer<i32> = RingBuffer::new(3);

    buffer.push(1);
    buffer.push(2);
    buffer.push(3);

    assert_eq!(buffer.pop(), Some(3));

    buffer.push(4);

    assert_eq!(buffer.pop(), Some(4));

    buffer.pop();
    buffer.pop();
    buffer.pop();
    assert_eq!(buffer.pop(), None);
}

#[test]
fn peek() {
    let mut buffer: RingBuffer<i32> = RingBuffer::new(3);

    buffer.push(1);
    buffer.push(2);
    buffer.push(3);

    assert_eq!(buffer.peek(), Some(&3));

    buffer.push(4);

    assert_eq!(buffer.peek(), Some(&4));
}

#[test]
fn clear() {
    let mut buffer: RingBuffer<i32> = RingBuffer::new(3);

    buffer.push(1);
    buffer.push(2);
    buffer.push(3);

    buffer.clear();

    assert_eq!(buffer.pop(), None);
}

#[test]
fn eviction_keeps_last_capacity_items() {
    let mut buffer: RingBuffer<u64> = RingBuffer::new(2);
    for x in 1..=5u64 {
        buffer.push(x);
    }
    assert_eq!(buffer.len(), 2);
    assert_eq!(*buffer.get(0), 4);
    assert_eq!(*buffer.get(1), 5);
}

#[test]
fn peek_keeps_length() {
    let mut buffer: RingBuffer<i32> = RingBuffer::new(4);
    buffer.push(7);
    buffer.push(8);
    let before = buffer.len();
    assert_eq!(buffer.peek(), Some(&8));
    assert_eq!(buffer.len(), before);
}

#[test]
fn pop_reverses_push_order_within_capacity() {
    let mut buffer: RingBuffer<i32> = RingBuffer::new(5);
    for x in [10, 20, 30] {
        buffer.push(x);
    }
    assert_eq!(buffer.pop(), Some(30));
    assert_eq!(buffer.pop(), Some(20));
    assert_eq!(buffer.pop(), Some(10));
    assert_eq!(buffer.pop(), None);
}
