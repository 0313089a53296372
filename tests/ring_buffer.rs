use memtools::ring_buffer::RingBuffer;

#[test]
fn main_test_push_and_pop() {
    let mut buffer = RingBuffer::new(3);

    buffer.push(1);
    buffer.push(2);
    buffer.push(3);

    assert_eq!(buffer.pop(), Some(1));
    assert_eq!(buffer.pop(), Some(2));
    assert_eq!(buffer.pop(), Some(3));
    assert_eq!(buffer.pop(), None);
}

#[test]
fn test_overwrite_when_full() {
    let mut buffer = RingBuffer::new(3);

    buffer.push(1);
    buffer.push(2);
    buffer.push(3);
    buffer.push(4);

    assert_eq!(buffer.pop(), Some(2));
    assert_eq!(buffer.pop(), Some(3));
    assert_eq!(buffer.pop(), Some(4));
    assert_eq!(buffer.pop(), None);
}

#[test]
fn main_test_peek() {
    let mut buffer = RingBuffer::new(3);

    buffer.push(10);
    assert_eq!(buffer.peek(), Some(&10));
    buffer.push(20);
    assert_eq!(buffer.peek(), Some(&10));
    buffer.pop();
    assert_eq!(buffer.peek(), Some(&20));
}

#[test]
fn test_size_and_is_empty() {
    let mut buffer = RingBuffer::new(2);

    assert!(buffer.is_empty());
    assert_eq!(buffer.size(), 0);

    buffer.push(1);
    buffer.push(2);

    assert!(!buffer.is_empty());
    assert_eq!(buffer.size(), 2);

    buffer.pop();
    assert_eq!(buffer.size(), 1);

    buffer.pop();
    assert_eq!(buffer.size(), 0);
    assert!(buffer.is_empty());
}

#[test]
fn test_is_full() {
    let mut buffer = RingBuffer::new(2);

    assert!(!buffer.is_full());

    buffer.push(1);
    buffer.push(2);

    assert!(buffer.is_full());

    buffer.pop();
    assert!(!buffer.is_full());
}

#[test]
fn test_clear() {
    let mut buffer = RingBuffer::new(3);

    buffer.push(1);
    buffer.push(2);
    buffer.push(3);

    assert_eq!(buffer.size(), 3);

    buffer.clear();

    assert_eq!(buffer.size(), 0);
    assert_eq!(buffer.pop(), None);
}

#[test]
fn test_iter() {
    let mut buffer = RingBuffer::new(3);

    buffer.push(10);
    buffer.push(20);
    buffer.push(30);

    let collected: Vec<_> = buffer.iter();
    assert_eq!(collected, vec![&10, &20, &30]);

    buffer.pop();
    let collected: Vec<_> = buffer.iter();
    assert_eq!(collected, vec![&20, &30]);
}

#[test]
fn ring_iter_after_wrap_around() {
    let mut buffer = RingBuffer::new(3);
    for v in [10, 20, 30, 40, 50] {
        buffer.push(v);
    }
    assert_eq!(buffer.iter(), vec![&30, &40, &50]);
    assert_eq!(buffer.peek(), Some(&30));
    buffer.clear();
    assert!(buffer.iter().is_empty());
    assert_eq!(buffer.peek(), None);
    buffer.push(60);
    assert_eq!(buffer.iter(), vec![&60]);
}

#[test]
fn ring_of_zero_capacity_is_empty_and_full() {
    let mut buffer: RingBuffer<i32> = RingBuffer::new(0);
    assert!(buffer.is_empty());
    assert!(buffer.is_full());
    assert_eq!(buffer.pop(), None);
    assert_eq!(buffer.peek(), None);
}
