use memtools::circular_buffer::CircularBuffer;
use memtools::queue::Queue;
use memtools::reverse::reverse_vector;
use memtools::stack::Stack;

#[test]
fn test_push() {
    let mut stack = Stack::new();
    stack.push(1);
    assert_eq!(stack.size(), 1);
}

#[test]
fn test_pop() {
    let mut stack = Stack::new();
    stack.push(1);
    stack.push(2);
    assert_eq!(stack.pop(), Some(2));
    assert_eq!(stack.size(), 1);
}

#[test]
fn test_peek() {
    let mut stack = Stack::new();
    stack.push(1);
    assert_eq!(stack.peek(), Some(&1));
}

#[test]
fn test_is_empty() {
    let mut stack = Stack::new();
    assert!(stack.is_empty());
    stack.push(1);
    assert!(!stack.is_empty());
}

#[test]
fn test_size() {
    let mut stack: Stack<i32> = Stack::new();
    assert_eq!(stack.size(), 0);
    stack.push(1);
    assert_eq!(stack.size(), 1);
}

#[test]
fn stack_pop_and_peek_on_empty() {
    let mut stack: Stack<i32> = Stack::new();
    assert_eq!(stack.peek(), None);
    assert_eq!(stack.pop(), None);
    assert_eq!(stack.size(), 0);
}

#[test]
fn test_queue_operations() {
    let mut queue = Queue::new();
    assert!(queue.is_empty());
    assert_eq!(queue.size(), 0);

    queue.enqueue(1);
    queue.enqueue(2);
    assert_eq!(queue.size(), 2);
    assert!(!queue.is_empty());

    assert_eq!(queue.dequeue(), Some(1));
    assert_eq!(queue.size(), 1);
    assert_eq!(queue.dequeue(), Some(2));
    assert_eq!(queue.size(), 0);
    assert!(queue.is_empty());

    queue.enqueue(3);
    assert_eq!(queue.dequeue(), Some(3));
    assert_eq!(queue.dequeue(), None);
}

#[test]
fn queue_interleaved_keeps_fifo_order() {
    let mut queue = Queue::new();
    queue.enqueue(1);
    queue.enqueue(2);
    assert_eq!(queue.dequeue(), Some(1));
    queue.enqueue(3);
    queue.enqueue(4);
    assert_eq!(queue.dequeue(), Some(2));
    assert_eq!(queue.dequeue(), Some(3));
    assert_eq!(queue.dequeue(), Some(4));
    assert_eq!(queue.dequeue(), None);
}

#[test]
fn test_reverse_vector_happy_cases() {
    let mut vec = vec![1, 2, 3, 4];
    reverse_vector(&mut vec);
    assert_eq!(vec, vec![4, 3, 2, 1]);

    let mut vec = vec![1, 2, 3];
    reverse_vector(&mut vec);
    assert_eq!(vec, vec![3, 2, 1]);

    let mut vec = vec![1];
    reverse_vector(&mut vec);
    assert_eq!(vec, vec![1]);

    let mut vec = Vec::<i32>::new();
    reverse_vector(&mut vec);
    assert_eq!(vec, Vec::<i32>::new());
}

#[test]
fn test_reverse_vector_unhappy_cases() {
    let mut vec = vec!['a', 'b', 'c', 'd'];
    reverse_vector(&mut vec);
    assert_eq!(vec, vec!['d', 'c', 'b', 'a']);

    let mut large_vec = (0..1000).collect::<Vec<_>>();
    let expected = (0..1000).rev().collect::<Vec<_>>();
    reverse_vector(&mut large_vec);
    assert_eq!(large_vec, expected);
}

#[test]
fn reverse_two_elements_swaps_them() {
    let mut vec = vec![7, 9];
    reverse_vector(&mut vec);
    assert_eq!(vec, vec![9, 7]);
}

#[test]
fn test_circular_buffer_happy_cases() {
    let mut cb = CircularBuffer::<i32>::new(3);

    cb.push(1);
    assert_eq!(cb.size(), 1);

    cb.push(2);
    cb.push(3);
    assert_eq!(cb.pop(), Some(1));
    assert_eq!(cb.size(), 2);

    cb.push(4);
    assert_eq!(cb.pop(), Some(2));
    assert_eq!(cb.pop(), Some(3));
    assert_eq!(cb.pop(), Some(4));
    assert_eq!(cb.pop(), None);

    assert!(cb.is_empty());
}

#[test]
fn test_circular_buffer_unhappy_cases() {
    let mut cb = CircularBuffer::<i32>::new(2);

    assert_eq!(cb.pop(), None);

    cb.push(1);
    cb.push(2);
    cb.push(3);
    assert_eq!(cb.pop(), Some(2));
    assert_eq!(cb.pop(), Some(3));
    assert_eq!(cb.pop(), None);

    cb.push(4);
    cb.push(5);
    cb.push(6);
    assert_eq!(cb.pop(), Some(5));
    cb.push(7);
    assert_eq!(cb.pop(), Some(6));
    assert_eq!(cb.pop(), Some(7));
    assert_eq!(cb.pop(), None);

    let mut large_cb = CircularBuffer::<i32>::new(1000);
    for i in 0..1000 {
        large_cb.push(i);
    }
    for i in 1000 - large_cb.capacity()..1000 {
        assert_eq!(large_cb.pop(), Some(i as i32));
    }
}

#[test]
fn circular_buffer_of_one_slot_keeps_the_newest() {
    let mut cb = CircularBuffer::<i32>::new(1);
    cb.push(1);
    cb.push(2);
    assert_eq!(cb.size(), 1);
    assert_eq!(cb.pop(), Some(2));
    assert!(cb.is_empty());
}
