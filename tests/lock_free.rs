use memtools::lock_free::{Attempt, LockFreeStack};

#[test]
fn test_push_and_pop() {
    let mut stack = LockFreeStack::new();

    stack.push(1);
    stack.push(2);
    stack.push(3);

    assert_eq!(stack.pop(), Some(3));
    assert_eq!(stack.pop(), Some(2));
    assert_eq!(stack.pop(), Some(1));
    assert_eq!(stack.pop(), None);
}

#[test]
fn test_pop_empty_stack() {
    let mut stack: LockFreeStack<i32> = LockFreeStack::new();

    assert_eq!(stack.pop(), None);
}

#[test]
fn lifo_then_empty() {
    let mut stack = LockFreeStack::with_threads(4);
    for v in 1..=100 {
        stack.push(v);
    }
    assert_eq!(stack.len(), 100);
    for v in (1..=100).rev() {
        assert_eq!(stack.pop(), Some(v));
    }
    assert_eq!(stack.pop(), None);
    assert!(stack.is_empty());
}

#[test]
fn drain_returns_top_first() {
    let mut stack = LockFreeStack::new();
    stack.push(1);
    stack.push(2);
    stack.push(3);
    assert_eq!(stack.drain(), vec![3, 2, 1]);
    assert!(stack.is_empty());
    assert_eq!(stack.len(), 0);
}

#[test]
fn peek_sees_top_without_removing() {
    let mut stack = LockFreeStack::new();
    assert_eq!(stack.peek(), None);
    stack.push(5);
    stack.push(6);
    assert_eq!(stack.peek(), Some(&6));
    assert_eq!(stack.len(), 2);
}

#[test]
fn ten_contexts_push_distinct_values_then_drain() {
    let mut stack = LockFreeStack::with_threads(10);
    for t in 0..10usize {
        stack.prepare_push(t, t as i32);
    }
    let mut waiting: Vec<usize> = (0..10).collect();
    while !waiting.is_empty() {
        waiting.retain(|&t| !stack.try_push(t));
    }
    let mut seen: Vec<i32> = Vec::new();
    for t in 0..10 {
        seen.push(stack.pop_with(t).unwrap());
    }
    assert_eq!(stack.pop_with(0), None);
    seen.sort();
    assert_eq!(seen, (0..10).collect::<Vec<_>>());
}

#[test]
fn stale_protection_forces_a_retry() {
    let mut stack = LockFreeStack::with_threads(2);
    stack.push(1);
    stack.push(2);
    stack.protect_head(0);
    assert_eq!(stack.pop_with(1), Some(2));
    assert!(matches!(stack.try_pop(0), Attempt::Retry));
    stack.protect_head(0);
    assert!(matches!(stack.try_pop(0), Attempt::Popped(1)));
    stack.protect_head(0);
    assert!(matches!(stack.try_pop(0), Attempt::Empty));
}

#[test]
fn protected_node_is_not_reused_by_push() {
    let mut stack = LockFreeStack::with_threads(2);
    stack.push(1);
    stack.protect_head(0);
    assert_eq!(stack.pop_with(1), Some(1));
    stack.push(7);
    assert!(matches!(stack.try_pop(0), Attempt::Retry));
    assert_eq!(stack.pop(), Some(7));
}

#[test]
fn retired_backlog_stays_within_twice_the_contexts() {
    let mut stack = LockFreeStack::with_threads(3);
    for round in 0..50 {
        for v in 0..20 {
            stack.push(round * 100 + v);
        }
        for _ in 0..20 {
            assert!(stack.pop().is_some());
            assert!(stack.retired_count() <= 2 * stack.threads());
        }
    }
    assert!(stack.retired_count() <= 2 * stack.threads());
}

#[test]
fn zero_thread_hint_still_gives_one_context() {
    let stack: LockFreeStack<u8> = LockFreeStack::with_threads(0);
    assert_eq!(stack.threads(), 1);
    assert_eq!(stack.retired_count(), 0);
}

#[test]
fn interleaved_contexts_conserve_values() {
    let contexts: usize = 8;
    let mut stack = LockFreeStack::with_threads(contexts);
    let mut seed: u64 = 12345;
    let mut next_value: u64 = 0;
    let mut popped: Vec<u64> = Vec::new();
    let mut protecting = vec![false; contexts];
    let mut pushing = vec![false; contexts];
    for _ in 0..20000 {
        seed = seed.wrapping_mul(6364136223846793005).wrapping_add(1442695040888963407);
        let tid = ((seed >> 33) as usize) % contexts;
        let action = (seed >> 20) % 2;
        if action == 0 {
            if !pushing[tid] {
                stack.prepare_push(tid, next_value);
                next_value += 1;
                pushing[tid] = true;
            } else if stack.try_push(tid) {
                pushing[tid] = false;
            }
        } else if !protecting[tid] {
            stack.protect_head(tid);
            protecting[tid] = true;
        } else {
            protecting[tid] = false;
            match stack.try_pop(tid) {
                Attempt::Popped(v) => popped.push(v),
                Attempt::Empty | Attempt::Retry => {}
            }
        }
        assert!(stack.retired_count() <= 2 * stack.threads());
    }
    for tid in 0..contexts {
        if protecting[tid] {
            if let Attempt::Popped(v) = stack.try_pop(tid) {
                popped.push(v);
            }
        }
        while pushing[tid] {
            if stack.try_push(tid) {
                pushing[tid] = false;
            }
        }
    }
    popped.extend(stack.drain());
    popped.sort();
    assert_eq!(popped, (0..next_value).collect::<Vec<_>>());
}

#[test]
fn push_retries_when_the_head_moves() {
    let mut stack = LockFreeStack::with_threads(2);
    stack.push(1);
    stack.prepare_push(1, 10);
    stack.push(2);
    assert!(!stack.try_push(1));
    assert!(stack.try_push(1));
    assert_eq!(stack.drain(), vec![10, 2, 1]);
}

#[test]
fn pop_between_prepare_and_link_forces_a_push_retry() {
    let mut stack = LockFreeStack::with_threads(2);
    stack.push(1);
    stack.push(2);
    stack.prepare_push(1, 3);
    assert_eq!(stack.pop(), Some(2));
    assert!(!stack.try_push(1));
    assert!(stack.try_push(1));
    assert_eq!(stack.pop(), Some(3));
    assert_eq!(stack.pop(), Some(1));
    assert_eq!(stack.pop(), None);
}
