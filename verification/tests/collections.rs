use network::collections::{Collection, Queue, Stack};

#[test]
fn test_queue_impl() {
    let mut queue = Queue::new();
    queue.push(0);
    queue.push(1);
    queue.push(2);
    queue.push(3);
    queue.push(4);
    assert!(!queue.is_empty());
    assert_eq!(Some(0), queue.pop());
    assert_eq!(Some(&1), queue.peek());
    queue.pop();
    queue.pop();
    queue.pop();
    queue.pop();
    assert!(queue.is_empty());
}

#[test]
fn test_stack_impl() {
    let mut stack = Stack::new();
    stack.push(0);
    stack.push(1);
    stack.push(2);
    stack.push(3);
    stack.push(4);
    assert!(!stack.is_empty());
    assert_eq!(Some(4), stack.pop());
    assert_eq!(Some(&3), stack.peek());
    stack.pop();
    stack.pop();
    stack.pop();
    stack.pop();
    assert!(stack.is_empty());
}

#[test]
fn empty_containers_give_nothing() {
    let mut queue = Queue::with_capacity(4);
    assert!(queue.is_empty());
    assert_eq!(None, queue.peek());
    assert_eq!(None, queue.pop());
    assert!(queue.is_empty());
    let mut stack = Stack::with_capacity(4);
    assert!(stack.is_empty());
    assert_eq!(None, stack.peek());
    assert_eq!(None, stack.pop());
    assert!(stack.is_empty());
}

#[test]
fn peek_does_not_remove() {
    let mut queue = Queue::new();
    queue.push(7);
    queue.push(9);
    assert_eq!(Some(&7), queue.peek());
    assert_eq!(Some(&7), queue.peek());
    assert_eq!(Some(7), queue.pop());
    assert_eq!(Some(9), queue.pop());
    assert_eq!(None, queue.pop());
    let mut stack = Stack::new();
    stack.push(7);
    stack.push(9);
    assert_eq!(Some(&9), stack.peek());
    assert_eq!(Some(&9), stack.peek());
    assert_eq!(Some(9), stack.pop());
    assert_eq!(Some(7), stack.pop());
    assert_eq!(None, stack.pop());
}

#[test]
fn queue_and_stack_interleave_pushes_and_pops() {
    let mut queue = Queue::new();
    let mut stack = Stack::new();
    for x in [3, 1, 2] {
        queue.push(x);
        stack.push(x);
    }
    assert_eq!(Some(3), queue.pop());
    assert_eq!(Some(2), stack.pop());
    queue.push(8);
    stack.push(8);
    assert_eq!(vec![1, 2, 8], drain(&mut queue));
    assert_eq!(vec![8, 1, 3], drain(&mut stack));
}

fn drain<C: Collection>(c: &mut C) -> Vec<u32> {
    let mut out = Vec::new();
    while let Some(x) = c.pop() {
        out.push(x);
    }
    out
}
