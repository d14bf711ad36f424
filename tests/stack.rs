use deque::stack::GlobalStack;

#[test]
fn empty_pop() {
    assert_eq!(GlobalStack::<i32>::default().pop(), None);
}

#[test]
fn pop_element() {
    let stack = GlobalStack::default();

    stack.push(1);

    assert_eq!(stack.pop(), Some(1));
}

#[test]
fn clones_share_one_stack() {
    let stack = GlobalStack::new();
    let other = stack.clone();
    stack.push(0);
    other.push(1);
    stack.push(2);
    assert_eq!(other.pop(), Some(2));
    assert_eq!(stack.pop(), Some(1));
    assert_eq!(other.pop(), Some(0));
    assert_eq!(stack.pop(), None);
}
