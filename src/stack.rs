use std::sync::Arc;

use vstd::prelude::*;

use crate::list::List;

verus! {

/// A stack that clones of one handle share: every clone pushes onto and pops
/// from the same deque, at its back.
#[derive(Clone)]
pub struct GlobalStack<T> {
    list: Arc<List<T>>,
}

impl<T> GlobalStack<T> {
    /// An empty stack.
    pub fn new() -> (s: Self) {
        GlobalStack { list: Arc::new(List::new()) }
    }

    /// Puts `item` on top of the stack.
    pub fn push(&self, item: T) {
        self.list.push_back(item);
    }

    /// Takes the top item off the stack, or returns `None` when it is empty.
    pub fn pop(&self) -> (r: Option<T>) {
        self.list.pop_back()
    }
}

impl<T> Default for GlobalStack<T> {
    fn default() -> (s: Self) {
        GlobalStack::new()
    }
}

} // verus!
