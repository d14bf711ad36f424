use vstd::prelude::*;

verus! {

/// One slot of the node arena: a payload and the links to its neighbours.
///
/// Links are slot indices. A slot whose `data` is `None` holds no element and
/// is free for reuse; the backward link `prev` never owns anything, so nothing
/// keeps a popped slot alive.
pub struct Node<T> {
    pub(crate) data: Option<T>,
    pub(crate) next: Option<usize>,
    pub(crate) prev: Option<usize>,
}

impl<T> Node<T> {
    /// A detached node holding `data`.
    pub(crate) fn new(data: T) -> (n: Self)
        ensures
            n.data == Some(data),
            n.next is None,
            n.prev is None,
    {
        Node { data: Some(data), next: None, prev: None }
    }
}

} // verus!
