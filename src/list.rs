use vstd::prelude::*;
use vstd::rwlock::{RwLock, RwLockPredicate, WriteHandle};

use crate::internal::{ListInternal, ListIter};

verus! {

/// What the lock of a [`List`] keeps true of the chain it guards: it is
/// well formed whenever no thread holds the lock.
pub struct ListPred;

impl<T> RwLockPredicate<ListInternal<T>> for ListPred {
    open spec fn inv(self, v: ListInternal<T>) -> bool {
        v.wf()
    }
}

/// A deque that many threads may share.
///
/// Every operation takes the lock, works on the chain, and leaves it well
/// formed before the lock is released, so no thread ever sees a half-linked
/// node. An empty pop is an ordinary outcome, not an error.
pub struct List<T> {
    lock: RwLock<ListInternal<T>, ListPred>,
}

impl<T> List<T> {
    /// An empty deque.
    pub fn new() -> (l: Self) {
        List { lock: RwLock::new(ListInternal::new(), Ghost(ListPred)) }
    }

    /// Locks the deque and hands out a guard through which the elements can be
    /// read in order and replaced. The lock is held until `release`.
    pub fn iter(&self) -> (g: ListGuard<'_, T>)
        ensures
            g.wf(),
    {
        let (inner, handle) = self.lock.acquire_write();
        ListGuard { inner, handle }
    }

    /// Appends `data` at the back.
    pub fn push_back(&self, data: T) {
        let (mut inner, handle) = self.lock.acquire_write();
        inner.push_back(data);
        handle.release_write(inner);
    }

    /// Prepends `data` at the front.
    pub fn push_front(&self, data: T) {
        let (mut inner, handle) = self.lock.acquire_write();
        inner.push_front(data);
        handle.release_write(inner);
    }

    /// Removes the back element, or returns `None` when the deque is empty.
    pub fn pop_back(&self) -> (r: Option<T>) {
        let (mut inner, handle) = self.lock.acquire_write();
        let r = inner.pop_back();
        handle.release_write(inner);
        r
    }

    /// Removes the front element, or returns `None` when the deque is empty.
    pub fn pop_front(&self) -> (r: Option<T>) {
        let (mut inner, handle) = self.lock.acquire_write();
        let r = inner.pop_front();
        handle.release_write(inner);
        r
    }
}

impl<T> Default for List<T> {
    fn default() -> (l: Self) {
        List::new()
    }
}

/// Exclusive access to a locked [`List`]: a consistent snapshot of its
/// elements that stays valid until the guard is released.
pub struct ListGuard<'a, T> {
    inner: ListInternal<T>,
    handle: WriteHandle<'a, ListInternal<T>, ListPred>,
}

impl<'a, T> ListGuard<'a, T> {
    pub closed spec fn wf(&self) -> bool {
        self.inner.wf()
    }

    /// The elements of the locked deque, front to back.
    pub closed spec fn view(&self) -> Seq<T> {
        self.inner@
    }

    /// A cursor over the locked elements, front to back.
    pub fn into_iter(&self) -> (it: ListIter<'_, T>)
        requires
            self.wf(),
        ensures
            it.wf(),
            it.list()@ == self@,
            it.pos() == 0,
    {
        self.inner.iter()
    }

    /// The number of locked elements.
    pub fn len(&self) -> (n: usize)
        requires
            self.wf(),
        ensures
            n == self@.len(),
    {
        self.inner.len()
    }

    /// Puts `value` in place of the element at position `i` and hands out the
    /// element it replaces.
    pub fn replace(&mut self, i: usize, value: T) -> (r: T)
        requires
            old(self).wf(),
            i < old(self)@.len(),
        ensures
            final(self).wf(),
            r == old(self)@[i as int],
            final(self)@ == old(self)@.update(i as int, value),
    {
        self.inner.replace(i, value)
    }

    /// Unlocks the deque, keeping what the guard holds.
    pub fn release(self)
        requires
            self.wf(),
    {
        let ListGuard { inner, handle } = self;
        handle.release_write(inner);
    }
}

} // verus!
