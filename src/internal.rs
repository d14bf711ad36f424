use vstd::prelude::*;

use vstd::set_lib::{lemma_len_subset, range_set_properties, FiniteRange};

use crate::model::{popped, run, step, Op};
use crate::node::Node;

verus! {

/// The sequential core of the deque: an arena of nodes chained both ways.
///
/// `order` lists, front to back, the slots that hold the elements. Freed slots
/// are kept in `free` and reused by later pushes.
pub struct ListInternal<T> {
    nodes: Vec<Node<T>>,
    free: Vec<usize>,
    first: Option<usize>,
    last: Option<usize>,
    order: Ghost<Seq<usize>>,
}

impl<T> ListInternal<T> {
    /// The slot that precedes position `i` of the chain.
    spec fn prev_of(&self, i: int) -> Option<usize> {
        if i == 0 {
            None
        } else {
            Some(self.order@[i - 1])
        }
    }

    /// The slot that follows position `i` of the chain.
    spec fn next_of(&self, i: int) -> Option<usize> {
        if i + 1 == self.order@.len() {
            None
        } else {
            Some(self.order@[i + 1])
        }
    }

    /// The node at position `i` holds an element and links to its neighbours.
    spec fn linked_at(&self, i: int) -> bool {
        let p = self.order@[i];
        &&& p < self.nodes@.len()
        &&& self.nodes@[p as int].data is Some
        &&& self.nodes@[p as int].prev == self.prev_of(i)
        &&& self.nodes@[p as int].next == self.next_of(i)
    }

    /// Well-formedness: the chain runs from `first` to `last` through `order`,
    /// every link has its inverse, no slot occurs twice, and the free list
    /// names distinct empty slots.
    pub closed spec fn wf(&self) -> bool {
        &&& forall|i: int| 0 <= i < self.order@.len() ==> #[trigger] self.linked_at(i)
        &&& forall|i: int, j: int|
            0 <= i < self.order@.len() && 0 <= j < self.order@.len() && i != j
                ==> self.order@[i] != self.order@[j]
        &&& if self.order@.len() == 0 {
            self.first is None && self.last is None
        } else {
            &&& self.first == Some(self.order@[0])
            &&& self.last == Some(self.order@[self.order@.len() - 1])
        }
        &&& forall|k: int|
            0 <= k < self.free@.len() ==> {
                &&& #[trigger] self.free@[k] < self.nodes@.len()
                &&& self.nodes@[self.free@[k] as int].data is None
            }
        &&& forall|k: int, l: int|
            0 <= k < self.free@.len() && 0 <= l < self.free@.len() && k != l
                ==> self.free@[k] != self.free@[l]
    }

    /// The payload held in slot `p`.
    spec fn value_of(&self, p: usize) -> T {
        self.nodes@[p as int].data->Some_0
    }

    /// The elements, front to back.
    pub closed spec fn view(&self) -> Seq<T> {
        self.order@.map_values(|p: usize| self.value_of(p))
    }

    /// An empty list.
    pub fn new() -> (l: Self)
        ensures
            l.wf(),
            l@ == Seq::<T>::empty(),
    {
        ListInternal {
            nodes: Vec::new(),
            free: Vec::new(),
            first: None,
            last: None,
            order: Ghost(Seq::empty()),
        }
    }

    /// Puts `data` into a slot that no element occupies, without linking it.
    fn claim_slot(&mut self, data: T) -> (p: usize)
        requires
            old(self).wf(),
        ensures
            final(self).wf(),
            final(self).order@ == old(self).order@,
            final(self).first == old(self).first,
            final(self).last == old(self).last,
            !old(self).order@.contains(p),
            p < final(self).nodes@.len(),
            final(self).nodes@.len() >= old(self).nodes@.len(),
            final(self).nodes@[p as int].data == Some(data),
            final(self).nodes@[p as int].next is None,
            final(self).nodes@[p as int].prev is None,
            forall|q: usize| q != p && q < old(self).nodes@.len() ==> final(self).nodes@[q as int] == old(self).nodes@[q as int],
    {
        let node = Node::new(data);
        let ghost pre = *self;
        match self.free.pop() {
            Some(p) => {
                proof {
                    let k = pre.free@.len() - 1;
                    assert(pre.free@[k] == p);
                    assert forall|i: int| 0 <= i < pre.order@.len() implies pre.order@[i] != p by {
                        assert(pre.linked_at(i));
                    }
                    assert forall|l: int| 0 <= l < self.free@.len() implies self.free@[l] != p by {
                        assert(self.free@[l] == pre.free@[l]);
                    }
                }
                self.nodes[p] = node;
                proof {
                    assert forall|i: int| 0 <= i < self.order@.len() implies #[trigger] self.linked_at(i) by {
                        assert(pre.linked_at(i));
                    }
                    assert forall|l: int| 0 <= l < self.free@.len() implies #[trigger] self.free@[l] < self.nodes@.len()
                        && self.nodes@[self.free@[l] as int].data is None by {
                        assert(self.free@[l] == pre.free@[l]);
                    }
                }
                p
            },
            None => {
                let p = self.nodes.len();
                proof {
                    assert forall|i: int| 0 <= i < pre.order@.len() implies pre.order@[i] != p by {
                        assert(pre.linked_at(i));
                    }
                }
                self.nodes.push(node);
                proof {
                    assert forall|i: int| 0 <= i < self.order@.len() implies #[trigger] self.linked_at(i) by {
                        assert(pre.linked_at(i));
                    }
                }
                p
            },
        }
    }

    /// Links a new node holding `data` right after the node in slot `at`,
    /// which stands at position `i` of the chain.
    fn insert_after(&mut self, at: usize, Ghost(i): Ghost<int>, data: T) -> (p: usize)
        requires
            old(self).wf(),
            0 <= i < old(self).order@.len(),
            old(self).order@[i] == at,
        ensures
            final(self).wf(),
            final(self).order@ == old(self).order@.insert(i + 1, p),
            final(self)@ == old(self)@.insert(i + 1, data),
    {
        let ghost pre = *self;
        proof {
            assert(pre.linked_at(i));
        }
        let p = self.claim_slot(data);
        let ghost mid = *self;
        proof {
            assert(mid.linked_at(i));
        }
        let nxt = self.nodes[at].next;
        match nxt {
            Some(n) => {
                proof {
                    assert(mid.linked_at(i + 1));
                }
                self.nodes[n].prev = Some(p);
                self.nodes[p].next = Some(n);
            },
            None => {
                self.last = Some(p);
            },
        }
        self.nodes[at].next = Some(p);
        self.nodes[p].prev = Some(at);
        self.order = Ghost(pre.order@.insert(i + 1, p));
        proof {
            let len = self.order@.len();
            assert forall|j: int| 0 <= j < len implies #[trigger] self.linked_at(j) by {
                if j < i {
                    assert(mid.linked_at(j));
                } else if j == i {
                } else if j == i + 1 {
                } else if j == i + 2 {
                    assert(mid.linked_at(j - 1));
                } else {
                    assert(mid.linked_at(j - 1));
                }
            }
            assert forall|a: int, b: int|
                0 <= a < len && 0 <= b < len && a != b implies self.order@[a] != self.order@[b] by {
                if a != i + 1 && b != i + 1 {
                    let a0 = if a < i + 1 { a } else { a - 1 };
                    let b0 = if b < i + 1 { b } else { b - 1 };
                    assert(pre.order@[a0] != pre.order@[b0]);
                } else if a == i + 1 {
                    let b0 = if b < i + 1 { b } else { b - 1 };
                    assert(pre.order@.contains(pre.order@[b0]));
                } else {
                    let a0 = if a < i + 1 { a } else { a - 1 };
                    assert(pre.order@.contains(pre.order@[a0]));
                }
            }
            assert forall|k: int| 0 <= k < self.free@.len() implies #[trigger] self.free@[k] < self.nodes@.len()
                && self.nodes@[self.free@[k] as int].data is None by {
                assert(mid.free@[k] < mid.nodes@.len());
            }
            assert forall|j: int| 0 <= j < len implies #[trigger] self@[j] == pre@.insert(i + 1, data)[j] by {
                if j != i + 1 {
                    let j0 = if j < i + 1 { j } else { j - 1 };
                    assert(pre.linked_at(j0));
                    let q = pre.order@[j0];
                    assert(self.order@[j] == q);
                    assert(q != p);
                    assert(mid.nodes@[q as int] == pre.nodes@[q as int]);
                    assert(self.nodes@[q as int].data == pre.nodes@[q as int].data);
                    assert(self@[j] == self.value_of(q));
                    assert(pre@[j0] == pre.value_of(q));
                } else {
                    assert(self.nodes@[p as int].data == Some(data));
                }
            }
            assert(self@ =~= pre@.insert(i + 1, data));
        }
        p
    }

    /// Links a new node holding `data` right before the node in slot `at`,
    /// which stands at position `i` of the chain.
    fn insert_before(&mut self, at: usize, Ghost(i): Ghost<int>, data: T) -> (p: usize)
        requires
            old(self).wf(),
            0 <= i < old(self).order@.len(),
            old(self).order@[i] == at,
        ensures
            final(self).wf(),
            final(self).order@ == old(self).order@.insert(i, p),
            final(self)@ == old(self)@.insert(i, data),
    {
        let ghost pre = *self;
        proof {
            assert(pre.linked_at(i));
        }
        let p = self.claim_slot(data);
        let ghost mid = *self;
        proof {
            assert(mid.linked_at(i));
        }
        let prv = self.nodes[at].prev;
        match prv {
            Some(q) => {
                proof {
                    assert(mid.linked_at(i - 1));
                }
                self.nodes[q].next = Some(p);
                self.nodes[p].prev = Some(q);
            },
            None => {
                self.first = Some(p);
            },
        }
        self.nodes[at].prev = Some(p);
        self.nodes[p].next = Some(at);
        self.order = Ghost(pre.order@.insert(i, p));
        proof {
            let len = self.order@.len();
            assert forall|j: int| 0 <= j < len implies #[trigger] self.linked_at(j) by {
                if j < i - 1 {
                    assert(mid.linked_at(j));
                } else if j == i - 1 {
                    assert(mid.linked_at(j));
                } else if j == i {
                } else {
                    assert(mid.linked_at(j - 1));
                }
            }
            assert forall|a: int, b: int|
                0 <= a < len && 0 <= b < len && a != b implies self.order@[a] != self.order@[b] by {
                if a != i && b != i {
                    let a0 = if a < i { a } else { a - 1 };
                    let b0 = if b < i { b } else { b - 1 };
                    assert(pre.order@[a0] != pre.order@[b0]);
                } else if a == i {
                    let b0 = if b < i { b } else { b - 1 };
                    assert(pre.order@.contains(pre.order@[b0]));
                } else {
                    let a0 = if a < i { a } else { a - 1 };
                    assert(pre.order@.contains(pre.order@[a0]));
                }
            }
            assert forall|k: int| 0 <= k < self.free@.len() implies #[trigger] self.free@[k] < self.nodes@.len()
                && self.nodes@[self.free@[k] as int].data is None by {
                assert(mid.free@[k] < mid.nodes@.len());
            }
            assert forall|j: int| 0 <= j < len implies #[trigger] self@[j] == pre@.insert(i, data)[j] by {
                if j != i {
                    let j0 = if j < i { j } else { j - 1 };
                    assert(pre.linked_at(j0));
                    let q = pre.order@[j0];
                    assert(self.order@[j] == q);
                    assert(mid.nodes@[q as int] == pre.nodes@[q as int]);
                    assert(self@[j] == self.value_of(q));
                    assert(pre@[j0] == pre.value_of(q));
                } else {
                    assert(self.nodes@[p as int].data == Some(data));
                }
            }
            assert(self@ =~= pre@.insert(i, data));
        }
        p
    }

    /// Makes `data` the only element of an empty list.
    fn init(&mut self, data: T)
        requires
            old(self).wf(),
            old(self)@.len() == 0,
        ensures
            final(self).wf(),
            final(self)@ == seq![data],
    {
        let p = self.claim_slot(data);
        self.first = Some(p);
        self.last = Some(p);
        self.order = Ghost(Seq::empty().push(p));
        proof {
            assert(self.linked_at(0));
            assert(self@ =~= seq![data]);
        }
    }

    /// Appends `data` at the back.
    pub fn push_back(&mut self, data: T)
        requires
            old(self).wf(),
        ensures
            final(self).wf(),
            final(self)@ == old(self)@.push(data),
    {
        match self.last {
            Some(last) => {
                let ghost i = self.order@.len() - 1;
                self.insert_after(last, Ghost(i), data);
                proof {
                    assert(old(self)@.insert(i + 1, data) =~= old(self)@.push(data));
                }
            },
            None => {
                self.init(data);
                proof {
                    assert(old(self)@.push(data) =~= seq![data]);
                }
            },
        }
    }

    /// Prepends `data` at the front.
    pub fn push_front(&mut self, data: T)
        requires
            old(self).wf(),
        ensures
            final(self).wf(),
            final(self)@ == seq![data] + old(self)@,
    {
        match self.first {
            Some(first) => {
                self.insert_before(first, Ghost(0), data);
                proof {
                    assert(old(self)@.insert(0, data) =~= seq![data] + old(self)@);
                }
            },
            None => {
                self.init(data);
                proof {
                    assert(seq![data] + old(self)@ =~= seq![data]);
                }
            },
        }
    }

    /// Removes the back element and hands its payload out; `None` when empty.
    pub fn pop_back(&mut self) -> (r: Option<T>)
        requires
            old(self).wf(),
        ensures
            final(self).wf(),
            old(self)@.len() == 0 ==> r is None && final(self)@ == old(self)@,
            old(self)@.len() > 0 ==> r == Some(old(self)@.last()) && final(self)@ == old(self)@.drop_last(),
    {
        match self.last {
            None => None,
            Some(l) => {
                let ghost pre = *self;
                let ghost n = pre.order@.len() - 1;
                proof {
                    assert(pre.linked_at(n));
                }
                let prv = self.nodes[l].prev;
                match prv {
                    Some(q) => {
                        proof {
                            assert(pre.linked_at(n - 1));
                        }
                        self.nodes[q].next = None;
                        self.last = Some(q);
                    },
                    None => {
                        self.first = None;
                        self.last = None;
                    },
                }
                self.nodes[l].prev = None;
                let data = self.nodes[l].data.take();
                self.order = Ghost(pre.order@.drop_last());
                proof {
                    assert forall|k: int| 0 <= k < pre.free@.len() implies pre.free@[k] != l by {
                        assert(pre.free@[k] < pre.nodes@.len());
                    }
                }
                self.free.push(l);
                proof {
                    let flen = self.free@.len();
                    assert forall|k: int| 0 <= k < flen implies #[trigger] self.free@[k] < self.nodes@.len()
                        && self.nodes@[self.free@[k] as int].data is None by {
                        if k < flen - 1 {
                            assert(self.free@[k] == pre.free@[k]);
                            assert(pre.free@[k] < pre.nodes@.len());
                        }
                    }
                    assert forall|a: int, b: int| 0 <= a < flen && 0 <= b < flen && a != b
                        implies self.free@[a] != self.free@[b] by {
                        if a < flen - 1 && b < flen - 1 {
                            assert(pre.free@[a] != pre.free@[b]);
                        }
                    }
                    assert forall|j: int| 0 <= j < self.order@.len() implies #[trigger] self.linked_at(j) by {
                        assert(pre.linked_at(j));
                    }
                    assert forall|j: int| 0 <= j < self.order@.len() implies #[trigger] self@[j] == pre@[j] by {
                        assert(pre.linked_at(j));
                        assert(pre.order@[j] != pre.order@[n]);
                        assert(self@[j] == self.value_of(pre.order@[j]));
                    }
                    assert(self@ =~= pre@.drop_last());
                }
                data
            },
        }
    }

    /// Removes the front element and hands its payload out; `None` when empty.
    pub fn pop_front(&mut self) -> (r: Option<T>)
        requires
            old(self).wf(),
        ensures
            final(self).wf(),
            old(self)@.len() == 0 ==> r is None && final(self)@ == old(self)@,
            old(self)@.len() > 0 ==> r == Some(old(self)@[0]) && final(self)@ == old(self)@.drop_first(),
    {
        match self.first {
            None => None,
            Some(f) => {
                let ghost pre = *self;
                let ghost len = pre.order@.len();
                proof {
                    assert(pre.linked_at(0));
                }
                let nxt = self.nodes[f].next;
                match nxt {
                    Some(q) => {
                        proof {
                            assert(pre.linked_at(1));
                        }
                        self.nodes[q].prev = None;
                        self.first = Some(q);
                    },
                    None => {
                        self.first = None;
                        self.last = None;
                    },
                }
                self.nodes[f].next = None;
                let data = self.nodes[f].data.take();
                self.order = Ghost(pre.order@.drop_first());
                proof {
                    assert forall|k: int| 0 <= k < pre.free@.len() implies pre.free@[k] != f by {
                        assert(pre.free@[k] < pre.nodes@.len());
                    }
                }
                self.free.push(f);
                proof {
                    let flen = self.free@.len();
                    assert forall|k: int| 0 <= k < flen implies #[trigger] self.free@[k] < self.nodes@.len()
                        && self.nodes@[self.free@[k] as int].data is None by {
                        if k < flen - 1 {
                            assert(self.free@[k] == pre.free@[k]);
                            assert(pre.free@[k] < pre.nodes@.len());
                        }
                    }
                    assert forall|a: int, b: int| 0 <= a < flen && 0 <= b < flen && a != b
                        implies self.free@[a] != self.free@[b] by {
                        if a < flen - 1 && b < flen - 1 {
                            assert(pre.free@[a] != pre.free@[b]);
                        }
                    }
                    assert forall|j: int| 0 <= j < self.order@.len() implies #[trigger] self.linked_at(j) by {
                        assert(pre.linked_at(j + 1));
                    }
                    assert forall|j: int| 0 <= j < self.order@.len() implies #[trigger] self@[j] == pre@[j + 1] by {
                        assert(pre.linked_at(j + 1));
                        assert(pre.order@[j + 1] != pre.order@[0]);
                        assert(self@[j] == self.value_of(pre.order@[j + 1]));
                    }
                    assert(self@ =~= pre@.drop_first());
                }
                data
            },
        }
    }

    /// The slot at position `i` of the chain, found by walking `next` links
    /// from the front.
    fn slot_at(&self, i: usize) -> (p: usize)
        requires
            self.wf(),
            i < self@.len(),
        ensures
            p == self.order@[i as int],
            p < self.nodes@.len(),
    {
        proof {
            assert(self.linked_at(0));
        }
        let mut p = match self.first {
            Some(f) => f,
            None => 0,
        };
        let mut k: usize = 0;
        while k < i
            invariant
                self.wf(),
                i < self.order@.len(),
                k <= i,
                p == self.order@[k as int],
            decreases i - k,
        {
            proof {
                assert(self.linked_at(k as int));
            }
            p = match self.nodes[p].next {
                Some(n) => n,
                None => p,
            };
            k = k + 1;
        }
        proof {
            assert(self.linked_at(i as int));
        }
        p
    }

    /// Puts `value` in place of the element at position `i` and hands out the
    /// element it replaces.
    pub fn replace(&mut self, i: usize, value: T) -> (r: T)
        requires
            old(self).wf(),
            i < old(self)@.len(),
        ensures
            final(self).wf(),
            r == old(self)@[i as int],
            final(self)@ == old(self)@.update(i as int, value),
    {
        let ghost pre = *self;
        let p = self.slot_at(i);
        let mut prior = Some(value);
        std::mem::swap(&mut self.nodes[p].data, &mut prior);
        proof {
            assert forall|j: int| 0 <= j < self.order@.len() implies #[trigger] self.linked_at(j) by {
                assert(pre.linked_at(j));
            }
            assert forall|k: int| 0 <= k < self.free@.len() implies #[trigger] self.free@[k] < self.nodes@.len()
                && self.nodes@[self.free@[k] as int].data is None by {
                assert(pre.free@[k] < pre.nodes@.len());
                assert(pre.linked_at(i as int));
                assert(pre.free@[k] != p);
            }
            assert forall|j: int| 0 <= j < self.order@.len() implies #[trigger] self@[j] == pre@.update(i as int, value)[j] by {
                assert(pre.linked_at(j));
                if j != i {
                    assert(pre.order@[j] != pre.order@[i as int]);
                }
                assert(self@[j] == self.value_of(pre.order@[j]));
            }
            assert(self@ =~= pre@.update(i as int, value));
            assert(pre.linked_at(i as int));
        }
        prior.unwrap()
    }

    /// The number of elements, counted by walking the chain.
    pub fn len(&self) -> (n: usize)
        requires
            self.wf(),
        ensures
            n == self@.len(),
    {
        let mut it = self.iter();
        let mut n: usize = 0;
        proof {
            self.lemma_len_fits();
            assert(self.nodes@.len() == self.nodes.len());
        }
        while it.cur.is_some()
            invariant
                it.wf(),
                it.list() == *self,
                n == it.pos(),
                n <= self.order@.len() <= usize::MAX,
            decreases self.order@.len() - n,
        {
            it.next();
            n = n + 1;
        }
        n
    }

    /// The chain is no longer than the arena, so its length fits in a `usize`.
    proof fn lemma_len_fits(&self)
        requires
            self.wf(),
        ensures
            self.order@.len() <= self.nodes@.len(),
    {
        let n = self.nodes.len();
        let slots = <usize as FiniteRange>::range_set(0, n);
        let used = self.order@.to_set();
        range_set_properties::<usize>(0, n);
        assert(self.order@.no_duplicates());
        self.order@.unique_seq_to_set();
        assert forall|q: usize| used.contains(q) implies slots.contains(q) by {
            let j = choose|j: int| 0 <= j < self.order@.len() && self.order@[j] == q;
            assert(self.linked_at(j));
            assert(0 <= q < n);
        }
        lemma_len_subset(used, slots);
    }

    /// Makes the call `op`.
    pub fn apply(&mut self, op: Op<T>) -> (r: Option<T>)
        requires
            old(self).wf(),
        ensures
            final(self).wf(),
            (final(self)@, r) == step(old(self)@, op),
    {
        match op {
            Op::PushBack(x) => {
                self.push_back(x);
                None
            },
            Op::PushFront(x) => {
                self.push_front(x);
                None
            },
            Op::PopBack => self.pop_back(),
            Op::PopFront => self.pop_front(),
        }
    }

    /// Makes the calls `ops` in order and hands out what the pops among them
    /// returned, in order.
    pub fn apply_all(&mut self, ops: Vec<Op<T>>) -> (r: Vec<Option<T>>)
        requires
            old(self).wf(),
        ensures
            final(self).wf(),
            final(self)@ == run(old(self)@, ops@),
            r@ == popped(old(self)@, ops@),
    {
        let ghost start = self@;
        let ghost all = ops@;
        let mut out: Vec<Option<T>> = Vec::new();
        for op in it: ops.into_iter()
            invariant
                it.seq() == all,
                self.wf(),
                self@ == run(start, all.take(it.index())),
                out@ == popped(start, all.take(it.index())),
        {
            let ghost done = all.take(it.index());
            let ghost now = all.take(it.index() + 1);
            proof {
                assert(now.drop_last() =~= done);
                assert(now.last() == op);
            }
            let pop = match &op {
                Op::PopBack | Op::PopFront => true,
                _ => false,
            };
            let r = self.apply(op);
            if pop {
                out.push(r);
            }
        }
        proof {
            assert(all.take(all.len() as int) =~= all);
        }
        out
    }

    /// A cursor over the elements, front to back.
    pub fn iter(&self) -> (it: ListIter<'_, T>)
        requires
            self.wf(),
        ensures
            it.wf(),
            it.list() == *self,
            it.pos() == 0,
    {
        ListIter { list: self, cur: self.first, pos: Ghost(0) }
    }

    /// The payload held at position `i` of the chain, reached through its slot.
    fn payload(&self, p: usize, Ghost(i): Ghost<int>) -> (r: &T)
        requires
            self.wf(),
            0 <= i < self@.len(),
            p == self.order@[i],
        ensures
            *r == self@[i],
    {
        proof {
            assert(self.linked_at(i));
        }
        self.nodes[p].data.as_ref().unwrap()
    }
}

impl<T> Default for ListInternal<T> {
    fn default() -> (l: Self)
        ensures
            l.wf(),
            l@ == Seq::<T>::empty(),
    {
        ListInternal::new()
    }
}

/// A cursor that walks the chain from the front, one node per step.
pub struct ListIter<'a, T> {
    list: &'a ListInternal<T>,
    cur: Option<usize>,
    pos: Ghost<int>,
}

impl<'a, T> ListIter<'a, T> {
    /// The list walked over.
    pub closed spec fn list(&self) -> ListInternal<T> {
        *self.list
    }

    /// How many elements the cursor has handed out so far.
    pub closed spec fn pos(&self) -> int {
        self.pos@
    }

    pub closed spec fn wf(&self) -> bool {
        &&& self.list.wf()
        &&& 0 <= self.pos@ <= self.list.order@.len()
        &&& self.cur == if self.pos@ < self.list.order@.len() {
            Some(self.list.order@[self.pos@])
        } else {
            None
        }
    }

    /// Hands out the next element, or `None` once the chain has ended.
    pub fn next(&mut self) -> (r: Option<&'a T>)
        requires
            old(self).wf(),
        ensures
            final(self).wf(),
            final(self).list() == old(self).list(),
            old(self).pos() < old(self).list()@.len() ==> {
                &&& r is Some
                &&& *r->Some_0 == old(self).list()@[old(self).pos()]
                &&& final(self).pos() == old(self).pos() + 1
            },
            old(self).pos() >= old(self).list()@.len() ==> r is None && final(self).pos() == old(self).pos(),
    {
        match self.cur {
            None => None,
            Some(p) => {
                let ghost i = self.pos@;
                proof {
                    assert(self.list.linked_at(i));
                }
                let item = self.list.payload(p, Ghost(i));
                self.cur = self.list.nodes[p].next;
                self.pos = Ghost(i + 1);
                Some(item)
            },
        }
    }
}

} // verus!
