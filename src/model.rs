use vstd::prelude::*;

verus! {

/// One call on a deque, for stating what a whole run of calls does.
pub enum Op<T> {
    PushBack(T),
    PushFront(T),
    PopBack,
    PopFront,
}

/// The contents after one call on contents `s`, and what the call hands out,
/// exactly as the contracts of `push_back`, `push_front`, `pop_back` and
/// `pop_front` of `ListInternal` state them.
pub open spec fn step<T>(s: Seq<T>, op: Op<T>) -> (Seq<T>, Option<T>) {
    match op {
        Op::PushBack(x) => (s.push(x), None),
        Op::PushFront(x) => (seq![x] + s, None),
        Op::PopBack => if s.len() == 0 {
            (s, None)
        } else {
            (s.drop_last(), Some(s.last()))
        },
        Op::PopFront => if s.len() == 0 {
            (s, None)
        } else {
            (s.drop_first(), Some(s[0]))
        },
    }
}

pub open spec fn is_pop<T>(op: Op<T>) -> bool {
    op is PopBack || op is PopFront
}

/// The contents after the calls `ops`, in order, on contents `s`.
pub open spec fn run<T>(s: Seq<T>, ops: Seq<Op<T>>) -> Seq<T>
    decreases ops.len(),
{
    if ops.len() == 0 {
        s
    } else {
        step(run(s, ops.drop_last()), ops.last()).0
    }
}

/// What the pops among `ops` hand out, in the order they are made.
pub open spec fn popped<T>(s: Seq<T>, ops: Seq<Op<T>>) -> Seq<Option<T>>
    decreases ops.len(),
{
    if ops.len() == 0 {
        Seq::empty()
    } else if is_pop(ops.last()) {
        popped(s, ops.drop_last()).push(step(run(s, ops.drop_last()), ops.last()).1)
    } else {
        popped(s, ops.drop_last())
    }
}

/// Pushes of `xs` at the back, in order.
pub open spec fn pushes_back<T>(xs: Seq<T>) -> Seq<Op<T>> {
    xs.map_values(|x: T| Op::PushBack(x))
}

/// `n` pops at the front.
pub open spec fn pops_front<T>(n: nat) -> Seq<Op<T>> {
    Seq::new(n, |i: int| Op::PopFront)
}

/// `n` pops at the back.
pub open spec fn pops_back<T>(n: nat) -> Seq<Op<T>> {
    Seq::new(n, |i: int| Op::PopBack)
}

/// Running `a` and then `b` is running `a + b`.
pub proof fn lemma_run_append<T>(s: Seq<T>, a: Seq<Op<T>>, b: Seq<Op<T>>)
    ensures
        run(s, a + b) == run(run(s, a), b),
        popped(s, a + b) == popped(s, a) + popped(run(s, a), b),
    decreases b.len(),
{
    if b.len() == 0 {
        assert(a + b =~= a);
        assert(popped(s, a) + popped(run(s, a), b) =~= popped(s, a));
    } else {
        assert((a + b).drop_last() =~= a + b.drop_last());
        lemma_run_append(s, a, b.drop_last());
        if is_pop(b.last()) {
            assert(popped(s, a + b) =~= popped(s, a) + popped(run(s, a), b));
        }
    }
}

/// Pushing `xs` at the back of `s` appends them in order and hands out nothing.
pub proof fn lemma_pushes_back<T>(s: Seq<T>, xs: Seq<T>)
    ensures
        run(s, pushes_back(xs)) == s + xs,
        popped(s, pushes_back(xs)) == Seq::<Option<T>>::empty(),
    decreases xs.len(),
{
    if xs.len() == 0 {
        assert(s + xs =~= s);
    } else {
        assert(pushes_back(xs).drop_last() =~= pushes_back(xs.drop_last()));
        lemma_pushes_back(s, xs.drop_last());
        assert(s + xs =~= (s + xs.drop_last()).push(xs.last()));
    }
}

/// `n` pops at the front of `s` hand out its first `n` elements, in order.
pub proof fn lemma_pops_front<T>(s: Seq<T>, n: nat)
    requires
        n <= s.len(),
    ensures
        run(s, pops_front(n)) == s.skip(n as int),
        popped(s, pops_front(n)) == s.take(n as int).map_values(|x: T| Some(x)),
    decreases n,
{
    if n == 0 {
        assert(s.skip(0) =~= s);
        assert(s.take(0).map_values(|x: T| Some(x)) =~= Seq::<Option<T>>::empty());
    } else {
        let k = (n - 1) as nat;
        assert(pops_front::<T>(n).drop_last() =~= pops_front::<T>(k));
        lemma_pops_front(s, k);
        assert(s.skip(k as int).drop_first() =~= s.skip(n as int));
        assert(s.take(n as int).map_values(|x: T| Some(x))
            =~= s.take(k as int).map_values(|x: T| Some(x)).push(Some(s[k as int])));
    }
}

/// `n` pops at the back of `s` hand out its last `n` elements, last first.
pub proof fn lemma_pops_back<T>(s: Seq<T>, n: nat)
    requires
        n <= s.len(),
    ensures
        run(s, pops_back(n)) == s.take(s.len() - n),
        popped(s, pops_back(n)) == s.skip(s.len() - n).reverse().map_values(|x: T| Some(x)),
    decreases n,
{
    if n == 0 {
        assert(s.take(s.len() as int) =~= s);
        assert(s.skip(s.len() as int).reverse().map_values(|x: T| Some(x)) =~= Seq::<Option<T>>::empty());
    } else {
        let k = (n - 1) as nat;
        assert(pops_back::<T>(n).drop_last() =~= pops_back::<T>(k));
        lemma_pops_back(s, k);
        let m = s.len() - n;
        assert(s.take(s.len() - k).drop_last() =~= s.take(m));
        assert(s.skip(m).reverse().map_values(|x: T| Some(x))
            =~= s.skip(s.len() - k).reverse().map_values(|x: T| Some(x)).push(Some(s[m])));
    }
}

/// First in, first out: elements pushed at the back of an empty deque come
/// out at the front in the order they went in, and the deque is empty again.
pub proof fn lemma_fifo<T>(xs: Seq<T>)
    ensures
        popped(Seq::empty(), pushes_back(xs) + pops_front(xs.len())) == xs.map_values(|x: T| Some(x)),
        run(Seq::empty(), pushes_back(xs) + pops_front(xs.len())) == Seq::<T>::empty(),
{
    let e = Seq::<T>::empty();
    lemma_run_append(e, pushes_back(xs), pops_front(xs.len()));
    lemma_pushes_back(e, xs);
    assert(e + xs =~= xs);
    lemma_pops_front(xs, xs.len());
    assert(xs.take(xs.len() as int) =~= xs);
    assert(xs.skip(xs.len() as int) =~= e);
    assert(Seq::<Option<T>>::empty() + xs.map_values(|x: T| Some(x)) =~= xs.map_values(|x: T| Some(x)));
}

/// Last in, first out: elements pushed at the back of an empty deque come
/// out at the back in reverse order, and the deque is empty again.
pub proof fn lemma_lifo<T>(xs: Seq<T>)
    ensures
        popped(Seq::empty(), pushes_back(xs) + pops_back(xs.len())) == xs.reverse().map_values(|x: T| Some(x)),
        run(Seq::empty(), pushes_back(xs) + pops_back(xs.len())) == Seq::<T>::empty(),
{
    let e = Seq::<T>::empty();
    lemma_run_append(e, pushes_back(xs), pops_back(xs.len()));
    lemma_pushes_back(e, xs);
    assert(e + xs =~= xs);
    lemma_pops_back(xs, xs.len());
    assert(xs.skip(0) =~= xs);
    assert(xs.take(0) =~= e);
    assert(Seq::<Option<T>>::empty() + xs.reverse().map_values(|x: T| Some(x)) =~= xs.reverse().map_values(|x: T| Some(x)));
}

/// How many pushes `ops` makes.
pub open spec fn count_pushes<T>(ops: Seq<Op<T>>) -> nat
    decreases ops.len(),
{
    if ops.len() == 0 {
        0
    } else {
        count_pushes(ops.drop_last()) + if is_pop(ops.last()) {
            0nat
        } else {
            1nat
        }
    }
}

/// Round trip of sizes: when every pop among `ops` hands out an element,
/// the deque ends with as many elements as it started with, plus the pushes,
/// minus the pops.
pub proof fn lemma_round_trip_size<T>(s: Seq<T>, ops: Seq<Op<T>>)
    requires
        forall|i: int| 0 <= i < popped(s, ops).len() ==> (#[trigger] popped(s, ops)[i]) is Some,
    ensures
        run(s, ops).len() + popped(s, ops).len() == s.len() + count_pushes(ops),
    decreases ops.len(),
{
    if ops.len() > 0 {
        let front = ops.drop_last();
        assert forall|i: int| 0 <= i < popped(s, front).len() implies (#[trigger] popped(s, front)[i]) is Some by {
            assert(popped(s, ops)[i] == popped(s, front)[i]);
        }
        lemma_round_trip_size(s, front);
        if is_pop(ops.last()) {
            let k = popped(s, front).len() as int;
            assert(popped(s, ops)[k] is Some);
        }
    }
}

} // verus!
