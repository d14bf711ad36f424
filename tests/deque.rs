use deque::internal::ListInternal;
use deque::list::List;
use deque::model::Op;

#[test]
fn push_pop() {
    let mut list = ListInternal::default();

    list.push_back(2);
    list.push_front(1);
    list.push_back(3);

    assert_eq!(list.pop_front(), Some(1));
    assert_eq!(list.pop_back(), Some(3));
    assert_eq!(list.pop_front(), Some(2));
    assert_eq!(list.pop_back(), None);

    list.push_front(2);
    list.push_back(3);
    list.push_front(1);

    assert_eq!(list.pop_back(), Some(3));
    assert_eq!(list.pop_front(), Some(1));
    assert_eq!(list.pop_back(), Some(2));
    assert_eq!(list.pop_front(), None);
}

#[test]
fn iterator() {
    let list = List::default();

    list.push_back(0);
    list.push_back(1);
    list.push_back(2);

    let guard = list.iter();
    let mut it = guard.into_iter();
    let mut index: usize = 0;
    while let Some(val) = it.next() {
        assert_eq!(index, *val);
        index += 1;
    }
    assert_eq!(index, 3);
    guard.release();
}

#[test]
fn back_pushes_leave_from_the_front_in_order() {
    let mut list = ListInternal::new();
    list.push_back(1);
    list.push_back(2);
    list.push_back(3);
    assert_eq!(list.pop_front(), Some(1));
    assert_eq!(list.pop_front(), Some(2));
    assert_eq!(list.pop_front(), Some(3));
    assert_eq!(list.pop_front(), None);
}

#[test]
fn mixed_pushes_leave_from_the_back() {
    let mut list = ListInternal::new();
    list.push_front(1);
    list.push_back(2);
    list.push_front(0);
    assert_eq!(list.pop_back(), Some(2));
    assert_eq!(list.pop_back(), Some(1));
    assert_eq!(list.pop_back(), Some(0));
    assert_eq!(list.pop_back(), None);
}

#[test]
fn back_pushes_leave_from_the_back_reversed() {
    let mut list = ListInternal::new();
    let out = list.apply_all(vec![
        Op::PushBack(1),
        Op::PushBack(2),
        Op::PushBack(3),
        Op::PopBack,
        Op::PopBack,
        Op::PopBack,
    ]);
    assert_eq!(out, vec![Some(3), Some(2), Some(1)]);
    assert_eq!(list.len(), 0);
}

#[test]
fn apply_reports_each_outcome() {
    let mut list = ListInternal::new();
    assert_eq!(list.apply(Op::PopFront), None);
    assert_eq!(list.apply(Op::PushFront(7)), None);
    assert_eq!(list.apply(Op::PushBack(8)), None);
    assert_eq!(list.apply(Op::PopFront), Some(7));
    assert_eq!(list.apply(Op::PopBack), Some(8));
    assert_eq!(list.apply(Op::PopBack), None);
}

#[test]
fn new_list_pops_nothing() {
    let mut inner: ListInternal<u8> = ListInternal::new();
    assert_eq!(inner.pop_front(), None);
    assert_eq!(inner.pop_back(), None);
    assert_eq!(inner.len(), 0);

    let shared: List<u8> = List::new();
    assert_eq!(shared.pop_front(), None);
    assert_eq!(shared.pop_back(), None);
}

#[test]
fn size_after_pushes_and_pops() {
    let mut list = ListInternal::new();
    for i in 0..10u32 {
        if i % 2 == 0 {
            list.push_back(i);
        } else {
            list.push_front(i);
        }
    }
    for _ in 0..4 {
        assert!(list.pop_front().is_some());
    }
    assert!(list.pop_back().is_some());
    assert_eq!(list.len(), 5);
    let mut it = list.iter();
    let mut seen = 0;
    while it.next().is_some() {
        seen += 1;
    }
    assert_eq!(seen, 5);
}

#[test]
fn freed_slots_are_reused_in_order() {
    let mut list = ListInternal::new();
    for round in 0..3u32 {
        list.push_back(round * 10);
        list.push_back(round * 10 + 1);
        list.push_front(round * 10 + 2);
        assert_eq!(list.pop_back(), Some(round * 10 + 1));
        assert_eq!(list.pop_front(), Some(round * 10 + 2));
        assert_eq!(list.pop_front(), Some(round * 10));
        assert_eq!(list.len(), 0);
    }
    list.push_back(5);
    list.push_back(6);
    assert_eq!(list.pop_front(), Some(5));
    assert_eq!(list.pop_front(), Some(6));
}

#[test]
fn replace_swaps_one_element() {
    let mut list = ListInternal::new();
    list.push_back('a');
    list.push_back('b');
    list.push_back('c');
    assert_eq!(list.replace(1, 'x'), 'b');
    assert_eq!(list.pop_front(), Some('a'));
    assert_eq!(list.pop_front(), Some('x'));
    assert_eq!(list.pop_front(), Some('c'));
}

#[test]
fn guard_sees_a_consistent_snapshot() {
    let list = List::new();
    list.push_back(String::from("x"));
    list.push_front(String::from("w"));
    let mut guard = list.iter();
    assert_eq!(guard.len(), 2);
    assert_eq!(guard.replace(1, String::from("y")), "x");
    guard.release();
    assert_eq!(list.pop_back(), Some(String::from("y")));
    assert_eq!(list.pop_back(), Some(String::from("w")));
    assert_eq!(list.pop_back(), None);
}

#[test]
fn increments_through_cursors_are_not_lost() {
    let list = List::new();
    for _ in 0..3 {
        list.push_back(0u32);
    }
    let mut appended = 0u32;
    for t in 0..3usize {
        // each incrementer locks, walks its own cursor to element `t`,
        // and writes back one more; the appender runs in between
        let mut guard = list.iter();
        let mut it = guard.into_iter();
        let mut current = 0;
        for _ in 0..=t {
            current = *it.next().unwrap();
        }
        assert_eq!(guard.replace(t, current + 1), current);
        guard.release();
        for _ in 0..3 {
            if appended < 10 {
                list.push_back(100 + appended);
                appended += 1;
            }
        }
    }
    while appended < 10 {
        list.push_back(100 + appended);
        appended += 1;
    }
    let guard = list.iter();
    let mut it = guard.into_iter();
    let mut all = Vec::new();
    while let Some(v) = it.next() {
        all.push(*v);
    }
    guard.release();
    assert_eq!(all.len(), 13);
    assert_eq!(&all[..3], &[1, 1, 1]);
    let expected: Vec<u32> = (0..10).map(|i| 100 + i).collect();
    assert_eq!(&all[3..], &expected[..]);
}

#[test]
fn traversal_and_push_never_tear_or_repeat() {
    // the push lands either before the cursor's lock is taken or after it
    // is released: the traversal sees one whole state or the other
    let before = List::new();
    for v in 0..3u32 {
        before.push_back(v);
    }
    before.push_back(3);
    let guard = before.iter();
    let mut it = guard.into_iter();
    let mut seen = Vec::new();
    while let Some(v) = it.next() {
        seen.push(*v);
    }
    guard.release();
    assert_eq!(seen, vec![0, 1, 2, 3]);

    let after = List::new();
    for v in 0..3u32 {
        after.push_back(v);
    }
    let guard = after.iter();
    let mut it = guard.into_iter();
    let mut seen = Vec::new();
    while let Some(v) = it.next() {
        seen.push(*v);
    }
    guard.release();
    after.push_back(3);
    assert_eq!(seen, vec![0, 1, 2]);
    assert_eq!(after.pop_back(), Some(3));
}

#[test]
fn interleaved_operations_terminate() {
    let list = List::new();
    for i in 0..200u32 {
        list.push_front(i);
        list.push_back(i);
        if i % 3 == 0 {
            list.pop_front();
            list.pop_back();
        }
        if i % 50 == 0 {
            let guard = list.iter();
            let mut it = guard.into_iter();
            while it.next().is_some() {}
            guard.release();
        }
    }
    let guard = list.iter();
    assert_eq!(guard.len(), 400 - 2 * 67);
    guard.release();
}
