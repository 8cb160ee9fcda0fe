use sorted_queue::{NotInQueue, SortedQueue};

#[test]
fn extraction_order_max_first() {
    let mut queue = SortedQueue::new(true);
    let priorities = [5i64, 1, 9, 3];
    for (item, p) in priorities.iter().enumerate() {
        queue.enq(*p, item as u64);
    }
    let mut out = vec![];
    while let Some((p, _)) = queue.deq() {
        out.push(p);
    }
    assert_eq!(out, vec![9, 5, 3, 1]);
}

#[test]
fn extraction_order_min_first() {
    let mut queue = SortedQueue::new(false);
    let priorities = [5i64, 1, 9, 3];
    for (item, p) in priorities.iter().enumerate() {
        queue.enq(*p, item as u64);
    }
    let mut out = vec![];
    while let Some((p, _)) = queue.deq() {
        out.push(p);
    }
    assert_eq!(out, vec![1, 3, 5, 9]);
}

#[test]
fn extraction_order_equal_priorities() {
    let mut queue = SortedQueue::new(true);
    queue.enq(5, 10);
    queue.enq(5, 20);
    queue.enq(2, 30);
    let first = queue.deq().unwrap();
    let second = queue.deq().unwrap();
    let third = queue.deq().unwrap();
    assert_eq!(first.0, 5);
    assert_eq!(second.0, 5);
    assert_eq!(third, (2, 30));
    assert!(first.1 != second.1);
}

#[test]
fn size_monotonicity() {
    let mut queue = SortedQueue::new(false);
    assert_eq!(queue.size(), 0);
    queue.enq(7, 1);
    assert_eq!(queue.size(), 1);
    queue.enq(3, 2);
    assert_eq!(queue.size(), 2);
    queue.change_priority(9, 1).unwrap();
    assert_eq!(queue.size(), 2);
    queue.set_ref(2, 5).unwrap();
    assert_eq!(queue.size(), 2);
    assert_eq!(queue.get_weight(5), Some(3));
    assert_eq!(queue.size(), 2);
    queue.deq().unwrap();
    assert_eq!(queue.size(), 1);
    queue.deq().unwrap();
    assert_eq!(queue.size(), 0);
}

#[test]
fn round_trip_change_priority() {
    let mut queue = SortedQueue::new(true);
    queue.enq(1, 100);
    queue.enq(2, 200);
    queue.enq(3, 300);
    queue.change_priority(42, 200).unwrap();
    assert_eq!(queue.get_weight(200), Some(42));
    queue.change_priority(-7, 200).unwrap();
    assert_eq!(queue.get_weight(200), Some(-7));
}

#[test]
fn not_found_change_priority() {
    let mut queue = SortedQueue::new(true);
    queue.enq(1, 100);
    assert_eq!(queue.change_priority(5, 999), Err(NotInQueue));
    assert_eq!(queue.size(), 1);
    assert_eq!(queue.get_weight(100), Some(1));
}

#[test]
fn not_found_set_ref() {
    let mut queue = SortedQueue::new(false);
    queue.enq(1, 100);
    assert_eq!(queue.set_ref(999, 5), Err(NotInQueue));
    assert_eq!(queue.size(), 1);
}

#[test]
fn not_found_after_dequeue() {
    let mut queue = SortedQueue::new(false);
    queue.enq(1, 100);
    queue.deq().unwrap();
    assert_eq!(queue.change_priority(5, 100), Err(NotInQueue));
    assert_eq!(queue.size(), 0);
}

#[test]
fn empty_queue_dequeue() {
    let mut queue = SortedQueue::new(true);
    assert_eq!(queue.deq(), None);
    assert_eq!(queue.size(), 0);
    queue.enq(4, 1);
    queue.enq(8, 2);
    queue.deq().unwrap();
    queue.deq().unwrap();
    assert_eq!(queue.deq(), None);
    assert_eq!(queue.size(), 0);
}

#[test]
fn get_weight_lookup() {
    let mut queue = SortedQueue::new(false);
    assert_eq!(queue.get_weight(1), None);
    queue.enq(-3, 1);
    queue.enq(12, 2);
    assert_eq!(queue.get_weight(1), Some(-3));
    assert_eq!(queue.get_weight(2), Some(12));
    assert_eq!(queue.get_weight(3), None);
}

#[test]
fn set_ref_repoints_identity() {
    let mut queue = SortedQueue::new(true);
    queue.enq(5, 1);
    queue.enq(9, 2);
    queue.set_ref(1, 7).unwrap();
    assert_eq!(queue.get_weight(7), Some(5));
    assert_eq!(queue.get_weight(1), None);
    assert_eq!(queue.get_weight(2), Some(9));
    assert_eq!(queue.size(), 2);
    assert_eq!(queue.deq(), Some((9, 2)));
    assert_eq!(queue.deq(), Some((5, 7)));
}

#[test]
fn graph_relaxation_order() {
    // a min-first queue seeded with node a at 0 and nodes b, c at infinity;
    // after lowering b to 4 and c to 2, c must come out before b.
    let (a, b, c) = (1u64, 2u64, 3u64);
    let infinity = i64::MAX;
    let mut queue = SortedQueue::new(false);
    queue.enq(0, a);
    queue.enq(infinity, b);
    queue.enq(infinity, c);
    queue.change_priority(4, b).unwrap();
    queue.change_priority(2, c).unwrap();
    assert_eq!(queue.deq(), Some((0, a)));
    assert_eq!(queue.deq(), Some((2, c)));
    assert_eq!(queue.deq(), Some((4, b)));
}

#[test]
fn change_priority_both_directions() {
    let mut queue = SortedQueue::new(true);
    for item in 0..8u64 {
        queue.enq(item as i64, item);
    }
    // make the worst entry the best, and the best entry the worst
    queue.change_priority(100, 0).unwrap();
    queue.change_priority(-100, 7).unwrap();
    assert_eq!(queue.deq(), Some((100, 0)));
    let mut out = vec![];
    while let Some(entry) = queue.deq() {
        out.push(entry);
    }
    assert_eq!(out, vec![(6, 6), (5, 5), (4, 4), (3, 3), (2, 2), (1, 1), (-100, 7)]);
}
