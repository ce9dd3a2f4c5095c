use lamport_clocks::vector_clock::VectorClock;
use lamport_clocks::LamportClock;
use std::cmp::Ordering;

#[test]
fn test_causality() {
    let (p1, p2, p3) = (1, 2, 3);
    let [mut vc1, mut vc2, mut vc3] = [p1, p2, p3].map(VectorClock::<usize, usize>::new);

    // (2.1)
    vc2.bump();
    // (1.1)
    vc1.bump();
    // (1.2 / 2.2)
    let sending_clock = vc1.send();
    vc2.receive(&sending_clock);
    // (3.1)
    vc3.bump();

    assert!(vc1.happens_before(&vc2));
    assert!(vc3.is_concurrent_with(&vc1));
    assert!(vc3.is_concurrent_with(&vc2));

    // (1.3)
    vc1.bump();
    // (2.3 / 3.2)
    let sending_clock = vc2.send();
    vc3.receive(&sending_clock);

    assert!(vc2.happens_before(&vc3));
    assert!(vc1.is_concurrent_with(&vc2));
    assert!(vc1.is_concurrent_with(&vc3));

    // (2.4)
    vc2.bump();
    // (3.3)
    vc3.bump();
    // (3.4 / 1.4)
    let sending_clock = vc3.send();
    vc1.receive(&sending_clock);

    assert!(vc3.happens_before(&vc1));
    assert!(vc2.is_concurrent_with(&vc1));
    assert!(vc1.is_concurrent_with(&vc3));

    // (1.5 / 2.5)
    let sending_clock = vc1.send();
    vc2.receive(&sending_clock);

    assert!(vc1.happens_before(&vc2));
    // p3 is "before" p1 because of (3.4/1.4).
    assert!(!vc3.is_concurrent_with(&vc1));
    // p3 is "after" p2 because of (2.3/3.2).
    assert!(!vc3.is_concurrent_with(&vc2));

    // (2.6)
    vc2.bump();
}

#[test]
fn vector_clock_counts_missing_processes_as_zero() {
    let mut vc = VectorClock::<usize, usize>::new(7);
    assert_eq!(vc.get(&7), 0);
    assert_eq!(vc.get(&3), 0);
    vc.bump();
    vc.bump();
    assert_eq!(vc.get(&7), 2);
    assert_eq!(vc.get(&3), 0);
}

#[test]
fn vector_clock_merge_takes_entrywise_maximum() {
    let mut a = VectorClock::<usize, usize>::new(1);
    let mut b = VectorClock::<usize, usize>::new(2);
    a.bump();
    a.bump();
    b.bump();
    let mut c = VectorClock::<usize, usize>::new(1);
    c.receive(&b);
    c.receive(&b);
    a.merge(&c);
    assert_eq!(a.get(&1), 2);
    assert_eq!(a.get(&2), 1);
    assert_eq!(a.get(&9), 0);
}

#[test]
fn vector_clock_receive_merges_then_bumps() {
    let mut a = VectorClock::<usize, usize>::new(1);
    let mut b = VectorClock::<usize, usize>::new(2);
    b.bump();
    b.bump();
    b.bump();
    a.receive(&b);
    assert_eq!(a.get(&1), 1);
    assert_eq!(a.get(&2), 3);
}

#[test]
fn vector_clock_comparison() {
    let a = VectorClock::<usize, usize>::new(1);
    let mut b = VectorClock::<usize, usize>::new(2);
    assert_eq!(a.partial_cmp(&b), Some(Ordering::Equal));
    assert!(a == b);
    b.bump();
    assert_eq!(a.partial_cmp(&b), Some(Ordering::Less));
    assert_eq!(b.partial_cmp(&a), Some(Ordering::Greater));
    assert!(a != b);
    let mut c = VectorClock::<usize, usize>::new(3);
    c.bump();
    assert_eq!(b.partial_cmp(&c), None);
    assert!(!b.happens_before(&c));
    assert!(b.is_concurrent_with(&c));
}

#[test]
fn vector_clock_send_returns_bumped_copy() {
    let mut a = VectorClock::<usize, usize>::new(4);
    let sent = LamportClock::send(&mut a);
    assert_eq!(sent.get(&4), 1);
    assert_eq!(a.get(&4), 1);
    assert!(sent == a);
}
