use lamport_clocks::event_tree::Event;
use lamport_clocks::id_tree::Id;
use lamport_clocks::interval_tree_clock::IntervalTreeClock;
use lamport_clocks::stamp::Stamp;
use lamport_clocks::ClockError;
use lamport_clocks::vector_clock::VectorClock;
use lamport_clocks::LamportClock;
use std::cmp::Ordering;
use std::rc::Rc;

fn n(v: u32) -> Event {
    Event::N(v)
}

fn split_event(base: u32, l: Event, r: Event) -> Event {
    Event::Split(base, Rc::new(l), Rc::new(r))
}

fn split_id(l: Id, r: Id) -> Id {
    Id::Split(Rc::new(l), Rc::new(r))
}

#[test]
fn interval_and_vector_clocks_are_lamport_clocks() {
    fn assert_impl<T: LamportClock>() {}
    assert_impl::<VectorClock>();
    assert_impl::<IntervalTreeClock>();
}

#[test]
fn seed_event_is_strictly_later() {
    let seed = Stamp::seed();
    let next = seed.event().unwrap();
    assert!(seed.leq(&next));
    assert!(!next.leq(&seed));
    assert!(next.event != seed.event);
    assert!(next.event == n(1));
    assert!(next.id == Id::Full);
}

#[test]
fn fork_keeps_history_and_partitions_identity() {
    let s = Stamp::new(Id::Full, n(4));
    let (a, b) = s.fork();
    assert!(a.event == s.event && b.event == s.event);
    assert!(a.id == split_id(Id::Full, Id::Empty));
    assert!(b.id == split_id(Id::Empty, Id::Full));
    assert!(a.id.sum(&b.id).unwrap().norm() == s.id);

    let t = Stamp::new(split_id(Id::Full, split_id(Id::Full, Id::Empty)), n(0));
    let (c, d) = t.fork();
    assert!(c.id == split_id(Id::Full, Id::Empty));
    assert!(d.id == split_id(Id::Empty, split_id(Id::Full, Id::Empty)));
    assert!(c.id.sum(&d.id).unwrap() == t.id);

    let u = Stamp::new(split_id(Id::Empty, Id::Full), n(0));
    let (e, f) = u.fork();
    assert!(e.id == split_id(Id::Empty, split_id(Id::Full, Id::Empty)));
    assert!(f.id == split_id(Id::Empty, split_id(Id::Empty, Id::Full)));
    assert!(e.id.sum(&f.id).unwrap() == u.id);
}

#[test]
fn split_of_empty_identity_is_empty() {
    let (a, b) = Id::Empty.split();
    assert!(a == Id::Empty && b == Id::Empty);
}

#[test]
fn join_is_commutative_associative_idempotent() {
    let x = Stamp::new(split_id(Id::Full, Id::Empty), split_event(1, n(0), n(2)));
    let y = Stamp::new(split_id(Id::Empty, split_id(Id::Full, Id::Empty)), n(2));
    let z = Stamp::new(Id::Empty, split_event(0, n(3), n(0)));
    let xy = x.join(&y).unwrap();
    let yx = y.join(&x).unwrap();
    assert!(xy.id == yx.id && xy.event == yx.event);
    let left = x.join(&y).unwrap().join(&z).unwrap();
    let right = x.join(&y.join(&z).unwrap()).unwrap();
    assert!(left.id == right.id && left.event == right.event);
    let zz = z.join(&z).unwrap();
    assert!(zz.id == z.id && zz.event == z.event);
    assert!(left.event == split_event(3, n(0), n(0)).norm());
    assert!(left.event == n(3));
}

#[test]
fn event_join_is_pointwise_maximum() {
    let a = n(3);
    let b = split_event(1, n(0), n(4));
    assert!(a.join(&b) == split_event(3, n(0), n(2)));
    assert!(b.join(&a) == split_event(3, n(0), n(2)));
    assert!(a.join(&n(5)) == n(5));
}

#[test]
fn event_strictly_advances_under_ownership() {
    let stamps = [
        Stamp::new(Id::Full, n(7)),
        Stamp::new(split_id(Id::Full, Id::Empty), n(0)),
        Stamp::new(split_id(Id::Empty, Id::Full), split_event(0, n(2), n(0))),
        Stamp::new(split_id(Id::Full, Id::Empty), split_event(0, n(0), n(3))),
        Stamp::new(split_id(split_id(Id::Full, Id::Empty), Id::Empty), split_event(0, n(0), n(1))),
    ];
    for s in stamps.iter() {
        let t = s.event().unwrap();
        assert!(s.leq(&t));
        assert!(!t.leq(s));
        assert!(t.id == s.id);
    }
}

#[test]
fn event_prefers_fill_then_cheapest_growth() {
    // Fill: the owned first half is raised to the second half's level.
    let s = Stamp::new(split_id(Id::Full, Id::Empty), split_event(0, n(0), n(3)));
    assert!(s.event().unwrap().event == n(3));
    // Growth: a uniform value under a partial identity is expanded, then incremented.
    let s = Stamp::new(split_id(Id::Full, Id::Empty), n(0));
    assert!(s.event().unwrap().event == split_event(0, n(1), n(0)));
    // Growth: incrementing a fully owned leaf is preferred to expanding a deeper one.
    let s = Stamp::new(
        split_id(Id::Full, split_id(Id::Full, Id::Empty)),
        split_event(0, n(0), split_event(0, n(1), n(0))),
    );
    assert!(s.event().unwrap().event == split_event(0, n(1), split_event(0, n(1), n(0))));
}

#[test]
fn anonymous_stamp_cannot_record_events() {
    let seed = Stamp::seed();
    let anonymous = seed.peek();
    assert!(anonymous.id == Id::Empty);
    assert!(anonymous.event == seed.event);
    assert_eq!(anonymous.event().err(), Some(ClockError::InvalidOperation));
}

#[test]
fn join_with_own_snapshot_changes_nothing() {
    let s = Stamp::new(split_id(Id::Full, Id::Empty), split_event(0, n(0), n(3)));
    let s2 = s.event().unwrap();
    let m = s2.peek();
    let j = s2.join(&m).unwrap();
    assert!(j.event == s2.event);
    assert!(j.id == s2.id);
}

#[test]
fn concrete_causal_chain() {
    let seed = IntervalTreeClock::new();
    let (mut p, q0) = seed.fork();
    let (mut q, mut r) = q0.fork();
    let m = p.send();
    q.receive(&m);
    r.bump();
    assert_eq!(p.partial_cmp(&q), Some(Ordering::Less));
    assert!(p < q);
    assert!(!(q < p));
    assert_eq!(r.partial_cmp(&p), None);
    assert_eq!(r.partial_cmp(&q), None);
    assert_eq!(p.partial_cmp(&r), None);
    assert!(p != r);
}

#[test]
fn stamp_level_causal_chain() {
    let (p, q) = Stamp::seed().fork();
    let p1 = p.event().unwrap();
    let m = p1.peek();
    let q1 = q.join(&m).unwrap().event().unwrap();
    assert!(p1.leq(&q1));
    assert!(!q1.leq(&p1));
}

#[test]
fn sync_joins_then_forks() {
    let seed = IntervalTreeClock::new();
    let (mut a, mut b) = seed.fork();
    a.bump();
    b.bump();
    let (c, d) = IntervalTreeClock::sync(&a, &b);
    assert!(a < c && b < c);
    assert_eq!(c.partial_cmp(&d), Some(Ordering::Equal));
    assert!(c == d);
}

#[test]
fn normalization_is_idempotent() {
    let e = split_event(2, n(3), n(3));
    assert!(e.norm() == n(5));
    assert!(e.norm().norm() == e.norm());
    let f = split_event(1, split_event(2, n(0), n(1)), n(4));
    assert!(f.norm() == split_event(3, split_event(0, n(0), n(1)), n(2)));
    assert!(f.norm().norm() == f.norm());
    assert!(split_id(Id::Full, Id::Full).norm() == Id::Full);
    assert!(split_id(Id::Empty, Id::Empty).norm() == Id::Empty);
    let i = split_id(Id::Full, Id::Empty);
    assert!(i.norm() == i);
    assert!(i.norm().norm() == i.norm());
    let st = Stamp::new(split_id(Id::Empty, Id::Empty), split_event(0, n(1), n(1)));
    let sn = st.norm();
    assert!(sn.id == Id::Empty && sn.event == n(1));
}

#[test]
fn event_tree_extremes_and_offsets() {
    let e = split_event(2, n(0), split_event(1, n(3), n(0)));
    assert_eq!(e.min(), 2);
    assert_eq!(e.max(), 6);
    assert!(e.lift(5) == split_event(7, n(0), split_event(1, n(3), n(0))));
    assert!(e.sink(2) == split_event(0, n(0), split_event(1, n(3), n(0))));
    assert!(n(9).sink(4) == n(5));
    assert!(Event::split_from(&4) == split_event(4, n(0), n(0)));
}

#[test]
fn event_leq_is_pointwise() {
    let a = split_event(1, n(0), n(2));
    let b = split_event(1, n(1), n(2));
    assert!(a.leq(&b));
    assert!(!b.leq(&a));
    assert!(n(1).leq(&a));
    assert!(!n(2).leq(&a));
    assert!(a.leq(&n(3)));
    assert!(!a.leq(&n(2)));
    let c = split_event(0, n(3), n(0));
    assert!(!a.leq(&c) && !c.leq(&a));
}

#[test]
fn identity_sum_is_union() {
    let a = split_id(Id::Full, Id::Empty);
    let b = split_id(Id::Empty, Id::Full);
    assert!(a.sum(&b).unwrap() == Id::Full);
    assert!(Id::Empty.sum(&a).unwrap() == a);
    assert!(a.sum(&Id::Empty).unwrap() == a);
    let c = split_id(Id::Empty, split_id(Id::Full, Id::Empty));
    assert!(a.sum(&c).unwrap() == split_id(Id::Full, split_id(Id::Full, Id::Empty)));
}

#[test]
fn retiring_a_participant_folds_its_identity_back() {
    let (a, b) = Stamp::seed().fork();
    let a1 = a.event().unwrap();
    let merged = b.join(&a1).unwrap();
    assert!(merged.id == Id::Full);
    assert!(a1.leq(&merged));
}

#[test]
fn overlapping_identities_are_refused() {
    assert_eq!(Id::Full.sum(&Id::Full).err(), Some(ClockError::InvariantViolation));
    let half = split_id(Id::Full, Id::Empty);
    assert_eq!(Id::Full.sum(&half).err(), Some(ClockError::InvariantViolation));
    assert_eq!(half.sum(&half).err(), Some(ClockError::InvariantViolation));
    let s = Stamp::seed();
    assert_eq!(s.join(&Stamp::seed()).err(), Some(ClockError::InvariantViolation));
    let anonymous = s.peek();
    assert!(anonymous.join(&anonymous).unwrap().id == Id::Empty);
}

/// A small deterministic generator for the randomized checks below.
struct Lcg(u64);

impl Lcg {
    fn next(&mut self, bound: usize) -> usize {
        self.0 = self.0.wrapping_mul(6364136223846793005).wrapping_add(1442695040888963407);
        ((self.0 >> 33) as usize) % bound
    }
}

/// Runs random forks, events and joins from a seed; the participants' identities stay
/// pairwise disjoint throughout.
fn random_participants(seed: u64, steps: usize) -> Vec<Stamp> {
    let mut rng = Lcg(seed);
    let mut pool = vec![Stamp::seed()];
    for _ in 0..steps {
        let k = rng.next(pool.len());
        match rng.next(4) {
            0 => {
                let (a, b) = pool[k].fork();
                pool[k] = a;
                pool.push(b);
            }
            1 | 2 => {
                if pool[k].id != Id::Empty {
                    let next = pool[k].event().unwrap();
                    assert!(pool[k].leq(&next) && !next.leq(&pool[k]));
                    pool[k] = next;
                }
            }
            _ => {
                let other = rng.next(pool.len());
                let message = pool[other].peek();
                pool[k] = pool[k].join(&message).unwrap();
            }
        }
    }
    pool
}

#[test]
fn join_laws_on_random_stamps() {
    for seed in 0..40u64 {
        let pool = random_participants(seed, 30);
        let mut rng = Lcg(seed + 1000);
        for _ in 0..20 {
            let x = &pool[rng.next(pool.len())];
            let y = &pool[rng.next(pool.len())];
            let z = &pool[rng.next(pool.len())];
            let (ex, ey, ez) = (&x.event, &y.event, &z.event);
            assert!(ex.join(ex) == *ex);
            assert!(ex.join(ey) == ey.join(ex));
            assert!(ex.join(ey).join(ez) == ex.join(&ey.join(ez)));
            assert!(ex.leq(&ex.join(ey)) && ey.leq(&ex.join(ey)));
            assert!(ex.norm().norm() == ex.norm());
            assert!(x.id.norm().norm() == x.id.norm());
        }
        for i in 0..pool.len() {
            for j in (i + 1)..pool.len() {
                let xy = pool[i].join(&pool[j]).unwrap();
                let yx = pool[j].join(&pool[i]).unwrap();
                assert!(xy.id == yx.id && xy.event == yx.event);
            }
        }
        if pool.len() >= 3 {
            let (x, y, z) = (&pool[0], &pool[1], &pool[2]);
            let left = x.join(y).unwrap().join(z).unwrap();
            let right = x.join(&y.join(z).unwrap()).unwrap();
            assert!(left.id == right.id && left.event == right.event);
        }
        let mut all = Stamp::new(Id::Empty, Event::N(0));
        for s in pool.iter() {
            all = all.join(s).unwrap();
        }
        assert!(all.id == Id::Full);
    }
}

#[test]
fn fork_then_sum_restores_identity_on_random_stamps() {
    for seed in 0..40u64 {
        for s in random_participants(seed, 25).iter() {
            let (a, b) = s.fork();
            assert!(a.event == s.event && b.event == s.event);
            assert!(a.id.sum(&b.id).unwrap().norm() == s.id);
            if s.id != Id::Empty {
                let next = s.event().unwrap();
                let snapshot = next.peek();
                assert!(next.join(&snapshot).unwrap().event == next.event);
            }
        }
    }
}
