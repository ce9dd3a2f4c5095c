//! Vector clocks: one counter per process of a fixed, known set.
//!
//! A process's clock counts the events that it knows to have taken place at each process.
//! A process missing from the map counts as zero. Clock `U` is before clock `V` when every
//! counter of `U` is at most the one of `V` and some counter is smaller; two clocks with
//! neither before the other record concurrent states.
use crate::LamportClock;
use std::cmp::Ordering;
use std::collections::HashMap;
use vstd::std_specs::iter::IteratorSpec;
use vstd::prelude::*;

verus! {

broadcast use vstd::std_specs::hash::group_hash_axioms;

/// A vector clock owned by process `i`, keyed by process identifier. Its operations are
/// provided for `usize` identifiers and counters, the default parameters.
#[derive(Debug)]
pub struct VectorClock<K = usize, V = usize> {
    clock: HashMap<K, V>,
    i: K,
}

/// The counter of process `k`; a missing process counts as zero.
pub open spec fn entry(m: Map<usize, usize>, k: usize) -> int {
    if m.contains_key(k) {
        m[k] as int
    } else {
        0
    }
}

/// Some counter of `a` is larger than the matching counter of `b`.
pub open spec fn exceeds_somewhere(a: Map<usize, usize>, b: Map<usize, usize>) -> bool {
    exists|k: usize| #[trigger] entry(a, k) > entry(b, k)
}

/// Every counter of `a` equals the matching counter of `b`.
pub open spec fn same_entries(a: Map<usize, usize>, b: Map<usize, usize>) -> bool {
    forall|k: usize| #[trigger] entry(a, k) == entry(b, k)
}

/// The entrywise maximum of two clocks, over the processes that either one knows.
pub open spec fn merged(a: Map<usize, usize>, b: Map<usize, usize>) -> Map<usize, usize> {
    Map::new(
        |k: usize| a.contains_key(k) || b.contains_key(k),
        |k: usize|
            if entry(a, k) >= entry(b, k) {
                entry(a, k) as usize
            } else {
                entry(b, k) as usize
            },
    )
}

/// The comparison of two clocks by the strict-somewhere-dominance rule.
pub open spec fn vector_order(a: Map<usize, usize>, b: Map<usize, usize>) -> Option<Ordering> {
    match (exceeds_somewhere(a, b), exceeds_somewhere(b, a)) {
        (true, false) => Some(Ordering::Greater),
        (false, true) => Some(Ordering::Less),
        (false, false) => Some(Ordering::Equal),
        (true, true) => None,
    }
}

/// A clock is viewed as its map from process to counter.
impl View for VectorClock<usize, usize> {
    type V = Map<usize, usize>;

    closed spec fn view(&self) -> Map<usize, usize> {
        self.clock@
    }
}

impl VectorClock<usize, usize> {
    /// The process that owns this clock.
    pub closed spec fn owner(&self) -> usize {
        self.i
    }

    /// A new vector clock for process `i`, with every counter at zero.
    pub fn new(i: usize) -> (r: VectorClock<usize, usize>)
        ensures
            r@ == Map::<usize, usize>::empty(),
            r.owner() == i,
    {
        VectorClock { clock: HashMap::new(), i }
    }

    /// Increments the owning process's counter.
    pub fn bump(&mut self)
        requires
            entry(old(self)@, old(self).owner()) < usize::MAX,
        ensures
            final(self).owner() == old(self).owner(),
            final(self)@ == old(self)@.insert(
                old(self).owner(),
                (entry(old(self)@, old(self).owner()) + 1) as usize,
            ),
    {
        let value = self.get(&self.i) + 1;
        self.clock.insert(self.i, value);
    }

    /// This clock's state happened before the other's.
    pub fn happens_before(&self, other: &Self) -> (r: bool)
        ensures
            r == (vector_order(self@, other@) == Some(Ordering::Less)),
    {
        self < other
    }

    /// This clock's state did not happen before the other's.
    pub fn is_concurrent_with(&self, other: &Self) -> (r: bool)
        ensures
            r == !(vector_order(self@, other@) == Some(Ordering::Less)),
    {
        !self.happens_before(other)
    }

    /// Increments the owning process's counter and returns a copy to send along.
    pub fn send(&mut self) -> (r: Self)
        requires
            entry(old(self)@, old(self).owner()) < usize::MAX,
        ensures
            final(self).owner() == old(self).owner(),
            final(self)@ == old(self)@.insert(
                old(self).owner(),
                (entry(old(self)@, old(self).owner()) + 1) as usize,
            ),
            r@ == final(self)@,
            r.owner() == final(self).owner(),
    {
        self.bump();
        self.clone()
    }

    /// Takes the entrywise maximum with the incoming clock, then increments the owning
    /// process's counter.
    pub fn receive(&mut self, incoming_clock: &Self)
        requires
            entry(old(self)@, old(self).owner()) < usize::MAX,
            entry(incoming_clock@, old(self).owner()) < usize::MAX,
        ensures
            final(self).owner() == old(self).owner(),
            final(self)@ == merged(old(self)@, incoming_clock@).insert(
                old(self).owner(),
                (entry(merged(old(self)@, incoming_clock@), old(self).owner()) + 1) as usize,
            ),
    {
        self.merge(incoming_clock);
        self.bump();
    }

    /// The counter of process `key`, zero where the clock has none.
    pub fn get(&self, key: &usize) -> (r: usize)
        ensures
            r == entry(self@, *key),
    {
        match self.clock.get(key) {
            Some(value) => *value,
            None => 0,
        }
    }

    /// Takes, in place, the entrywise maximum with the other clock.
    pub fn merge(&mut self, other: &Self)
        ensures
            final(self).owner() == old(self).owner(),
            final(self)@ == merged(old(self)@, other@),
    {
        let ghost old_map = self.clock@;
        let ghost mut done: Set<usize> = Set::empty();
        let entries = other.clock.iter();
        let ghost all = entries.remaining();
        for (k, other_v) in it: entries
            invariant
                it.seq() == all,
                self.i == old(self).i,
                forall|j: int|
                    0 <= j < it.seq().len() ==> other@.contains_key(*(#[trigger] it.seq()[j]).0)
                        && other@[*it.seq()[j].0] == *it.seq()[j].1,
                old_map == old(self)@,
                forall|j: int| 0 <= j < it.index() ==> done.contains(*(#[trigger] it.seq()[j]).0),
                forall|k2: usize| done.contains(k2) ==> other@.contains_key(k2),
                forall|k2: usize| #[trigger]
                    self.clock@.contains_key(k2) == (old_map.contains_key(k2) || done.contains(k2)),
                forall|k2: usize| #[trigger]
                    entry(self.clock@, k2) == if done.contains(k2) {
                        if entry(old_map, k2) >= entry(other@, k2) {
                            entry(old_map, k2)
                        } else {
                            entry(other@, k2)
                        }
                    } else {
                        entry(old_map, k2)
                    },
        {
            let ghost prev = self.clock@;
            let ghost prev_done = done;
            let greater = match self.clock.get(k) {
                Some(self_v) => *self_v < *other_v,
                None => true,
            };
            if greater {
                self.clock.insert(*k, *other_v);
            }
            proof {
                done = done.insert(*k);
                assert(other@.contains_key(*k) && other@[*k] == *other_v);
                assert forall|k2: usize| #[trigger]
                    entry(self.clock@, k2) == if done.contains(k2) {
                        if entry(old_map, k2) >= entry(other@, k2) {
                            entry(old_map, k2)
                        } else {
                            entry(other@, k2)
                        }
                    } else {
                        entry(old_map, k2)
                    } by {
                    assert(entry(prev, k2) == if prev_done.contains(k2) {
                        if entry(old_map, k2) >= entry(other@, k2) {
                            entry(old_map, k2)
                        } else {
                            entry(other@, k2)
                        }
                    } else {
                        entry(old_map, k2)
                    });
                    if k2 != *k {
                        assert(entry(self.clock@, k2) == entry(prev, k2));
                    }
                }
            }
        }
        proof {
            assert forall|k2: usize| other@.contains_key(k2) implies done.contains(k2) by {
                let v = all;
                assert(v.contains((&k2, &other@[k2])));
                let j = choose|j: int| 0 <= j < v.len() && v[j] == (&k2, &other@[k2]);
                assert(done.contains(*v[j].0));
            }
            assert(self.clock@ =~= merged(old_map, other@)) by {
                assert forall|k2: usize| #[trigger] self.clock@.contains_key(k2) implies
                    self.clock@[k2] == merged(old_map, other@)[k2] by {
                    assert(entry(self.clock@, k2) == self.clock@[k2]);
                }
            }
        }
    }

    /// Whether some counter of `left` is larger than the matching counter of `right`.
    fn has_greater_entry(left: &Self, right: &Self) -> (r: bool)
        ensures
            r == exceeds_somewhere(left@, right@),
    {
        let mut has_greater = false;
        let entries = left.clock.iter();
        let ghost all = entries.remaining();
        for (k, left_v) in it: entries
            invariant
                it.seq() == all,
                has_greater == exists|j: int|
                    0 <= j < it.index() && #[trigger] entry(right@, *it.seq()[j].0) < *it.seq()[j].1,
                forall|j: int|
                    0 <= j < it.seq().len() ==> left@.contains_key(*(#[trigger] it.seq()[j]).0)
                        && left@[*it.seq()[j].0] == *it.seq()[j].1,
        {
            let right_v = right.get(k);
            if *left_v > right_v {
                has_greater = true;
            }
            proof {
                let v = it.seq();
                let i = it.index();
                if has_greater {
                    if *left_v > right_v {
                        assert(entry(right@, *v[i].0) < *v[i].1);
                    }
                }
            }
        }
        proof {
            let v = all;
            if has_greater {
                let j = choose|j: int| 0 <= j < v.len() && #[trigger] entry(right@, *v[j].0) < *v[j].1;
                assert(entry(left@, *v[j].0) > entry(right@, *v[j].0));
            }
            if exceeds_somewhere(left@, right@) {
                let k = choose|k: usize| #[trigger] entry(left@, k) > entry(right@, k);
                assert(left@.contains_key(k));
                assert(v.contains((&k, &left@[k])));
                let j = choose|j: int| 0 <= j < v.len() && v[j] == (&k, &left@[k]);
                assert(entry(right@, *v[j].0) < *v[j].1);
            }
        }
        has_greater
    }

    /// Whether every counter that `left` holds matches the counter of `right`.
    fn subset_eq(left: &Self, right: &Self) -> (r: bool)
        ensures
            r == forall|k: usize| left@.contains_key(k) ==> #[trigger] entry(right@, k) == entry(left@, k),
    {
        let entries = left.clock.iter();
        let ghost all = entries.remaining();
        for (k, v) in it: entries
            invariant
                it.seq() == all,
                forall|j: int|
                    0 <= j < it.index() ==> #[trigger] entry(right@, *it.seq()[j].0) == *it.seq()[j].1,
                forall|j: int|
                    0 <= j < it.seq().len() ==> left@.contains_key(*(#[trigger] it.seq()[j]).0)
                        && left@[*it.seq()[j].0] == *it.seq()[j].1,
        {
            if right.get(k) != *v {
                proof {
                    let s = it.seq();
                    let i = it.index();
                    assert(entry(right@, *s[i].0) != entry(left@, *s[i].0));
                }
                return false;
            }
        }
        proof {
            let s = all;
            assert forall|k: usize| left@.contains_key(k) implies #[trigger] entry(right@, k) == entry(left@, k) by {
                assert(s.contains((&k, &left@[k])));
                let j = choose|j: int| 0 <= j < s.len() && s[j] == (&k, &left@[k]);
                assert(entry(right@, *s[j].0) == *s[j].1);
            }
        }
        true
    }
}

impl Clone for VectorClock<usize, usize> {
    fn clone(&self) -> (r: Self)
        ensures
            r@ == self@,
            r.owner() == self.owner(),
    {
        VectorClock { clock: self.clock.clone(), i: self.i }
    }
}

impl PartialEq for VectorClock<usize, usize> {
    fn eq(&self, other: &Self) -> (r: bool) {
        let a = VectorClock::subset_eq(self, other);
        let b = VectorClock::subset_eq(other, self);
        proof {
            if a && b {
                assert forall|k: usize| #[trigger] entry(self@, k) == entry(other@, k) by {
                    if self@.contains_key(k) {
                        assert(entry(other@, k) == entry(self@, k));
                    } else if other@.contains_key(k) {
                        assert(entry(self@, k) == entry(other@, k));
                    }
                }
            }
        }
        a && b
    }
}

impl vstd::std_specs::cmp::PartialEqSpecImpl for VectorClock<usize, usize> {
    open spec fn obeys_eq_spec() -> bool {
        true
    }

    open spec fn eq_spec(&self, other: &Self) -> bool {
        same_entries(self@, other@)
    }
}

impl PartialOrd for VectorClock<usize, usize> {
    fn partial_cmp(&self, other: &Self) -> (r: Option<Ordering>) {
        let has_greater = VectorClock::has_greater_entry(self, other);
        let has_less = VectorClock::has_greater_entry(other, self);
        match (has_greater, has_less) {
            (true, false) => Some(Ordering::Greater),
            (false, true) => Some(Ordering::Less),
            (false, false) => Some(Ordering::Equal),
            (true, true) => None,
        }
    }
}

impl vstd::std_specs::cmp::PartialOrdSpecImpl for VectorClock<usize, usize> {
    open spec fn obeys_partial_cmp_spec() -> bool {
        true
    }

    open spec fn partial_cmp_spec(&self, other: &Self) -> Option<Ordering> {
        vector_order(self@, other@)
    }
}

impl LamportClock for VectorClock<usize, usize> {
    open spec fn can_bump(&self) -> bool {
        entry(self@, self.owner()) < usize::MAX
    }

    open spec fn can_receive(&self, incoming: &Self) -> bool {
        entry(self@, self.owner()) < usize::MAX && entry(incoming@, self.owner()) < usize::MAX
    }

    fn bump(&mut self) {
        VectorClock::bump(self);
    }

    fn send(&mut self) -> Self {
        VectorClock::send(self)
    }

    fn receive(&mut self, incoming_clock: &Self) {
        VectorClock::receive(self, incoming_clock);
    }
}

} // verus!
