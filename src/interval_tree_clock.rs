//! Interval tree clocks: causality tracking for a dynamic set of participants.
//!
//! Identity is a function over the interval [0, 1) rather than a fixed process number,
//! so participants can be forked off and retired at run time, and the identity space is
//! shared out automatically. The state is a [`Stamp`]; this type wraps it and keeps it in
//! normal form.
use crate::LamportClock;
use crate::event_tree::{Event, max_int};
use crate::id_tree::Id;
use crate::stamp::{Stamp, advanced};
use std::cmp::Ordering;
use vstd::prelude::*;

verus! {

/// A causality clock for one participant, held in normal form.
#[derive(Debug)]
pub struct IntervalTreeClock {
    stamp: Stamp,
}

/// A clock is viewed as the stamp it holds.
impl View for IntervalTreeClock {
    type V = Stamp;

    closed spec fn view(&self) -> Stamp {
        self.stamp
    }
}

/// The order that comparison reports for two histories.
pub open spec fn causal_order(a: Event, b: Event) -> Option<Ordering> {
    if a.below(b) && b.below(a) {
        Some(Ordering::Equal)
    } else if a.below(b) {
        Some(Ordering::Less)
    } else if b.below(a) {
        Some(Ordering::Greater)
    } else {
        None
    }
}

impl IntervalTreeClock {
    #[verifier::type_invariant]
    spec fn well_formed(self) -> bool {
        self.stamp.wf()
    }

    /// The clock of the first participant: owns everything, has recorded nothing.
    pub fn new() -> (r: Self)
        ensures
            r@.id == Id::Full,
            r@.event == Event::N(0),
    {
        IntervalTreeClock { stamp: Stamp::seed() }
    }

    /// Joins two clocks and forks the result: the atomic synchronization of two
    /// replicas.
    pub fn sync(first: &Self, second: &Self) -> (r: (Self, Self))
        requires
            first@.id.can_sum(second@.id),
        ensures
            r.0@.id == first@.id.summed(second@.id).split_spec().0,
            r.1@.id == first@.id.summed(second@.id).split_spec().1,
            r.0@.event == first@.event.joined(second@.event),
            r.1@.event == first@.event.joined(second@.event),
    {
        proof {
            use_type_invariant(first);
            use_type_invariant(second);
        }
        let joined = match first.stamp.join(&second.stamp) {
            Ok(s) => s,
            // The precondition rules this out: the identities are disjoint.
            Err(_) => Stamp::seed(),
        };
        let (stamp1, stamp2) = joined.fork();
        (IntervalTreeClock { stamp: stamp1 }, IntervalTreeClock { stamp: stamp2 })
    }

    /// Two clocks with this one's history that share out its identity; forking a seed
    /// clock repeatedly sets up any number of participants.
    pub fn fork(&self) -> (r: (Self, Self))
        ensures
            r.0@.id == self@.id.split_spec().0,
            r.1@.id == self@.id.split_spec().1,
            r.0@.event == self@.event,
            r.1@.event == self@.event,
    {
        proof {
            use_type_invariant(self);
        }
        let (stamp1, stamp2) = self.stamp.fork();
        (IntervalTreeClock { stamp: stamp1 }, IntervalTreeClock { stamp: stamp2 })
    }

    /// Records a local event.
    fn bump(&mut self)
        requires
            !(old(self)@.id is Empty),
            old(self)@.event.max_value() < u32::MAX,
        ensures
            final(self)@.id == old(self)@.id,
            final(self)@.event == advanced(old(self)@.id, old(self)@.event),
            old(self)@.event.below(final(self)@.event),
            !final(self)@.event.below(old(self)@.event),
            final(self)@.event.max_value() <= old(self)@.event.max_value() + 1,
    {
        proof {
            use_type_invariant(&*self);
        }
        match self.stamp.event() {
            Ok(s) => {
                self.stamp = s;
            },
            Err(_) => {},
        }
    }

    /// Records a local event and returns an anonymous copy to send along.
    fn send(&mut self) -> (r: Self)
        requires
            !(old(self)@.id is Empty),
            old(self)@.event.max_value() < u32::MAX,
        ensures
            final(self)@.id == old(self)@.id,
            final(self)@.event == advanced(old(self)@.id, old(self)@.event),
            old(self)@.event.below(final(self)@.event),
            !final(self)@.event.below(old(self)@.event),
            final(self)@.event.max_value() <= old(self)@.event.max_value() + 1,
            r@ == final(self)@.peeked(),
    {
        IntervalTreeClock::bump(self);
        proof {
            use_type_invariant(&*self);
        }
        IntervalTreeClock { stamp: self.stamp.peek() }
    }

    /// Joins the incoming clock and then, unless this clock is anonymous, records an
    /// event.
    fn receive(&mut self, incoming_clock: &Self)
        requires
            old(self)@.id.can_sum(incoming_clock@.id),
            max_int(old(self)@.event.max_value(), incoming_clock@.event.max_value()) < u32::MAX,
        ensures
            final(self)@.id == old(self)@.id.summed(incoming_clock@.id),
            old(self)@.id is Empty ==> final(self)@.event == old(self)@.event.joined(
                incoming_clock@.event,
            ),
            !(old(self)@.id is Empty) ==> final(self)@.event == advanced(
                old(self)@.id.summed(incoming_clock@.id),
                old(self)@.event.joined(incoming_clock@.event),
            ),
            old(self)@.event.below(final(self)@.event),
            incoming_clock@.event.below(final(self)@.event),
            final(self)@.event.max_value() <= max_int(
                old(self)@.event.max_value(),
                incoming_clock@.event.max_value(),
            ) + 1,
    {
        proof {
            use_type_invariant(&*self);
            use_type_invariant(incoming_clock);
        }
        let was_anonymous = if let Id::Empty = self.stamp.id {
            true
        } else {
            false
        };
        let joined = match self.stamp.join(&incoming_clock.stamp) {
            Ok(s) => s,
            // The precondition rules this out: the identities are disjoint.
            Err(_) => return,
        };
        let ghost je = joined.event;
        let ghost before = self.stamp.event;
        if was_anonymous {
            self.stamp = joined;
        } else {
            proof {
                if joined.id is Empty {
                    let w = crate::id_tree::owned_path(old(self)@.id);
                    crate::id_tree::lemma_witness_paths(old(self)@.id);
                    assert(joined.id.owns(w));
                }
            }
            match joined.event() {
                Ok(s) => {
                    self.stamp = s;
                },
                Err(_) => {
                    self.stamp = joined;
                },
            }
        }
        proof {
            assert forall|p: Seq<bool>| #[trigger] self.stamp.event.value_at(p) >= je.value_at(p) by {
                assert(je.below(self.stamp.event));
            }
            assert forall|p: Seq<bool>| #[trigger] before.value_at(p) <= self.stamp.event.value_at(p) by {
                assert(je.value_at(p) >= before.value_at(p));
            }
            assert forall|p: Seq<bool>| #[trigger] incoming_clock.stamp.event.value_at(p)
                <= self.stamp.event.value_at(p) by {
                assert(je.value_at(p) >= incoming_clock.stamp.event.value_at(p));
            }
        }
    }
}

impl LamportClock for IntervalTreeClock {
    open spec fn can_bump(&self) -> bool {
        !(self@.id is Empty) && self@.event.max_value() < u32::MAX
    }

    open spec fn can_receive(&self, incoming: &Self) -> bool {
        &&& self@.id.can_sum(incoming@.id)
        &&& max_int(self@.event.max_value(), incoming@.event.max_value()) < u32::MAX
    }

    fn bump(&mut self)
        ensures
            final(self)@.id == old(self)@.id,
            final(self)@.event == advanced(old(self)@.id, old(self)@.event),
            old(self)@.event.below(final(self)@.event),
            !final(self)@.event.below(old(self)@.event),
            final(self)@.event.max_value() <= old(self)@.event.max_value() + 1,
    {
        IntervalTreeClock::bump(self)
    }

    fn send(&mut self) -> (r: Self)
        ensures
            final(self)@.id == old(self)@.id,
            final(self)@.event == advanced(old(self)@.id, old(self)@.event),
            old(self)@.event.below(final(self)@.event),
            !final(self)@.event.below(old(self)@.event),
            final(self)@.event.max_value() <= old(self)@.event.max_value() + 1,
            r@ == final(self)@.peeked(),
    {
        IntervalTreeClock::send(self)
    }

    fn receive(&mut self, incoming_clock: &Self)
        ensures
            final(self)@.id == old(self)@.id.summed(incoming_clock@.id),
            old(self)@.id is Empty ==> final(self)@.event == old(self)@.event.joined(
                incoming_clock@.event,
            ),
            !(old(self)@.id is Empty) ==> final(self)@.event == advanced(
                old(self)@.id.summed(incoming_clock@.id),
                old(self)@.event.joined(incoming_clock@.event),
            ),
            old(self)@.event.below(final(self)@.event),
            incoming_clock@.event.below(final(self)@.event),
            final(self)@.event.max_value() <= max_int(
                old(self)@.event.max_value(),
                incoming_clock@.event.max_value(),
            ) + 1,
    {
        IntervalTreeClock::receive(self, incoming_clock)
    }
}

impl PartialEq for IntervalTreeClock {
    fn eq(&self, other: &Self) -> (r: bool) {
        proof {
            use_type_invariant(self);
            use_type_invariant(other);
        }
        self.stamp.leq(&other.stamp) && other.stamp.leq(&self.stamp)
    }
}

impl vstd::std_specs::cmp::PartialEqSpecImpl for IntervalTreeClock {
    open spec fn obeys_eq_spec() -> bool {
        true
    }

    open spec fn eq_spec(&self, other: &Self) -> bool {
        self@.event.below(other@.event) && other@.event.below(self@.event)
    }
}

impl PartialOrd for IntervalTreeClock {
    fn partial_cmp(&self, other: &Self) -> (r: Option<Ordering>) {
        proof {
            use_type_invariant(self);
            use_type_invariant(other);
        }
        match (self.stamp.leq(&other.stamp), other.stamp.leq(&self.stamp)) {
            (true, true) => Some(Ordering::Equal),
            (true, false) => Some(Ordering::Less),
            (false, true) => Some(Ordering::Greater),
            (false, false) => None,
        }
    }
}

impl vstd::std_specs::cmp::PartialOrdSpecImpl for IntervalTreeClock {
    open spec fn obeys_partial_cmp_spec() -> bool {
        true
    }

    open spec fn partial_cmp_spec(&self, other: &Self) -> Option<Ordering> {
        causal_order(self@.event, other@.event)
    }
}

} // verus!
