//! Logical clocks that track causality between the events of distributed processes.
use vstd::prelude::*;

pub mod event_tree;
pub mod id_tree;
pub mod interval_tree_clock;
pub mod laws;
pub mod stamp;
pub mod vector_clock;

verus! {

/// Why an operation on a clock was refused.
#[derive(Debug, PartialEq, Eq, Structural)]
pub enum ClockError {
    /// An anonymous stamp carries causal history but cannot record events.
    InvalidOperation,
    /// Two identities that overlap were to be summed: ownership is disjoint by
    /// construction, so this is a caller's error.
    InvariantViolation,
}

/// A logical clock of one process: it advances on local events, stamps outgoing messages
/// and takes in the clocks that incoming messages carry.
pub trait LamportClock: PartialOrd + Sized {
    /// Whether a local event can be recorded now.
    open spec fn can_bump(&self) -> bool {
        true
    }

    /// Whether `incoming` can be taken in now.
    open spec fn can_receive(&self, incoming: &Self) -> bool {
        true
    }

    /// Updates this clock for when its process executes a local event.
    fn bump(&mut self)
        requires
            old(self).can_bump(),
    ;

    /// Records the sending of a message and returns the clock to piggyback on it.
    fn send(&mut self) -> Self
        requires
            old(self).can_bump(),
    ;

    /// Takes in the clock that a received message carries.
    fn receive(&mut self, incoming_clock: &Self)
        requires
            old(self).can_receive(incoming_clock),
    ;
}

} // verus!
