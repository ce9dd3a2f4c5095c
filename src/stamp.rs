//! Stamps: an identity tree paired with an event tree, and the operations on them.
use crate::event_tree::{
    Event, lemma_bounds, lemma_expanded, lemma_joined, lemma_normal_unique, lemma_normalized,
    lemma_sunk, max_int, min_int,
};
use crate::ClockError;
use crate::id_tree::Id;
use std::rc::Rc;
use vstd::prelude::*;

verus! {

/// The state of one causal participant: what it owns of the identity space and the
/// causal history it knows of.
#[derive(Debug)]
pub struct Stamp {
    pub id: Id,
    pub event: Event,
}

/// The cost that `grow` charges for turning a uniform leaf into a split; larger than any
/// chain of plain increments in a tree that fits in memory.
pub const EXPANSION_COST: u64 = 1000;

/// The raise that `fill` makes: owned regions are lifted to close gaps without adding
/// structure.
pub open spec fn fill_spec(i: Id, e: Event) -> Event
    decreases i,
{
    match (i, e) {
        (Id::Empty, _) => e,
        (Id::Full, _) => Event::N(e.max_value() as u32),
        (_, Event::N(_)) => e,
        (Id::Split(il, ir), Event::Split(n, el, er)) => if *il is Full {
            let er2 = fill_spec(*ir, *er);
            Event::Split(
                n,
                Rc::new(Event::N(max_int(el.max_value(), er2.min_value()) as u32)),
                Rc::new(er2),
            ).normalized()
        } else if *ir is Full {
            let el2 = fill_spec(*il, *el);
            Event::Split(
                n,
                Rc::new(el2),
                Rc::new(Event::N(max_int(er.max_value(), el2.min_value()) as u32)),
            ).normalized()
        } else {
            Event::Split(n, Rc::new(fill_spec(*il, *el)), Rc::new(fill_spec(*ir, *er))).normalized()
        },
    }
}

/// The cheapest increment that `grow` picks, with its cost.
pub open spec fn grow_spec(i: Id, e: Event) -> (Event, u64)
    decreases i, if e is N { 1nat } else { 0nat },
{
    match (i, e) {
        (Id::Full, Event::N(n)) => (Event::N((n + 1) as u32), 0),
        (Id::Split(_, _), Event::N(n)) => {
            let (g, c) = grow_spec(i, Event::expanded(n));
            (g, c.saturating_add(EXPANSION_COST))
        },
        (Id::Split(il, ir), Event::Split(n, el, er)) => if *il is Empty {
            let (g, c) = grow_spec(*ir, *er);
            (Event::Split(n, el, Rc::new(g)), c.saturating_add(1))
        } else if *ir is Empty {
            let (g, c) = grow_spec(*il, *el);
            (Event::Split(n, Rc::new(g), er), c.saturating_add(1))
        } else {
            let (gl, cl) = grow_spec(*il, *el);
            let (gr, cr) = grow_spec(*ir, *er);
            if cl < cr {
                (Event::Split(n, Rc::new(gl), er), cl.saturating_add(1))
            } else {
                (Event::Split(n, el, Rc::new(gr)), cr.saturating_add(1))
            }
        },
        _ => (e, 0),
    }
}

/// The shapes on which `grow` finds something to increment: every branch it follows
/// owns something, a fully owned region holds a uniform value, and that value is at
/// least the least value of its sibling.
pub open spec fn grow_ready(i: Id, e: Event) -> bool
    decreases i, if e is N { 1nat } else { 0nat },
{
    match (i, e) {
        (Id::Full, Event::N(_)) => true,
        (Id::Split(_, _), Event::N(n)) => grow_ready(i, Event::expanded(n)),
        (Id::Split(il, ir), Event::Split(_, el, er)) => {
            &&& (*il is Full ==> *el is N && el.base() >= er.min_value())
            &&& (*ir is Full ==> *er is N && er.base() >= el.min_value())
            &&& if *il is Empty {
                !(*ir is Empty) && grow_ready(*ir, *er)
            } else if *ir is Empty {
                grow_ready(*il, *el)
            } else {
                grow_ready(*il, *el) && grow_ready(*ir, *er)
            }
        },
        _ => false,
    }
}

/// The event tree that `event` produces: the fill where it changes something, the
/// cheapest growth otherwise.
pub open spec fn advanced(i: Id, e: Event) -> Event {
    if fill_spec(i, e) != e {
        fill_spec(i, e)
    } else {
        grow_spec(i, e).0
    }
}

impl Stamp {
    /// Well-formed: both trees in normal form, every value fits a counter.
    pub open spec fn wf(self) -> bool {
        &&& self.id.is_normal()
        &&& self.event.is_normal()
        &&& self.event.fits()
    }

    /// The stamp that `join` produces.
    pub open spec fn joined(self, other: Stamp) -> Stamp {
        Stamp { id: self.id.summed(other.id), event: self.event.joined(other.event) }
    }

    /// The anonymous copy that `peek` produces.
    pub open spec fn peeked(self) -> Stamp {
        Stamp { id: Id::Empty, event: self.event }
    }

    /// The stamp that `norm` produces.
    pub open spec fn normalized(self) -> Stamp {
        Stamp { id: self.id.normalized(), event: self.event.normalized() }
    }

    /// A stamp of the two trees.
    pub fn new(id: Id, event: Event) -> (r: Stamp)
        ensures
            r.id == id,
            r.event == event,
    {
        Stamp { id, event }
    }

    /// A stamp made of copies of two shared trees.
    pub fn new_from_rcs(id: &Rc<Id>, event: &Rc<Event>) -> (r: Stamp)
        ensures
            r.id == **id,
            r.event == **event,
    {
        Stamp { id: (**id).clone(), event: (**event).clone() }
    }

    /// The first stamp of a system: owns the whole interval, has recorded nothing.
    pub fn seed() -> (r: Stamp)
        ensures
            r.id == Id::Full,
            r.event == Event::N(0),
            r.wf(),
    {
        Stamp { id: Id::Full, event: Event::N(0) }
    }

    /// Two stamps with the same history that share out this one's identity.
    pub fn fork(&self) -> (r: (Stamp, Stamp))
        ensures
            r.0.id == self.id.split_spec().0,
            r.1.id == self.id.split_spec().1,
            r.0.event == self.event,
            r.1.event == self.event,
            self.wf() ==> r.0.wf() && r.1.wf() && r.0.id.can_sum(r.1.id),
            forall|p: Seq<bool>| !(#[trigger] r.0.id.owns(p) && r.1.id.owns(p)),
            forall|p: Seq<bool>| #[trigger] self.id.owns(p) == (r.0.id.owns(p) || r.1.id.owns(p)),
    {
        let (left_id, right_id) = self.id.split();
        (Stamp::new(left_id, self.event.clone()), Stamp::new(right_id, self.event.clone()))
    }

    /// An anonymous copy: the same history, no identity.
    pub fn peek(&self) -> (r: Stamp)
        ensures
            r == self.peeked(),
            self.wf() ==> r.wf(),
    {
        Stamp::new(Id::Empty, self.event.clone())
    }

    /// Records a new event: the result strictly dominates the old history, changes it
    /// only where this stamp owns the interval, and keeps normal form. An anonymous
    /// stamp is refused.
    pub fn event(&self) -> (r: Result<Stamp, ClockError>)
        requires
            self.wf(),
            self.event.max_value() < u32::MAX,
        ensures
            r is Err <==> self.id is Empty,
            r is Err ==> r == Err::<Stamp, ClockError>(ClockError::InvalidOperation),
            r matches Ok(s) ==> {
                &&& s.id == self.id
                &&& s.event == advanced(self.id, self.event)
                &&& s.wf()
                &&& self.event.below(s.event)
                &&& !s.event.below(self.event)
                &&& s.event.max_value() <= self.event.max_value() + 1
                &&& forall|p: Seq<bool>| !self.id.owns(p) ==> #[trigger] s.event.value_at(p)
                    == self.event.value_at(p)
            },
    {
        if let Id::Empty = self.id {
            return Err(ClockError::InvalidOperation);
        }
        proof {
            lemma_fill(self.id, self.event);
        }
        let filled_event = fill(self);
        let new_event = if filled_event != self.event {
            proof {
                lemma_advance_by_fill(self.id, self.event);
            }
            filled_event
        } else {
            proof {
                lemma_fill_ready(self.id, self.event);
                lemma_grow(self.id, self.event);
            }
            let (grown_event, _cost) = grow(self);
            proof {
                lemma_bounds(grown_event);
                lemma_bounds(self.event);
                let w = grown_event.max_path();
                assert(grown_event.value_at(w) <= self.event.value_at(w) + 1);
            }
            grown_event
        };
        Ok(Stamp::new(self.id.clone(), new_event))
    }
}

impl Stamp {
    /// Merges two stamps: the union of the identities and the pointwise maximum of the
    /// histories. Used on receipt of a message and to retire a participant. Identities
    /// that overlap are refused.
    pub fn join(&self, other: &Stamp) -> (r: Result<Stamp, ClockError>)
        requires
            self.event.fits(),
            other.event.fits(),
        ensures
            r is Ok <==> self.id.can_sum(other.id),
            r is Err ==> r == Err::<Stamp, ClockError>(ClockError::InvariantViolation),
            r matches Ok(s) ==> {
                &&& s == self.joined(*other)
                &&& s.event.fits()
                &&& s.event.max_value() == max_int(self.event.max_value(), other.event.max_value())
                &&& (self.wf() && other.wf() ==> s.wf())
                &&& forall|p: Seq<bool>| #[trigger] s.id.owns(p) == (self.id.owns(p) || other.id.owns(p))
                &&& forall|p: Seq<bool>| #[trigger] s.event.value_at(p) == max_int(
                    self.event.value_at(p),
                    other.event.value_at(p),
                )
            },
    {
        proof {
            lemma_joined(self.event, other.event);
        }
        match self.id.sum(&other.id) {
            Ok(id) => Ok(Stamp::new(id, self.event.join(&other.event))),
            Err(e) => Err(e),
        }
    }

    /// Applies the one-level smart constructor to both trees.
    pub fn norm(&self) -> (r: Stamp)
        requires
            self.event.fits(),
        ensures
            r == self.normalized(),
            r.event.fits(),
    {
        proof {
            lemma_normalized(self.event);
        }
        Stamp::new(self.id.norm(), self.event.norm())
    }

    /// Causal order: this history is pointwise at most the other one.
    pub fn leq(&self, other: &Stamp) -> (r: bool)
        requires
            self.event.fits(),
            other.event.fits(),
        ensures
            self.wf() && other.wf() ==> r == self.event.below(other.event),
    {
        self.event.leq(&other.event)
    }
}

/// Raises owned regions to close gaps (see `fill_spec`).
fn fill(stamp: &Stamp) -> (r: Event)
    requires
        stamp.event.fits(),
    ensures
        r == fill_spec(stamp.id, stamp.event),
    decreases stamp.id,
{
    proof {
        lemma_fill(stamp.id, stamp.event);
        lemma_bounds(stamp.event);
    }
    match (&stamp.id, &stamp.event) {
        (Id::Empty, e) => e.clone(),
        (Id::Full, e) => Event::N(e.max()),
        (_, n @ Event::N(_)) => n.clone(),
        (Id::Split(i_left, i_right), Event::Split(n, e_left, e_right)) => {
            proof {
                lemma_bounds(stamp.event.left());
                lemma_bounds(stamp.event.right());
                lemma_fill(child_id(stamp.id, false), stamp.event.left());
                lemma_fill(child_id(stamp.id, true), stamp.event.right());
            }
            proof {
                lemma_bounds(fill_spec(child_id(stamp.id, false), stamp.event.left()));
                lemma_bounds(fill_spec(child_id(stamp.id, true), stamp.event.right()));
            }
            if let Id::Full = **i_left {
                let e_right = Rc::new(fill(&Stamp::new_from_rcs(i_right, e_right)));
                let a = e_left.max();
                let b = e_right.min();
                let maximus_prime = Rc::new(Event::N(if a >= b { a } else { b }));
                proof {
                    assert(maximus_prime.max_value() == (if a >= b { a } else { b }));
                }
                Event::Split(*n, maximus_prime, e_right).norm()
            } else if let Id::Full = **i_right {
                let e_left = Rc::new(fill(&Stamp::new_from_rcs(i_left, e_left)));
                let a = e_right.max();
                let b = e_left.min();
                let maximus_prime = Rc::new(Event::N(if a >= b { a } else { b }));
                proof {
                    assert(maximus_prime.max_value() == (if a >= b { a } else { b }));
                }
                Event::Split(*n, e_left, maximus_prime).norm()
            } else {
                let stamp_left = Stamp::new_from_rcs(i_left, e_left);
                let stamp_right = Stamp::new_from_rcs(i_right, e_right);
                Event::Split(*n, Rc::new(fill(&stamp_left)), Rc::new(fill(&stamp_right))).norm()
            }
        },
    }
}

/// Finds the cheapest increment over the owned regions (see `grow_spec`): incrementing
/// a fully owned uniform value costs nothing, expanding a uniform value into a split
/// costs `EXPANSION_COST`, and each level of descent costs one, so an increment nearer
/// the root wins; between two branches of equal cost the second is taken.
fn grow(stamp: &Stamp) -> (r: (Event, u64))
    requires
        grow_ready(stamp.id, stamp.event),
        stamp.event.max_value() < u32::MAX,
    ensures
        r == grow_spec(stamp.id, stamp.event),
    decreases stamp.id, if stamp.event is N { 1nat } else { 0nat },
{
    proof {
        lemma_bounds(stamp.event);
    }
    match (&stamp.id, &stamp.event) {
        (Id::Full, Event::N(n)) => (Event::N(n + 1), 0),
        (i, Event::N(n)) => {
            proof {
                lemma_expanded(*n);
            }
            let (e, cost) = grow(&Stamp::new(i.clone(), Event::split_from(n)));
            (e, cost.saturating_add(EXPANSION_COST))
        },
        (Id::Split(i_left, i_right), Event::Split(n, e_left, e_right)) => {
            proof {
                lemma_bounds(stamp.event.left());
                lemma_bounds(stamp.event.right());
            }
            if let Id::Empty = **i_left {
                let (e_right, cost) = grow(&Stamp::new_from_rcs(i_right, e_right));
                (Event::Split(*n, Rc::clone(e_left), Rc::new(e_right)), cost.saturating_add(1))
            } else if let Id::Empty = **i_right {
                let (e_left, cost) = grow(&Stamp::new_from_rcs(i_left, e_left));
                (Event::Split(*n, Rc::new(e_left), Rc::clone(e_right)), cost.saturating_add(1))
            } else {
                let (new_e_left, cost_left) = grow(&Stamp::new_from_rcs(i_left, e_left));
                let (new_e_right, cost_right) = grow(&Stamp::new_from_rcs(i_right, e_right));
                if cost_left < cost_right {
                    (Event::Split(*n, Rc::new(new_e_left), Rc::clone(e_right)), cost_left.saturating_add(1))
                } else {
                    (Event::Split(*n, Rc::clone(e_left), Rc::new(new_e_right)), cost_right.saturating_add(1))
                }
            }
        },
        // `grow_ready` rules out a split history under full ownership, and an anonymous
        // identity.
        (Id::Full, Event::Split(_, _, _)) => (stamp.event.clone(), 0),
        (Id::Empty, _) => (stamp.event.clone(), 0),
    }
}


/// `e` with one child replaced by `g`.
pub open spec fn with_child(e: Event, second: bool, g: Event) -> Event {
    if second {
        Event::Split(e.base() as u32, Rc::new(e.left()), Rc::new(g))
    } else {
        Event::Split(e.base() as u32, Rc::new(g), Rc::new(e.right()))
    }
}

/// One child of a split history.
pub open spec fn child_event(e: Event, second: bool) -> Event {
    if second {
        e.right()
    } else {
        e.left()
    }
}

/// One child of a split identity.
pub open spec fn child_id(i: Id, second: bool) -> Id {
    match i {
        Id::Split(l, r) => if second {
            *r
        } else {
            *l
        },
        _ => i,
    }
}

/// What `grow` promises of its result `g` for identity `i` and tree `e`.
pub open spec fn grown(i: Id, e: Event, g: Event) -> bool {
    &&& e.below(g)
    &&& forall|p: Seq<bool>| #[trigger] g.value_at(p) <= e.value_at(p) + 1
    &&& exists|p: Seq<bool>| #[trigger] g.value_at(p) > e.value_at(p)
    &&& forall|p: Seq<bool>| !i.owns(p) ==> #[trigger] g.value_at(p) == e.value_at(p)
    &&& g.is_normal()
    &&& (i is Split ==> g is Split && g.min_value() == e.min_value())
    &&& (i is Full ==> e is N && g == Event::N((e.base() + 1) as u32))
}

/// Growing one child of a split: the facts of the child carry over to the whole.
proof fn lemma_grown_side(i: Id, e: Event, second: bool, g: Event)
    requires
        i is Split,
        e is Split,
        e.fits(),
        e.is_normal() || e == Event::expanded(e.base() as u32),
        grown(child_id(i, second), child_event(e, second), g),
        child_id(i, second) is Full ==> child_event(e, second).base() >= child_event(e, !second).min_value(),
    ensures
        grown(i, e, with_child(e, second, g)),
{
    let r = with_child(e, second, g);
    let c = child_event(e, second);
    let o = child_event(e, !second);
    let ci = child_id(i, second);
    lemma_bounds(e);
    lemma_bounds(e.left());
    lemma_bounds(e.right());
    lemma_bounds(g);
    assert(Event::N(0).min_value() == 0);
    assert(Event::N(0).is_normal());
    assert(e.left().is_normal() && e.right().is_normal());
    assert(min_int(e.left().min_value(), e.right().min_value()) == 0);
    assert forall|p: Seq<bool>| #[trigger] e.value_at(p) <= r.value_at(p) && r.value_at(p) <= e.value_at(p) + 1
        && (!i.owns(p) ==> r.value_at(p) == e.value_at(p)) by {
        if p.len() == 0 {
            assert(c.value_at(p) <= g.value_at(p) <= c.value_at(p) + 1);
            assert(!ci.owns(p) ==> g.value_at(p) == c.value_at(p));
        } else {
            let q = p.drop_first();
            assert(c.value_at(q) <= g.value_at(q) <= c.value_at(q) + 1);
            assert(!ci.owns(q) ==> g.value_at(q) == c.value_at(q));
        }
    }
    let q = choose|q: Seq<bool>| #[trigger] g.value_at(q) > c.value_at(q);
    let w = seq![second] + q;
    assert(w.drop_first() =~= q);
    assert(r.value_at(w) > e.value_at(w));
    if ci is Full {
        assert(g == Event::N((c.base() + 1) as u32));
    }
}

/// `fill` only raises values, never above the old maximum, only where the identity
/// owns the interval, and keeps normal form.
pub proof fn lemma_fill(i: Id, e: Event)
    requires
        e.fits(),
    ensures
        e.below(fill_spec(i, e)),
        fill_spec(i, e).max_value() == e.max_value(),
        fill_spec(i, e).fits(),
        forall|p: Seq<bool>| !i.owns(p) ==> #[trigger] fill_spec(i, e).value_at(p) == e.value_at(p),
        e.is_normal() ==> fill_spec(i, e).is_normal(),
    decreases i,
{
    let f = fill_spec(i, e);
    lemma_bounds(e);
    match (i, e) {
        (Id::Empty, _) => {},
        (Id::Full, _) => {
            assert forall|p: Seq<bool>| #[trigger] e.value_at(p) <= f.value_at(p) by {}
        },
        (_, Event::N(_)) => {},
        (Id::Split(_, _), Event::Split(n, _, _)) => {
            let il = child_id(i, false);
            let ir = child_id(i, true);
            let el = e.left();
            let er = e.right();
            lemma_bounds(el);
            lemma_bounds(er);
            let (a, b, s) = if il is Full {
                let er2 = fill_spec(ir, er);
                lemma_fill(ir, er);
                lemma_bounds(er2);
                let x = max_int(el.max_value(), er2.min_value());
                let a = Event::N(x as u32);
                assert(a.value_at(Seq::empty()) == x);
                (a, er2, Event::Split(n, Rc::new(a), Rc::new(er2)))
            } else if ir is Full {
                let el2 = fill_spec(il, el);
                lemma_fill(il, el);
                lemma_bounds(el2);
                let x = max_int(er.max_value(), el2.min_value());
                let b = Event::N(x as u32);
                (el2, b, Event::Split(n, Rc::new(el2), Rc::new(b)))
            } else {
                lemma_fill(il, el);
                lemma_fill(ir, er);
                let a = fill_spec(il, el);
                let b = fill_spec(ir, er);
                (a, b, Event::Split(n, Rc::new(a), Rc::new(b)))
            };
            assert(f == s.normalized());
            lemma_bounds(a);
            lemma_bounds(b);
            assert(el.below(a)) by {
                if il is Full {
                    assert forall|q: Seq<bool>| #[trigger] el.value_at(q) <= a.value_at(q) by {}
                }
            }
            assert(er.below(b)) by {
                if ir is Full {
                    assert forall|q: Seq<bool>| #[trigger] er.value_at(q) <= b.value_at(q) by {}
                }
            }
            assert(s.max_value() == e.max_value()) by {
                assert(el.value_at(el.max_path()) <= a.value_at(el.max_path()));
                assert(er.value_at(er.max_path()) <= b.value_at(er.max_path()));
            }
            lemma_normalized(s);
            assert forall|p: Seq<bool>| #[trigger] e.value_at(p) <= f.value_at(p) && (!i.owns(p)
                ==> f.value_at(p) == e.value_at(p)) by {
                assert(s.value_at(p) == f.value_at(p));
                if p.len() == 0 || !p[0] {
                    let q = if p.len() == 0 { p } else { p.drop_first() };
                    assert(s.value_at(p) == n + a.value_at(q));
                    assert(e.value_at(p) == n + el.value_at(q));
                    assert(i.owns(p) == il.owns(q));
                    assert(el.value_at(q) <= a.value_at(q));
                    if il is Full {
                        assert(il.owns(q));
                    } else {
                        assert(!il.owns(q) ==> a.value_at(q) == el.value_at(q));
                    }
                } else {
                    let q = p.drop_first();
                    assert(s.value_at(p) == n + b.value_at(q));
                    assert(e.value_at(p) == n + er.value_at(q));
                    assert(i.owns(p) == ir.owns(q));
                    assert(er.value_at(q) <= b.value_at(q));
                    if ir is Full {
                        assert(ir.owns(q));
                    } else {
                        assert(!ir.owns(q) ==> b.value_at(q) == er.value_at(q));
                    }
                }
            }
        },
    }
}


/// The facts `grow` relies on, for an identity that owns something.
pub proof fn lemma_grow(i: Id, e: Event)
    requires
        i.is_normal(),
        !(i is Empty),
        grow_ready(i, e),
        e.fits(),
        e.max_value() < u32::MAX,
        e.is_normal() || e == Event::expanded(e.base() as u32),
    ensures
        grown(i, e, grow_spec(i, e).0),
    decreases i, if e is N { 1nat } else { 0nat },
{
    lemma_bounds(e);
    match (i, e) {
        (Id::Full, Event::N(n)) => {
            let g = grow_spec(i, e).0;
            assert(g.value_at(Seq::empty()) > e.value_at(Seq::empty()));
        },
        (Id::Split(_, _), Event::N(n)) => {
            let x = Event::expanded(n);
            lemma_expanded(n);
            lemma_grow(i, x);
            let g = grow_spec(i, x).0;
            assert(grow_spec(i, e).0 == g);
            assert(e.same_values(x));
            let q = choose|q: Seq<bool>| #[trigger] g.value_at(q) > x.value_at(q);
            assert(g.value_at(q) > e.value_at(q));
            assert(x.min_value() == e.min_value()) by {
                assert(Event::N(0).min_value() == 0);
            }
        },
        (Id::Split(_, _), Event::Split(_, _, _)) => {
            let il = child_id(i, false);
            let ir = child_id(i, true);
            let el = e.left();
            let er = e.right();
            lemma_bounds(el);
            lemma_bounds(er);
            assert(Event::N(0).is_normal());
            assert(el.is_normal() && er.is_normal());
            if il is Empty {
                lemma_grow(ir, er);
                lemma_grown_side(i, e, true, grow_spec(ir, er).0);
            } else if ir is Empty {
                lemma_grow(il, el);
                lemma_grown_side(i, e, false, grow_spec(il, el).0);
            } else {
                lemma_grow(il, el);
                lemma_grow(ir, er);
                lemma_grown_side(i, e, false, grow_spec(il, el).0);
                lemma_grown_side(i, e, true, grow_spec(ir, er).0);
            }
        },
        _ => {},
    }
}

/// Any identity that owns something can grow a uniform tree.
proof fn lemma_ready_uniform(i: Id, k: u32)
    requires
        i.is_normal(),
        !(i is Empty),
    ensures
        grow_ready(i, Event::N(k)),
    decreases i,
{
    if let Id::Split(_, _) = i {
        let il = child_id(i, false);
        let ir = child_id(i, true);
        assert(Event::N(0).min_value() == 0);
        if !(il is Empty) {
            lemma_ready_uniform(il, 0);
        }
        if !(ir is Empty) {
            lemma_ready_uniform(ir, 0);
        }
        assert(grow_ready(i, Event::expanded(k)));
    }
}

/// Where `fill` changes nothing, `grow` has something to increment.
pub proof fn lemma_fill_ready(i: Id, e: Event)
    requires
        i.is_normal(),
        !(i is Empty),
        e.fits(),
        fill_spec(i, e) == e,
    ensures
        grow_ready(i, e),
    decreases i,
{
    lemma_bounds(e);
    match (i, e) {
        (Id::Full, _) => {},
        (Id::Split(_, _), Event::N(k)) => {
            lemma_ready_uniform(i, k);
        },
        (Id::Split(_, _), Event::Split(n, _, _)) => {
            let il = child_id(i, false);
            let ir = child_id(i, true);
            let el = e.left();
            let er = e.right();
            lemma_bounds(el);
            lemma_bounds(er);
            let (a, b) = if il is Full {
                let er2 = fill_spec(ir, er);
                lemma_fill(ir, er);
                lemma_bounds(er2);
                (Event::N(max_int(el.max_value(), er2.min_value()) as u32), er2)
            } else if ir is Full {
                let el2 = fill_spec(il, el);
                lemma_fill(il, el);
                lemma_bounds(el2);
                (el2, Event::N(max_int(er.max_value(), el2.min_value()) as u32))
            } else {
                lemma_fill(il, el);
                lemma_fill(ir, er);
                (fill_spec(il, el), fill_spec(ir, er))
            };
            let s = Event::Split(n, Rc::new(a), Rc::new(b));
            assert(fill_spec(i, e) == s.normalized());
            lemma_bounds(a);
            lemma_bounds(b);
            let m = min_int(a.min_value(), b.min_value());
            assert(!(a is N && b is N && a.base() == b.base()));
            assert(s.normalized() == Event::Split((n + m) as u32, Rc::new(a.sunk(m)), Rc::new(b.sunk(m))));
            assert(n + m <= e.max_value()) by {
                if il is Full {
                    assert(a.min_value() <= max_int(el.max_value(), er.max_value()));
                } else if ir is Full {
                    assert(b.min_value() <= max_int(el.max_value(), er.max_value()));
                } else {
                    assert(a.min_value() <= a.max_value());
                }
            }
            assert(m == 0);
            lemma_sunk(a, 0);
            lemma_sunk(b, 0);
            assert(a == el && b == er);
            if !(il is Empty) && !(il is Full) {
                lemma_fill_ready(il, el);
            }
            if !(ir is Empty) && !(ir is Full) {
                lemma_fill_ready(ir, er);
            }
            assert(il is Full ==> el is N && el.base() >= er.min_value());
            assert(ir is Full ==> er is N && er.base() >= el.min_value());
            assert(il is Full ==> grow_ready(il, el));
            assert(ir is Full ==> grow_ready(ir, er));
        },
        _ => {},
    }
}

/// Where `fill` changes something, the change is a strict advance.
proof fn lemma_advance_by_fill(i: Id, e: Event)
    requires
        e.is_normal(),
        e.fits(),
        fill_spec(i, e) != e,
    ensures
        e.below(fill_spec(i, e)),
        !fill_spec(i, e).below(e),
{
    let f = fill_spec(i, e);
    lemma_fill(i, e);
    if f.below(e) {
        assert(e.same_values(f)) by {
            assert forall|p: Seq<bool>| #[trigger] e.value_at(p) == f.value_at(p) by {
                assert(e.value_at(p) <= f.value_at(p));
                assert(f.value_at(p) <= e.value_at(p));
            }
        }
        lemma_normal_unique(e, f);
    }
}

} // verus!
