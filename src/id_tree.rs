//! Identity trees: which part of the unit interval [0, 1) a stamp owns.
//!
//! A point of the interval is addressed by a finite path of halvings (`false` = first
//! half, `true` = second half); when the path runs out, the point is the left end of the
//! dyadic sub-interval it names. Every tree is constant on dyadic intervals finer than
//! its depth, so two trees own the same set exactly when they agree on every path.
use crate::ClockError;
use std::rc::Rc;
use vstd::prelude::*;

verus! {

/// Ownership over the current sub-interval.
#[derive(Debug)]
pub enum Id {
    /// Owns nothing of the interval.
    Empty,
    /// Owns the whole interval.
    Full,
    /// The first child covers the first half, the second child the second half.
    Split(Rc<Id>, Rc<Id>),
}

impl Id {
    /// Whether the point addressed by `p` is owned.
    pub open spec fn owns(self, p: Seq<bool>) -> bool
        decreases self,
    {
        match self {
            Id::Empty => false,
            Id::Full => true,
            Id::Split(l, r) => if p.len() == 0 {
                l.owns(p)
            } else if p[0] {
                r.owns(p.drop_first())
            } else {
                l.owns(p.drop_first())
            },
        }
    }

    /// Normal form: no split node has two empty or two full children.
    pub open spec fn is_normal(self) -> bool
        decreases self,
    {
        match self {
            Id::Split(l, r) => {
                &&& l.is_normal()
                &&& r.is_normal()
                &&& !(*l is Empty && *r is Empty)
                &&& !(*l is Full && *r is Full)
            },
            _ => true,
        }
    }

    /// The one-level smart constructor: collapses a split of two empty or two full halves.
    pub open spec fn normalized(self) -> Id {
        match self {
            Id::Split(l, r) => if *l is Empty && *r is Empty {
                Id::Empty
            } else if *l is Full && *r is Full {
                Id::Full
            } else {
                self
            },
            _ => self,
        }
    }

    /// The two halves that `split` hands out.
    pub open spec fn split_spec(self) -> (Id, Id)
        decreases self,
    {
        match self {
            Id::Empty => (Id::Empty, Id::Empty),
            Id::Full => (
                Id::Split(Rc::new(Id::Full), Rc::new(Id::Empty)),
                Id::Split(Rc::new(Id::Empty), Rc::new(Id::Full)),
            ),
            Id::Split(l, r) => if *l is Empty {
                let (a, b) = r.split_spec();
                (Id::Split(Rc::new(Id::Empty), Rc::new(a)), Id::Split(Rc::new(Id::Empty), Rc::new(b)))
            } else if *r is Empty {
                let (a, b) = l.split_spec();
                (Id::Split(Rc::new(a), Rc::new(Id::Empty)), Id::Split(Rc::new(b), Rc::new(Id::Empty)))
            } else {
                (Id::Split(l, Rc::new(Id::Empty)), Id::Split(Rc::new(Id::Empty), r))
            },
        }
    }

    /// The pairs that `sum` accepts: wherever one side owns something, the other is empty.
    pub open spec fn can_sum(self, other: Id) -> bool
        decreases self,
    {
        match (self, other) {
            (Id::Empty, _) => true,
            (_, Id::Empty) => true,
            (Id::Split(l1, r1), Id::Split(l2, r2)) => l1.can_sum(*l2) && r1.can_sum(*r2),
            _ => false,
        }
    }

    /// The union of two disjoint identities.
    pub open spec fn summed(self, other: Id) -> Id
        decreases self,
    {
        match (self, other) {
            (Id::Empty, _) => other,
            (_, Id::Empty) => self,
            (Id::Split(l1, r1), Id::Split(l2, r2)) => Id::Split(
                Rc::new(l1.summed(*l2)),
                Rc::new(r1.summed(*r2)),
            ).normalized(),
            _ => self,
        }
    }

    /// Structural equality, computed.
    fn same(&self, other: &Id) -> (r: bool)
        ensures
            r == (*self == *other),
        decreases self,
    {
        match (self, other) {
            (Id::Empty, Id::Empty) => true,
            (Id::Full, Id::Full) => true,
            (Id::Split(l1, r1), Id::Split(l2, r2)) => {
                let a = l1.same(l2);
                let b = r1.same(r2);
                a && b
            },
            _ => false,
        }
    }

    /// Partitions ownership into two disjoint identities whose union is this one.
    pub fn split(&self) -> (r: (Id, Id))
        ensures
            r == self.split_spec(),
            self.is_normal() ==> r.0.is_normal() && r.1.is_normal() && r.0.can_sum(r.1),
            forall|p: Seq<bool>| !(#[trigger] r.0.owns(p) && r.1.owns(p)),
            forall|p: Seq<bool>| #[trigger] self.owns(p) == (r.0.owns(p) || r.1.owns(p)),
        decreases self,
    {
        proof {
            lemma_split(*self);
        }
        match self {
            Id::Empty => (Id::Empty, Id::Empty),
            Id::Full => (
                Id::Split(Rc::new(Id::Full), Rc::new(Id::Empty)),
                Id::Split(Rc::new(Id::Empty), Rc::new(Id::Full)),
            ),
            Id::Split(l, r) => {
                if let Id::Empty = **l {
                    let (a, b) = r.split();
                    (Id::Split(Rc::new(Id::Empty), Rc::new(a)), Id::Split(Rc::new(Id::Empty), Rc::new(b)))
                } else if let Id::Empty = **r {
                    let (a, b) = l.split();
                    (Id::Split(Rc::new(a), Rc::new(Id::Empty)), Id::Split(Rc::new(b), Rc::new(Id::Empty)))
                } else {
                    (Id::Split(Rc::clone(l), Rc::new(Id::Empty)), Id::Split(Rc::new(Id::Empty), Rc::clone(r)))
                }
            },
        }
    }

    /// The union of two disjoint identities, in normal form when both are. Identities
    /// that overlap are refused.
    pub fn sum(&self, other: &Id) -> (r: Result<Id, ClockError>)
        ensures
            r is Ok <==> self.can_sum(*other),
            r is Err ==> r == Err::<Id, ClockError>(ClockError::InvariantViolation),
            r matches Ok(u) ==> {
                &&& u == self.summed(*other)
                &&& (self.is_normal() && other.is_normal() ==> u.is_normal())
                &&& forall|p: Seq<bool>| #[trigger] u.owns(p) == (self.owns(p) || other.owns(p))
            },
        decreases self,
    {
        proof {
            if self.can_sum(*other) {
                lemma_sum(*self, *other);
            }
        }
        match (self, other) {
            (Id::Empty, _) => Ok(other.clone()),
            (_, Id::Empty) => Ok(self.clone()),
            (Id::Split(l1, r1), Id::Split(l2, r2)) => {
                let l = match l1.sum(l2) {
                    Ok(l) => l,
                    Err(e) => return Err(e),
                };
                let r = match r1.sum(r2) {
                    Ok(r) => r,
                    Err(e) => return Err(e),
                };
                Ok(Id::Split(Rc::new(l), Rc::new(r)).norm())
            },
            _ => Err(ClockError::InvariantViolation),
        }
    }

    /// The one-level smart constructor (see `normalized`).
    pub fn norm(&self) -> (r: Id)
        ensures
            r == self.normalized(),
            forall|p: Seq<bool>| #[trigger] r.owns(p) == self.owns(p),
    {
        proof {
            lemma_normalized_owns(*self);
        }
        if let Id::Split(l, r) = self {
            if let (Id::Empty, Id::Empty) = (&**l, &**r) {
                return Id::Empty;
            }
            if let (Id::Full, Id::Full) = (&**l, &**r) {
                return Id::Full;
            }
        }
        self.clone()
    }
}

impl Clone for Id {
    fn clone(&self) -> (r: Id)
        ensures
            r == *self,
    {
        match self {
            Id::Empty => Id::Empty,
            Id::Full => Id::Full,
            Id::Split(l, r) => Id::Split(Rc::clone(l), Rc::clone(r)),
        }
    }
}

impl PartialEq for Id {
    fn eq(&self, other: &Id) -> (r: bool) {
        self.same(other)
    }
}

impl vstd::std_specs::cmp::PartialEqSpecImpl for Id {
    open spec fn obeys_eq_spec() -> bool {
        true
    }

    open spec fn eq_spec(&self, other: &Id) -> bool {
        *self == *other
    }
}

/// Unfolds `owns` on the first half.
pub proof fn lemma_owns_left(l: Id, r: Id, q: Seq<bool>)
    ensures
        Id::Split(Rc::new(l), Rc::new(r)).owns(seq![false] + q) == l.owns(q),
        Id::Split(Rc::new(l), Rc::new(r)).owns(Seq::empty()) == l.owns(Seq::empty()),
{
    assert((seq![false] + q).drop_first() =~= q);
}

/// Unfolds `owns` on the second half.
pub proof fn lemma_owns_right(l: Id, r: Id, q: Seq<bool>)
    ensures
        Id::Split(Rc::new(l), Rc::new(r)).owns(seq![true] + q) == r.owns(q),
{
    assert((seq![true] + q).drop_first() =~= q);
}

/// Normalizing does not change what is owned.
pub proof fn lemma_normalized_owns(i: Id)
    ensures
        forall|p: Seq<bool>| #[trigger] i.normalized().owns(p) == i.owns(p),
{
    assert forall|p: Seq<bool>| #[trigger] i.normalized().owns(p) == i.owns(p) by {
        if let Id::Split(l, r) = i {
            if (*l is Empty && *r is Empty) || (*l is Full && *r is Full) {
                if p.len() > 0 {
                    assert(l.owns(p.drop_first()) == r.owns(p.drop_first()));
                }
            }
        }
    }
}

/// Splitting yields two disjoint identities whose union is the identity split.
pub proof fn lemma_split(i: Id)
    ensures
        i.is_normal() ==> i.split_spec().0.is_normal() && i.split_spec().1.is_normal()
            && i.split_spec().0.can_sum(i.split_spec().1),
        i.is_normal() && !(i is Empty) ==> !(i.split_spec().0 is Empty) && !(
        i.split_spec().1 is Empty),
        forall|p: Seq<bool>|
            !(#[trigger] i.split_spec().0.owns(p) && i.split_spec().1.owns(p)),
        forall|p: Seq<bool>|
            #[trigger] i.owns(p) == (i.split_spec().0.owns(p) || i.split_spec().1.owns(p)),
    decreases i,
{
    reveal_with_fuel(Id::is_normal, 2);
    reveal_with_fuel(Id::owns, 2);
    reveal_with_fuel(Id::can_sum, 2);
    let (a, b) = i.split_spec();
    match i {
        Id::Empty => {
            assert(a is Empty && b is Empty);
            assert(a.can_sum(b));
            assert forall|p: Seq<bool>| !(#[trigger] a.owns(p) && b.owns(p)) by {}
        },
        Id::Full => {
            assert forall|p: Seq<bool>| #[trigger] i.owns(p) == (a.owns(p) || b.owns(p)) && !(a.owns(p) && b.owns(p)) by {
                let q = if p.len() == 0 { p } else { p.drop_first() };
                assert(Id::Full.owns(q) && !Id::Empty.owns(q));
            }
        },
        Id::Split(lc, rc) => {
            let ghost l: Id = *lc;
            let ghost r: Id = *rc;
            if l is Empty {
                lemma_split(r);
                assert forall|p: Seq<bool>| !(#[trigger] a.owns(p) && b.owns(p)) by {
                    assert(!Id::Empty.owns(p));
                    if p.len() > 0 {
                        assert(!Id::Empty.owns(p.drop_first()));
                        assert(!(r.split_spec().0.owns(p.drop_first()) && r.split_spec().1.owns(
                            p.drop_first(),
                        )));
                    }
                }
                assert forall|p: Seq<bool>| #[trigger] i.owns(p) == (a.owns(p) || b.owns(p)) by {
                    if p.len() > 0 {
                        assert(r.owns(p.drop_first()) == (r.split_spec().0.owns(p.drop_first())
                            || r.split_spec().1.owns(p.drop_first())));
                    }
                }
            } else if r is Empty {
                lemma_split(l);
                assert forall|p: Seq<bool>| !(#[trigger] a.owns(p) && b.owns(p)) by {
                    assert(!Id::Empty.owns(p));
                    if p.len() > 0 {
                        assert(!Id::Empty.owns(p.drop_first()));
                        assert(!(l.split_spec().0.owns(p.drop_first()) && l.split_spec().1.owns(
                            p.drop_first(),
                        )));
                    } else {
                        assert(!(l.split_spec().0.owns(p) && l.split_spec().1.owns(p)));
                    }
                }
                assert forall|p: Seq<bool>| #[trigger] i.owns(p) == (a.owns(p) || b.owns(p)) by {
                    if p.len() > 0 {
                        assert(l.owns(p.drop_first()) == (l.split_spec().0.owns(p.drop_first())
                            || l.split_spec().1.owns(p.drop_first())));
                    } else {
                        assert(l.owns(p) == (l.split_spec().0.owns(p) || l.split_spec().1.owns(p)));
                    }
                }
            } else {
                assert forall|p: Seq<bool>| #[trigger] i.owns(p) == (a.owns(p) || b.owns(p)) && !(a.owns(p) && b.owns(p)) by {
                    assert(!Id::Empty.owns(p));
                    if p.len() > 0 {
                        assert(!Id::Empty.owns(p.drop_first()));
                    }
                }
            }
        },
    }
}

/// Summing keeps normal form and owns exactly the union.
pub proof fn lemma_sum(a: Id, b: Id)
    requires
        a.can_sum(b),
    ensures
        a.is_normal() && b.is_normal() ==> a.summed(b).is_normal(),
        forall|p: Seq<bool>| #[trigger] a.summed(b).owns(p) == (a.owns(p) || b.owns(p)),
    decreases a,
{
    match (a, b) {
        (Id::Empty, _) => {},
        (_, Id::Empty) => {},
        (Id::Split(l1c, r1c), Id::Split(l2c, r2c)) => {
            let ghost l1: Id = *l1c;
            let ghost r1: Id = *r1c;
            let ghost l2: Id = *l2c;
            let ghost r2: Id = *r2c;
            lemma_sum(l1, l2);
            lemma_sum(r1, r2);
            let ghost s = Id::Split(Rc::new(l1.summed(l2)), Rc::new(r1.summed(r2)));
            lemma_normalized_owns(s);
            assert forall|p: Seq<bool>| #[trigger] a.summed(b).owns(p) == (a.owns(p) || b.owns(p)) by {
                assert(s.normalized().owns(p) == s.owns(p));
                if p.len() > 0 {
                    assert(l1.summed(l2).owns(p.drop_first()) == (l1.owns(p.drop_first()) || l2.owns(p.drop_first())));
                    assert(r1.summed(r2).owns(p.drop_first()) == (r1.owns(p.drop_first()) || r2.owns(p.drop_first())));
                } else {
                    assert(l1.summed(l2).owns(p) == (l1.owns(p) || l2.owns(p)));
                }
            }
        },
        _ => {},
    }
}

/// A path that a non-empty identity in normal form owns.
pub open spec fn owned_path(i: Id) -> Seq<bool>
    decreases i,
{
    match i {
        Id::Split(l, r) => if !(*l is Empty) {
            seq![false] + owned_path(*l)
        } else {
            seq![true] + owned_path(*r)
        },
        _ => Seq::empty(),
    }
}

/// A path that a non-full identity in normal form does not own.
pub open spec fn unowned_path(i: Id) -> Seq<bool>
    decreases i,
{
    match i {
        Id::Split(l, r) => if !(*l is Full) {
            seq![false] + unowned_path(*l)
        } else {
            seq![true] + unowned_path(*r)
        },
        _ => Seq::empty(),
    }
}

/// No point is owned by both.
pub open spec fn disjoint(a: Id, b: Id) -> bool {
    forall|p: Seq<bool>| !(#[trigger] a.owns(p) && b.owns(p))
}

/// Both own exactly the same points.
pub open spec fn same_owner(a: Id, b: Id) -> bool {
    forall|p: Seq<bool>| #[trigger] a.owns(p) == b.owns(p)
}

/// A non-empty identity in normal form owns some point, a non-full one misses some.
pub proof fn lemma_witness_paths(i: Id)
    requires
        i.is_normal(),
    ensures
        !(i is Empty) ==> i.owns(owned_path(i)),
        !(i is Full) ==> !i.owns(unowned_path(i)),
    decreases i,
{
    if let Id::Split(lc, rc) = i {
        let ghost l: Id = *lc;
        let ghost r: Id = *rc;
        lemma_witness_paths(l);
        lemma_witness_paths(r);
        lemma_owns_left(l, r, owned_path(l));
        lemma_owns_right(l, r, owned_path(r));
        lemma_owns_left(l, r, unowned_path(l));
        lemma_owns_right(l, r, unowned_path(r));
    }
}

/// Identities in normal form that own the same points are equal.
pub proof fn lemma_id_normal_unique(a: Id, b: Id)
    requires
        a.is_normal(),
        b.is_normal(),
        same_owner(a, b),
    ensures
        a == b,
    decreases a,
{
    lemma_witness_paths(a);
    lemma_witness_paths(b);
    assert(a.owns(owned_path(a)) == b.owns(owned_path(a)));
    assert(a.owns(owned_path(b)) == b.owns(owned_path(b)));
    assert(a.owns(unowned_path(a)) == b.owns(unowned_path(a)));
    assert(a.owns(unowned_path(b)) == b.owns(unowned_path(b)));
    if let Id::Split(l1c, r1c) = a {
        if let Id::Split(l2c, r2c) = b {
            let ghost l1: Id = *l1c;
            let ghost r1: Id = *r1c;
            let ghost l2: Id = *l2c;
            let ghost r2: Id = *r2c;
            assert forall|q: Seq<bool>| #[trigger] l1.owns(q) == l2.owns(q) by {
                lemma_owns_left(l1, r1, q);
                lemma_owns_left(l2, r2, q);
                assert(a.owns(seq![false] + q) == b.owns(seq![false] + q));
            }
            assert forall|q: Seq<bool>| #[trigger] r1.owns(q) == r2.owns(q) by {
                lemma_owns_right(l1, r1, q);
                lemma_owns_right(l2, r2, q);
                assert(a.owns(seq![true] + q) == b.owns(seq![true] + q));
            }
            lemma_id_normal_unique(l1, l2);
            lemma_id_normal_unique(r1, r2);
        }
    }
}

/// For identities in normal form, `sum` accepts exactly the disjoint pairs.
pub proof fn lemma_can_sum_disjoint(a: Id, b: Id)
    requires
        a.is_normal(),
        b.is_normal(),
    ensures
        a.can_sum(b) <==> disjoint(a, b),
    decreases a,
{
    lemma_witness_paths(a);
    lemma_witness_paths(b);
    match (a, b) {
        (Id::Empty, _) => {},
        (_, Id::Empty) => {},
        (Id::Split(l1c, r1c), Id::Split(l2c, r2c)) => {
            let ghost l1: Id = *l1c;
            let ghost r1: Id = *r1c;
            let ghost l2: Id = *l2c;
            let ghost r2: Id = *r2c;
            lemma_can_sum_disjoint(l1, l2);
            lemma_can_sum_disjoint(r1, r2);
            if disjoint(a, b) {
                assert forall|q: Seq<bool>| !(#[trigger] l1.owns(q) && l2.owns(q)) by {
                    lemma_owns_left(l1, r1, q);
                    lemma_owns_left(l2, r2, q);
                    assert(!(a.owns(seq![false] + q) && b.owns(seq![false] + q)));
                }
                assert forall|q: Seq<bool>| !(#[trigger] r1.owns(q) && r2.owns(q)) by {
                    lemma_owns_right(l1, r1, q);
                    lemma_owns_right(l2, r2, q);
                    assert(!(a.owns(seq![true] + q) && b.owns(seq![true] + q)));
                }
            }
            if disjoint(l1, l2) && disjoint(r1, r2) {
                assert forall|p: Seq<bool>| !(#[trigger] a.owns(p) && b.owns(p)) by {
                    if p.len() > 0 {
                        assert(!(l1.owns(p.drop_first()) && l2.owns(p.drop_first())));
                        assert(!(r1.owns(p.drop_first()) && r2.owns(p.drop_first())));
                    } else {
                        assert(!(l1.owns(p) && l2.owns(p)));
                    }
                }
            }
        },
        _ => {
            assert(a.owns(owned_path(b)) && b.owns(owned_path(b)) || a.owns(owned_path(a))
                && b.owns(owned_path(a)));
        },
    }
}

} // verus!
