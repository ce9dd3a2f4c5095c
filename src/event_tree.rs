//! Event trees: how many events have been recorded over each part of the unit interval.
//!
//! A tree denotes a function from the interval [0, 1) to the natural numbers. As for
//! identity trees, a point is addressed by a finite path of halvings, and `value_at` gives
//! the function's value there. Two trees denote the same function exactly when they agree
//! on every path, and trees in normal form that agree on every path are equal.
use std::rc::Rc;
use vstd::prelude::*;

verus! {

/// Logical time over the current sub-interval.
#[derive(Debug)]
pub enum Event {
    /// The same value over the whole interval.
    N(u32),
    /// A base value for the whole interval, plus the values of the first child over the
    /// first half and of the second child over the second half.
    Split(u32, Rc<Event>, Rc<Event>),
}

/// The smaller of two integers.
pub open spec fn min_int(a: int, b: int) -> int {
    if a <= b { a } else { b }
}

/// The larger of two integers.
pub open spec fn max_int(a: int, b: int) -> int {
    if a >= b { a } else { b }
}

impl Event {
    /// The tree's value at the point addressed by `p`.
    pub open spec fn value_at(self, p: Seq<bool>) -> int
        decreases self,
    {
        match self {
            Event::N(n) => n as int,
            Event::Split(n, l, r) => n + if p.len() == 0 {
                l.value_at(p)
            } else if p[0] {
                r.value_at(p.drop_first())
            } else {
                l.value_at(p.drop_first())
            },
        }
    }

    /// Pointwise `<=` over the whole interval.
    pub open spec fn below(self, other: Event) -> bool {
        forall|p: Seq<bool>| #[trigger] self.value_at(p) <= other.value_at(p)
    }

    /// The two trees denote the same function.
    pub open spec fn same_values(self, other: Event) -> bool {
        forall|p: Seq<bool>| #[trigger] self.value_at(p) == other.value_at(p)
    }

    /// The value at the root: the whole of a uniform tree, the base of a split.
    pub open spec fn base(self) -> int {
        match self {
            Event::N(n) => n as int,
            Event::Split(n, _, _) => n as int,
        }
    }

    /// The first child of a split.
    pub open spec fn left(self) -> Event {
        match self {
            Event::Split(_, l, _) => *l,
            _ => Event::N(0),
        }
    }

    /// The second child of a split.
    pub open spec fn right(self) -> Event {
        match self {
            Event::Split(_, _, r) => *r,
            _ => Event::N(0),
        }
    }

    /// The number of split levels.
    pub open spec fn height(self) -> nat
        decreases self,
    {
        match self {
            Event::N(_) => 0,
            Event::Split(_, l, r) => 1 + if l.height() >= r.height() {
                l.height()
            } else {
                r.height()
            },
        }
    }

    /// The least value the tree takes.
    pub open spec fn min_value(self) -> int
        decreases self,
    {
        match self {
            Event::N(n) => n as int,
            Event::Split(n, l, r) => n + min_int(l.min_value(), r.min_value()),
        }
    }

    /// The greatest value the tree takes.
    pub open spec fn max_value(self) -> int
        decreases self,
    {
        match self {
            Event::N(n) => n as int,
            Event::Split(n, l, r) => n + max_int(l.max_value(), r.max_value()),
        }
    }

    /// A path at which the least value is taken.
    pub open spec fn min_path(self) -> Seq<bool>
        decreases self,
    {
        match self {
            Event::N(_) => Seq::empty(),
            Event::Split(_, l, r) => if l.min_value() <= r.min_value() {
                seq![false] + l.min_path()
            } else {
                seq![true] + r.min_path()
            },
        }
    }

    /// A path at which the greatest value is taken.
    pub open spec fn max_path(self) -> Seq<bool>
        decreases self,
    {
        match self {
            Event::N(_) => Seq::empty(),
            Event::Split(_, l, r) => if l.max_value() >= r.max_value() {
                seq![false] + l.max_path()
            } else {
                seq![true] + r.max_path()
            },
        }
    }

    /// Every value of the tree fits a counter.
    pub open spec fn fits(self) -> bool {
        self.max_value() <= u32::MAX
    }

    /// Normal form: no split has two equal uniform children, and the base of each split
    /// has absorbed the least value of its children.
    pub open spec fn is_normal(self) -> bool
        decreases self,
    {
        match self {
            Event::N(_) => true,
            Event::Split(_, l, r) => {
                &&& l.is_normal()
                &&& r.is_normal()
                &&& min_int(l.min_value(), r.min_value()) == 0
                &&& !(*l is N && *r is N && l.base() == r.base())
            },
        }
    }

    /// Both children of a split are in normal form (a uniform tree qualifies).
    pub open spec fn children_normal(self) -> bool {
        match self {
            Event::N(_) => true,
            Event::Split(_, l, r) => l.is_normal() && r.is_normal(),
        }
    }

    /// The tree with `m` added to its base.
    pub open spec fn lifted(self, m: int) -> Event {
        match self {
            Event::N(n) => Event::N((n + m) as u32),
            Event::Split(n, l, r) => Event::Split((n + m) as u32, l, r),
        }
    }

    /// The tree with `m` taken off every value; the base absorbs it where it can.
    pub open spec fn sunk(self, m: int) -> Event
        decreases self,
    {
        match self {
            Event::N(n) => Event::N((n - m) as u32),
            Event::Split(n, l, r) => if m <= n {
                Event::Split((n - m) as u32, l, r)
            } else {
                Event::Split(0, Rc::new(l.sunk(m - n)), Rc::new(r.sunk(m - n)))
            },
        }
    }

    /// The one-level smart constructor: collapses two equal uniform children into the
    /// base, or moves the children's common least value into the base.
    pub open spec fn normalized(self) -> Event {
        match self {
            Event::N(_) => self,
            Event::Split(n, l, r) => if *l is N && *r is N && l.base() == r.base() {
                Event::N((n + l.base()) as u32)
            } else {
                let m = min_int(l.min_value(), r.min_value());
                Event::Split((n + m) as u32, Rc::new(l.sunk(m)), Rc::new(r.sunk(m)))
            },
        }
    }

    /// A uniform value written as a split with two zero children.
    pub open spec fn expanded(n: u32) -> Event {
        Event::Split(n, Rc::new(Event::N(0)), Rc::new(Event::N(0)))
    }

    /// The pointwise maximum of two trees, as `join` computes it.
    pub open spec fn joined(self, other: Event) -> Event
        decreases join_height(self, other), join_rank(self, other),
        via Self::joined_decreases
    {
        match (self, other) {
            (Event::N(a), Event::N(b)) => Event::N(if a > b { a } else { b }),
            (Event::N(a), Event::Split(_, _, _)) => Event::expanded(a).joined(other),
            (Event::Split(_, _, _), Event::N(b)) => self.joined(Event::expanded(b)),
            (Event::Split(n1, l1, r1), Event::Split(n2, l2, r2)) => if n1 > n2 {
                other.joined(self)
            } else {
                Event::Split(
                    n1,
                    Rc::new(l1.joined(l2.lifted(n2 - n1))),
                    Rc::new(r1.joined(r2.lifted(n2 - n1))),
                ).normalized()
            },
        }
    }

    #[via_fn]
    proof fn joined_decreases(self, other: Event) {
        let a = self;
        let b = other;
        assert(Event::N(0).height() == 0);
        if a is N && b is Split {
            assert(Event::expanded(a.base() as u32).height() == 1);
        } else if a is Split && b is N {
            assert(Event::expanded(b.base() as u32).height() == 1);
        } else if a is Split && b is Split && a.base() <= b.base() {
            let d = b.base() - a.base();
            assert(b.left().lifted(d).height() == b.left().height());
            assert(b.right().lifted(d).height() == b.right().height());
        }
    }
}

/// The recursion measure of `join`: the taller of the two trees.
pub open spec fn join_height(a: Event, b: Event) -> nat {
    if a.height() >= b.height() {
        a.height()
    } else {
        b.height()
    }
}

/// The recursion measure of `join` between steps at one height.
pub open spec fn join_rank(a: Event, b: Event) -> nat {
    if a is N && b is N {
        0
    } else if a is N || b is N {
        2
    } else if a.base() > b.base() {
        1
    } else {
        0
    }
}

/// Unfolds `value_at` on each half of a split.
pub proof fn lemma_value_halves(e: Event, q: Seq<bool>)
    requires
        e is Split,
    ensures
        e.value_at(seq![false] + q) == e.base() + e.left().value_at(q),
        e.value_at(seq![true] + q) == e.base() + e.right().value_at(q),
        e.value_at(Seq::empty()) == e.base() + e.left().value_at(Seq::empty()),
{
    assert((seq![false] + q).drop_first() =~= q);
    assert((seq![true] + q).drop_first() =~= q);
}

/// The least and greatest values bound every value and are taken somewhere.
pub proof fn lemma_bounds(e: Event)
    ensures
        forall|p: Seq<bool>| e.min_value() <= #[trigger] e.value_at(p) <= e.max_value(),
        e.value_at(e.min_path()) == e.min_value(),
        e.value_at(e.max_path()) == e.max_value(),
        0 <= e.base() <= e.min_value() <= e.max_value(),
        e.is_normal() ==> e.min_value() == e.base(),
        e.is_normal() && e is Split ==> e.min_value() < e.max_value(),
    decreases e,
{
    if let Event::Split(n, lc, rc) = e {
        let ghost l: Event = *lc;
        let ghost r: Event = *rc;
        lemma_bounds(l);
        lemma_bounds(r);
        lemma_value_halves(e, l.min_path());
        lemma_value_halves(e, r.min_path());
        lemma_value_halves(e, l.max_path());
        lemma_value_halves(e, r.max_path());
        assert forall|p: Seq<bool>| e.min_value() <= #[trigger] e.value_at(p) <= e.max_value() by {
            if p.len() > 0 {
                assert(l.min_value() <= l.value_at(p.drop_first()) <= l.max_value());
                assert(r.min_value() <= r.value_at(p.drop_first()) <= r.max_value());
            } else {
                assert(l.min_value() <= l.value_at(p) <= l.max_value());
            }
        }
    }
}

/// Lifting adds the offset to every value.
pub proof fn lemma_lifted(e: Event, m: int)
    requires
        0 <= m,
        e.base() + m <= u32::MAX,
    ensures
        forall|p: Seq<bool>| #[trigger] e.lifted(m).value_at(p) == e.value_at(p) + m,
        e.lifted(m).min_value() == e.min_value() + m,
        e.lifted(m).max_value() == e.max_value() + m,
        e.lifted(m).height() == e.height(),
        e.is_normal() ==> e.lifted(m).is_normal(),
        e.lifted(m).base() == e.base() + m,
{
}

/// Sinking takes the offset off every value, and keeps normal form.
pub proof fn lemma_sunk(e: Event, m: int)
    requires
        0 <= m <= e.min_value(),
    ensures
        forall|p: Seq<bool>| #[trigger] e.sunk(m).value_at(p) == e.value_at(p) - m,
        e.sunk(m).min_value() == e.min_value() - m,
        e.sunk(m).max_value() == e.max_value() - m,
        e.is_normal() ==> e.sunk(m).is_normal(),
        e is N <==> e.sunk(m) is N,
        m == 0 ==> e.sunk(m) == e,
    decreases e,
{
    lemma_bounds(e);
    if let Event::Split(n, lc, rc) = e {
        let ghost l: Event = *lc;
        let ghost r: Event = *rc;
        if m > n {
            lemma_sunk(l, m - n);
            lemma_sunk(r, m - n);
            let s = e.sunk(m);
            assert forall|p: Seq<bool>| #[trigger] s.value_at(p) == e.value_at(p) - m by {
                if p.len() > 0 {
                    assert(l.sunk(m - n).value_at(p.drop_first()) == l.value_at(p.drop_first()) - (m - n));
                    assert(r.sunk(m - n).value_at(p.drop_first()) == r.value_at(p.drop_first()) - (m - n));
                } else {
                    assert(l.sunk(m - n).value_at(p) == l.value_at(p) - (m - n));
                }
            }
        }
    }
}

/// The smart constructor keeps the denoted function; it yields normal form when the
/// children are normal, and applying it twice changes nothing.
pub proof fn lemma_normalized(e: Event)
    requires
        e.fits(),
    ensures
        e.same_values(e.normalized()),
        e.normalized().max_value() == e.max_value(),
        e.normalized().min_value() == e.min_value(),
        e.normalized().fits(),
        e.children_normal() ==> e.normalized().is_normal(),
        e.normalized().normalized() == e.normalized(),
{
    lemma_bounds(e);
    if let Event::Split(n, lc, rc) = e {
        let ghost l: Event = *lc;
        let ghost r: Event = *rc;
        lemma_bounds(l);
        lemma_bounds(r);
        let x = e.normalized();
        if l is N && r is N && l.base() == r.base() {
            assert forall|p: Seq<bool>| #[trigger] e.value_at(p) == x.value_at(p) by {}
        } else {
            let m = min_int(l.min_value(), r.min_value());
            lemma_sunk(l, m);
            lemma_sunk(r, m);
            assert forall|p: Seq<bool>| #[trigger] e.value_at(p) == x.value_at(p) by {
                if p.len() > 0 {
                    assert(l.sunk(m).value_at(p.drop_first()) == l.value_at(p.drop_first()) - m);
                    assert(r.sunk(m).value_at(p.drop_first()) == r.value_at(p.drop_first()) - m);
                } else {
                    assert(l.sunk(m).value_at(p) == l.value_at(p) - m);
                }
            }
            let l2 = l.sunk(m);
            let r2 = r.sunk(m);
            assert(min_int(l2.min_value(), r2.min_value()) == 0);
            lemma_sunk(l2, 0);
            lemma_sunk(r2, 0);
            assert(x.normalized() == x);
        }
    }
}

/// A tree in normal form that takes a single value is uniform.
pub proof fn lemma_normal_constant(e: Event, c: int)
    requires
        e.is_normal(),
        forall|p: Seq<bool>| #[trigger] e.value_at(p) == c,
    ensures
        e == Event::N(c as u32),
        0 <= c <= u32::MAX,
{
    lemma_bounds(e);
    assert(e.value_at(e.min_path()) == c);
    assert(e.value_at(e.max_path()) == c);
}

/// Trees in normal form that denote the same function are equal.
pub proof fn lemma_normal_unique(a: Event, b: Event)
    requires
        a.is_normal(),
        b.is_normal(),
        a.same_values(b),
    ensures
        a == b,
    decreases a,
{
    lemma_bounds(a);
    lemma_bounds(b);
    assert(a.value_at(a.min_path()) == b.value_at(a.min_path()));
    assert(a.value_at(b.min_path()) == b.value_at(b.min_path()));
    match a {
        Event::N(x) => {
            assert forall|p: Seq<bool>| #[trigger] b.value_at(p) == x as int by {
                assert(a.value_at(p) == b.value_at(p));
            }
            lemma_normal_constant(b, x as int);
        },
        Event::Split(n1, l1c, r1c) => {
            if let Event::Split(n2, l2c, r2c) = b {
                let ghost l1: Event = *l1c;
                let ghost r1: Event = *r1c;
                let ghost l2: Event = *l2c;
                let ghost r2: Event = *r2c;
                assert(n1 == n2);
                assert forall|q: Seq<bool>| #[trigger] l1.value_at(q) == l2.value_at(q) by {
                    lemma_value_halves(a, q);
                    lemma_value_halves(b, q);
                    assert(a.value_at(seq![false] + q) == b.value_at(seq![false] + q));
                }
                assert forall|q: Seq<bool>| #[trigger] r1.value_at(q) == r2.value_at(q) by {
                    lemma_value_halves(a, q);
                    lemma_value_halves(b, q);
                    assert(a.value_at(seq![true] + q) == b.value_at(seq![true] + q));
                }
                lemma_normal_unique(l1, l2);
                lemma_normal_unique(r1, r2);
            } else {
                assert forall|p: Seq<bool>| #[trigger] a.value_at(p) == b.base() by {
                    assert(a.value_at(p) == b.value_at(p));
                }
                assert(a.value_at(a.max_path()) == b.base());
            }
        },
    }
}

/// An expanded uniform value denotes the same function.
pub proof fn lemma_expanded(n: u32)
    ensures
        forall|p: Seq<bool>| #[trigger] Event::expanded(n).value_at(p) == n as int,
        Event::expanded(n).max_value() == n as int,
        Event::expanded(n).children_normal(),
        Event::expanded(n).height() == 1,
{
    assert(Event::N(0).height() == 0);
    assert(Event::N(0).max_value() == 0);
    assert forall|p: Seq<bool>| #[trigger] Event::expanded(n).value_at(p) == n as int by {
        let q = if p.len() == 0 { p } else { p.drop_first() };
        assert(Event::N(0).value_at(q) == 0);
    }
}

/// `joined` is the pointwise maximum; it keeps values in range and yields normal form.
pub proof fn lemma_joined(a: Event, b: Event)
    requires
        a.fits(),
        b.fits(),
    ensures
        forall|p: Seq<bool>| #[trigger] a.joined(b).value_at(p) == max_int(a.value_at(p), b.value_at(p)),
        a.joined(b).max_value() == max_int(a.max_value(), b.max_value()),
        a.joined(b).fits(),
        a.children_normal() && b.children_normal() ==> a.joined(b).is_normal(),
    decreases join_height(a, b), join_rank(a, b),
{
    let j = a.joined(b);
    match (a, b) {
        (Event::N(x), Event::N(y)) => {},
        (Event::N(x), Event::Split(_, _, _)) => {
            lemma_expanded(x);
            lemma_joined(Event::expanded(x), b);
        },
        (Event::Split(_, _, _), Event::N(y)) => {
            lemma_expanded(y);
            lemma_joined(a, Event::expanded(y));
        },
        (Event::Split(n1, l1c, r1c), Event::Split(n2, l2c, r2c)) => {
            if n1 > n2 {
                lemma_joined(b, a);
            } else {
                let ghost l1: Event = *l1c;
                let ghost r1: Event = *r1c;
                let ghost l2: Event = *l2c;
                let ghost r2: Event = *r2c;
                let d = n2 - n1;
                lemma_bounds(a);
                lemma_bounds(b);
                lemma_bounds(l1);
                lemma_bounds(r1);
                lemma_bounds(l2);
                lemma_bounds(r2);
                lemma_lifted(l2, d);
                lemma_lifted(r2, d);
                let ll = l2.lifted(d);
                let rr = r2.lifted(d);
                lemma_joined(l1, ll);
                lemma_joined(r1, rr);
                let s = Event::Split(n1, Rc::new(l1.joined(ll)), Rc::new(r1.joined(rr)));
                assert(s.max_value() == max_int(a.max_value(), b.max_value()));
                lemma_normalized(s);
                assert forall|p: Seq<bool>| #[trigger] j.value_at(p) == max_int(a.value_at(p), b.value_at(p)) by {
                    assert(s.value_at(p) == j.value_at(p));
                    if p.len() > 0 {
                        assert(l1.joined(ll).value_at(p.drop_first()) == max_int(l1.value_at(p.drop_first()), ll.value_at(p.drop_first())));
                        assert(r1.joined(rr).value_at(p.drop_first()) == max_int(r1.value_at(p.drop_first()), rr.value_at(p.drop_first())));
                    } else {
                        assert(l1.joined(ll).value_at(p) == max_int(l1.value_at(p), ll.value_at(p)));
                    }
                }
            }
        },
    }
}


/// The part of the function over one half of the interval, as a tree of its own.
pub open spec fn half(e: Event, second: bool) -> Event {
    match e {
        Event::N(_) => e,
        Event::Split(n, l, r) => if second {
            r.lifted(n as int)
        } else {
            l.lifted(n as int)
        },
    }
}

/// Unfolds `value_at` on one half, through `half`.
pub proof fn lemma_half_value(e: Event, s: bool, q: Seq<bool>)
    requires
        e.fits(),
    ensures
        e.value_at(seq![s] + q) == half(e, s).value_at(q),
        e.value_at(Seq::empty()) == half(e, false).value_at(Seq::empty()),
{
    lemma_bounds(e);
    if let Event::Split(n, _, _) = e {
        lemma_bounds(e.left());
        lemma_bounds(e.right());
        lemma_lifted(e.left(), n as int);
        lemma_lifted(e.right(), n as int);
        lemma_value_halves(e, q);
    }
}

/// A tree is below another exactly when each half is below the same half of the other.
pub proof fn lemma_below_halves(a: Event, b: Event)
    requires
        a.fits(),
        b.fits(),
    ensures
        a.below(b) <==> (half(a, false).below(half(b, false)) && half(a, true).below(half(b, true))),
        b.is_normal() && a.below(b) ==> a.base() <= b.base(),
        forall|q: Seq<bool>| a.base() <= #[trigger] half(a, false).value_at(q),
        forall|q: Seq<bool>| a.base() <= #[trigger] half(a, true).value_at(q),
        a.is_normal() ==> half(a, false).is_normal() && half(a, true).is_normal(),
        half(a, false).fits() && half(a, true).fits(),
        a is Split ==> half(a, false).height() < a.height() && half(a, true).height() < a.height(),
{
    lemma_bounds(a);
    lemma_bounds(b);
    if let Event::Split(n, _, _) = a {
        lemma_bounds(a.left());
        lemma_bounds(a.right());
        lemma_lifted(a.left(), n as int);
        lemma_lifted(a.right(), n as int);
        assert forall|q: Seq<bool>| a.base() <= #[trigger] half(a, false).value_at(q) by {
            lemma_bounds(a.left());
            assert(a.left().min_value() <= a.left().value_at(q));
        }
        assert forall|q: Seq<bool>| a.base() <= #[trigger] half(a, true).value_at(q) by {
            lemma_bounds(a.right());
            assert(a.right().min_value() <= a.right().value_at(q));
        }
    }
    if a.below(b) {
        assert forall|q: Seq<bool>| #[trigger] half(a, false).value_at(q) <= half(b, false).value_at(q) by {
            lemma_half_value(a, false, q);
            lemma_half_value(b, false, q);
            assert(a.value_at(seq![false] + q) <= b.value_at(seq![false] + q));
        }
        assert forall|q: Seq<bool>| #[trigger] half(a, true).value_at(q) <= half(b, true).value_at(q) by {
            lemma_half_value(a, true, q);
            lemma_half_value(b, true, q);
            assert(a.value_at(seq![true] + q) <= b.value_at(seq![true] + q));
        }
        assert(a.value_at(b.min_path()) <= b.value_at(b.min_path()));
    }
    if half(a, false).below(half(b, false)) && half(a, true).below(half(b, true)) {
        assert forall|p: Seq<bool>| #[trigger] a.value_at(p) <= b.value_at(p) by {
            if p.len() == 0 {
                lemma_half_value(a, false, p);
                lemma_half_value(b, false, p);
                assert(p =~= Seq::<bool>::empty());
                assert(half(a, false).value_at(p) <= half(b, false).value_at(p));
            } else {
                let q = p.drop_first();
                assert(p =~= seq![p[0]] + q);
                lemma_half_value(a, p[0], q);
                lemma_half_value(b, p[0], q);
                assert(half(a, p[0]).value_at(q) <= half(b, p[0]).value_at(q));
            }
        }
    }
}

impl Event {
    /// A uniform value written as a split with two zero children.
    pub fn split_from(n: &u32) -> (r: Event)
        ensures
            r == Event::expanded(*n),
    {
        Event::Split(*n, Rc::new(Event::N(0)), Rc::new(Event::N(0)))
    }

    /// The least value of the tree.
    pub fn min(&self) -> (r: u32)
        requires
            self.fits(),
        ensures
            r == self.min_value(),
        decreases self,
    {
        proof {
            lemma_bounds(*self);
        }
        match self {
            Event::N(n) => *n,
            Event::Split(n, l, r) => {
                proof {
                    lemma_bounds(self.left());
                    lemma_bounds(self.right());
                }
                let a = l.min();
                let b = r.min();
                n + if a <= b { a } else { b }
            },
        }
    }

    /// The greatest value of the tree.
    pub fn max(&self) -> (r: u32)
        requires
            self.fits(),
        ensures
            r == self.max_value(),
        decreases self,
    {
        proof {
            lemma_bounds(*self);
        }
        match self {
            Event::N(n) => *n,
            Event::Split(n, l, r) => {
                proof {
                    lemma_bounds(self.left());
                    lemma_bounds(self.right());
                }
                let a = l.max();
                let b = r.max();
                n + if a >= b { a } else { b }
            },
        }
    }

    /// Adds `m` to every value (the children are shared, not copied).
    pub fn lift(&self, m: u32) -> (r: Event)
        requires
            self.base() + m <= u32::MAX,
        ensures
            r == self.lifted(m as int),
    {
        match self {
            Event::N(n) => Event::N(n + m),
            Event::Split(n, l, r) => Event::Split(n + m, Rc::clone(l), Rc::clone(r)),
        }
    }

    /// Takes `m` off every value; `m` must not exceed the least value.
    pub fn sink(&self, m: u32) -> (r: Event)
        requires
            m <= self.min_value(),
        ensures
            r == self.sunk(m as int),
        decreases self,
    {
        proof {
            lemma_bounds(*self);
        }
        match self {
            Event::N(n) => Event::N(n - m),
            Event::Split(n, l, r) => {
                if m <= *n {
                    Event::Split(n - m, Rc::clone(l), Rc::clone(r))
                } else {
                    let k = m - *n;
                    Event::Split(0, Rc::new(l.sink(k)), Rc::new(r.sink(k)))
                }
            },
        }
    }

    /// The one-level smart constructor (see `normalized`).
    pub fn norm(&self) -> (r: Event)
        requires
            self.fits(),
        ensures
            r == self.normalized(),
    {
        proof {
            lemma_bounds(*self);
        }
        match self {
            Event::N(n) => Event::N(*n),
            Event::Split(n, e1, e2) => {
                proof {
                    lemma_bounds(self.left());
                    lemma_bounds(self.right());
                }
                if let (Event::N(m1), Event::N(m2)) = (&**e1, &**e2) {
                    if m1 == m2 {
                        return Event::N(*n + m1);
                    }
                }
                let a = e1.min();
                let b = e2.min();
                let m = if a <= b { a } else { b };
                Event::Split(n + m, Rc::new(e1.sink(m)), Rc::new(e2.sink(m)))
            },
        }
    }

    /// The pointwise maximum of two trees, in normal form when both are.
    pub fn join(&self, other: &Event) -> (r: Event)
        requires
            self.fits(),
            other.fits(),
        ensures
            r == self.joined(*other),
            r.fits(),
            forall|p: Seq<bool>| #[trigger] r.value_at(p) == max_int(self.value_at(p), other.value_at(p)),
            self.is_normal() && other.is_normal() ==> r.is_normal(),
        decreases join_height(*self, *other), join_rank(*self, *other),
    {
        proof {
            lemma_joined(*self, *other);
            lemma_bounds(*self);
            lemma_bounds(*other);
        }
        match (self, other) {
            (Event::N(n1), Event::N(n2)) => Event::N(if n1 > n2 { *n1 } else { *n2 }),
            (Event::N(n1), Event::Split(_, _, _)) => {
                proof {
                    lemma_expanded(*n1);
                }
                Event::split_from(n1).join(other)
            },
            (Event::Split(_, _, _), Event::N(n2)) => {
                proof {
                    lemma_expanded(*n2);
                }
                self.join(&Event::split_from(n2))
            },
            (Event::Split(n1, l1, r1), Event::Split(n2, l2, r2)) => {
                if n1 > n2 {
                    other.join(self)
                } else {
                    let n = n2 - n1;
                    proof {
                        lemma_bounds(self.left());
                        lemma_bounds(self.right());
                        lemma_bounds(other.left());
                        lemma_bounds(other.right());
                        lemma_lifted(other.left(), n as int);
                        lemma_lifted(other.right(), n as int);
                        lemma_joined(self.left(), other.left().lifted(n as int));
                        lemma_joined(self.right(), other.right().lifted(n as int));
                    }
                    let left = l1.join(&l2.lift(n));
                    let right = r1.join(&r2.lift(n));
                    Event::Split(*n1, Rc::new(left), Rc::new(right)).norm()
                }
            },
        }
    }
    /// Pointwise `<=` over the whole interval, for trees in normal form.
    pub fn leq(&self, other: &Event) -> (r: bool)
        requires
            self.fits(),
            other.fits(),
        ensures
            self.is_normal() && other.is_normal() ==> r == self.below(*other),
        decreases self.height() + other.height(),
    {
        proof {
            lemma_below_halves(*self, *other);
            lemma_below_halves(*other, *self);
            lemma_bounds(*self);
            lemma_bounds(*other);
            lemma_bounds(self.left());
            lemma_bounds(self.right());
            lemma_bounds(other.left());
            lemma_bounds(other.right());
        }
        match (self, other) {
            (Event::N(n1), Event::N(n2)) => {
                proof {
                    if *n1 <= *n2 {
                        assert forall|p: Seq<bool>| #[trigger] self.value_at(p) <= other.value_at(p) by {}
                    } else {
                        assert(self.value_at(Seq::empty()) > other.value_at(Seq::empty()));
                    }
                }
                n1 <= n2
            },
            (Event::N(n1), Event::Split(n2, _, _)) => {
                proof {
                    if *n1 <= *n2 {
                        assert forall|p: Seq<bool>| #[trigger] self.value_at(p) <= other.value_at(p) by {}
                    }
                }
                n1 <= n2
            },
            (Event::Split(n1, l1, r1), Event::N(n2)) => {
                n1 <= n2 && l1.lift(*n1).leq(other) && r1.lift(*n1).leq(other)
            },
            (Event::Split(n1, l1, r1), Event::Split(n2, l2, r2)) => {
                n1 <= n2 && l1.lift(*n1).leq(&l2.lift(*n2)) && r1.lift(*n1).leq(&r2.lift(*n2))
            },
        }
    }

    /// Structural equality, computed.
    fn same(&self, other: &Event) -> (r: bool)
        ensures
            r == (*self == *other),
        decreases self,
    {
        match (self, other) {
            (Event::N(n1), Event::N(n2)) => n1 == n2,
            (Event::Split(n1, l1, r1), Event::Split(n2, l2, r2)) => {
                if n1 != n2 {
                    return false;
                }
                let a = l1.same(l2);
                let b = r1.same(r2);
                a && b
            },
            _ => false,
        }
    }
}

impl Clone for Event {
    fn clone(&self) -> (r: Event)
        ensures
            r == *self,
    {
        match self {
            Event::N(n) => Event::N(*n),
            Event::Split(n, l, r) => Event::Split(*n, Rc::clone(l), Rc::clone(r)),
        }
    }
}

impl PartialEq for Event {
    fn eq(&self, other: &Event) -> (r: bool) {
        self.same(other)
    }
}

impl vstd::std_specs::cmp::PartialEqSpecImpl for Event {
    open spec fn obeys_eq_spec() -> bool {
        true
    }

    open spec fn eq_spec(&self, other: &Event) -> bool {
        *self == *other
    }
}

} // verus!
