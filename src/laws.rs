//! Algebraic laws of the stamp operations, proved over their specifications.
use crate::event_tree::{Event, lemma_bounds, lemma_joined, lemma_normal_unique, lemma_normalized};
use crate::id_tree::{
    Id, disjoint, lemma_can_sum_disjoint, lemma_id_normal_unique, lemma_split, lemma_sum,
    lemma_witness_paths, owned_path, same_owner,
};
use crate::stamp::{Stamp, advanced, fill_spec, grow_spec, lemma_fill, lemma_fill_ready, lemma_grow};
use vstd::prelude::*;

verus! {

/// Joining normal-form event trees gives the same tree in either order.
proof fn event_join_commutes(a: Event, b: Event)
    requires
        a.is_normal() && a.fits(),
        b.is_normal() && b.fits(),
    ensures
        a.joined(b) == b.joined(a),
{
    lemma_joined(a, b);
    lemma_joined(b, a);
    assert(a.joined(b).same_values(b.joined(a)));
    lemma_normal_unique(a.joined(b), b.joined(a));
}

/// Summing disjoint normal-form identities gives the same identity in either order.
proof fn id_sum_commutes(a: Id, b: Id)
    requires
        a.is_normal(),
        b.is_normal(),
        a.can_sum(b),
    ensures
        b.can_sum(a),
        a.summed(b) == b.summed(a),
{
    lemma_can_sum_disjoint(a, b);
    lemma_can_sum_disjoint(b, a);
    lemma_sum(a, b);
    lemma_sum(b, a);
    assert(same_owner(a.summed(b), b.summed(a)));
    lemma_id_normal_unique(a.summed(b), b.summed(a));
}

/// Forking hands both results the history of the stamp forked, and the two identities it
/// hands out sum back to that stamp's identity (already in normal form).
pub proof fn fork_partitions_identity(s: Stamp)
    requires
        s.wf(),
    ensures
        s.id.split_spec().0.can_sum(s.id.split_spec().1),
        s.id.split_spec().0.summed(s.id.split_spec().1).normalized() == s.id,
        s.id.split_spec().0.summed(s.id.split_spec().1) == s.id,
{
    let (a, b) = s.id.split_spec();
    lemma_split(s.id);
    lemma_sum(a, b);
    assert(same_owner(a.summed(b), s.id));
    lemma_id_normal_unique(a.summed(b), s.id);
}

/// Join is idempotent on every stamp it accepts with itself (for a stamp in normal form,
/// only an anonymous one).
pub proof fn join_idempotent(x: Stamp)
    requires
        x.wf(),
        x.id.can_sum(x.id),
    ensures
        x.joined(x) == x,
{
    lemma_joined(x.event, x.event);
    lemma_normal_unique(x.event.joined(x.event), x.event);
    lemma_can_sum_disjoint(x.id, x.id);
    lemma_witness_paths(x.id);
    if !(x.id is Empty) {
        assert(x.id.owns(owned_path(x.id)));
    }
}

/// Join is commutative.
pub proof fn join_commutative(x: Stamp, y: Stamp)
    requires
        x.wf(),
        y.wf(),
        x.id.can_sum(y.id),
    ensures
        y.id.can_sum(x.id),
        x.joined(y) == y.joined(x),
{
    event_join_commutes(x.event, y.event);
    id_sum_commutes(x.id, y.id);
}

/// Join is associative on stamps whose identities are pairwise disjoint.
pub proof fn join_associative(x: Stamp, y: Stamp, z: Stamp)
    requires
        x.wf(),
        y.wf(),
        z.wf(),
        x.id.can_sum(y.id),
        y.id.can_sum(z.id),
        x.id.can_sum(z.id),
    ensures
        x.id.summed(y.id).can_sum(z.id),
        x.id.can_sum(y.id.summed(z.id)),
        x.joined(y).joined(z) == x.joined(y.joined(z)),
{
    let (a, b, c) = (x.event, y.event, z.event);
    lemma_joined(a, b);
    lemma_joined(b, c);
    lemma_joined(a.joined(b), c);
    lemma_joined(a, b.joined(c));
    assert(a.joined(b).joined(c).same_values(a.joined(b.joined(c))));
    lemma_normal_unique(a.joined(b).joined(c), a.joined(b.joined(c)));
    let (i, j, k) = (x.id, y.id, z.id);
    lemma_can_sum_disjoint(i, j);
    lemma_can_sum_disjoint(j, k);
    lemma_can_sum_disjoint(i, k);
    lemma_sum(i, j);
    lemma_sum(j, k);
    lemma_can_sum_disjoint(i.summed(j), k);
    lemma_can_sum_disjoint(i, j.summed(k));
    assert(disjoint(i.summed(j), k));
    assert(disjoint(i, j.summed(k)));
    lemma_sum(i.summed(j), k);
    lemma_sum(i, j.summed(k));
    assert(same_owner(i.summed(j).summed(k), i.summed(j.summed(k))));
    lemma_id_normal_unique(i.summed(j).summed(k), i.summed(j.summed(k)));
}

/// After an event, joining the stamp with its own anonymous snapshot changes nothing:
/// a participant that receives what it sent learns nothing new.
pub proof fn join_own_snapshot_after_event(s: Stamp)
    requires
        s.wf(),
        !(s.id is Empty),
        s.event.max_value() < u32::MAX,
    ensures
        ({
            let t = Stamp { id: s.id, event: advanced(s.id, s.event) };
            t.id.can_sum(t.peeked().id) && t.joined(t.peeked()) == t
        }),
{
    let e2 = advanced(s.id, s.event);
    lemma_fill(s.id, s.event);
    if fill_spec(s.id, s.event) == s.event {
        lemma_fill_ready(s.id, s.event);
        lemma_grow(s.id, s.event);
        let g = grow_spec(s.id, s.event).0;
        lemma_bounds(g);
        lemma_bounds(s.event);
        let w = g.max_path();
        assert(g.value_at(w) <= s.event.value_at(w) + 1);
    }
    assert(e2.is_normal() && e2.fits());
    lemma_joined(e2, e2);
    lemma_normal_unique(e2.joined(e2), e2);
}

/// Applying the one-level smart constructors twice is the same as applying them once.
pub proof fn normalize_idempotent(i: Id, e: Event)
    requires
        e.fits(),
    ensures
        i.normalized().normalized() == i.normalized(),
        e.normalized().normalized() == e.normalized(),
{
    lemma_normalized(e);
}

} // verus!
