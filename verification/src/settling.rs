//! What a correction achieves: when it ends an interpenetration, when it
//! leaves the bodies as they are, and that a pass has one outcome only.
use vstd::prelude::*;
use crate::contact::{ColliderID, Contact, Mobile, Wall};
use crate::geometry::{overlap_x, overlap_y, penetrating, touching, Rect};
use crate::priority::{descending, keeps_ties, lemma_order_determined};
use crate::resolve::{
    centre_before, corrected, corrected_through, lemma_sorted_keeps, pushed_out, resolved,
    sorted_by_severity, split_apart,
};

verus! {

/// Two extents lie staggered when neither reaches beyond the other on both
/// sides: the first begins and ends no later than the second, or no earlier.
pub open spec fn staggered(lo: int, len: int, other_lo: int, other_len: int) -> bool {
    ||| lo <= other_lo && lo + len <= other_lo + other_len
    ||| lo >= other_lo && lo + len >= other_lo + other_len
}

/// A move by `amount` away from the other extent stays within the coordinate
/// type.
pub open spec fn move_fits(lo: int, len: int, other_lo: int, other_len: int, amount: int) -> bool {
    if centre_before(lo, len, other_lo, other_len) {
        lo - amount >= i32::MIN
    } else {
        lo + amount <= i32::MAX
    }
}

/// The push of a body out of a rectangle clears it: on the axis of the push
/// the two lie staggered, and the body's new place is within the coordinate
/// type. A body that reaches beyond the rectangle on both sides of that axis,
/// or lies within it on both, is moved by the overlap and is not yet out.
pub open spec fn push_clears(body: Rect, wall: Rect) -> bool {
    if overlap_x(body, wall) <= overlap_y(body, wall) {
        &&& staggered(body.x as int, body.w as int, wall.x as int, wall.w as int)
        &&& move_fits(
            body.x as int,
            body.w as int,
            wall.x as int,
            wall.w as int,
            overlap_x(body, wall),
        )
    } else {
        &&& staggered(body.y as int, body.h as int, wall.y as int, wall.h as int)
        &&& move_fits(
            body.y as int,
            body.h as int,
            wall.y as int,
            wall.h as int,
            overlap_y(body, wall),
        )
    }
}

/// The split between two bodies clears them of each other: on the axis of
/// the correction the two lie staggered, and both new places are within the
/// coordinate type.
pub open spec fn split_clears(a: Rect, b: Rect) -> bool {
    if overlap_x(a, b) <= overlap_y(a, b) {
        &&& staggered(a.x as int, a.w as int, b.x as int, b.w as int)
        &&& i32::MIN <= a.x - overlap_x(a, b) && a.x + overlap_x(a, b) <= i32::MAX
        &&& i32::MIN <= b.x - overlap_x(a, b) && b.x + overlap_x(a, b) <= i32::MAX
    } else {
        &&& staggered(a.y as int, a.h as int, b.y as int, b.h as int)
        &&& i32::MIN <= a.y - overlap_y(a, b) && a.y + overlap_y(a, b) <= i32::MAX
        &&& i32::MIN <= b.y - overlap_y(a, b) && b.y + overlap_y(a, b) <= i32::MAX
    }
}

/// A body that has been pushed out of a wall no longer interpenetrates it.
/// The two still share an edge on the axis of the push, so they still touch
/// in the inclusive sense, with an overlap of zero on that axis; the body has
/// been stopped on that axis, and a second push changes nothing.
pub proof fn lemma_push_ends_interpenetration(body: Mobile, wall: Rect)
    requires
        touching(body.rect, wall),
        push_clears(body.rect, wall),
    ensures
        !penetrating(pushed_out(body, wall).rect, wall),
        touching(pushed_out(body, wall).rect, wall),
        overlap_x(body.rect, wall) <= overlap_y(body.rect, wall) ==> overlap_x(
            pushed_out(body, wall).rect,
            wall,
        ) == 0 && pushed_out(body, wall).vx == 0,
        overlap_x(body.rect, wall) > overlap_y(body.rect, wall) ==> overlap_y(
            pushed_out(body, wall).rect,
            wall,
        ) == 0 && pushed_out(body, wall).vy == 0,
        pushed_out(pushed_out(body, wall), wall) == pushed_out(body, wall),
{
}

/// Two bodies that have shared a correction no longer interpenetrate, and a
/// second correction changes nothing.
pub proof fn lemma_split_ends_interpenetration(a: Mobile, b: Mobile)
    requires
        touching(a.rect, b.rect),
        split_clears(a.rect, b.rect),
    ensures
        !penetrating(split_apart(a, b).0.rect, split_apart(a, b).1.rect),
        touching(split_apart(a, b).0.rect, split_apart(a, b).1.rect),
        split_apart(split_apart(a, b).0, split_apart(a, b).1) == split_apart(a, b),
{
}

/// A contact is settled in a state when its pair needs no correction there:
/// the two are apart, or they share no more than an edge on the axis on which
/// they would be corrected and, where one is a wall, the body is at rest on
/// that axis. A contact that names one body twice, or no body first, or a
/// collider that is not there, counts as settled.
pub open spec fn settled(statics: Seq<Wall>, dynamics: Seq<Mobile>, c: Contact) -> bool {
    match (c.a, c.b) {
        (ColliderID::Dynamic(i), ColliderID::Static(k)) => {
            i < dynamics.len() && k < statics.len() && touching(
                dynamics[i as int].rect,
                statics[k as int].rect,
            ) ==> if overlap_x(dynamics[i as int].rect, statics[k as int].rect) <= overlap_y(
                dynamics[i as int].rect,
                statics[k as int].rect,
            ) {
                overlap_x(dynamics[i as int].rect, statics[k as int].rect) == 0
                    && dynamics[i as int].vx == 0
            } else {
                overlap_y(dynamics[i as int].rect, statics[k as int].rect) == 0
                    && dynamics[i as int].vy == 0
            }
        },
        (ColliderID::Dynamic(i), ColliderID::Dynamic(j)) => {
            i < dynamics.len() && j < dynamics.len() && i != j && touching(
                dynamics[i as int].rect,
                dynamics[j as int].rect,
            ) ==> if overlap_x(dynamics[i as int].rect, dynamics[j as int].rect) <= overlap_y(
                dynamics[i as int].rect,
                dynamics[j as int].rect,
            ) {
                overlap_x(dynamics[i as int].rect, dynamics[j as int].rect) == 0
            } else {
                overlap_y(dynamics[i as int].rect, dynamics[j as int].rect) == 0
            }
        },
        _ => true,
    }
}

/// Correcting a settled contact changes nothing.
pub proof fn lemma_settled_stays(statics: Seq<Wall>, dynamics: Seq<Mobile>, c: Contact)
    requires
        settled(statics, dynamics, c),
    ensures
        corrected(statics, dynamics, c) == dynamics,
{
    assert(corrected(statics, dynamics, c) =~= dynamics);
}

proof fn lemma_through_settled(
    statics: Seq<Wall>,
    dynamics: Seq<Mobile>,
    contacts: Seq<Contact>,
    n: int,
)
    requires
        0 <= n <= contacts.len(),
        forall|i: int| 0 <= i < contacts.len() ==> settled(statics, dynamics, #[trigger] contacts[i]),
    ensures
        corrected_through(statics, dynamics, contacts, n) == dynamics,
    decreases n,
{
    if n > 0 {
        lemma_through_settled(statics, dynamics, contacts, n - 1);
        lemma_settled_stays(statics, dynamics, contacts[n - 1]);
    }
}

/// A pass over a state in which every contact is settled changes nothing: no
/// contact sets off a correction that moves or stops a body.
pub proof fn lemma_pass_on_settled(
    statics: Seq<Wall>,
    dynamics: Seq<Mobile>,
    contacts: Seq<Contact>,
)
    requires
        forall|i: int| 0 <= i < contacts.len() ==> settled(statics, dynamics, #[trigger] contacts[i]),
    ensures
        resolved(statics, dynamics, contacts) == dynamics,
{
    lemma_sorted_keeps(contacts, |c: Contact| settled(statics, dynamics, c));
    let order = sorted_by_severity(contacts);
    lemma_through_settled(statics, dynamics, order, order.len() as int);
}

/// A pass that leaves every contact settled is not changed by a second pass
/// over the same contacts.
pub proof fn lemma_second_pass_changes_nothing(
    statics: Seq<Wall>,
    dynamics: Seq<Mobile>,
    contacts: Seq<Contact>,
)
    requires
        forall|i: int|
            0 <= i < contacts.len() ==> settled(
                statics,
                resolved(statics, dynamics, contacts),
                #[trigger] contacts[i],
            ),
    ensures
        resolved(statics, resolved(statics, dynamics, contacts), contacts) == resolved(
            statics,
            dynamics,
            contacts,
        ),
{
    lemma_pass_on_settled(statics, resolved(statics, dynamics, contacts), contacts);
}

/// A pass over a single contact corrects that contact.
pub proof fn lemma_pass_of_one(statics: Seq<Wall>, dynamics: Seq<Mobile>, c: Contact)
    ensures
        sorted_by_severity(seq![c]) == seq![c],
        resolved(statics, dynamics, seq![c]) == corrected(statics, dynamics, c),
{
    let one = seq![c];
    assert(one.drop_last() =~= Seq::<Contact>::empty());
    assert(sorted_by_severity(one.drop_last()) =~= Seq::<Contact>::empty());
    assert(sorted_by_severity(one) =~= one);
    assert(corrected_through(statics, dynamics, one, 0) == dynamics);
    assert(corrected_through(statics, dynamics, one, 1) == corrected(statics, dynamics, one[0]));
}

/// A single contact between a body and a wall, resolved on its own: after
/// the pass the body no longer interpenetrates the wall, every other body is
/// where it was, and a second pass changes nothing.
pub proof fn lemma_wall_contact_alone(
    statics: Seq<Wall>,
    dynamics: Seq<Mobile>,
    c: Contact,
    i: usize,
    k: usize,
)
    requires
        c.a == ColliderID::Dynamic(i),
        c.b == ColliderID::Static(k),
        i < dynamics.len(),
        k < statics.len(),
        push_clears(dynamics[i as int].rect, statics[k as int].rect),
    ensures
        resolved(statics, dynamics, seq![c]).len() == dynamics.len(),
        !penetrating(
            resolved(statics, dynamics, seq![c])[i as int].rect,
            statics[k as int].rect,
        ),
        forall|j: int|
            0 <= j < dynamics.len() && j != i ==> resolved(statics, dynamics, seq![c])[j]
                == dynamics[j],
        settled(statics, resolved(statics, dynamics, seq![c]), c),
        resolved(statics, resolved(statics, dynamics, seq![c]), seq![c]) == resolved(
            statics,
            dynamics,
            seq![c],
        ),
{
    let after = resolved(statics, dynamics, seq![c]);
    lemma_pass_of_one(statics, dynamics, c);
    lemma_pass_of_one(statics, after, c);
    if touching(dynamics[i as int].rect, statics[k as int].rect) {
        lemma_push_ends_interpenetration(dynamics[i as int], statics[k as int].rect);
    }
    lemma_settled_stays(statics, after, c);
}

/// A single contact between two bodies, resolved on its own: after the pass
/// the two no longer interpenetrate, every other body is where it was, and a
/// second pass changes nothing.
pub proof fn lemma_body_contact_alone(
    statics: Seq<Wall>,
    dynamics: Seq<Mobile>,
    c: Contact,
    i: usize,
    j: usize,
)
    requires
        c.a == ColliderID::Dynamic(i),
        c.b == ColliderID::Dynamic(j),
        i < dynamics.len(),
        j < dynamics.len(),
        i != j,
        split_clears(dynamics[i as int].rect, dynamics[j as int].rect),
    ensures
        resolved(statics, dynamics, seq![c]).len() == dynamics.len(),
        !penetrating(
            resolved(statics, dynamics, seq![c])[i as int].rect,
            resolved(statics, dynamics, seq![c])[j as int].rect,
        ),
        forall|m: int|
            0 <= m < dynamics.len() && m != i && m != j ==> resolved(
                statics,
                dynamics,
                seq![c],
            )[m] == dynamics[m],
        settled(statics, resolved(statics, dynamics, seq![c]), c),
        resolved(statics, resolved(statics, dynamics, seq![c]), seq![c]) == resolved(
            statics,
            dynamics,
            seq![c],
        ),
{
    let after = resolved(statics, dynamics, seq![c]);
    lemma_pass_of_one(statics, dynamics, c);
    lemma_pass_of_one(statics, after, c);
    if touching(dynamics[i as int].rect, dynamics[j as int].rect) {
        lemma_split_ends_interpenetration(dynamics[i as int], dynamics[j as int]);
    }
    lemma_settled_stays(statics, after, c);
}

/// A pass has one outcome: the bodies and the contacts it is given fix the
/// bodies it leaves, whatever the order of contacts of equal severity might
/// have been elsewhere.
pub proof fn lemma_pass_has_one_outcome(
    statics: Seq<Wall>,
    dynamics: Seq<Mobile>,
    contacts: Seq<Contact>,
    order: Seq<Contact>,
    first: Seq<Mobile>,
    second: Seq<Mobile>,
)
    requires
        descending(order),
        keeps_ties(contacts, order),
        first == corrected_through(statics, dynamics, order, order.len() as int),
        second == resolved(statics, dynamics, contacts),
    ensures
        first == second,
        order == sorted_by_severity(contacts),
{
    lemma_order_determined(contacts, order);
}

/// The contact names the body with this index.
pub open spec fn names(c: Contact, i: usize) -> bool {
    c.a == ColliderID::Dynamic(i) || c.b == ColliderID::Dynamic(i)
}

proof fn lemma_unnamed_through(
    statics: Seq<Wall>,
    dynamics: Seq<Mobile>,
    contacts: Seq<Contact>,
    i: usize,
    n: int,
)
    requires
        i < dynamics.len(),
        0 <= n <= contacts.len(),
        forall|k: int| 0 <= k < contacts.len() ==> !names(#[trigger] contacts[k], i),
    ensures
        corrected_through(statics, dynamics, contacts, n).len() == dynamics.len(),
        corrected_through(statics, dynamics, contacts, n)[i as int] == dynamics[i as int],
    decreases n,
{
    if n > 0 {
        lemma_unnamed_through(statics, dynamics, contacts, i, n - 1);
        assert(!names(contacts[n - 1], i));
    }
}

/// A pass moves no body that no contact names, and keeps the number of
/// bodies.
pub proof fn lemma_unnamed_body_stays(
    statics: Seq<Wall>,
    dynamics: Seq<Mobile>,
    contacts: Seq<Contact>,
    i: usize,
)
    requires
        i < dynamics.len(),
        forall|k: int| 0 <= k < contacts.len() ==> !names(#[trigger] contacts[k], i),
    ensures
        resolved(statics, dynamics, contacts).len() == dynamics.len(),
        resolved(statics, dynamics, contacts)[i as int] == dynamics[i as int],
{
    lemma_sorted_keeps(contacts, |c: Contact| !names(c, i));
    let order = sorted_by_severity(contacts);
    lemma_unnamed_through(statics, dynamics, order, i, order.len() as int);
}

proof fn lemma_sizes_through(
    statics: Seq<Wall>,
    dynamics: Seq<Mobile>,
    contacts: Seq<Contact>,
    n: int,
)
    requires
        0 <= n <= contacts.len(),
    ensures
        corrected_through(statics, dynamics, contacts, n).len() == dynamics.len(),
        forall|i: int|
            0 <= i < dynamics.len() ==> (#[trigger] corrected_through(
                statics,
                dynamics,
                contacts,
                n,
            )[i]).rect.w == dynamics[i].rect.w && corrected_through(
                statics,
                dynamics,
                contacts,
                n,
            )[i].rect.h == dynamics[i].rect.h,
    decreases n,
{
    if n > 0 {
        lemma_sizes_through(statics, dynamics, contacts, n - 1);
    }
}

/// A pass keeps the number of bodies and the size of each: it moves bodies
/// and stops them, and does nothing else.
pub proof fn lemma_pass_keeps_sizes(
    statics: Seq<Wall>,
    dynamics: Seq<Mobile>,
    contacts: Seq<Contact>,
)
    ensures
        resolved(statics, dynamics, contacts).len() == dynamics.len(),
        forall|i: int|
            0 <= i < dynamics.len() ==> (#[trigger] resolved(statics, dynamics, contacts)[i]).rect.w
                == dynamics[i].rect.w && resolved(statics, dynamics, contacts)[i].rect.h
                == dynamics[i].rect.h,
{
    let order = sorted_by_severity(contacts);
    lemma_sizes_through(statics, dynamics, order, order.len() as int);
}

} // verus!
