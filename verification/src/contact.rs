//! Colliders and contact generation: every pair of bodies, and every body
//! against every wall, that touch.
use vstd::prelude::*;
use crate::geometry::{overlap, rect_displacement, Rect};

verus! {

/// A collider that never moves.
#[derive(Clone, Copy, PartialEq, Eq, Debug)]
pub struct Wall {
    pub rect: Rect,
}

/// A collider that moves: a rectangle and a velocity in pixels per step.
#[derive(Clone, Copy, PartialEq, Eq, Debug)]
pub struct Mobile {
    pub rect: Rect,
    pub vx: i32,
    pub vy: i32,
}

/// Names a collider by its place in one of two collections: the walls or the
/// bodies. It is an index, never a reference, and holds for one step only.
#[derive(PartialEq, Eq, Clone, Copy, Debug)]
pub enum ColliderID {
    Static(usize),
    Dynamic(usize),
}

/// Two colliders that touch, with their overlap on each axis at the time the
/// contact was found.
#[derive(PartialEq, Eq, Clone, Copy, Debug)]
pub struct Contact {
    pub a: ColliderID,
    pub b: ColliderID,
    pub displacement: (i32, i32),
}

/// The contact of one pair: a single contact where the two rectangles touch,
/// nothing where they do not.
pub open spec fn contact_between(a: ColliderID, b: ColliderID, ra: Rect, rb: Rect) -> Seq<
    Contact,
> {
    match overlap(ra, rb) {
        Some(d) => seq![Contact { a, b, displacement: d }],
        None => Seq::empty(),
    }
}

/// Contacts of body `i` with the bodies after it and before `j`, in order.
pub open spec fn body_row(dynamics: Seq<Mobile>, i: int, j: int) -> Seq<Contact>
    decreases j - i,
{
    if j <= i + 1 {
        Seq::empty()
    } else {
        body_row(dynamics, i, j - 1) + contact_between(
            ColliderID::Dynamic(i as usize),
            ColliderID::Dynamic((j - 1) as usize),
            dynamics[i].rect,
            dynamics[j - 1].rect,
        )
    }
}

/// Contacts among the bodies for the first `n` choices of the earlier body.
pub open spec fn body_contacts(dynamics: Seq<Mobile>, n: int) -> Seq<Contact>
    decreases n,
{
    if n <= 0 {
        Seq::empty()
    } else {
        body_contacts(dynamics, n - 1) + body_row(dynamics, n - 1, dynamics.len() as int)
    }
}

/// Contacts of body `i` with the first `k` walls, in order.
pub open spec fn wall_row(statics: Seq<Wall>, dynamics: Seq<Mobile>, i: int, k: int) -> Seq<
    Contact,
>
    decreases k,
{
    if k <= 0 {
        Seq::empty()
    } else {
        wall_row(statics, dynamics, i, k - 1) + contact_between(
            ColliderID::Dynamic(i as usize),
            ColliderID::Static((k - 1) as usize),
            dynamics[i].rect,
            statics[k - 1].rect,
        )
    }
}

/// Contacts of the first `n` bodies with all the walls.
pub open spec fn wall_contacts(statics: Seq<Wall>, dynamics: Seq<Mobile>, n: int) -> Seq<Contact>
    decreases n,
{
    if n <= 0 {
        Seq::empty()
    } else {
        wall_contacts(statics, dynamics, n - 1) + wall_row(
            statics,
            dynamics,
            n - 1,
            statics.len() as int,
        )
    }
}

/// All contacts of one step: first each pair of bodies, the earlier body
/// first, then each body against each wall.
pub open spec fn contacts_of(statics: Seq<Wall>, dynamics: Seq<Mobile>) -> Seq<Contact> {
    body_contacts(dynamics, dynamics.len() as int) + wall_contacts(
        statics,
        dynamics,
        dynamics.len() as int,
    )
}

/// Fills `into` with the contacts among `dynamics` and between `dynamics` and
/// `statics`. Whatever `into` held before is dropped: the contacts of one
/// step do not outlive it.
pub fn gather_contacts(statics: &[Wall], dynamics: &[Mobile], into: &mut Vec<Contact>)
    ensures
        final(into)@ == contacts_of(statics@, dynamics@),
        in_order(final(into)@),
        forall|n: int|
            0 <= n < final(into)@.len() ==> genuine(statics@, dynamics@, #[trigger] final(into)@[n]),
        forall|c: Contact|
            genuine(statics@, dynamics@, c) ==> #[trigger] final(into)@.contains(c),
{
    into.clear();
    let ghost before = into@;
    proof {
        assert(statics.len() == statics@.len() && dynamics.len() == dynamics@.len());
        lemma_contacts_exact(statics@, dynamics@);
        lemma_contacts_in_order(statics@, dynamics@);
    }
    let n: usize = dynamics.len();
    let m: usize = statics.len();
    let mut ai: usize = 0;
    while ai < n
        invariant
            ai <= n,
            n == dynamics@.len(),
            into@ == before + body_contacts(dynamics@, ai as int),
        decreases n - ai,
    {
        let a: Mobile = dynamics[ai];
        let ghost row_start = into@;
        let mut bi: usize = ai + 1;
        while bi < n
            invariant
                ai < n,
                ai + 1 <= bi <= n,
                n == dynamics@.len(),
                a == dynamics@[ai as int],
                into@ == row_start + body_row(dynamics@, ai as int, bi as int),
            decreases n - bi,
        {
            let b: Mobile = dynamics[bi];
            if let Some(disp) = rect_displacement(a.rect, b.rect) {
                into.push(
                    Contact {
                        a: ColliderID::Dynamic(ai),
                        b: ColliderID::Dynamic(bi),
                        displacement: disp,
                    },
                );
            }
            bi = bi + 1;
        }
        ai = ai + 1;
    }
    let ghost bodies_done = into@;
    let mut ai: usize = 0;
    while ai < n
        invariant
            ai <= n,
            n == dynamics@.len(),
            m == statics@.len(),
            into@ == bodies_done + wall_contacts(statics@, dynamics@, ai as int),
        decreases n - ai,
    {
        let a: Mobile = dynamics[ai];
        let ghost row_start = into@;
        let mut bi: usize = 0;
        while bi < m
            invariant
                ai < n,
                bi <= m,
                n == dynamics@.len(),
                m == statics@.len(),
                a == dynamics@[ai as int],
                into@ == row_start + wall_row(statics@, dynamics@, ai as int, bi as int),
            decreases m - bi,
        {
            let b: Wall = statics[bi];
            if let Some(disp) = rect_displacement(a.rect, b.rect) {
                into.push(
                    Contact {
                        a: ColliderID::Dynamic(ai),
                        b: ColliderID::Static(bi),
                        displacement: disp,
                    },
                );
            }
            bi = bi + 1;
        }
        ai = ai + 1;
    }
}

/// A contact that generation yields for these colliders: a body and a later
/// body, or a body and a wall, that touch, with their overlap.
pub open spec fn genuine(statics: Seq<Wall>, dynamics: Seq<Mobile>, c: Contact) -> bool {
    match (c.a, c.b) {
        (ColliderID::Dynamic(i), ColliderID::Dynamic(j)) => {
            &&& i < j < dynamics.len()
            &&& overlap(dynamics[i as int].rect, dynamics[j as int].rect) == Some(c.displacement)
        },
        (ColliderID::Dynamic(i), ColliderID::Static(k)) => {
            &&& i < dynamics.len()
            &&& k < statics.len()
            &&& overlap(dynamics[i as int].rect, statics[k as int].rect) == Some(c.displacement)
        },
        _ => false,
    }
}

proof fn lemma_body_row(dynamics: Seq<Mobile>, i: int, j: int)
    requires
        0 <= i < dynamics.len(),
        j <= dynamics.len() <= usize::MAX,
    ensures
        forall|n: int|
            0 <= n < body_row(dynamics, i, j).len() ==> genuine(
                Seq::empty(),
                dynamics,
                #[trigger] body_row(dynamics, i, j)[n],
            ),
        forall|c: Contact|
            genuine(Seq::empty(), dynamics, c) && c.a == ColliderID::Dynamic(i as usize) && (
            c.b matches ColliderID::Dynamic(b) && b < j) ==> #[trigger] body_row(
                dynamics,
                i,
                j,
            ).contains(c),
    decreases j - i,
{
    if j > i + 1 {
        lemma_body_row(dynamics, i, j - 1);
        let before = body_row(dynamics, i, j - 1);
        let last = contact_between(
            ColliderID::Dynamic(i as usize),
            ColliderID::Dynamic((j - 1) as usize),
            dynamics[i].rect,
            dynamics[j - 1].rect,
        );
        let row = body_row(dynamics, i, j);
        assert(row == before + last);
        assert forall|c: Contact|
            genuine(Seq::empty(), dynamics, c) && c.a == ColliderID::Dynamic(i as usize) && (
            c.b matches ColliderID::Dynamic(b) && b < j) implies #[trigger] row.contains(c) by {
            if c.b == ColliderID::Dynamic((j - 1) as usize) {
                assert(last[0] == c);
                assert(row[before.len() as int] == c);
            } else {
                assert(before.contains(c));
                let n = choose|n: int| 0 <= n < before.len() && before[n] == c;
                assert(row[n] == c);
            }
        }
    }
}

proof fn lemma_body_contacts(dynamics: Seq<Mobile>, n: int)
    requires
        n <= dynamics.len() <= usize::MAX,
    ensures
        forall|m: int|
            0 <= m < body_contacts(dynamics, n).len() ==> genuine(
                Seq::empty(),
                dynamics,
                #[trigger] body_contacts(dynamics, n)[m],
            ),
        forall|c: Contact|
            genuine(Seq::empty(), dynamics, c) && (c.a matches ColliderID::Dynamic(a) && a < n) && (
            c.b is Dynamic) ==> #[trigger] body_contacts(dynamics, n).contains(c),
    decreases n,
{
    if n > 0 {
        lemma_body_contacts(dynamics, n - 1);
        lemma_body_row(dynamics, n - 1, dynamics.len() as int);
        let before = body_contacts(dynamics, n - 1);
        let row = body_row(dynamics, n - 1, dynamics.len() as int);
        let all = body_contacts(dynamics, n);
        assert(all == before + row);
        assert forall|c: Contact|
            genuine(Seq::empty(), dynamics, c) && (c.a matches ColliderID::Dynamic(a) && a < n) && (
            c.b is Dynamic) implies #[trigger] all.contains(c) by {
            if c.a == ColliderID::Dynamic((n - 1) as usize) {
                assert(row.contains(c));
                let m = choose|m: int| 0 <= m < row.len() && row[m] == c;
                assert(all[before.len() + m] == c);
            } else {
                assert(before.contains(c));
                let m = choose|m: int| 0 <= m < before.len() && before[m] == c;
                assert(all[m] == c);
            }
        }
    }
}

proof fn lemma_wall_row(statics: Seq<Wall>, dynamics: Seq<Mobile>, i: int, k: int)
    requires
        0 <= i < dynamics.len() <= usize::MAX,
        k <= statics.len() <= usize::MAX,
    ensures
        forall|n: int|
            0 <= n < wall_row(statics, dynamics, i, k).len() ==> genuine(
                statics,
                dynamics,
                #[trigger] wall_row(statics, dynamics, i, k)[n],
            ),
        forall|c: Contact|
            genuine(statics, dynamics, c) && c.a == ColliderID::Dynamic(i as usize) && (
            c.b matches ColliderID::Static(b) && b < k) ==> #[trigger] wall_row(
                statics,
                dynamics,
                i,
                k,
            ).contains(c),
    decreases k,
{
    if k > 0 {
        lemma_wall_row(statics, dynamics, i, k - 1);
        let before = wall_row(statics, dynamics, i, k - 1);
        let last = contact_between(
            ColliderID::Dynamic(i as usize),
            ColliderID::Static((k - 1) as usize),
            dynamics[i].rect,
            statics[k - 1].rect,
        );
        let row = wall_row(statics, dynamics, i, k);
        assert(row == before + last);
        assert forall|c: Contact|
            genuine(statics, dynamics, c) && c.a == ColliderID::Dynamic(i as usize) && (
            c.b matches ColliderID::Static(b) && b < k) implies #[trigger] row.contains(c) by {
            if c.b == ColliderID::Static((k - 1) as usize) {
                assert(last[0] == c);
                assert(row[before.len() as int] == c);
            } else {
                assert(before.contains(c));
                let n = choose|n: int| 0 <= n < before.len() && before[n] == c;
                assert(row[n] == c);
            }
        }
    }
}

proof fn lemma_wall_contacts(statics: Seq<Wall>, dynamics: Seq<Mobile>, n: int)
    requires
        n <= dynamics.len() <= usize::MAX,
        statics.len() <= usize::MAX,
    ensures
        forall|m: int|
            0 <= m < wall_contacts(statics, dynamics, n).len() ==> genuine(
                statics,
                dynamics,
                #[trigger] wall_contacts(statics, dynamics, n)[m],
            ),
        forall|c: Contact|
            genuine(statics, dynamics, c) && (c.a matches ColliderID::Dynamic(a) && a < n) && (
            c.b is Static) ==> #[trigger] wall_contacts(statics, dynamics, n).contains(c),
    decreases n,
{
    if n > 0 {
        lemma_wall_contacts(statics, dynamics, n - 1);
        lemma_wall_row(statics, dynamics, n - 1, statics.len() as int);
        let before = wall_contacts(statics, dynamics, n - 1);
        let row = wall_row(statics, dynamics, n - 1, statics.len() as int);
        let all = wall_contacts(statics, dynamics, n);
        assert(all == before + row);
        assert forall|c: Contact|
            genuine(statics, dynamics, c) && (c.a matches ColliderID::Dynamic(a) && a < n) && (
            c.b is Static) implies #[trigger] all.contains(c) by {
            if c.a == ColliderID::Dynamic((n - 1) as usize) {
                assert(row.contains(c));
                let m = choose|m: int| 0 <= m < row.len() && row[m] == c;
                assert(all[before.len() + m] == c);
            } else {
                assert(before.contains(c));
                let m = choose|m: int| 0 <= m < before.len() && before[m] == c;
                assert(all[m] == c);
            }
        }
    }
}

/// Generation yields the contacts of the colliders and no others: each
/// contact it gives names a body and a later body, or a body and a wall, that
/// touch, and carries their overlap; and each such pair is among them.
pub proof fn lemma_contacts_exact(statics: Seq<Wall>, dynamics: Seq<Mobile>)
    requires
        statics.len() <= usize::MAX,
        dynamics.len() <= usize::MAX,
    ensures
        forall|n: int|
            0 <= n < contacts_of(statics, dynamics).len() ==> genuine(
                statics,
                dynamics,
                #[trigger] contacts_of(statics, dynamics)[n],
            ),
        forall|c: Contact|
            genuine(statics, dynamics, c) ==> #[trigger] contacts_of(statics, dynamics).contains(c),
{
    let bodies = body_contacts(dynamics, dynamics.len() as int);
    let walls = wall_contacts(statics, dynamics, dynamics.len() as int);
    let all = contacts_of(statics, dynamics);
    lemma_body_contacts(dynamics, dynamics.len() as int);
    lemma_wall_contacts(statics, dynamics, dynamics.len() as int);
    assert forall|n: int| 0 <= n < all.len() implies genuine(statics, dynamics, #[trigger] all[n]) by {
        if n < bodies.len() {
            assert(all[n] == bodies[n]);
            assert(genuine(Seq::empty(), dynamics, bodies[n]));
        } else {
            assert(all[n] == walls[n - bodies.len()]);
        }
    }
    assert forall|c: Contact| genuine(statics, dynamics, c) implies #[trigger] all.contains(c) by {
        if c.b is Dynamic {
            assert(genuine(Seq::empty(), dynamics, c));
            assert(bodies.contains(c));
            let m = choose|m: int| 0 <= m < bodies.len() && bodies[m] == c;
            assert(all[m] == c);
        } else {
            assert(walls.contains(c));
            let m = choose|m: int| 0 <= m < walls.len() && walls[m] == c;
            assert(all[bodies.len() + m] == c);
        }
    }
}

/// The kind of a contact: 0 between two bodies, 1 between a body and a wall.
pub open spec fn kind_of(c: Contact) -> int {
    match c.b {
        ColliderID::Dynamic(_) => 0,
        ColliderID::Static(_) => 1,
    }
}

/// The index of the first collider of a contact.
pub open spec fn first_of(c: Contact) -> int {
    match c.a {
        ColliderID::Dynamic(i) => i as int,
        ColliderID::Static(i) => i as int,
    }
}

/// The index of the second collider of a contact.
pub open spec fn second_of(c: Contact) -> int {
    match c.b {
        ColliderID::Dynamic(j) => j as int,
        ColliderID::Static(k) => k as int,
    }
}

/// `c` comes before `d` in the order of generation: by kind, then by the
/// index of the first collider, then by that of the second.
pub open spec fn comes_before(c: Contact, d: Contact) -> bool {
    ||| kind_of(c) < kind_of(d)
    ||| kind_of(c) == kind_of(d) && first_of(c) < first_of(d)
    ||| kind_of(c) == kind_of(d) && first_of(c) == first_of(d) && second_of(c) < second_of(d)
}

/// Each contact of the sequence comes before every later one.
pub open spec fn in_order(s: Seq<Contact>) -> bool {
    forall|m: int, n: int| 0 <= m < n < s.len() ==> comes_before(s[m], s[n])
}

proof fn lemma_body_row_order(dynamics: Seq<Mobile>, i: int, j: int)
    requires
        0 <= i < dynamics.len(),
        j <= dynamics.len() <= usize::MAX,
    ensures
        forall|n: int|
            0 <= n < body_row(dynamics, i, j).len() ==> kind_of(
                #[trigger] body_row(dynamics, i, j)[n],
            ) == 0 && first_of(body_row(dynamics, i, j)[n]) == i && second_of(
                body_row(dynamics, i, j)[n],
            ) < j,
        in_order(body_row(dynamics, i, j)),
    decreases j - i,
{
    if j > i + 1 {
        lemma_body_row_order(dynamics, i, j - 1);
        let before = body_row(dynamics, i, j - 1);
        let last = contact_between(
            ColliderID::Dynamic(i as usize),
            ColliderID::Dynamic((j - 1) as usize),
            dynamics[i].rect,
            dynamics[j - 1].rect,
        );
        let row = body_row(dynamics, i, j);
        assert(row == before + last);
        assert forall|n: int| 0 <= n < row.len() implies kind_of(#[trigger] row[n]) == 0
            && first_of(row[n]) == i && second_of(row[n]) < j && (n < before.len() ==> row[n]
            == before[n]) && (n >= before.len() ==> second_of(row[n]) == j - 1) by {
            if n < before.len() {
                assert(row[n] == before[n]);
            } else {
                assert(row[n] == last[n - before.len()]);
            }
        }
        assert forall|m: int, n: int| 0 <= m < n < row.len() implies comes_before(
            row[m],
            row[n],
        ) by {
            assert(kind_of(row[m]) == 0 && kind_of(row[n]) == 0);
            if n < before.len() {
                assert(comes_before(before[m], before[n]));
            } else {
                assert(row[m] == before[m]);
                assert(second_of(before[m]) < j - 1);
            }
        }
    }
}

proof fn lemma_body_contacts_order(dynamics: Seq<Mobile>, n: int)
    requires
        n <= dynamics.len() <= usize::MAX,
    ensures
        forall|m: int|
            0 <= m < body_contacts(dynamics, n).len() ==> kind_of(
                #[trigger] body_contacts(dynamics, n)[m],
            ) == 0 && first_of(body_contacts(dynamics, n)[m]) < n,
        in_order(body_contacts(dynamics, n)),
    decreases n,
{
    if n > 0 {
        lemma_body_contacts_order(dynamics, n - 1);
        lemma_body_row_order(dynamics, n - 1, dynamics.len() as int);
        let before = body_contacts(dynamics, n - 1);
        let row = body_row(dynamics, n - 1, dynamics.len() as int);
        let all = body_contacts(dynamics, n);
        assert(all == before + row);
        assert forall|m: int| 0 <= m < all.len() implies kind_of(#[trigger] all[m]) == 0
            && first_of(all[m]) < n && (m < before.len() ==> all[m] == before[m]) && (m
            >= before.len() ==> all[m] == row[m - before.len()]) by {
            if m < before.len() {
                assert(all[m] == before[m]);
            } else {
                assert(all[m] == row[m - before.len()]);
            }
        }
        assert forall|m: int, k: int| 0 <= m < k < all.len() implies comes_before(
            all[m],
            all[k],
        ) by {
            assert(kind_of(all[m]) == 0 && kind_of(all[k]) == 0);
            if k < before.len() {
                assert(comes_before(before[m], before[k]));
            } else if m < before.len() {
                assert(first_of(before[m]) < n - 1);
                assert(first_of(row[k - before.len()]) == n - 1);
            } else {
                assert(comes_before(row[m - before.len()], row[k - before.len()]));
            }
        }
    }
}

proof fn lemma_wall_row_order(statics: Seq<Wall>, dynamics: Seq<Mobile>, i: int, k: int)
    requires
        0 <= i < dynamics.len() <= usize::MAX,
        k <= statics.len() <= usize::MAX,
    ensures
        forall|n: int|
            0 <= n < wall_row(statics, dynamics, i, k).len() ==> kind_of(
                #[trigger] wall_row(statics, dynamics, i, k)[n],
            ) == 1 && first_of(wall_row(statics, dynamics, i, k)[n]) == i && second_of(
                wall_row(statics, dynamics, i, k)[n],
            ) < k,
        in_order(wall_row(statics, dynamics, i, k)),
    decreases k,
{
    if k > 0 {
        lemma_wall_row_order(statics, dynamics, i, k - 1);
        let before = wall_row(statics, dynamics, i, k - 1);
        let last = contact_between(
            ColliderID::Dynamic(i as usize),
            ColliderID::Static((k - 1) as usize),
            dynamics[i].rect,
            statics[k - 1].rect,
        );
        let row = wall_row(statics, dynamics, i, k);
        assert(row == before + last);
        assert forall|n: int| 0 <= n < row.len() implies kind_of(#[trigger] row[n]) == 1
            && first_of(row[n]) == i && second_of(row[n]) < k && (n < before.len() ==> row[n]
            == before[n]) && (n >= before.len() ==> second_of(row[n]) == k - 1) by {
            if n < before.len() {
                assert(row[n] == before[n]);
            } else {
                assert(row[n] == last[n - before.len()]);
            }
        }
        assert forall|m: int, n: int| 0 <= m < n < row.len() implies comes_before(
            row[m],
            row[n],
        ) by {
            assert(kind_of(row[m]) == 1 && kind_of(row[n]) == 1);
            if n < before.len() {
                assert(comes_before(before[m], before[n]));
            } else {
                assert(row[m] == before[m]);
                assert(second_of(before[m]) < k - 1);
            }
        }
    }
}

proof fn lemma_wall_contacts_order(statics: Seq<Wall>, dynamics: Seq<Mobile>, n: int)
    requires
        n <= dynamics.len() <= usize::MAX,
        statics.len() <= usize::MAX,
    ensures
        forall|m: int|
            0 <= m < wall_contacts(statics, dynamics, n).len() ==> kind_of(
                #[trigger] wall_contacts(statics, dynamics, n)[m],
            ) == 1 && first_of(wall_contacts(statics, dynamics, n)[m]) < n,
        in_order(wall_contacts(statics, dynamics, n)),
    decreases n,
{
    if n > 0 {
        lemma_wall_contacts_order(statics, dynamics, n - 1);
        lemma_wall_row_order(statics, dynamics, n - 1, statics.len() as int);
        let before = wall_contacts(statics, dynamics, n - 1);
        let row = wall_row(statics, dynamics, n - 1, statics.len() as int);
        let all = wall_contacts(statics, dynamics, n);
        assert(all == before + row);
        assert forall|m: int| 0 <= m < all.len() implies kind_of(#[trigger] all[m]) == 1
            && first_of(all[m]) < n && (m < before.len() ==> all[m] == before[m]) && (m
            >= before.len() ==> all[m] == row[m - before.len()]) by {
            if m < before.len() {
                assert(all[m] == before[m]);
            } else {
                assert(all[m] == row[m - before.len()]);
            }
        }
        assert forall|m: int, k: int| 0 <= m < k < all.len() implies comes_before(
            all[m],
            all[k],
        ) by {
            assert(kind_of(all[m]) == 1 && kind_of(all[k]) == 1);
            if k < before.len() {
                assert(comes_before(before[m], before[k]));
            } else if m < before.len() {
                assert(first_of(before[m]) < n - 1);
                assert(first_of(row[k - before.len()]) == n - 1);
            } else {
                assert(comes_before(row[m - before.len()], row[k - before.len()]));
            }
        }
    }
}

/// Generation yields the contacts in one order: first those between two
/// bodies, then those between a body and a wall; within each kind by the
/// index of the first collider, and within that by the index of the second.
/// The order is strict, so no pair is listed twice.
pub proof fn lemma_contacts_in_order(statics: Seq<Wall>, dynamics: Seq<Mobile>)
    requires
        statics.len() <= usize::MAX,
        dynamics.len() <= usize::MAX,
    ensures
        in_order(contacts_of(statics, dynamics)),
        forall|m: int, n: int|
            0 <= m < n < contacts_of(statics, dynamics).len() ==> contacts_of(statics, dynamics)[m]
                != contacts_of(statics, dynamics)[n],
{
    let bodies = body_contacts(dynamics, dynamics.len() as int);
    let walls = wall_contacts(statics, dynamics, dynamics.len() as int);
    let all = contacts_of(statics, dynamics);
    lemma_body_contacts_order(dynamics, dynamics.len() as int);
    lemma_wall_contacts_order(statics, dynamics, dynamics.len() as int);
    assert forall|m: int, n: int| 0 <= m < n < all.len() implies comes_before(all[m], all[n]) by {
        if n < bodies.len() {
            assert(all[m] == bodies[m] && all[n] == bodies[n]);
            assert(comes_before(bodies[m], bodies[n]));
        } else if m < bodies.len() {
            assert(all[m] == bodies[m]);
            assert(all[n] == walls[n - bodies.len()]);
            assert(kind_of(bodies[m]) == 0);
            assert(kind_of(walls[n - bodies.len()]) == 1);
        } else {
            assert(all[m] == walls[m - bodies.len()]);
            assert(all[n] == walls[n - bodies.len()]);
            assert(comes_before(walls[m - bodies.len()], walls[n - bodies.len()]));
        }
    }
    assert forall|m: int, n: int| 0 <= m < n < all.len() implies all[m] != all[n] by {
        assert(comes_before(all[m], all[n]));
    }
}

} // verus!
