//! Restitution: contacts are ordered by how deep they go, then each is
//! corrected in turn against the rectangles as they stand at that moment.
use vstd::prelude::*;
use crate::contact::{ColliderID, Contact, Mobile, Wall};
use crate::geometry::{overlap_x, overlap_y, rect_displacement, touching, Rect};
use crate::priority::{descending, keeps_ties, lemma_sorted_descending, lemma_sorted_keeps_ties};

verus! {

/// How deep a contact goes: the squared length of its displacement.
pub open spec fn severity(c: Contact) -> int {
    c.displacement.0 * c.displacement.0 + c.displacement.1 * c.displacement.1
}

/// Puts `c` into a sequence behind every contact at least as severe as `c`.
pub open spec fn insert_by_severity(sorted: Seq<Contact>, c: Contact) -> Seq<Contact>
    decreases sorted.len(),
{
    if sorted.len() == 0 {
        seq![c]
    } else if severity(sorted.last()) >= severity(c) {
        sorted.push(c)
    } else {
        insert_by_severity(sorted.drop_last(), c).push(sorted.last())
    }
}

/// The contacts from the most severe to the least; contacts of equal severity
/// keep the order they came in.
pub open spec fn sorted_by_severity(s: Seq<Contact>) -> Seq<Contact>
    decreases s.len(),
{
    if s.len() == 0 {
        Seq::empty()
    } else {
        insert_by_severity(sorted_by_severity(s.drop_last()), s.last())
    }
}

/// The severity of a contact, which always fits 64 bits.
pub fn contact_severity(c: &Contact) -> (s: u64)
    ensures
        s == severity(*c),
{
    let dx: i64 = c.displacement.0 as i64;
    let dy: i64 = c.displacement.1 as i64;
    assert(0 <= dx * dx <= 0x4000_0000_0000_0000) by (nonlinear_arith)
        requires
            -0x8000_0000 <= dx <= 0x7fff_ffff,
    ;
    assert(0 <= dy * dy <= 0x4000_0000_0000_0000) by (nonlinear_arith)
        requires
            -0x8000_0000 <= dy <= 0x7fff_ffff,
    ;
    let sx: u64 = (dx * dx) as u64;
    let sy: u64 = (dy * dy) as u64;
    sx + sy
}

/// Inserting behind the last contact that is at least as severe is inserting
/// at that place.
proof fn lemma_insert_at(sorted: Seq<Contact>, c: Contact, p: int)
    requires
        0 <= p <= sorted.len(),
        forall|k: int| p <= k < sorted.len() ==> severity(#[trigger] sorted[k]) < severity(c),
        p > 0 ==> severity(sorted[p - 1]) >= severity(c),
    ensures
        insert_by_severity(sorted, c) == sorted.insert(p, c),
    decreases sorted.len() - p,
{
    if p == sorted.len() {
        assert(sorted.insert(p, c) =~= sorted.push(c));
    } else {
        let front = sorted.drop_last();
        lemma_insert_at(front, c, p);
        assert(front.insert(p, c).push(sorted.last()) =~= sorted.insert(p, c));
    }
}

/// Orders the contacts from the most severe to the least, keeping contacts of
/// equal severity in the order they had.
pub fn sort_contacts(contacts: &mut [Contact])
    ensures
        final(contacts)@ == sorted_by_severity(old(contacts)@),
        descending(final(contacts)@),
        keeps_ties(old(contacts)@, final(contacts)@),
{
    let ghost before = contacts@;
    let n: usize = contacts.len();
    let mut i: usize = 0;
    while i < n
        invariant
            i <= n,
            n == before.len(),
            contacts@.len() == n,
            contacts@.take(i as int) == sorted_by_severity(before.take(i as int)),
            contacts@.skip(i as int) == before.skip(i as int),
        decreases n - i,
    {
        let x: Contact = contacts[i];
        let key: u64 = contact_severity(&x);
        let ghost prefix = contacts@.take(i as int);
        let ghost rest = contacts@.skip(i as int + 1);
        let mut j: usize = i;
        while j > 0 && contact_severity(&contacts[j - 1]) < key
            invariant
                j <= i < n,
                contacts@.len() == n,
                key == severity(x),
                prefix.len() == i,
                contacts@.take(j as int) == prefix.take(j as int),
                contacts@.subrange(j as int + 1, i as int + 1) == prefix.skip(j as int),
                contacts@.skip(i as int + 1) == rest,
                forall|k: int| j <= k < i ==> severity(#[trigger] prefix[k]) < severity(x),
            decreases j,
        {
            let moved: Contact = contacts[j - 1];
            assert(moved == prefix[j - 1]) by {
                assert(contacts@.take(j as int)[j - 1] == prefix.take(j as int)[j - 1]);
            }
            let ghost prev = contacts@;
            contacts[j] = moved;
            j = j - 1;
            assert(contacts@.take(j as int) =~= prefix.take(j as int)) by {
                assert forall|k: int| 0 <= k < j implies contacts@[k] == prefix[k] by {
                    assert(prev.take(j as int + 1)[k] == prefix.take(j as int + 1)[k]);
                }
            }
            assert(contacts@.subrange(j as int + 1, i as int + 1) =~= prefix.skip(j as int)) by {
                assert forall|k: int| j + 1 < k < i + 1 implies contacts@[k] == prefix[k - 1] by {
                    assert(prev.subrange(j as int + 2, i as int + 1)[k - j - 2] == prefix.skip(
                        j as int + 1,
                    )[k - j - 2]);
                }
            }
            assert(contacts@.skip(i as int + 1) =~= rest);
        }
        contacts[j] = x;
        proof {
            assert(j > 0 ==> contacts@[j - 1] == prefix[j - 1]) by {
                if j > 0 {
                    assert(contacts@.take(j as int)[j - 1] == prefix.take(j as int)[j - 1]);
                }
            }
            lemma_insert_at(prefix, x, j as int);
            assert(contacts@.take(i as int + 1) =~= prefix.insert(j as int, x)) by {
                assert forall|k: int| 0 <= k < i + 1 implies contacts@[k] == prefix.insert(
                    j as int,
                    x,
                )[k] by {
                    if k < j {
                        assert(contacts@.take(j as int)[k] == prefix.take(j as int)[k]);
                    } else if k > j {
                        assert(contacts@.subrange(j as int + 1, i as int + 1)[k - j - 1]
                            == prefix.skip(j as int)[k - j - 1]);
                    }
                }
            }
            assert(before.take(i as int + 1).drop_last() =~= before.take(i as int));
            assert(x == before[i as int]) by {
                assert(before.skip(i as int)[0] == before[i as int]);
            }
            assert(contacts@.skip(i as int + 1) =~= before.skip(i as int + 1)) by {
                assert forall|k: int| i + 1 <= k < n implies contacts@[k] == before[k] by {
                    assert(rest[k - i - 1] == contacts@[k]);
                    assert(before.skip(i as int)[k - i] == before[k]);
                }
            }
        }
        i = i + 1;
    }
    assert(contacts@.take(n as int) =~= contacts@);
    assert(before.take(n as int) =~= before);
    proof {
        lemma_sorted_descending(before);
        lemma_sorted_keeps_ties(before);
    }
}

/// Every contact of the ordered sequence satisfies what every contact of the
/// given sequence satisfies, and none is lost or added.
pub proof fn lemma_sorted_keeps(s: Seq<Contact>, p: spec_fn(Contact) -> bool)
    requires
        forall|i: int| 0 <= i < s.len() ==> p(#[trigger] s[i]),
    ensures
        sorted_by_severity(s).len() == s.len(),
        forall|i: int|
            0 <= i < sorted_by_severity(s).len() ==> p(#[trigger] sorted_by_severity(s)[i]),
    decreases s.len(),
{
    if s.len() > 0 {
        lemma_sorted_keeps(s.drop_last(), p);
        lemma_insert_keeps(sorted_by_severity(s.drop_last()), s.last(), p);
    }
}

proof fn lemma_insert_keeps(t: Seq<Contact>, c: Contact, p: spec_fn(Contact) -> bool)
    requires
        forall|i: int| 0 <= i < t.len() ==> p(#[trigger] t[i]),
        p(c),
    ensures
        insert_by_severity(t, c).len() == t.len() + 1,
        forall|i: int|
            0 <= i < insert_by_severity(t, c).len() ==> p(#[trigger] insert_by_severity(t, c)[i]),
    decreases t.len(),
{
    if t.len() > 0 && severity(t.last()) < severity(c) {
        lemma_insert_keeps(t.drop_last(), c, p);
    }
}

/// The coordinate nearest to `v` that the coordinate type can hold.
pub open spec fn clamp_coord(v: int) -> i32 {
    if v < i32::MIN {
        i32::MIN
    } else if v > i32::MAX {
        i32::MAX
    } else {
        v as i32
    }
}

/// Whether an extent that starts at `lo` has its centre before the centre of
/// one that starts at `other_lo`.
pub open spec fn centre_before(lo: int, len: int, other_lo: int, other_len: int) -> bool {
    2 * lo + len < 2 * other_lo + other_len
}

/// Where an extent starts after it has moved by `amount` away from the centre
/// of another: towards lesser coordinates when its own centre comes first,
/// towards greater ones otherwise. The result stays within the coordinate type.
pub open spec fn shifted_away(lo: i32, len: u16, other_lo: i32, other_len: u16, amount: int)
    -> i32 {
    if centre_before(lo as int, len as int, other_lo as int, other_len as int) {
        clamp_coord(lo - amount)
    } else {
        clamp_coord(lo + amount)
    }
}

/// Where the second of two extents starts after it has moved by `amount` away
/// from the first: towards greater coordinates when the centre of the first
/// comes first, towards lesser ones otherwise, so that the two never move the
/// same way. `lo` and `len` are the first extent, `other_lo` and `other_len`
/// the second, which is the one that moves.
pub open spec fn shifted_against(lo: i32, len: u16, other_lo: i32, other_len: u16, amount: int)
    -> i32 {
    if centre_before(lo as int, len as int, other_lo as int, other_len as int) {
        clamp_coord(other_lo + amount)
    } else {
        clamp_coord(other_lo - amount)
    }
}

/// A body after it has been pushed out of a rectangle that it touches: moved
/// along the axis of the smaller overlap (x where they are equal) by that
/// overlap, away from the rectangle's centre, and stopped on that axis.
pub open spec fn pushed_out(body: Mobile, wall: Rect) -> Mobile {
    let ox = overlap_x(body.rect, wall);
    let oy = overlap_y(body.rect, wall);
    if ox <= oy {
        Mobile {
            rect: Rect {
                x: shifted_away(body.rect.x, body.rect.w, wall.x, wall.w, ox),
                y: body.rect.y,
                w: body.rect.w,
                h: body.rect.h,
            },
            vx: 0,
            vy: body.vy,
        }
    } else {
        Mobile {
            rect: Rect {
                x: body.rect.x,
                y: shifted_away(body.rect.y, body.rect.h, wall.y, wall.h, oy),
                w: body.rect.w,
                h: body.rect.h,
            },
            vx: body.vx,
            vy: 0,
        }
    }
}

/// Two bodies that touch after they have shared the correction: along the
/// axis of the smaller overlap (x where they are equal) the first moves by
/// half the overlap, rounded down, and the second by the rest, each away from
/// the other. Velocities stay as they are.
pub open spec fn split_apart(a: Mobile, b: Mobile) -> (Mobile, Mobile) {
    let ox = overlap_x(a.rect, b.rect);
    let oy = overlap_y(a.rect, b.rect);
    if ox <= oy {
        (
            Mobile {
                rect: Rect {
                    x: shifted_away(a.rect.x, a.rect.w, b.rect.x, b.rect.w, ox / 2),
                    y: a.rect.y,
                    w: a.rect.w,
                    h: a.rect.h,
                },
                vx: a.vx,
                vy: a.vy,
            },
            Mobile {
                rect: Rect {
                    x: shifted_against(a.rect.x, a.rect.w, b.rect.x, b.rect.w, ox - ox / 2),
                    y: b.rect.y,
                    w: b.rect.w,
                    h: b.rect.h,
                },
                vx: b.vx,
                vy: b.vy,
            },
        )
    } else {
        (
            Mobile {
                rect: Rect {
                    x: a.rect.x,
                    y: shifted_away(a.rect.y, a.rect.h, b.rect.y, b.rect.h, oy / 2),
                    w: a.rect.w,
                    h: a.rect.h,
                },
                vx: a.vx,
                vy: a.vy,
            },
            Mobile {
                rect: Rect {
                    x: b.rect.x,
                    y: shifted_against(a.rect.y, a.rect.h, b.rect.y, b.rect.h, oy - oy / 2),
                    w: b.rect.w,
                    h: b.rect.h,
                },
                vx: b.vx,
                vy: b.vy,
            },
        )
    }
}

/// A contact that the collections can answer: its first collider is a body,
/// and both indices lie within their collections.
pub open spec fn contact_valid(c: Contact, walls: nat, bodies: nat) -> bool {
    &&& c.a matches ColliderID::Dynamic(i) && i < bodies
    &&& match c.b {
        ColliderID::Static(k) => k < walls,
        ColliderID::Dynamic(j) => j < bodies,
    }
}

/// The bodies after one contact has been corrected. The pair is tested again
/// as it stands now: where it no longer touches, and where the contact names
/// one body twice or no body first, nothing changes.
pub open spec fn corrected(statics: Seq<Wall>, dynamics: Seq<Mobile>, c: Contact) -> Seq<Mobile> {
    match (c.a, c.b) {
        (ColliderID::Dynamic(i), ColliderID::Static(k)) => {
            if i < dynamics.len() && k < statics.len() && touching(
                dynamics[i as int].rect,
                statics[k as int].rect,
            ) {
                dynamics.update(i as int, pushed_out(dynamics[i as int], statics[k as int].rect))
            } else {
                dynamics
            }
        },
        (ColliderID::Dynamic(i), ColliderID::Dynamic(j)) => {
            if i < dynamics.len() && j < dynamics.len() && i != j && touching(
                dynamics[i as int].rect,
                dynamics[j as int].rect,
            ) {
                let pair = split_apart(dynamics[i as int], dynamics[j as int]);
                dynamics.update(i as int, pair.0).update(j as int, pair.1)
            } else {
                dynamics
            }
        },
        _ => dynamics,
    }
}

/// The bodies after the first `n` of the contacts have been corrected, one
/// after the other.
pub open spec fn corrected_through(
    statics: Seq<Wall>,
    dynamics: Seq<Mobile>,
    contacts: Seq<Contact>,
    n: int,
) -> Seq<Mobile>
    decreases n,
{
    if n <= 0 {
        dynamics
    } else {
        corrected(statics, corrected_through(statics, dynamics, contacts, n - 1), contacts[n - 1])
    }
}

/// The bodies after a whole pass: the contacts are taken from the most severe
/// to the least, and each is corrected against the bodies as the earlier
/// corrections left them.
pub open spec fn resolved(statics: Seq<Wall>, dynamics: Seq<Mobile>, contacts: Seq<Contact>)
    -> Seq<Mobile> {
    corrected_through(
        statics,
        dynamics,
        sorted_by_severity(contacts),
        sorted_by_severity(contacts).len() as int,
    )
}

/// The coordinate nearest to `v`.
pub fn clamp_to_coord(v: i64) -> (r: i32)
    ensures
        r == clamp_coord(v as int),
{
    if v < i32::MIN as i64 {
        i32::MIN
    } else if v > i32::MAX as i64 {
        i32::MAX
    } else {
        v as i32
    }
}

/// Moves the start of an extent by `amount` away from the centre of another.
fn shift_away(lo: i32, len: u16, other_lo: i32, other_len: u16, amount: i32) -> (r: i32)
    requires
        0 <= amount <= u16::MAX,
    ensures
        r == shifted_away(lo, len, other_lo, other_len, amount as int),
{
    let centre: i64 = 2 * (lo as i64) + len as i64;
    let other: i64 = 2 * (other_lo as i64) + other_len as i64;
    if centre < other {
        clamp_to_coord(lo as i64 - amount as i64)
    } else {
        clamp_to_coord(lo as i64 + amount as i64)
    }
}

/// Moves the start of the second of two extents by `amount` away from the
/// first.
fn shift_against(lo: i32, len: u16, other_lo: i32, other_len: u16, amount: i32) -> (r: i32)
    requires
        0 <= amount <= u16::MAX,
    ensures
        r == shifted_against(lo, len, other_lo, other_len, amount as int),
{
    let centre: i64 = 2 * (lo as i64) + len as i64;
    let other: i64 = 2 * (other_lo as i64) + other_len as i64;
    if centre < other {
        clamp_to_coord(other_lo as i64 + amount as i64)
    } else {
        clamp_to_coord(other_lo as i64 - amount as i64)
    }
}

/// Corrects one contact against the bodies as they stand. A body that touches
/// a wall is pushed out of it and stopped on the axis of the push; two bodies
/// that touch share the correction. A pair that no longer touches is left
/// alone, and no body but those the contact names changes.
pub fn correct_contact(statics: &[Wall], dynamics: &mut [Mobile], c: &Contact)
    requires
        contact_valid(*c, statics@.len(), old(dynamics)@.len()),
    ensures
        final(dynamics)@ == corrected(statics@, old(dynamics)@, *c),
        final(dynamics)@.len() == old(dynamics)@.len(),
{
    match (c.a, c.b) {
        (ColliderID::Dynamic(i), ColliderID::Static(k)) => {
            let body: Mobile = dynamics[i];
            let wall: Rect = statics[k].rect;
            if let Some((ox, oy)) = rect_displacement(body.rect, wall) {
                let moved: Mobile = if ox <= oy {
                    Mobile {
                        rect: Rect {
                            x: shift_away(body.rect.x, body.rect.w, wall.x, wall.w, ox),
                            y: body.rect.y,
                            w: body.rect.w,
                            h: body.rect.h,
                        },
                        vx: 0,
                        vy: body.vy,
                    }
                } else {
                    Mobile {
                        rect: Rect {
                            x: body.rect.x,
                            y: shift_away(body.rect.y, body.rect.h, wall.y, wall.h, oy),
                            w: body.rect.w,
                            h: body.rect.h,
                        },
                        vx: body.vx,
                        vy: 0,
                    }
                };
                dynamics[i] = moved;
            }
        },
        (ColliderID::Dynamic(i), ColliderID::Dynamic(j)) => {
            if i != j {
                let a: Mobile = dynamics[i];
                let b: Mobile = dynamics[j];
                if let Some((ox, oy)) = rect_displacement(a.rect, b.rect) {
                    if ox <= oy {
                        let near: i32 = ox / 2;
                        let far: i32 = ox - near;
                        dynamics[i] = Mobile {
                            rect: Rect {
                                x: shift_away(a.rect.x, a.rect.w, b.rect.x, b.rect.w, near),
                                y: a.rect.y,
                                w: a.rect.w,
                                h: a.rect.h,
                            },
                            vx: a.vx,
                            vy: a.vy,
                        };
                        dynamics[j] = Mobile {
                            rect: Rect {
                                x: shift_against(a.rect.x, a.rect.w, b.rect.x, b.rect.w, far),
                                y: b.rect.y,
                                w: b.rect.w,
                                h: b.rect.h,
                            },
                            vx: b.vx,
                            vy: b.vy,
                        };
                    } else {
                        let near: i32 = oy / 2;
                        let far: i32 = oy - near;
                        dynamics[i] = Mobile {
                            rect: Rect {
                                x: a.rect.x,
                                y: shift_away(a.rect.y, a.rect.h, b.rect.y, b.rect.h, near),
                                w: a.rect.w,
                                h: a.rect.h,
                            },
                            vx: a.vx,
                            vy: a.vy,
                        };
                        dynamics[j] = Mobile {
                            rect: Rect {
                                x: b.rect.x,
                                y: shift_against(a.rect.y, a.rect.h, b.rect.y, b.rect.h, far),
                                w: b.rect.w,
                                h: b.rect.h,
                            },
                            vx: b.vx,
                            vy: b.vy,
                        };
                    }
                }
            }
        },
        _ => {},
    }
}

/// One pass of restitution. The contacts are put in order, from the most
/// severe to the least, contacts of equal severity as they came; then each is
/// corrected against the bodies as the corrections before it left them. The
/// walls and the number of bodies stay as they are.
pub fn restitute(statics: &[Wall], dynamics: &mut [Mobile], contacts: &mut [Contact])
    requires
        forall|i: int|
            0 <= i < old(contacts)@.len() ==> contact_valid(
                #[trigger] old(contacts)@[i],
                statics@.len(),
                old(dynamics)@.len(),
            ),
    ensures
        final(contacts)@ == sorted_by_severity(old(contacts)@),
        descending(final(contacts)@),
        keeps_ties(old(contacts)@, final(contacts)@),
        final(dynamics)@ == resolved(statics@, old(dynamics)@, old(contacts)@),
        final(dynamics)@ == corrected_through(
            statics@,
            old(dynamics)@,
            final(contacts)@,
            final(contacts)@.len() as int,
        ),
        final(dynamics)@.len() == old(dynamics)@.len(),
{
    let ghost start = dynamics@;
    let ghost given = contacts@;
    sort_contacts(contacts);
    proof {
        lemma_sorted_keeps(
            given,
            |c: Contact| contact_valid(c, statics@.len(), start.len()),
        );
    }
    let n: usize = contacts.len();
    let mut k: usize = 0;
    while k < n
        invariant
            k <= n,
            n == contacts@.len(),
            contacts@ == sorted_by_severity(given),
            dynamics@.len() == start.len(),
            dynamics@ == corrected_through(statics@, start, contacts@, k as int),
            forall|i: int|
                0 <= i < contacts@.len() ==> contact_valid(
                    #[trigger] contacts@[i],
                    statics@.len(),
                    start.len(),
                ),
        decreases n - k,
    {
        let c: Contact = contacts[k];
        correct_contact(statics, dynamics, &c);
        k = k + 1;
    }
}

} // verus!
