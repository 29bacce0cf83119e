//! Axis-aligned rectangles and the two predicates everything else rests on:
//! whether two rectangles touch, and by how much they overlap on each axis.
use vstd::prelude::*;

verus! {

/// An axis-aligned rectangle: a signed origin, which may lie off screen, and
/// an unsigned extent.
#[derive(Clone, Copy, PartialEq, Eq, Debug, Structural)]
pub struct Rect {
    pub x: i32,
    pub y: i32,
    pub w: u16,
    pub h: u16,
}

/// A point or offset in pixels.
#[derive(Clone, Copy, PartialEq, Eq, Debug, Structural)]
pub struct Vec2i(pub i32, pub i32);

impl Rect {
    /// The least x coordinate of the rectangle.
    pub open spec fn left(self) -> int {
        self.x as int
    }

    /// The greatest x coordinate of the rectangle.
    pub open spec fn right(self) -> int {
        self.x + self.w
    }

    /// The least y coordinate of the rectangle.
    pub open spec fn top(self) -> int {
        self.y as int
    }

    /// The greatest y coordinate of the rectangle.
    pub open spec fn bottom(self) -> int {
        self.y + self.h
    }
}

/// The lesser of two integers.
pub open spec fn least(a: int, b: int) -> int {
    if a <= b {
        a
    } else {
        b
    }
}

/// The greater of two integers.
pub open spec fn greatest(a: int, b: int) -> int {
    if a >= b {
        a
    } else {
        b
    }
}

/// Two rectangles touch when their projections meet on both axes. The test is
/// inclusive: rectangles that share no more than an edge or a corner touch.
pub open spec fn touching(r1: Rect, r2: Rect) -> bool {
    &&& r1.left() <= r2.right()
    &&& r2.left() <= r1.right()
    &&& r1.top() <= r2.bottom()
    &&& r2.top() <= r1.bottom()
}

/// Length of the stretch that the two projections on the x axis share;
/// negative when they are apart.
pub open spec fn overlap_x(r1: Rect, r2: Rect) -> int {
    least(r1.right(), r2.right()) - greatest(r1.left(), r2.left())
}

/// Length of the stretch that the two projections on the y axis share;
/// negative when they are apart.
pub open spec fn overlap_y(r1: Rect, r2: Rect) -> int {
    least(r1.bottom(), r2.bottom()) - greatest(r1.top(), r2.top())
}

/// The overlap of two rectangles on each axis, where neither is negative.
/// A zero component marks an edge contact.
pub open spec fn overlap(r1: Rect, r2: Rect) -> Option<(i32, i32)> {
    if overlap_x(r1, r2) >= 0 && overlap_y(r1, r2) >= 0 {
        Some((overlap_x(r1, r2) as i32, overlap_y(r1, r2) as i32))
    } else {
        None
    }
}

/// Two rectangles interpenetrate when they share an area, not just an edge
/// or a corner: their overlap is positive on both axes.
pub open spec fn penetrating(r1: Rect, r2: Rect) -> bool {
    overlap_x(r1, r2) > 0 && overlap_y(r1, r2) > 0
}

/// Whether two rectangles touch, edges included.
pub fn rect_touching(r1: Rect, r2: Rect) -> (b: bool)
    ensures
        b == touching(r1, r2),
{
    let l1: i64 = r1.x as i64;
    let l2: i64 = r2.x as i64;
    let t1: i64 = r1.y as i64;
    let t2: i64 = r2.y as i64;
    l1 <= l2 + r2.w as i64 && l2 <= l1 + r1.w as i64 && t1 <= t2 + r2.h as i64 && t2 <= t1
        + r1.h as i64
}

/// The overlap of two rectangles on each axis, or `None` when they are apart
/// on either. The result is defined exactly when the rectangles touch, and a
/// component is never larger than the smaller extent on its axis.
pub fn rect_displacement(r1: Rect, r2: Rect) -> (d: Option<(i32, i32)>)
    ensures
        d == overlap(r1, r2),
        d.is_some() <==> touching(r1, r2),
        d matches Some((dx, dy)) ==> dx == overlap_x(r1, r2) && dy == overlap_y(r1, r2),
{
    let right1: i64 = r1.x as i64 + r1.w as i64;
    let right2: i64 = r2.x as i64 + r2.w as i64;
    let bottom1: i64 = r1.y as i64 + r1.h as i64;
    let bottom2: i64 = r2.y as i64 + r2.h as i64;
    let right: i64 = if right1 <= right2 { right1 } else { right2 };
    let left: i64 = if r1.x >= r2.x { r1.x as i64 } else { r2.x as i64 };
    let bottom: i64 = if bottom1 <= bottom2 { bottom1 } else { bottom2 };
    let top: i64 = if r1.y >= r2.y { r1.y as i64 } else { r2.y as i64 };
    let x_overlap: i64 = right - left;
    let y_overlap: i64 = bottom - top;
    if x_overlap >= 0 && y_overlap >= 0 {
        Some((x_overlap as i32, y_overlap as i32))
    } else {
        None
    }
}

/// Overlap and touching do not depend on the order of the two rectangles.
pub proof fn lemma_symmetry(r1: Rect, r2: Rect)
    ensures
        overlap(r1, r2) == overlap(r2, r1),
        overlap_x(r1, r2) == overlap_x(r2, r1),
        overlap_y(r1, r2) == overlap_y(r2, r1),
        touching(r1, r2) == touching(r2, r1),
{
}

/// An overlap is defined exactly when the rectangles touch. Rectangles that
/// touch without sharing an area are the edge contacts: there both hold, and
/// the overlap has a zero component. Rectangles of positive width and height
/// share an area exactly when each begins before the other ends, on both
/// axes.
pub proof fn lemma_overlap_iff_touching(r1: Rect, r2: Rect)
    ensures
        overlap(r1, r2).is_some() <==> touching(r1, r2),
        touching(r1, r2) && !penetrating(r1, r2) <==> overlap(r1, r2).is_some() && (overlap_x(
            r1,
            r2,
        ) == 0 || overlap_y(r1, r2) == 0),
        penetrating(r1, r2) ==> touching(r1, r2),
        r1.w > 0 && r1.h > 0 && r2.w > 0 && r2.h > 0 ==> (penetrating(r1, r2) <==> r1.left()
            < r2.right() && r2.left() < r1.right() && r1.top() < r2.bottom() && r2.top()
            < r1.bottom()),
{
}

/// A defined overlap is bounded on each axis by the smaller of the two
/// extents, so it fits the coordinate type.
pub proof fn lemma_overlap_bounds(r1: Rect, r2: Rect)
    requires
        touching(r1, r2),
    ensures
        0 <= overlap_x(r1, r2) <= least(r1.w as int, r2.w as int),
        0 <= overlap_y(r1, r2) <= least(r1.h as int, r2.h as int),
        overlap(r1, r2) matches Some(d) && d.0 == overlap_x(r1, r2) && d.1 == overlap_y(r1, r2),
{
}

} // verus!
