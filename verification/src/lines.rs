//! What a drawn line is: the points nearest to the ideal line, one for each
//! step along the longer side of its extent.
use vstd::prelude::*;
use crate::draw::{gap, lean, pixel_at, toward, trail, walk};

verus! {

/// Twice the scaled distance of the point `(a, b)` from the ideal line over
/// an extent of `w` by `h`: positive beyond the line across, negative short
/// of it.
pub open spec fn off_line(a: int, b: int, w: int, h: int) -> int {
    2 * (b * w - a * h)
}

/// The point `(a, b)` is the one nearest to the ideal line at its place
/// along the longer side of the extent: no more than half a step away,
/// where a point exactly half a step away counts on one side only.
pub open spec fn nearest(a: int, b: int, w: int, h: int) -> bool {
    if w >= h {
        0 <= a < w && 0 <= b <= h && -w < off_line(a, b, w, h) <= w
    } else {
        0 <= b < h && 0 <= a <= w && -h <= off_line(a, b, w, h) < h
    }
}

proof fn lemma_off_line_steps(a: int, b: int, w: int, h: int)
    ensures
        off_line(a + 1, b, w, h) == off_line(a, b, w, h) - 2 * h,
        off_line(a, b + 1, w, h) == off_line(a, b, w, h) + 2 * w,
        off_line(a + 1, b + 1, w, h) == off_line(a, b, w, h) + 2 * w - 2 * h,
        lean(a, b, w, h) == off_line(a, b, w, h) + 2 * w - 2 * h,
{
    assert((a + 1) * h == a * h + h) by (nonlinear_arith);
    assert((b + 1) * w == b * w + w) by (nonlinear_arith);
}

/// A line over an extent that is at least as wide as high steps along at
/// every point and stays nearest to the ideal line.
proof fn lemma_shallow_walk(a: int, b: int, w: int, h: int)
    requires
        0 <= h <= w,
        0 <= a <= w,
        0 <= b <= h,
        -w < off_line(a, b, w, h) <= w,
    ensures
        walk(a, b, w, h).len() == w - a,
        forall|k: int|
            0 <= k < w - a ==> (#[trigger] walk(a, b, w, h)[k]).0 == a + k && nearest(
                a + k,
                walk(a, b, w, h)[k].1,
                w,
                h,
            ),
    decreases w - a,
{
    lemma_off_line_steps(a, b, w, h);
    if a == w {
        assert(b == h) by (nonlinear_arith)
            requires
                -w < 2 * (b * w - w * h) <= w,
                0 <= b <= h,
                0 <= w,
        ;
    } else {
        let across = lean(a, b, w, h) <= w && b < h;
        let nb = if across {
            b + 1
        } else {
            b
        };
        if !across && lean(a, b, w, h) <= w {
            assert(off_line(a, b, w, h) - 2 * h > -w) by (nonlinear_arith)
                requires
                    b == h,
                    0 <= a < w,
                    0 <= h,
                    off_line(a, b, w, h) == 2 * (b * w - a * h),
            ;
        }
        lemma_shallow_walk(a + 1, nb, w, h);
        let rest = walk(a + 1, nb, w, h);
        assert(walk(a, b, w, h) == seq![(a, b)] + rest);
        assert forall|k: int| 0 <= k < w - a implies (#[trigger] walk(a, b, w, h)[k]).0 == a + k
            && nearest(a + k, walk(a, b, w, h)[k].1, w, h) by {
            if k > 0 {
                assert(walk(a, b, w, h)[k] == rest[k - 1]);
            }
        }
    }
}

/// A line over an extent that is higher than wide steps across at every
/// point and stays nearest to the ideal line.
proof fn lemma_steep_walk(a: int, b: int, w: int, h: int)
    requires
        0 <= w < h,
        0 <= a <= w,
        0 <= b <= h,
        -h <= off_line(a, b, w, h) < h,
    ensures
        walk(a, b, w, h).len() == h - b,
        forall|k: int|
            0 <= k < h - b ==> (#[trigger] walk(a, b, w, h)[k]).1 == b + k && nearest(
                walk(a, b, w, h)[k].0,
                b + k,
                w,
                h,
            ),
    decreases h - b,
{
    lemma_off_line_steps(a, b, w, h);
    if b == h {
        assert(a == w) by (nonlinear_arith)
            requires
                -h <= 2 * (h * w - a * h) < h,
                0 <= a <= w,
                0 < h,
        ;
    } else {
        let along = lean(a, b, w, h) >= -h && a < w;
        let na = if along {
            a + 1
        } else {
            a
        };
        if !along && lean(a, b, w, h) >= -h {
            assert(off_line(a, b, w, h) + 2 * w < h) by (nonlinear_arith)
                requires
                    a == w,
                    0 <= b < h,
                    0 <= w,
                    off_line(a, b, w, h) == 2 * (b * w - a * h),
            ;
        }
        lemma_steep_walk(na, b + 1, w, h);
        let rest = walk(na, b + 1, w, h);
        assert(walk(a, b, w, h) == seq![(a, b)] + rest);
        assert forall|k: int| 0 <= k < h - b implies (#[trigger] walk(a, b, w, h)[k]).1 == b + k
            && nearest(walk(a, b, w, h)[k].0, b + k, w, h) by {
            if k > 0 {
                assert(walk(a, b, w, h)[k] == rest[k - 1]);
            }
        }
    }
}

/// A line has one point for each step along the longer side of its extent,
/// in order, and its points are exactly the points nearest to the ideal
/// line.
pub proof fn lemma_walk_is_nearest(w: int, h: int)
    requires
        0 <= w,
        0 <= h,
    ensures
        walk(0, 0, w, h).len() == if w >= h {
            w
        } else {
            h
        },
        forall|k: int|
            0 <= k < walk(0, 0, w, h).len() ==> if w >= h {
                (#[trigger] walk(0, 0, w, h)[k]).0 == k
            } else {
                walk(0, 0, w, h)[k].1 == k
            },
        forall|a: int, b: int|
            nearest(a, b, w, h) <==> #[trigger] walk(0, 0, w, h).contains((a, b)),
{
    let points = walk(0, 0, w, h);
    assert(off_line(0, 0, w, h) == 0) by (nonlinear_arith)
        requires
            off_line(0, 0, w, h) == 2 * (0 * w - 0 * h),
    ;
    if w >= h {
        if w > 0 {
            lemma_shallow_walk(0, 0, w, h);
        }
        assert forall|a: int, b: int| nearest(a, b, w, h) implies #[trigger] points.contains(
            (a, b),
        ) by {
            let found = points[a];
            assert(found.0 == a && nearest(a, found.1, w, h));
            assert(found.1 == b) by (nonlinear_arith)
                requires
                    -w < 2 * (b * w - a * h) <= w,
                    -w < 2 * (found.1 * w - a * h) <= w,
                    0 < w,
            ;
            assert(points[a] == (a, b));
        }
        assert forall|a: int, b: int| #[trigger] points.contains((a, b)) implies nearest(
            a,
            b,
            w,
            h,
        ) by {
            let k = choose|k: int| 0 <= k < points.len() && points[k] == (a, b);
            assert(points[k].0 == k);
        }
    } else {
        lemma_steep_walk(0, 0, w, h);
        assert forall|a: int, b: int| nearest(a, b, w, h) implies #[trigger] points.contains(
            (a, b),
        ) by {
            let found = points[b];
            assert(found.1 == b && nearest(found.0, b, w, h));
            assert(found.0 == a) by (nonlinear_arith)
                requires
                    -h <= 2 * (b * w - a * h) < h,
                    -h <= 2 * (b * w - found.0 * h) < h,
                    0 < h,
            ;
            assert(points[b] == (a, b));
        }
        assert forall|a: int, b: int| #[trigger] points.contains((a, b)) implies nearest(
            a,
            b,
            w,
            h,
        ) by {
            let k = choose|k: int| 0 <= k < points.len() && points[k] == (a, b);
            assert(points[k].1 == k);
        }
    }
}

/// The pixels nearest to the ideal line from `(x0, y0)` to `(x1, y1)`, for
/// each step along the longer side of its extent but the last.
pub open spec fn nearest_pixels(x0: int, y0: int, x1: int, y1: int) -> Set<int> {
    Set::new(
        |p: int|
            exists|a: int, b: int|
                #[trigger] nearest(a, b, gap(x0, x1), gap(y0, y1)) && p == pixel_at(
                    toward(x0, x1, a),
                    toward(y0, y1, b),
                ),
    )
}

/// The pixels that a line paints are the pixels nearest to the ideal line.
pub proof fn lemma_trail_is_nearest(x0: int, y0: int, x1: int, y1: int)
    ensures
        trail(x0, y0, x1, y1) == nearest_pixels(x0, y0, x1, y1),
{
    let w = gap(x0, x1);
    let h = gap(y0, y1);
    let points = walk(0, 0, w, h);
    let drawn = trail(x0, y0, x1, y1);
    let ideal = nearest_pixels(x0, y0, x1, y1);
    lemma_walk_is_nearest(w, h);
    assert forall|p: int| drawn.contains(p) implies ideal.contains(p) by {
        let k = choose|k: int|
            0 <= k < points.len() && p == pixel_at(
                toward(x0, x1, (#[trigger] points[k]).0),
                toward(y0, y1, points[k].1),
            );
        assert(points.contains((points[k].0, points[k].1)));
        assert(nearest(points[k].0, points[k].1, w, h));
    }
    assert forall|p: int| ideal.contains(p) implies drawn.contains(p) by {
        let (a, b) = choose|a: int, b: int|
            #[trigger] nearest(a, b, w, h) && p == pixel_at(toward(x0, x1, a), toward(y0, y1, b));
        assert(points.contains((a, b)));
        let k = choose|k: int| 0 <= k < points.len() && points[k] == (a, b);
        assert(points[k].0 == a && points[k].1 == b);
    }
    assert(drawn =~= ideal);
}

} // verus!
