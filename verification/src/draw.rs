//! Drawing into a framebuffer of four bytes per pixel, row after row: filled
//! and framed rectangles, horizontal runs, and lines.
use vstd::prelude::*;
use crate::geometry::{Rect, Vec2i};
use crate::lines::{lemma_trail_is_nearest, nearest_pixels};
use crate::sprite::Texture;

verus! {

/// Bytes per pixel.
pub const DEPTH: usize = 4;

/// Width of the frame in pixels.
pub const WIDTH: usize = 700;

/// Height of the frame in pixels.
pub const HEIGHT: usize = 550;

/// Bytes per row of the frame.
pub const PITCH: usize = WIDTH * DEPTH;

/// A colour: red, green, blue and alpha.
pub type Color = [u8; 4];

/// The place of a pixel in the frame, counted row after row.
pub open spec fn pixel_at(x: int, y: int) -> int {
    y * WIDTH + x
}

/// The pixels from `from` up to and without `to`.
pub open spec fn span(from: int, to: int) -> Set<int> {
    Set::new(|p: int| from <= p < to)
}

/// The pixels of the columns from `x0` up to and without `x1` in the rows
/// from `y0` up to and without `y1`.
pub open spec fn block(x0: int, x1: int, y0: int, y1: int) -> Set<int> {
    Set::new(|p: int| y0 <= p / (WIDTH as int) < y1 && x0 <= p % (WIDTH as int) < x1)
}

/// The bytes of a buffer after the given pixels have taken the colour `c`:
/// each byte of such a pixel holds its part of the colour, every other byte
/// is as it was.
pub open spec fn painted(fb: Seq<u8>, pixels: Set<int>, c: Color) -> Seq<u8> {
    Seq::new(
        fb.len(),
        |i: int|
            if pixels.contains(i / 4) {
                c[i % 4]
            } else {
                fb[i]
            },
    )
}

/// Gives one pixel the colour `c`.
fn put_pixel(fb: &mut [u8], p: usize, c: Color)
    requires
        4 * p + 4 <= old(fb)@.len(),
    ensures
        final(fb)@ == painted(old(fb)@, set![p as int], c),
{
    let at: usize = 4 * p;
    fb[at] = c[0];
    fb[at + 1] = c[1];
    fb[at + 2] = c[2];
    fb[at + 3] = c[3];
    assert(fb@ =~= painted(old(fb)@, set![p as int], c));
}

/// Painting in two goes is painting the pixels of both.
proof fn lemma_painted_twice(fb: Seq<u8>, first: Set<int>, second: Set<int>, c: Color)
    ensures
        painted(painted(fb, first, c), second, c) == painted(fb, first.union(second), c),
{
    assert(painted(painted(fb, first, c), second, c) =~= painted(fb, first.union(second), c));
}

/// Gives every whole pixel of the buffer the colour `c`. Bytes at the end
/// that do not make a pixel are left as they are.
pub fn clear(fb: &mut [u8], c: Color)
    ensures
        final(fb)@ == painted(old(fb)@, span(0, old(fb)@.len() as int / 4), c),
{
    let ghost before = fb@;
    let n: usize = fb.len() / 4;
    let mut p: usize = 0;
    while p < n
        invariant
            p <= n,
            n == before.len() / 4,
            fb@.len() == before.len(),
            fb@ == painted(before, span(0, p as int), c),
        decreases n - p,
    {
        put_pixel(fb, p, c);
        proof {
            lemma_painted_twice(before, span(0, p as int), set![p as int], c);
            assert(span(0, p as int).union(set![p as int]) =~= span(0, p as int + 1));
        }
        p = p + 1;
    }
}

/// Paints the pixels of row `y` from column `x0` up to and without `x1`.
pub fn hline(fb: &mut [u8], x0: usize, x1: usize, y: usize, c: Color)
    requires
        y < HEIGHT,
        x0 <= x1,
        x1 < WIDTH,
        y * PITCH + x1 * DEPTH <= old(fb)@.len(),
    ensures
        final(fb)@ == painted(old(fb)@, block(x0 as int, x1 as int, y as int, y + 1), c),
{
    let ghost before = fb@;
    let row: usize = y * WIDTH;
    let mut x: usize = x0;
    assert(block(x0 as int, x0 as int, y as int, y + 1) =~= Set::<int>::empty());
    assert(fb@ =~= painted(before, Set::<int>::empty(), c));
    while x < x1
        invariant
            x0 <= x <= x1,
            x1 < WIDTH,
            y < HEIGHT,
            row == y * WIDTH,
            fb@.len() == before.len(),
            y * PITCH + x1 * DEPTH <= before.len(),
            fb@ == painted(before, block(x0 as int, x as int, y as int, y + 1), c),
        decreases x1 - x,
    {
        assert(PITCH == 2800 && DEPTH == 4 && WIDTH == 700);
        put_pixel(fb, row + x, c);
        proof {
            let done = block(x0 as int, x as int, y as int, y + 1);
            lemma_painted_twice(before, done, set![(row + x) as int], c);
            assert(done.union(set![(row + x) as int]) =~= block(
                x0 as int,
                x as int + 1,
                y as int,
                y + 1,
            ));
        }
        x = x + 1;
    }
}

/// The part of a rectangle that lies within the frame.
pub open spec fn clipped(r: Rect) -> Set<int> {
    block(
        r.x as int,
        if r.x + r.w < WIDTH {
            r.x + r.w
        } else {
            WIDTH as int
        },
        r.y as int,
        if r.y + r.h < HEIGHT {
            r.y + r.h
        } else {
            HEIGHT as int
        },
    )
}

/// Fills the part of a rectangle that lies within the frame. The rectangle
/// must begin within the frame.
pub fn rect(fb: &mut [u8], r: Rect, c: Color)
    requires
        0 <= r.x < WIDTH,
        0 <= r.y < HEIGHT,
        old(fb)@.len() >= PITCH * if r.y + r.h < HEIGHT {
            r.y + r.h
        } else {
            HEIGHT as int
        },
    ensures
        final(fb)@ == painted(old(fb)@, clipped(r), c),
{
    let ghost before = fb@;
    let right: i32 = r.x + r.w as i32;
    let bottom: i32 = r.y + r.h as i32;
    let x0: usize = r.x as usize;
    let x1: usize = if right < WIDTH as i32 { right as usize } else { WIDTH };
    let y0: usize = r.y as usize;
    let y1: usize = if bottom < HEIGHT as i32 { bottom as usize } else { HEIGHT };
    let mut y: usize = y0;
    assert(block(x0 as int, x1 as int, y0 as int, y0 as int) =~= Set::<int>::empty());
    assert(fb@ =~= painted(before, Set::<int>::empty(), c));
    while y < y1
        invariant
            y0 <= y <= y1 <= HEIGHT,
            x0 <= x1 <= WIDTH,
            fb@.len() == before.len(),
            before.len() >= PITCH * y1,
            fb@ == painted(before, block(x0 as int, x1 as int, y0 as int, y as int), c),
        decreases y1 - y,
    {
        let ghost rows = block(x0 as int, x1 as int, y0 as int, y as int);
        let row: usize = y * WIDTH;
        let mut x: usize = x0;
        assert(block(x0 as int, x0 as int, y as int, y + 1) =~= Set::<int>::empty());
        assert(rows.union(Set::<int>::empty()) =~= rows);
        while x < x1
            invariant
                y0 <= y < y1 <= HEIGHT,
                x0 <= x <= x1 <= WIDTH,
                row == y * WIDTH,
                fb@.len() == before.len(),
                before.len() >= PITCH * y1,
                rows == block(x0 as int, x1 as int, y0 as int, y as int),
                fb@ == painted(
                    before,
                    rows.union(block(x0 as int, x as int, y as int, y + 1)),
                    c,
                ),
            decreases x1 - x,
        {
            assert(PITCH == 2800 && DEPTH == 4 && WIDTH == 700);
            put_pixel(fb, row + x, c);
            proof {
                let done = rows.union(block(x0 as int, x as int, y as int, y + 1));
                lemma_painted_twice(before, done, set![(row + x) as int], c);
                assert(done.union(set![(row + x) as int]) =~= rows.union(
                    block(x0 as int, x as int + 1, y as int, y + 1),
                ));
            }
            x = x + 1;
        }
        assert(rows.union(block(x0 as int, x1 as int, y as int, y + 1)) =~= block(
            x0 as int,
            x1 as int,
            y0 as int,
            y + 1,
        ));
        y = y + 1;
    }
}

/// The coordinate `n` steps from `from` in the direction of `to`.
pub open spec fn toward(from: int, to: int, n: int) -> int {
    if from < to {
        from + n
    } else {
        from - n
    }
}

/// The distance between two coordinates.
pub open spec fn gap(from: int, to: int) -> int {
    if from < to {
        to - from
    } else {
        from - to
    }
}

/// Twice the signed distance, scaled, between the ideal line over an extent
/// of `w` by `h` and the point that lies half a step beyond `(a, b)` on both
/// axes. Its sign decides the next step of a line.
pub open spec fn lean(a: int, b: int, w: int, h: int) -> int {
    2 * ((b + 1) * w - (a + 1) * h)
}

/// The points of a line over an extent of `w` by `h`, from the point `a`
/// steps along and `b` steps across up to and without the far end. From each
/// point the line steps along x unless it leans too far that way, across
/// unless it leans too far the other way, and so at least one of the two.
pub open spec fn walk(a: int, b: int, w: int, h: int) -> Seq<(int, int)>
    decreases (w - a) + (h - b),
{
    if a < 0 || b < 0 || a > w || b > h || (a == w && b == h) {
        Seq::empty()
    } else {
        let along = lean(a, b, w, h) >= -h && a < w;
        let across = lean(a, b, w, h) <= w && b < h;
        if !along && !across {
            Seq::empty()
        } else {
            seq![(a, b)] + walk(
                if along {
                    a + 1
                } else {
                    a
                },
                if across {
                    b + 1
                } else {
                    b
                },
                w,
                h,
            )
        }
    }
}

/// The pixels of the points of a line that starts at `(x0, y0)` and heads
/// for `(x1, y1)`.
pub open spec fn marks(points: Seq<(int, int)>, x0: int, y0: int, x1: int, y1: int) -> Set<int> {
    Set::new(
        |p: int|
            exists|k: int|
                0 <= k < points.len() && p == pixel_at(
                    toward(x0, x1, (#[trigger] points[k]).0),
                    toward(y0, y1, points[k].1),
                ),
    )
}

/// The pixels of the line from `(x0, y0)` up to and without `(x1, y1)`.
pub open spec fn trail(x0: int, y0: int, x1: int, y1: int) -> Set<int> {
    marks(walk(0, 0, gap(x0, x1), gap(y0, y1)), x0, y0, x1, y1)
}

/// A line never steps beyond its far end on either axis, and always steps on
/// one of them.
pub proof fn lemma_walk_step(a: int, b: int, w: int, h: int)
    requires
        0 <= a <= w,
        0 <= b <= h,
        a != w || b != h,
    ensures
        lean(a, b, w, h) >= -h ==> a < w,
        lean(a, b, w, h) <= w ==> b < h,
        lean(a, b, w, h) >= -h || lean(a, b, w, h) <= w,
{
    if a == w {
        assert((b + 1) * w <= h * w) by (nonlinear_arith)
            requires
                0 <= b + 1 <= h,
                0 <= w,
        ;
        assert((w + 1) * h == w * h + h) by (nonlinear_arith);
        assert(h * w == w * h) by (nonlinear_arith);
    }
    if b == h {
        assert((a + 1) * h <= w * h) by (nonlinear_arith)
            requires
                0 <= a + 1 <= w,
                0 <= h,
        ;
        assert((h + 1) * w == h * w + w) by (nonlinear_arith);
        assert(h * w == w * h) by (nonlinear_arith);
    }
}

/// Draws the line from one pixel up to and without another: for each step
/// along the longer side of its extent, the pixel nearest to the ideal line.
/// Both ends must lie within the frame.
pub fn line(fb: &mut [u8], from: (usize, usize), to: (usize, usize), col: Color)
    requires
        from.0 < WIDTH,
        to.0 < WIDTH,
        from.1 < HEIGHT,
        to.1 < HEIGHT,
        old(fb)@.len() >= HEIGHT * PITCH,
    ensures
        final(fb)@ == painted(
            old(fb)@,
            trail(from.0 as int, from.1 as int, to.0 as int, to.1 as int),
            col,
        ),
        final(fb)@ == painted(
            old(fb)@,
            nearest_pixels(from.0 as int, from.1 as int, to.0 as int, to.1 as int),
            col,
        ),
{
    let ghost before = fb@;
    let x0: i64 = from.0 as i64;
    let y0: i64 = from.1 as i64;
    let x1: i64 = to.0 as i64;
    let y1: i64 = to.1 as i64;
    let mut x: i64 = x0;
    let mut y: i64 = y0;
    let dx: i64 = if x0 < x1 { x1 - x0 } else { x0 - x1 };
    let sx: i64 = if x0 < x1 { 1 } else { -1 };
    let dy: i64 = if y0 < y1 { y0 - y1 } else { y1 - y0 };
    let sy: i64 = if y0 < y1 { 1 } else { -1 };
    let mut err: i64 = dx + dy;
    let ghost w = dx as int;
    let ghost h = -dy as int;
    let ghost mut a: int = 0;
    let ghost mut b: int = 0;
    let ghost mut done: Seq<(int, int)> = Seq::empty();
    proof {
        assert(marks(done, x0 as int, y0 as int, x1 as int, y1 as int) =~= Set::<int>::empty());
        assert(fb@ =~= painted(before, Set::<int>::empty(), col));
        assert((0 + 1) * w - (0 + 1) * h == w - h) by (nonlinear_arith);
    }
    while x != x1 || y != y1
        invariant
            0 <= x0 < WIDTH,
            0 <= x1 < WIDTH,
            0 <= y0 < HEIGHT,
            0 <= y1 < HEIGHT,
            w == gap(x0 as int, x1 as int),
            h == gap(y0 as int, y1 as int),
            dx == w,
            dy == -h,
            sx == if x0 < x1 { 1int } else { -1int },
            sy == if y0 < y1 { 1int } else { -1int },
            0 <= a <= w,
            0 <= b <= h,
            x == toward(x0 as int, x1 as int, a),
            y == toward(y0 as int, y1 as int, b),
            2 * err == lean(a, b, w, h),
            fb@.len() == before.len(),
            before.len() >= HEIGHT * PITCH,
            walk(0, 0, w, h) == done + walk(a, b, w, h),
            fb@ == painted(before, marks(done, x0 as int, y0 as int, x1 as int, y1 as int), col),
        decreases (w - a) + (h - b),
    {
        proof {
            lemma_walk_step(a, b, w, h);
            assert(0 <= (b + 1) * w <= 385700) by (nonlinear_arith)
                requires
                    0 <= b <= h,
                    h < 550,
                    0 <= w < 700,
            ;
            assert(0 <= (a + 1) * h <= 385700) by (nonlinear_arith)
                requires
                    0 <= a <= w,
                    w < 700,
                    0 <= h < 550,
            ;
            assert(PITCH == 2800 && WIDTH == 700 && HEIGHT == 550);
        }
        let at: usize = (y as usize) * WIDTH + x as usize;
        put_pixel(fb, at, col);
        let ghost old_done = done;
        let ghost old_a = a;
        let ghost old_b = b;
        let e2: i64 = 2 * err;
        if dy <= e2 {
            err = err + dy;
            x = x + sx;
            proof {
                a = a + 1;
            }
        }
        if e2 <= dx {
            err = err + dx;
            y = y + sy;
            proof {
                b = b + 1;
            }
        }
        proof {
            done = old_done.push((old_a, old_b));
            assert((old_a + 2) * h == (old_a + 1) * h + h) by (nonlinear_arith);
            assert((old_b + 2) * w == (old_b + 1) * w + w) by (nonlinear_arith);
            assert(lean(a, b, w, h) == 2 * err);
            assert(walk(old_a, old_b, w, h) == seq![(old_a, old_b)] + walk(a, b, w, h));
            assert(old_done + (seq![(old_a, old_b)] + walk(a, b, w, h)) =~= done + walk(
                a,
                b,
                w,
                h,
            ));
            let was = marks(old_done, x0 as int, y0 as int, x1 as int, y1 as int);
            let now = marks(done, x0 as int, y0 as int, x1 as int, y1 as int);
            lemma_painted_twice(before, was, set![at as int], col);
            assert forall|p: int| was.union(set![at as int]).contains(p) implies now.contains(
                p,
            ) by {
                if was.contains(p) {
                    let k = choose|k: int|
                        0 <= k < old_done.len() && p == pixel_at(
                            toward(x0 as int, x1 as int, (#[trigger] old_done[k]).0),
                            toward(y0 as int, y1 as int, old_done[k].1),
                        );
                    assert(done[k] == old_done[k]);
                } else {
                    assert(done[old_done.len() as int] == (old_a, old_b));
                }
            }
            assert forall|p: int| now.contains(p) implies was.union(set![at as int]).contains(
                p,
            ) by {
                let k = choose|k: int|
                    0 <= k < done.len() && p == pixel_at(
                        toward(x0 as int, x1 as int, (#[trigger] done[k]).0),
                        toward(y0 as int, y1 as int, done[k].1),
                    );
                if k < old_done.len() {
                    assert(done[k] == old_done[k]);
                }
            }
            assert(was.union(set![at as int]) =~= now);
        }
    }
    proof {
        assert(walk(a, b, w, h) =~= Seq::<(int, int)>::empty());
        assert(done =~= walk(0, 0, w, h));
        lemma_trail_is_nearest(x0 as int, y0 as int, x1 as int, y1 as int);
    }
}

proof fn lemma_upright_walk(b: int, h: int)
    requires
        0 <= b <= h,
    ensures
        walk(0, b, 0, h).len() == h - b,
        forall|k: int| 0 <= k < h - b ==> #[trigger] walk(0, b, 0, h)[k] == (0int, b + k),
    decreases h - b,
{
    if b < h {
        assert(lean(0, b, 0, h) == -2 * h) by (nonlinear_arith)
            requires
                lean(0, b, 0, h) == 2 * ((b + 1) * 0 - (0 + 1) * h),
        ;
        lemma_upright_walk(b + 1, h);
        let rest = walk(0, b + 1, 0, h);
        assert(walk(0, b, 0, h) == seq![(0int, b)] + rest);
        assert forall|k: int| 0 <= k < h - b implies #[trigger] walk(0, b, 0, h)[k] == (
            0int,
            b + k,
        ) by {
            if k > 0 {
                assert(walk(0, b, 0, h)[k] == rest[k - 1]);
            }
        }
    }
}

/// An upright line is a column of pixels: from its first row up to and
/// without its last.
pub proof fn lemma_upright_trail(x: int, y: int, h: int)
    requires
        0 <= x < WIDTH,
        0 <= y,
        0 <= h,
    ensures
        trail(x, y, x, y + h) == block(x, x + 1, y, y + h),
{
    let points = walk(0, 0, 0, h);
    lemma_upright_walk(0, h);
    let line = trail(x, y, x, y + h);
    let column = block(x, x + 1, y, y + h);
    assert(gap(x, x) == 0 && gap(y, y + h) == h);
    assert forall|p: int| line.contains(p) implies column.contains(p) by {
        let k = choose|k: int|
            0 <= k < points.len() && p == pixel_at(
                toward(x, x, (#[trigger] points[k]).0),
                toward(y, y + h, points[k].1),
            );
        assert(points[k] == (0int, k));
        assert(p == (y + k) * WIDTH + x);
    }
    assert forall|p: int| column.contains(p) implies line.contains(p) by {
        let k = p / (WIDTH as int) - y;
        assert(points[k] == (0int, k));
        assert(p == pixel_at(toward(x, x, points[k].0), toward(y, y + h, points[k].1)));
    }
    assert(line =~= column);
}

/// The pixels of a triangle with an upright side of `h` pixels from
/// `(x, y)` down and its third corner `b` pixels to the right of the middle
/// of that side: the side and the two lines to the corner.
pub open spec fn outline(x: int, y: int, b: int, h: int) -> Set<int> {
    trail(x, y, x, y + h).union(trail(x, y + h, x + b, y + h / 2)).union(
        trail(x, y, x + b, y + h / 2),
    )
}

/// Draws the three sides of a triangle: an upright side of `h` pixels from
/// `corner` down, and the lines from its ends to the point `b` pixels to the
/// right of its middle. The triangle must lie within the frame.
pub fn triangle(fb: &mut [u8], corner: (usize, usize), b: usize, h: usize, col: Color)
    requires
        corner.0 + b < WIDTH,
        corner.1 + h < HEIGHT,
        old(fb)@.len() >= HEIGHT * PITCH,
    ensures
        final(fb)@ == painted(
            old(fb)@,
            outline(corner.0 as int, corner.1 as int, b as int, h as int),
            col,
        ),
{
    let ghost before = fb@;
    let x0: usize = corner.0;
    let y0: usize = corner.1;
    line(fb, (x0, y0), (x0, y0 + h), col);
    line(fb, (x0, y0 + h), (x0 + b, y0 + h / 2), col);
    line(fb, (x0, y0), (x0 + b, y0 + h / 2), col);
    proof {
        let first = trail(x0 as int, y0 as int, x0 as int, y0 + h);
        let second = trail(x0 as int, y0 + h, x0 + b, y0 + h / 2);
        let third = trail(x0 as int, y0 as int, x0 + b, y0 + h / 2);
        lemma_painted_twice(before, first, second, col);
        lemma_painted_twice(before, first.union(second), third, col);
    }
}

/// The pixels of the frame of a rectangle: its upper and its lower side from
/// the left corner up to and without the right one, and its left and its
/// right side from the upper corner up to and without the lower one.
pub open spec fn frame(r: Rect) -> Set<int> {
    block(r.x as int, r.x + r.w, r.y as int, r.y + 1).union(
        block(r.x as int, r.x + r.w, r.y + r.h, r.y + r.h + 1),
    ).union(block(r.x as int, r.x + 1, r.y as int, r.y + r.h)).union(
        block(r.x + r.w, r.x + r.w + 1, r.y as int, r.y + r.h),
    )
}

/// Draws the frame of a rectangle, which must lie within the frame of the
/// screen.
pub fn frameRect(fb: &mut [u8], r: Rect, c: Color)
    requires
        0 <= r.x,
        r.x + r.w < WIDTH,
        0 <= r.y,
        r.y + r.h < HEIGHT,
        old(fb)@.len() >= HEIGHT * PITCH,
    ensures
        final(fb)@ == painted(old(fb)@, frame(r), c),
{
    let ghost before = fb@;
    let x: usize = r.x as usize;
    let y: usize = r.y as usize;
    let w: usize = r.w as usize;
    let h: usize = r.h as usize;
    assert(PITCH == 2800 && DEPTH == 4 && WIDTH == 700 && HEIGHT == 550);
    hline(fb, x, x + w, y, c);
    hline(fb, x, x + w, y + h, c);
    line(fb, (x, y), (x, y + h), c);
    line(fb, (x + w, y), (x + w, y + h), c);
    proof {
        let upper = block(x as int, x + w, y as int, y + 1);
        let lower = block(x as int, x + w, y + h, y + h + 1);
        let left = block(x as int, x + 1, y as int, y + h);
        let right = block(x + w, x + w + 1, y as int, y + h);
        lemma_upright_trail(x as int, y as int, h as int);
        lemma_upright_trail(x + w, y as int, h as int);
        lemma_painted_twice(before, upper, lower, c);
        lemma_painted_twice(before, upper.union(lower), left, c);
        lemma_painted_twice(before, upper.union(lower).union(left), right, c);
    }
}

/// The pixels of a cross in a square of `size` pixels with its upper left
/// corner at `(x, y)`: the two diagonals, each without its far end.
pub open spec fn crossing(x: int, y: int, size: int) -> Set<int> {
    trail(x, y, x + size, y + size).union(trail(x + size, y, x, y + size))
}

/// Draws a cross: the two diagonals of a square, which must lie within the
/// frame.
pub fn cross(fb: &mut [u8], x: usize, y: usize, size: usize, col: Color)
    requires
        x + size < WIDTH,
        y + size < HEIGHT,
        old(fb)@.len() >= HEIGHT * PITCH,
    ensures
        final(fb)@ == painted(old(fb)@, crossing(x as int, y as int, size as int), col),
{
    let ghost before = fb@;
    line(fb, (x, y), (x + size, y + size), col);
    line(fb, (x + size, y), (x, y + size), col);
    proof {
        lemma_painted_twice(
            before,
            trail(x as int, y as int, x + size, y + size),
            trail(x + size, y as int, x as int, y + size),
            col,
        );
    }
}

/// The pixels of the lines that part a board of `width` by `height` pixels
/// into three bands each way.
pub open spec fn layout(width: int, height: int) -> Set<int> {
    trail(width / 3, 0, width / 3, height - 1).union(
        trail(2 * (width / 3), 0, 2 * (width / 3), height - 1),
    ).union(trail(0, height / 3, width - 1, height / 3)).union(
        trail(0, 2 * (height / 3), width - 1, 2 * (height / 3)),
    )
}

/// Draws the lines of the board: two upright and two level ones that part a
/// field of `width` by `height` pixels, from the upper left corner of the
/// frame, into three bands each way.
pub fn gameLayout(fb: &mut [u8], width: usize, height: usize, col: Color)
    requires
        0 < width <= WIDTH,
        0 < height <= HEIGHT,
        old(fb)@.len() >= HEIGHT * PITCH,
    ensures
        final(fb)@ == painted(old(fb)@, layout(width as int, height as int), col),
{
    let ghost before = fb@;
    let band_x: usize = width / 3;
    let band_y: usize = height / 3;
    line(fb, (band_x, 0), (band_x, height - 1), col);
    line(fb, (2 * band_x, 0), (2 * band_x, height - 1), col);
    line(fb, (0, band_y), (width - 1, band_y), col);
    line(fb, (0, 2 * band_y), (width - 1, 2 * band_y), col);
    proof {
        let a = trail(width as int / 3, 0, width as int / 3, height - 1);
        let b = trail(2 * (width as int / 3), 0, 2 * (width as int / 3), height - 1);
        let c = trail(0, height as int / 3, width - 1, height as int / 3);
        let d = trail(0, 2 * (height as int / 3), width - 1, 2 * (height as int / 3));
        lemma_painted_twice(before, a, b, col);
        lemma_painted_twice(before, a.union(b), c, col);
        lemma_painted_twice(before, a.union(b).union(c), d, col);
    }
}

/// The column of the image that is copied to a pixel of the frame.
pub open spec fn source_x(p: int, from: Rect, to: Vec2i) -> int {
    from.x + (p % (WIDTH as int) - to.0)
}

/// The row of the image that is copied to a pixel of the frame.
pub open spec fn source_y(p: int, from: Rect, to: Vec2i) -> int {
    from.y + (p / (WIDTH as int) - to.1)
}

/// A pixel of the frame takes a pixel of the image: it lies within the frame
/// and within the rectangle that `from` covers once its corner is put at
/// `to`, and its source lies within the image.
pub open spec fn covered(p: int, tex: Texture, from: Rect, to: Vec2i) -> bool {
    &&& 0 <= p / (WIDTH as int) < HEIGHT
    &&& to.0 <= p % (WIDTH as int) < to.0 + from.w
    &&& to.1 <= p / (WIDTH as int) < to.1 + from.h
    &&& 0 <= source_x(p, from, to) < tex.width
    &&& 0 <= source_y(p, from, to) < tex.height
}

/// The bytes of a buffer after the covered pixels among `region` have taken
/// the pixels of the image.
pub open spec fn copied(fb: Seq<u8>, tex: Texture, from: Rect, to: Vec2i, region: Set<int>) -> Seq<
    u8,
> {
    Seq::new(
        fb.len(),
        |i: int|
            if region.contains(i / 4) && covered(i / 4, tex, from, to) {
                tex.image@[(source_y(i / 4, from, to) * tex.width + source_x(i / 4, from, to)) * 4
                    + i % 4]
            } else {
                fb[i]
            },
    )
}

/// The bytes of a buffer after the part `from` of an image has been copied
/// to it with its corner at `to`: every covered pixel holds its source, every
/// other byte is as it was.
pub open spec fn blitted(fb: Seq<u8>, tex: Texture, from: Rect, to: Vec2i) -> Seq<u8> {
    copied(fb, tex, from, to, Set::full())
}

proof fn lemma_source_within(sx: int, sy: int, width: int, height: int)
    requires
        0 <= sx < width,
        0 <= sy < height,
    ensures
        0 <= sy * width,
        0 <= (sy * width + sx) * 4,
        (sy * width + sx) * 4 + 4 <= width * height * 4,
{
    assert(sy * width + width <= height * width) by (nonlinear_arith)
        requires
            0 <= sy < height,
            0 <= width,
    ;
    assert(0 <= sy * width) by (nonlinear_arith)
        requires
            0 <= sy,
            0 <= width,
    ;
    assert(height * width == width * height) by (nonlinear_arith);
}

/// Copies the part `from` of an image into the frame, its upper left corner
/// at `to`. What falls outside the frame or outside the image is left out.
pub fn bitblt(fb: &mut [u8], src: &Texture, from: Rect, to: Vec2i)
    requires
        src.wf(),
        old(fb)@.len() >= HEIGHT * PITCH,
    ensures
        final(fb)@ == blitted(old(fb)@, *src, from, to),
{
    let ghost before = fb@;
    assert(PITCH == 2800 && DEPTH == 4 && WIDTH == 700 && HEIGHT == 550);
    assert(src.image.len() == src.image@.len());
    let left: i64 = to.0 as i64;
    let top: i64 = to.1 as i64;
    let right: i64 = left + from.w as i64;
    let bottom: i64 = top + from.h as i64;
    let x0: i64 = if left < 0 { 0 } else { left };
    let y0: i64 = if top < 0 { 0 } else { top };
    let x1: i64 = if right < WIDTH as i64 { right } else { WIDTH as i64 };
    let y1: i64 = if bottom < HEIGHT as i64 { bottom } else { HEIGHT as i64 };
    if x0 >= x1 || y0 >= y1 {
        assert(fb@ =~= blitted(before, *src, from, to));
        return ;
    }
    let mut y: i64 = y0;
    assert(fb@ =~= copied(before, *src, from, to, block(x0 as int, x1 as int, y0 as int, y0 as int)));
    while y < y1
        invariant
            0 <= y0 <= y <= y1 <= HEIGHT,
            0 <= x0 < x1 <= WIDTH,
            left == to.0,
            top == to.1,
            x0 == if left < 0 { 0 } else { left },
            y0 == if top < 0 { 0 } else { top },
            x1 == if to.0 + from.w < WIDTH { to.0 + from.w } else { WIDTH as int },
            y1 == if to.1 + from.h < HEIGHT { to.1 + from.h } else { HEIGHT as int },
            src.wf(),
            src.image@.len() <= usize::MAX,
            fb@.len() == before.len(),
            before.len() >= HEIGHT * PITCH,
            fb@ == copied(
                before,
                *src,
                from,
                to,
                block(x0 as int, x1 as int, y0 as int, y as int),
            ),
        decreases y1 - y,
    {
        let ghost rows = block(x0 as int, x1 as int, y0 as int, y as int);
        let mut x: i64 = x0;
        assert(rows.union(block(x0 as int, x0 as int, y as int, y + 1)) =~= rows);
        while x < x1
            invariant
                0 <= y0 <= y < y1 <= HEIGHT,
                0 <= x0 <= x <= x1 <= WIDTH,
                left == to.0,
                top == to.1,
                to.0 <= x0,
                to.1 <= y0,
                x1 <= to.0 + from.w,
                y1 <= to.1 + from.h,
                src.wf(),
                src.image@.len() <= usize::MAX,
                fb@.len() == before.len(),
                before.len() >= HEIGHT * PITCH,
                rows == block(x0 as int, x1 as int, y0 as int, y as int),
                fb@ == copied(
                    before,
                    *src,
                    from,
                    to,
                    rows.union(block(x0 as int, x as int, y as int, y + 1)),
                ),
            decreases x1 - x,
        {
            assert(PITCH == 2800 && DEPTH == 4 && WIDTH == 700 && HEIGHT == 550);
            let sx: i64 = from.x as i64 + (x - left);
            let sy: i64 = from.y as i64 + (y - top);
            let p: usize = (y as usize) * WIDTH + x as usize;
            let ghost done = rows.union(block(x0 as int, x as int, y as int, y + 1));
            let ghost more = rows.union(block(x0 as int, x as int + 1, y as int, y + 1));
            assert(done.insert(p as int) =~= more);
            assert(!done.contains(p as int));
            assert(source_x(p as int, from, to) == sx && source_y(p as int, from, to) == sy);
            if 0 <= sx && (sx as u64) < src.width as u64 && 0 <= sy && (sy as u64)
                < src.height as u64 {
                proof {
                    lemma_source_within(sx as int, sy as int, src.width as int, src.height as int);
                    assert((sy * src.width + sx) * 4 + 4 <= src.image@.len());
                }
                let q: usize = ((sy as usize) * src.width + sx as usize) * 4;
                let at: usize = 4 * p;
                let ghost so_far = fb@;
                fb[at] = src.image[q];
                fb[at + 1] = src.image[q + 1];
                fb[at + 2] = src.image[q + 2];
                fb[at + 3] = src.image[q + 3];
                assert(covered(p as int, *src, from, to));
                assert(fb@ =~= copied(before, *src, from, to, more)) by {
                    assert forall|i: int| 0 <= i < fb@.len() implies fb@[i] == copied(
                        before,
                        *src,
                        from,
                        to,
                        more,
                    )[i] by {
                        if i / 4 == p {
                            assert(i == at + i % 4);
                        } else {
                            assert(fb@[i] == so_far[i]);
                            assert(more.contains(i / 4) == done.contains(i / 4));
                        }
                    }
                }
            } else {
                assert(!covered(p as int, *src, from, to));
                assert(fb@ =~= copied(before, *src, from, to, more));
            }
            x = x + 1;
        }
        assert(rows.union(block(x0 as int, x1 as int, y as int, y + 1)) =~= block(
            x0 as int,
            x1 as int,
            y0 as int,
            y + 1,
        ));
        y = y + 1;
    }
    assert(fb@ =~= blitted(before, *src, from, to)) by {
        let all = block(x0 as int, x1 as int, y0 as int, y1 as int);
        assert forall|i: int| 0 <= i < fb@.len() implies fb@[i] == blitted(
            before,
            *src,
            from,
            to,
        )[i] by {
            if covered(i / 4, *src, from, to) {
                assert(all.contains(i / 4));
            }
        }
    }
}

} // verus!
