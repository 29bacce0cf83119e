use gameloop::draw;
use gameloop::draw::{
    bitblt, clear, cross, frameRect, gameLayout, hline, rect, triangle, Color, HEIGHT, PITCH, WIDTH,
};
use gameloop::geometry::{Rect, Vec2i};
use gameloop::sprite::Texture;

const INK: Color = [10, 20, 30, 255];
const PAPER: Color = [0, 0, 0, 0];

fn frame() -> Vec<u8> {
    vec![0; HEIGHT * PITCH]
}

fn pixel(fb: &[u8], x: usize, y: usize) -> Color {
    let at = (y * WIDTH + x) * 4;
    [fb[at], fb[at + 1], fb[at + 2], fb[at + 3]]
}

fn inked(fb: &[u8]) -> Vec<(usize, usize)> {
    let mut found = vec![];
    for p in 0..fb.len() / 4 {
        let c = [fb[4 * p], fb[4 * p + 1], fb[4 * p + 2], fb[4 * p + 3]];
        if c == INK {
            found.push((p % WIDTH, p / WIDTH));
        } else {
            assert_eq!(c, PAPER);
        }
    }
    found
}

#[test]
fn clear_paints_every_whole_pixel() {
    let mut fb = vec![7u8; 14];
    clear(&mut fb, INK);
    assert_eq!(fb, vec![10, 20, 30, 255, 10, 20, 30, 255, 10, 20, 30, 255, 7, 7]);
    let mut none: Vec<u8> = vec![];
    clear(&mut none, INK);
    assert!(none.is_empty());
    let mut short = vec![1u8, 2, 3];
    clear(&mut short, INK);
    assert_eq!(short, vec![1, 2, 3]);
}

#[test]
fn hline_paints_a_run_without_its_end() {
    let mut fb = frame();
    hline(&mut fb, 3, 7, 2, INK);
    assert_eq!(inked(&fb), vec![(3, 2), (4, 2), (5, 2), (6, 2)]);
    let mut fb = frame();
    hline(&mut fb, 5, 5, 0, INK);
    assert!(inked(&fb).is_empty());
}

#[test]
fn hline_needs_no_more_buffer_than_it_paints() {
    let mut fb = vec![0u8; 2 * PITCH + 4 * 4];
    hline(&mut fb, 1, 4, 2, INK);
    assert_eq!(inked(&fb), vec![(1, 2), (2, 2), (3, 2)]);
}

#[test]
fn rect_fills_a_block() {
    let mut fb = frame();
    rect(&mut fb, Rect { x: 2, y: 1, w: 3, h: 2 }, INK);
    assert_eq!(inked(&fb), vec![(2, 1), (3, 1), (4, 1), (2, 2), (3, 2), (4, 2)]);
    assert_eq!(pixel(&fb, 5, 1), PAPER);
}

#[test]
fn rect_is_clipped_at_the_right_and_at_the_bottom() {
    let mut fb = frame();
    rect(&mut fb, Rect { x: 698, y: 548, w: 10, h: 10 }, INK);
    assert_eq!(inked(&fb), vec![(698, 548), (699, 548), (698, 549), (699, 549)]);
    let mut fb = frame();
    rect(&mut fb, Rect { x: 0, y: 0, w: 0, h: 5 }, INK);
    assert!(inked(&fb).is_empty());
}

#[test]
fn line_leaves_out_its_far_end() {
    let mut fb = frame();
    draw::line(&mut fb, (2, 2), (6, 2), INK);
    assert_eq!(inked(&fb), vec![(2, 2), (3, 2), (4, 2), (5, 2)]);
    let mut fb = frame();
    draw::line(&mut fb, (6, 2), (2, 2), INK);
    assert_eq!(inked(&fb), vec![(3, 2), (4, 2), (5, 2), (6, 2)]);
    let mut fb = frame();
    draw::line(&mut fb, (4, 4), (4, 4), INK);
    assert!(inked(&fb).is_empty());
}

#[test]
fn upright_line_is_a_column() {
    let mut fb = frame();
    draw::line(&mut fb, (5, 1), (5, 4), INK);
    assert_eq!(inked(&fb), vec![(5, 1), (5, 2), (5, 3)]);
}

#[test]
fn diagonal_line_steps_on_both_axes() {
    let mut fb = frame();
    draw::line(&mut fb, (0, 0), (3, 3), INK);
    assert_eq!(inked(&fb), vec![(0, 0), (1, 1), (2, 2)]);
    let mut fb = frame();
    draw::line(&mut fb, (3, 0), (0, 3), INK);
    assert_eq!(inked(&fb), vec![(3, 0), (2, 1), (1, 2)]);
}

#[test]
fn shallow_line_follows_the_ideal_one() {
    let mut fb = frame();
    draw::line(&mut fb, (0, 0), (6, 2), INK);
    assert_eq!(inked(&fb), vec![(0, 0), (1, 0), (2, 1), (3, 1), (4, 1), (5, 2)]);
    let mut fb = frame();
    draw::line(&mut fb, (0, 0), (2, 6), INK);
    assert_eq!(inked(&fb), vec![(0, 0), (0, 1), (1, 2), (1, 3), (1, 4), (2, 5)]);
}

#[test]
fn line_reaches_the_corners_of_the_frame() {
    let mut fb = frame();
    draw::line(&mut fb, (699, 549), (697, 549), INK);
    assert_eq!(inked(&fb), vec![(698, 549), (699, 549)]);
    let mut fb = frame();
    draw::line(&mut fb, (0, 0), (699, 549), INK);
    let drawn = inked(&fb);
    assert_eq!(drawn.len(), 699);
    assert_eq!(drawn[0], (0, 0));
    assert_eq!(pixel(&fb, 699, 549), PAPER);
}

#[test]
fn frame_of_a_rectangle_leaves_out_its_last_corner() {
    let mut fb = frame();
    frameRect(&mut fb, Rect { x: 1, y: 1, w: 3, h: 2 }, INK);
    assert_eq!(
        inked(&fb),
        vec![(1, 1), (2, 1), (3, 1), (4, 1), (1, 2), (4, 2), (1, 3), (2, 3), (3, 3)]
    );
}

#[test]
fn triangle_draws_three_sides() {
    let mut fb = frame();
    triangle(&mut fb, (1, 1), 2, 4, INK);
    // the upright side from (1, 1) down to (1, 5), and the two sides that
    // meet at (3, 3)
    assert_eq!(
        inked(&fb),
        vec![(1, 1), (1, 2), (2, 2), (1, 3), (1, 4), (2, 4), (1, 5)]
    );
}

#[test]
fn cross_draws_two_diagonals() {
    let mut fb = frame();
    cross(&mut fb, 1, 1, 3, INK);
    // from (1, 1) towards (4, 4) and from (4, 1) towards (1, 4), each
    // without its far end
    assert_eq!(inked(&fb), vec![(1, 1), (4, 1), (2, 2), (3, 2), (2, 3), (3, 3)]);
}

#[test]
fn layout_parts_the_board_in_three_bands_each_way() {
    let mut fb = frame();
    gameLayout(&mut fb, WIDTH, HEIGHT, INK);
    let drawn = inked(&fb);
    for (x, y) in drawn.iter() {
        assert!(*x == 233 || *x == 466 || *y == 183 || *y == 366);
    }
    for y in 0..HEIGHT - 1 {
        assert_eq!(pixel(&fb, 233, y), INK);
        assert_eq!(pixel(&fb, 466, y), INK);
    }
    for x in 0..WIDTH - 1 {
        assert_eq!(pixel(&fb, x, 183), INK);
        assert_eq!(pixel(&fb, x, 366), INK);
    }
    assert_eq!(pixel(&fb, 233, HEIGHT - 1), PAPER);
    assert_eq!(pixel(&fb, WIDTH - 1, 183), PAPER);
    assert_eq!(pixel(&fb, 0, 0), PAPER);
}

fn sample() -> Texture {
    // three by two pixels; pixel (x, y) holds [x, y, 9, 255]
    let mut image = vec![];
    for y in 0..2u8 {
        for x in 0..3u8 {
            image.extend_from_slice(&[x, y, 9, 255]);
        }
    }
    Texture { image, width: 3, height: 2, depth: 4 }
}

#[test]
fn texture_size_must_match_its_bytes() {
    assert!(sample().is_valid());
    assert!(!Texture { image: vec![0; 23], width: 3, height: 2, depth: 4 }.is_valid());
    assert!(!Texture { image: vec![0; 24], width: 3, height: 2, depth: 3 }.is_valid());
    assert!(!Texture { image: vec![], width: usize::MAX, height: 2, depth: 4 }.is_valid());
    assert!(!Texture { image: vec![], width: usize::MAX / 3, height: 2, depth: 4 }.is_valid());
    assert!(Texture { image: vec![], width: 0, height: 7, depth: 4 }.is_valid());
}

#[test]
fn bitblt_copies_the_chosen_part() {
    let mut fb = frame();
    bitblt(&mut fb, &sample(), Rect { x: 1, y: 0, w: 2, h: 2 }, Vec2i(10, 20));
    assert_eq!(pixel(&fb, 10, 20), [1, 0, 9, 255]);
    assert_eq!(pixel(&fb, 11, 20), [2, 0, 9, 255]);
    assert_eq!(pixel(&fb, 10, 21), [1, 1, 9, 255]);
    assert_eq!(pixel(&fb, 11, 21), [2, 1, 9, 255]);
    assert_eq!(fb.iter().filter(|b| **b != 0).count(), 4 * 2 + 2 + 2 + 2);
    assert_eq!(pixel(&fb, 12, 20), PAPER);
    assert_eq!(pixel(&fb, 9, 20), PAPER);
    assert_eq!(pixel(&fb, 10, 22), PAPER);
}

#[test]
fn bitblt_leaves_out_what_falls_outside() {
    // the part reaches beyond the image: only what the image holds is copied
    let mut fb = frame();
    bitblt(&mut fb, &sample(), Rect { x: 2, y: 1, w: 5, h: 5 }, Vec2i(0, 0));
    assert_eq!(pixel(&fb, 0, 0), [2, 1, 9, 255]);
    assert_eq!(fb.iter().filter(|b| **b != 0).count(), 4);
    // the target lies partly left of and above the frame
    let mut fb = frame();
    bitblt(&mut fb, &sample(), Rect { x: 0, y: 0, w: 3, h: 2 }, Vec2i(-2, -1));
    assert_eq!(pixel(&fb, 0, 0), [2, 1, 9, 255]);
    assert_eq!(fb.iter().filter(|b| **b != 0).count(), 4);
    // the target lies beyond the frame
    let mut fb = frame();
    bitblt(&mut fb, &sample(), Rect { x: 0, y: 0, w: 3, h: 2 }, Vec2i(700, 0));
    assert!(fb.iter().all(|b| *b == 0));
    bitblt(&mut fb, &sample(), Rect { x: 0, y: 0, w: 3, h: 2 }, Vec2i(i32::MAX, i32::MIN));
    assert!(fb.iter().all(|b| *b == 0));
    // the part begins left of the image
    let mut fb = frame();
    bitblt(&mut fb, &sample(), Rect { x: -1, y: 0, w: 2, h: 1 }, Vec2i(5, 5));
    assert_eq!(pixel(&fb, 5, 5), PAPER);
    assert_eq!(pixel(&fb, 6, 5), [0, 0, 9, 255]);
    // the last pixel of the frame
    let mut fb = frame();
    bitblt(&mut fb, &sample(), Rect { x: 1, y: 1, w: 2, h: 1 }, Vec2i(699, 549));
    assert_eq!(pixel(&fb, 699, 549), [1, 1, 9, 255]);
    assert_eq!(fb.iter().filter(|b| **b != 0).count(), 4);
}
