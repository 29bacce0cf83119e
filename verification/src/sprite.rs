//! Sprites: an image, the frames of an animation, and the frame and place at
//! which the sprite is drawn now.
use std::rc::Rc;
use vstd::prelude::*;
use crate::draw::DEPTH;
use crate::geometry::{Rect, Vec2i};

verus! {

/// A decoded image: rows of pixels, each pixel `depth` bytes.
pub struct Texture {
    pub image: Vec<u8>,
    pub width: usize,
    pub height: usize,
    pub depth: usize,
}

impl Texture {
    /// The image holds `width` by `height` pixels of four bytes.
    pub open spec fn wf(&self) -> bool {
        &&& self.depth == DEPTH
        &&& self.image@.len() == self.width * self.height * 4
    }

    /// Whether the image holds `width` by `height` pixels of four bytes.
    pub fn is_valid(&self) -> (b: bool)
        ensures
            b == self.wf(),
    {
        if self.depth != DEPTH {
            return false;
        }
        let held: usize = self.image.len();
        match self.width.checked_mul(self.height) {
            Some(pixels) => match pixels.checked_mul(4) {
                Some(bytes) => {
                    assert(self.width * self.height * 4 == bytes);
                    held == bytes
                },
                None => {
                    assert(self.width * self.height * 4 > usize::MAX);
                    false
                },
            },
            None => {
                assert(self.width * self.height * 4 > usize::MAX) by (nonlinear_arith)
                    requires
                        self.width * self.height > usize::MAX,
                ;
                false
            },
        }
    }
}

/// The frames of an animation, each a rectangle within an image.
pub struct Animation {
    pub frames: Vec<Rect>,
}

impl Animation {
    /// An animation that shows the given frames.
    pub fn new(frames: Vec<Rect>) -> (anim: Self)
        ensures
            anim.frames == frames,
    {
        Self { frames }
    }
}

/// Something that is drawn: an image, an animation over it, the frame shown
/// now, a count of steps, and a place on the screen.
pub struct Sprite {
    pub image: Rc<Texture>,
    pub animation: Rc<Animation>,
    pub current_frame: Rect,
    pub elapsed_time: usize,
    pub position: Vec2i,
}

/// `Rc::clone` of std: a second handle to the value that the first one holds.
/// The contract says that the two hold the same value.
#[verifier::external_body]
fn share<T>(handle: &Rc<T>) -> (other: Rc<T>)
    ensures
        other == *handle,
{
    Rc::clone(handle)
}

impl Sprite {
    /// A sprite that shares the given image and animation.
    pub fn new(
        image: &Rc<Texture>,
        animation: &Rc<Animation>,
        current_frame: Rect,
        elapsed_time: usize,
        position: Vec2i,
    ) -> (sprite: Self)
        ensures
            sprite.image == *image,
            sprite.animation == *animation,
            sprite.current_frame == current_frame,
            sprite.elapsed_time == elapsed_time,
            sprite.position == position,
    {
        Self {
            image: share(image),
            animation: share(animation),
            current_frame,
            elapsed_time,
            position,
        }
    }

    /// The frame that the next call of `update_anim` shows, and the count it
    /// leaves: from a count of zero the second frame and a count of one, from
    /// any other count the first frame and one less.
    pub open spec fn next_frame(self) -> (Rect, usize) {
        if self.elapsed_time < 1 {
            (self.animation.frames@[1], (self.elapsed_time + 1) as usize)
        } else {
            (self.animation.frames@[0], (self.elapsed_time - 1) as usize)
        }
    }

    /// Flips between the first two frames of the animation.
    pub fn update_anim(&mut self)
        requires
            old(self).animation.frames@.len() >= 2,
        ensures
            final(self).current_frame == old(self).next_frame().0,
            final(self).elapsed_time == old(self).next_frame().1,
            final(self).image == old(self).image,
            final(self).animation == old(self).animation,
            final(self).position == old(self).position,
    {
        if self.elapsed_time < 1 {
            self.current_frame = self.animation.frames[1];
            self.elapsed_time += 1;
        } else {
            self.current_frame = self.animation.frames[0];
            self.elapsed_time -= 1;
        }
    }
}

/// A surface that sprites can be drawn on.
pub trait DrawSpriteExt {
    /// Draws the current frame of `s` at its place.
    fn draw_sprite(&mut self, s: &Sprite);
}

} // verus!
