//! A small fixed-timestep game core: axis-aligned rectangles, contact
//! generation and restitution between moving bodies and walls, the rules of a
//! three-by-three mark game, and the state machine that drives them.
#![allow(non_snake_case)]

pub mod clock;
pub mod contact;
pub mod draw;
pub mod geometry;
pub mod grid;
pub mod lines;
pub mod persist;
pub mod priority;
pub mod resolve;
pub mod rules;
pub mod settling;
pub mod sprite;
pub mod state;
pub mod step;
