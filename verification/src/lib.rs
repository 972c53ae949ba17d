//! The rules of a small cave-flying game: what is loaded around the ship, what
//! stands in the cave, and what the controls ask for.
//!
//! Positions and angles are floating-point numbers of the program around this
//! library; here they are words, and the contracts speak of the numbers that the
//! words encode.

pub mod cave;
pub mod colliders;
pub mod controls;
pub mod field;
pub mod mesh;
pub mod obstacle;
pub mod particles;
pub mod rng;
pub mod rounding;
pub mod screen;
pub mod ship;
pub mod slots;
pub mod window;
pub mod words;
