//! The verified core of a small 2D game framework and its games: a
//! generational entity storage, the bookkeeping of the sound system, sprite
//! map lookup, and the removal of platforms broken by a bounce.

pub mod geometry;
pub mod platforms;
pub mod sound;
pub mod sprite;
pub mod texture;
pub mod world;
