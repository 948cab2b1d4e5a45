//! An isometric block-stacking game rendered through an incremental
//! per-pixel diff: each frame repaints only the pixels that changed
//! since the previous one, never the whole screen.

pub mod block;
pub mod color;
pub mod display;
pub mod game;
pub mod num;
pub mod renderer;
