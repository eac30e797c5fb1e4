//! Rectangles over integer coordinates and a quadtree for point queries over them.

pub mod quadtree;
mod rect;

pub use rect::{clamp_int, fits_i32, half, max_int, min_int, Matrix3, OptionRect, Rect, Vec2};
