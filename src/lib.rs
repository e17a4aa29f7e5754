//! Squarified treemap layout over integer geometry.
//!
//! A weighted tree is first normalized (every sibling group stably sorted by
//! weight, heaviest first), then a viewport is split recursively into nested
//! rectangles whose extents follow the weights. At each step the prefix of
//! siblings whose rectangles would be closest to square on average is cut off
//! across the longer side, and the rest is laid out in what remains.
//!
//! Weights are `u32` and coordinates are whole units of a `u32` grid. Every
//! share of a side is rounded down from cumulative weights, so the cells of a
//! group tile its rectangle exactly; aspect ratios are compared in fixed
//! point (`layout::ASPECT_SCALE`). Siblings of weight zero get no cell, and a
//! group of no weight at all is left empty.
//!
//! `laws` states and proves what holds of every layout: the cells cover the
//! viewport's area, lie within it and never overlap, zero weights leave no
//! trace, and a single leaf takes the whole viewport.

pub mod geometry;
pub mod hue;
pub mod label;
pub mod laws;
pub mod layout;
pub mod tree;

pub use geometry::Rect;
pub use layout::{layout, squarified_treemap, Cell, LayoutError};
pub use tree::normalize;
pub use tree::Tree;
