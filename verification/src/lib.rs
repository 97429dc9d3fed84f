//! A pen-plotter line drawing generator: a hexagonal tiling is covered by
//! randomized walks, the walks are smoothed into denser polylines, and the
//! result is emitted as a deduplicated stream of pen-up/pen-down
//! instructions.
//!
//! All coordinates are fixed-point integers with three implied decimal
//! places (one unit of geometry is 1000 coordinate steps), so the geometry,
//! the traversal and the deduplication are exact integer computations.

pub mod geometry;
pub mod grid;
pub mod instructions;
pub mod randsrc;
pub mod seq_util;
pub mod signature;
pub mod smoothing;
pub mod walker;
