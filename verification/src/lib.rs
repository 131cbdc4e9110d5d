//! A software rasterizer on an in-memory pixel grid, with its behaviour
//! stated in contracts and proved: lines, circles and outlines, region
//! filling, line clipping against a rectangle, and drawing of point clouds
//! with a depth test.
//!
//! Every routine skips, one by one, the pixels that the canvas does not
//! have, so geometry may lie partly or wholly off the canvas.

pub mod canvas;
pub mod circle;
pub mod clip;
pub mod common;
pub mod depth;
pub mod fill;
pub mod line;
pub mod project;
pub mod sweep;
