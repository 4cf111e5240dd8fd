//! Frame-by-frame rasterisation of keyframed image-layer animations.
//!
//! Authored numbers (positions, percentages, degrees, frame times) are held
//! in thousandths, as integers; see [`track::UNIT`].
pub mod error;
pub mod track;
pub mod transform;
pub mod raster;
pub mod render;
