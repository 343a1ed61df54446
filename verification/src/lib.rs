//! Extraction of a fixed-size color palette from a raster image by
//! clustering its pixels in RGB space with a Manhattan-distance variant
//! of Lloyd's algorithm.

pub mod engine;
pub mod laws;
pub mod pixel;
pub mod pipeline;
pub mod render;
pub mod seed;
pub mod store;
