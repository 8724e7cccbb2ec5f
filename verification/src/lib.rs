//! Renders block models to images: models inherit from their parents, faces look up
//! their textures, textures may be animated, and a software rasterizer draws the boxes.
//!
//! Numbers with a fraction are held as bit patterns of single-precision numbers. What
//! is exact about them is computed here; the operations that round are supplied by the
//! caller, and every contract says what follows from what they give.
pub mod animation;
pub mod arith;
pub mod assets;
pub mod calling;
pub mod chain;
pub mod choosing;
pub mod covering;
pub mod framing;
pub mod ieee;
pub mod json;
pub mod mapping;
pub mod mixing;
pub mod model;
pub mod name_map;
pub mod options;
pub mod order;
pub mod pixels;
pub mod playing;
pub mod raster;
pub mod render;
pub mod reals;
pub mod single;
pub mod smoothing;
pub mod text;
pub mod tracing;
pub mod view;
pub mod webp;
