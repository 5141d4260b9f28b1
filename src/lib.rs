//! Conversion of raster images and animations into character art.
//!
//! Pixel blocks are averaged, their luminance corrected by a tone curve and
//! mapped onto a glyph ramp; animations are converted frame by frame, and
//! character art can be laid out again as glyph cells for rendering back to
//! a bitmap.

pub mod charset;
pub mod config;
pub mod density;
pub mod error;
pub mod escape;
pub mod frames;
pub mod mapper;
pub mod output;
pub mod progress;
pub mod raster;
pub mod render;
pub mod shape;
pub mod text;
pub mod recovery;
