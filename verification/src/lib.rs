//! Recoloring of theme files: one accent color is replaced by another in
//! text files and in the palettes of indexed PNG images.
//!
//! The library holds the logic, from plain values to plain values: the
//! configuration grammar with its parser and writer, the two recoloring
//! strategies, and the PNG chunk codec. Reading and writing files is left
//! to the caller.
pub mod color;
pub mod config;
pub mod errors;
pub mod png;
mod text;
pub mod textfile;
pub mod transform;

pub use textfile::recolor_textfile;
pub use transform::ColorMap;
pub use transform::ColorTransform;
