//! Parsing of binary PPM (P6) images held in memory, without copying.
pub mod header;
pub mod image;
mod text;

pub use image::{PNMError, PNMImage};
