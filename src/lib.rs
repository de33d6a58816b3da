//! Packs equally sized RGBA rasters into one square sprite sheet.
//!
//! The packer is verified: its result is stated pixel by pixel over the
//! input rasters, and its failures are stated exactly.

pub mod grid;
pub mod loader;
pub mod order;
pub mod pack;
pub mod raster;
