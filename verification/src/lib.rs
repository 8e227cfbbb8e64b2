//! Procedural raster painting by outward growth from seed pixels.
//!
//! A canvas made of one or more rectangular layers is painted one pixel at a
//! time: each step takes a pixel from the growth frontier, estimates a target
//! color from its painted neighbors, and consumes the closest still-available
//! color from the active stage's palette.

pub mod color;
pub mod common;
pub mod errors;
pub mod growth_image;
pub mod growth_image_builder;
pub mod kd_tree;
pub mod point_tracker;
pub mod rng;
pub mod topology;

pub use color::RGB;
pub use errors::Error;
pub use growth_image_builder::GrowthImageBuilder;
pub use topology::PixelLoc;
