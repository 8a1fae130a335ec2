//! RGB images and a baseline JPEG codec for them.
pub mod color;
pub mod image;
pub mod jpg;
pub mod platform;

pub use color::Color;
pub use image::Image;
