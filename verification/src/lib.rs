//! Reduces the colors of an image to a small palette and repaints the image with it.
//!
//! The quantizer in [`kmeans`] seeds as many centers as colors are wanted and moves them by
//! Lloyd's algorithm until they rest. All of its arithmetic is exact: a center is a point with
//! rational coordinates ([`center`]), distances are compared by cross multiplication
//! ([`wide`]), and the rounds are proved to end ([`potential`]) at a fixed point ([`laws`]).
//! [`processing`] holds a second quantizer, which cuts the color cube into boxes.
//! [`remap`] samples the pixels of an image and repaints an image with a palette, and
//! [`iter_utils`] selects optima where keys are only partially ordered.

pub mod center;
pub mod iter_utils;
pub mod kmeans;
pub mod laws;
pub mod potential;
pub mod processing;
pub mod remap;
pub mod wide;
