//! Fractal block coding of single-channel intensity images.

pub mod affine;
pub mod attractor;
pub mod byte_rect;
pub mod channel;
pub mod encoding;
pub mod error;
pub mod fractal;
pub mod grid;
pub mod image;
pub mod ranking;
pub mod ratio;
pub mod search;
pub mod symmetry;
