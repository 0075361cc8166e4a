//! Escape-time fractal rendering: the decisions of the renderer, verified.
//!
//! The arithmetic on complex numbers is done by the caller in floating point.
//! This library holds everything that is decided on whole numbers: when an
//! orbit is classified and how, which colour an iteration count gets, how the
//! pixels of a picture are put together, and which frames a zoom sequence
//! produces under which file names.

pub mod color;
pub mod escape;
pub mod picture;
pub mod raster;
pub mod sequence;
