//! A reflective surface shaped as a Bezier curve in D-dimensional space.
//!
//! Coordinates are exact fixed-point numbers: every scalar is an integer
//! numerator over a denominator that the caller manages, and every result
//! comes back as an integer numerator together with its denominator.  All
//! geometric claims are therefore exact, with no rounding anywhere.

pub mod binomial;
pub mod curve;
pub mod mirror;
pub mod vecmath;
