//! A small stochastic path tracer, verified with Verus.
//!
//! All scalar quantities are fixed-point numbers: an `i128` holding the
//! value scaled by one million.  Geometry, shading and the recursive
//! bounce integrator are carried out in this exact integer arithmetic,
//! so every routine has a precise contract.

pub mod fx;
pub mod math;
pub mod trace;
