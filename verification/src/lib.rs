//! A generic linear-algebra kernel: matrices and vectors over a pluggable
//! scalar type, with echelon reduction, determinant, inverse, integer powers,
//! a truncated matrix exponential, Householder QR factorization, and a
//! delimited textual byte codec.

#![verifier::loop_isolation(false)]

pub mod common;
pub mod convert;
pub mod derived;
pub mod echelon;
pub mod frac;
pub mod matrix;
pub mod model;
pub mod qr;
pub mod scalar;
pub mod vector;
