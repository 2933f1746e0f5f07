//! A discrete Hopfield associative memory.
//!
//! The network stores one reference pattern as a fixed point of a recurrent
//! weight matrix (Hebbian outer-product rule with a zero diagonal) and
//! relaxes a randomly initialized state toward it by asynchronous
//! single-neuron threshold updates.
//!
//! All intensities are fixed-point values with denominator 255: the working
//! range [-1, 1] of a pattern or state entry is held as an integer in
//! [-255, 255], and a fully converged spin is exactly +255 or -255. Weights
//! are unnormalized outer products (the stored-pattern count, 1, is the
//! normalization constant); scaling a weight matrix by a positive constant
//! never changes the sign of an activation, so the relaxation dynamics are
//! unaffected by this choice.

pub mod dynamics;
pub mod error;
pub mod network;
mod randomness;
pub mod raster;
