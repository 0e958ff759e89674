//! Markov Clustering (MCL) over dense square matrices.
//!
//! Matrix entries are fixed-point numbers: a raw `i64` stands for the real
//! value `raw / SCALE`.  Every transformation of the engine (column
//! normalization, matrix-power expansion, elementwise inflation, threshold
//! pruning, the convergence loop, and cluster extraction) is verified against
//! an exact integer-level specification.

pub mod cluster;
pub mod fixed;
pub mod laws;
pub mod matrix;
pub mod mcl;
