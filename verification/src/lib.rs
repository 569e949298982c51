//! Combinatorial core of Ewens-Pitman attraction (EPA) partition sampling.
//!
//! The crate holds the integer-valued machinery behind similarity-informed
//! random partitions: item orderings, the incremental partition builder, the
//! canonical form of a label vector, the layout of a batch of draws split
//! over worker lanes, and the bookkeeping of the calibration sweep. Every
//! function carries a contract that Verus proves. Scalar arithmetic on
//! weights stays with the caller; the matrix types are generic in their
//! entries for that reason.

pub mod calibrate;
pub mod canon;
pub mod clust;
pub mod draws;
pub mod engine;
pub mod epa;
pub mod grid;
pub mod host;
pub mod matrix;
pub mod perm;
pub mod rng;
