//! Deterministic block alignment of two byte strings by minimum description length.
//!
//! The library searches for a family of non-overlapping exact diagonal matches
//! ("blocks") between a source and a target that minimises an integer energy:
//! the cost of describing the blocks plus a fixed charge for every byte that
//! no block covers.

pub mod types;

pub mod energy;
pub mod keys;
pub mod descent;
pub mod v1;
pub mod diagnostics;
pub mod coverage_bits;
pub mod v2;
pub mod mapping;
pub mod text;
pub mod segments;
pub mod clusters;
pub mod cli;
pub mod report;
pub mod pipeline;
pub mod agreement;
