//! An in-memory approximate similarity cache for fixed-dimension integer
//! vectors.
//!
//! Vectors are stored under unique identifiers in a two-level hierarchy of
//! partitions and shards, routed by centroid proximity once centroids have
//! been aggregated, with quantization-based near-duplicate rejection and a
//! pluggable distance metric.  Components are fixed-point integers (`i32` at
//! the public boundary), so every distance, centroid, and quantization value
//! is computed exactly and carries a proved contract.

pub mod arith;
pub mod cache;
pub mod errors;
pub mod search;
pub mod utility;
pub mod vector;
