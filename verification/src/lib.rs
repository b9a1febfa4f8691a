//! A spatial acceleration and query engine that works in any dimension.
//!
//! The library builds a bounding-volume hierarchy over a caller's leaves and
//! answers nearest-hit, all-hits, shape-cast and overlap queries over it. It
//! is generic over the bounding-volume type and the hit payload: the caller's
//! exact geometry reaches it as closures, and scalar distances as bit
//! patterns ordered by the IEEE total order. Nearest selection and all-hits
//! ordering go by distance, then leaf index, so the tree answers exactly as
//! the naive scan does ([`laws`]).
pub mod bvh;
pub mod dispatch;
pub mod filter;
pub mod gpu;
pub mod hit;
pub mod laws;
pub mod naive;
pub mod order;
pub mod probe;
pub mod rng;
pub mod stats;
pub mod tlas;
pub mod traverse;
pub mod tree;
