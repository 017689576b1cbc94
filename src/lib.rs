//! Core of a Monte-Carlo path tracer: ordered keys for float coordinates,
//! axis-aligned bounding boxes over those keys, the bounding-volume
//! hierarchy and the nearest-hit queries that run over it.
pub mod aabb;
pub mod bvh;
pub mod hitable;
pub mod key;
