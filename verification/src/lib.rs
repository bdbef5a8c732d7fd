//! Surface-aware simplification and polyline encoding of GPS-like tracks.
//!
//! A track is an ordered sequence of sample points. The library partitions a
//! track into maximal runs that share a surface group, reduces each run with an
//! iterative Ramer-Douglas-Peucker pass, and can re-encode the surviving
//! points as a compact delta/zigzag/variable-length polyline string.
//!
//! Coordinates, cumulative distances and elevations are fixed-point integers:
//! the caller picks a unit (micro-degrees, decimeters, ...) and converts once
//! at the boundary. All geometric comparisons are exact in that unit.

pub mod geometry;
pub mod pipeline;
pub mod polyline;
pub mod simplify;
pub mod surface;
