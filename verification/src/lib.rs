//! Verified core of a Polyanya navigation-mesh library.
//!
//! The floating-point geometry (point location, line intersections, the any-angle search itself)
//! lives around this crate; what is here is the integer and decision logic that it relies on:
//! the outcome classifications of navigation requests, the island (connected component)
//! labelling of a mesh, the index structure of a mesh built from a triangulation, the separation
//! of a multi-polygon's boundary into strings, the queue of pending shape operations, and the
//! routing decisions of path requests.

pub mod approx;
pub mod bounds;
pub mod queue;
pub mod status;
pub mod topology;
pub mod triangulation;
