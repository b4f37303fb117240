//! Core data structures of a Monte Carlo path tracer: scalars held as
//! IEEE-754 single-precision bit patterns with their exact ordering, closed
//! intervals, axis-aligned bounding boxes, object lists, a bounding volume
//! hierarchy and the per-bounce decisions of the ray-color estimator.
pub mod scalar;
pub mod interval;
pub mod aabb;
pub mod bvh;
pub mod hittable;
pub mod integrator;
pub mod quad;
pub mod sphere;
