//! The verified core of a path tracer: texture storage and pixel addressing,
//! a bounding-volume hierarchy (built with the surface-area heuristic,
//! stored root first, traversed with pruning), and the bookkeeping of the
//! integrator and the row-parallel render driver.
pub mod bvh;
pub mod integrator;
pub mod primitive;
pub mod randomness;
pub mod render;
pub mod texture;
