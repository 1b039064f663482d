//! Map-based navigation for mobile agents on a 2D surface: corridor planning
//! across a navigation mesh, throttled replanning, corridor-following motion
//! with a per-tick distance budget, and local steering (seek, separation,
//! queueing) driven by a spatial index of neighbor positions.
//!
//! Coordinates are fixed-point integers in milli-units (see [`vec2`]); the
//! navigation mesh itself is queried through the `navmesh` crate.

pub mod forces;
pub mod mesh;
pub mod motion;
pub mod nav;
pub mod spatial;
pub mod vec2;
