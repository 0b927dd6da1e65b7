//! Splitting a long single-track route into distance-bounded pieces.
//!
//! The route is an ordered sequence of waypoints. The splitter walks it once
//! and emits chunks: contiguous subsequences whose accumulated surface
//! distance first exceeds a caller-supplied budget, each chunk after the
//! first opening with a copy of the previous chunk's last waypoint so that
//! no leg of the route is lost at a file boundary.

pub mod distance;
pub mod error;
pub mod naming;
pub mod partition;
pub mod route;
pub mod waypoint;
