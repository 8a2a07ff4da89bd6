//! A traffic simulation of one four-way intersection: cars come in from four
//! sides, go straight on or turn, follow the lane that leads them there, keep
//! their distance from the car ahead and give way to the cars that are inside
//! the intersection on a lane that crosses their own.
//!
//! Everything is computed in whole numbers. Lengths are counted in
//! [`constant::UNIT`]s of a thousandth of a pixel and speeds in such units per
//! tick; a speed that is raised or lowered by a rate is rounded down; distances
//! are compared by their squares. Times are whole milliseconds, handed in by
//! whoever drives the simulation, and so are the numbers of the cars: the state
//! counts them itself.

pub mod constant;
pub mod control;
pub mod geometry;
pub mod statistics;
pub mod traffic;

pub use geometry::Point;
pub use statistics::Statistics;
pub use traffic::{Car, CarStatus, Direction, Going, Line, Path, TrafficState};
