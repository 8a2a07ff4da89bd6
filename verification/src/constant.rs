//! The dimensions of the intersection and of the cars.
//!
//! Lengths are in units of a thousandth of a pixel; speeds are lengths per tick.

use vstd::prelude::*;

verus! {

/// Length units in one pixel.
pub const UNIT: i64 = 1_000;

/// Side of the square window.
pub const WINDOW_SIZE: i64 = 700_000;

/// Width of each of the two crossing roads.
pub const ROAD_WIDTH: i64 = 270_000;

pub const CAR_WIDTH: i64 = 70_000;

pub const CAR_LENGTH: i64 = 60_000;

/// Sideways offset that sets the three lanes of one entry apart: a quarter of
/// what half the road leaves beside a car.
pub const CAR_PADDING: i64 = 16_250;

/// Bumper-to-bumper spacing that the braking rules are built on.
pub const CAR_SAFE_DISTANCE: i64 = 100_000;

pub const MAX_SPEED: i64 = 4_000;

pub const MIN_SPEED: i64 = 2_000;

/// The least speed that the control law scales: a car that stands still pulls
/// away again as if it rolled at this speed.
pub const ROLLING_SPEED: i64 = 1_000;

/// Gain of speed per tick, in per cent.
pub const CAR_ACCELERATION: i64 = 10;

/// Loss of speed per tick, in per cent.
pub const CAR_DECELERATION: i64 = 50;

/// Length of the straight run between the border and the turn.
pub const STRAIGHT_LENGTH: i64 = 107_500;

/// The derived dimensions agree with the ones they are derived from.
pub proof fn lemma_derived_dimensions()
    ensures
        4 * CAR_PADDING == ROAD_WIDTH / 2 - CAR_WIDTH,
        4 * STRAIGHT_LENGTH == WINDOW_SIZE - ROAD_WIDTH,
        ROLLING_SPEED == UNIT,
        0 < ROLLING_SPEED <= MIN_SPEED <= MAX_SPEED,
{
}

} // verus!
