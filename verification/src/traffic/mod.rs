//! The simulation itself: directions and turns, the lanes' geometry, the
//! cars, the queues they travel in and the state that holds them all.

pub mod car;
pub mod curve;
pub mod direction;
pub mod line;
pub mod path;
pub mod path_collisions;
pub mod queue;
pub mod state;

pub use car::{Car, CarStatus};
pub use direction::{Direction, Going};
pub use line::Line;
pub use path::Path;
pub use state::TrafficState;
