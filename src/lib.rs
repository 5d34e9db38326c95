//! A scheduler that places fixed appointments, flexible tasks and
//! multi-session projects on a timeline without overlaps.
//!
//! Instants and durations are whole seconds (`i64`); an instant counts
//! seconds since the Unix epoch.

pub mod duration;
pub mod model;
pub mod index;
pub mod outside;
pub mod solver;

pub use duration::parse_duration;
pub use model::{ProjectTimings, Slot, Task};
pub use solver::{monte_carlo_schedule, ScheduleError};
