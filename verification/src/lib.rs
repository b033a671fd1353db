//! The timetable of two meeting rooms for one day: reading and ordering times
//! of day, sorting the slots of a room, merging two rooms into rows, and the
//! requests and answers of the booking service that the slots come from.

pub mod api;
pub mod config;
pub mod schedule;
pub mod slots;
pub mod sort;
pub mod table;
pub mod text;
pub mod time;

pub use api::{Availability, Client};
pub use sort::sort_by_time;
pub use time::{parse_time, time_cmp, time_in_range};
