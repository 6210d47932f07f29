//! Joins a transit agency's schedule (GTFS), vehicle positions and ticketing records into a
//! daily model of which vehicle served which trip and who boarded where.
//!
//! Times are whole milliseconds since midnight of the modelled day; dates are day numbers
//! counted the way `chrono` counts them (day 1 is January 1 of year 1).

pub mod avl;
pub mod boarding;
pub mod assembly;
pub mod calendar;
pub mod dates;
pub mod error;
pub mod feed;
pub mod format;
pub mod gtfs;
pub mod ids;
pub mod model;
pub mod multiday;
pub mod orig;
pub mod paths;
pub mod routes;
pub mod segment;
pub mod sort;
pub mod supply_demand;
pub mod stop_times;
pub mod stops;
pub mod text;
pub mod ticketing;
pub mod time;
pub mod timetable;
pub mod to_trips;
pub mod trips;
pub mod variants;
pub mod vehicle_to_routes;
