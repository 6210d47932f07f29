use vstd::prelude::*;

use crate::ids::IdError;
use crate::time::Time;

verus! {

/// Why building the model from input records failed.
#[derive(Clone, Debug, PartialEq, Eq)]
pub enum LoadError {
    /// An identifier was repeated or not found.
    Id(IdError),
    /// A 0/1 flag had another value.
    BadFlag(u8),
    /// A service identifier occurs twice in the calendar.
    DuplicateService(String),
    /// A date that `chrono` rejects.
    BadDate(String),
    /// A calendar exception that is neither 1 (added) nor 2 (removed).
    UnknownExceptionType(u8),
    /// A route identifier occurs twice.
    DuplicateRoute(String),
    /// A route type code that is none of 0 to 7, 11 and 12.
    UnknownRouteType(u8),
    /// A trip direction that is neither 0 nor 1.
    UnknownDirection(usize),
    /// A time of day that is not hours, minutes and seconds.
    BadTime(String),
    /// A stop time arrives after it departs.
    ArrivalAfterDeparture(Time, Time),
    /// A trip without stop times; carries the trip's input identifier.
    NoStopTimes(String),
    /// A ticketing record with a malformed date and time.
    BadDateTime(String),
}

} // verus!
